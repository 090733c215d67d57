//! The kitty graphics protocol.

use base64::{engine::general_purpose::STANDARD, Engine as _};
use pg_bager::config::Config;
use pg_bager::image_id::ImageIds;
use pg_bager::kitty::{
    kitty, kitty_gif, kitty_gif_frames, kitty_png, kitty_rgba, write_kitty_size, KittyAction,
    KittyRgbaMetadata,
};
use pg_bager::raster::DecodeError;
use pg_bager::scan::PNG_MAGIC;

fn config(max_pixels_w: Option<u32>, max_pixels_h: Option<u32>) -> Config {
    Config {
        max_row_bytes: 1024,
        max_pixels_w,
        max_pixels_h,
        disable: false,
        fallback: None,
    }
}

fn text(bytes: Vec<u8>) -> String {
    String::from_utf8(bytes).unwrap()
}

/// A GIF of one red pixel in each frame.
fn red_gif(frames: usize) -> Vec<u8> {
    let mut bytes = b"GIF89a\x01\x00\x01\x00\x00\x00\x00".to_vec();
    for _ in 0..frames {
        bytes.extend_from_slice(&[0x2c, 0, 0, 0, 0, 1, 0, 1, 0, 0x80]);
        bytes.extend_from_slice(&[255, 0, 0, 0, 0, 0]);
        bytes.extend_from_slice(&[2, 2, 0x44, 0x01, 0]);
    }
    bytes.push(0x3b);
    bytes
}

#[test]
fn size_keys_follow_the_settings() {
    for (config, expected) in [
        (config(None, None), ""),
        (config(Some(7), None), ",w=7"),
        (config(None, Some(8)), ",h=8"),
        (config(Some(70), Some(80)), ",w=70,h=80"),
    ] {
        let mut out = Vec::new();
        write_kitty_size(&mut out, &config);
        assert_eq!(text(out), expected);
    }
}

#[test]
fn a_small_png_is_one_packet() {
    let mut out = b">".to_vec();
    kitty_png(&mut out, &PNG_MAGIC, &config(Some(7), None));
    assert_eq!(text(out), ">\x1b_Gf=100,a=T,w=7;iVBORw0KGgo=\x1b\\");
}

#[test]
fn packets_of_a_png_carry_its_bytes() {
    for len in [3072, 3073, 6144, 6145, 10_000] {
        let mut png = PNG_MAGIC.to_vec();
        png.extend((0..len - png.len()).map(|i| (i * 7) as u8));
        let mut out = Vec::new();
        kitty_png(&mut out, &png, &config(None, Some(9)));
        let out = text(out);
        let packets: Vec<&str> = out
            .split_terminator("\x1b\\")
            .map(|packet| packet.strip_prefix("\x1b_G").unwrap())
            .collect();
        let mut payload = String::new();
        let count = packets.len();
        for (index, packet) in packets.iter().enumerate() {
            let (keys, chunk) = packet.split_once(';').unwrap();
            let expected = if count == 1 {
                "f=100,a=T,h=9"
            } else if index == 0 {
                "f=100,a=T,m=1,h=9"
            } else if index == count - 1 {
                "m=0"
            } else {
                "m=1"
            };
            assert_eq!(keys, expected);
            assert!(!chunk.is_empty() && chunk.len() <= 4096);
            payload.push_str(chunk);
        }
        assert_eq!(payload, STANDARD.encode(&png));
        assert_eq!(STANDARD.decode(payload).unwrap(), png);
    }
}

#[test]
fn pixels_go_out_in_packets() {
    let config = config(None, None);
    let rgba: Vec<u8> = (0..7000).map(|i| i as u8).collect();
    let payload = STANDARD.encode(&rgba);
    let mut out = Vec::new();
    kitty_rgba(
        &mut out,
        &rgba,
        KittyRgbaMetadata {
            action: KittyAction::AddFrame,
            image_id: Some(12),
            width: 50,
            height: 35,
            frame_delay_ms: Some(-3),
            config: &config,
        },
    );
    assert_eq!(
        text(out),
        format!(
            "\x1b_Ga=f,f=32,s=50,v=35,i=12,z=-3,m=1;{}\x1b\\\x1b_Ga=f,m=1;{}\x1b\\\x1b_Ga=f,m=0;{}\x1b\\",
            &payload[..4096],
            &payload[4096..8192],
            &payload[8192..]
        )
    );
    let mut out = Vec::new();
    kitty_rgba(
        &mut out,
        &[1, 2, 3, 4],
        KittyRgbaMetadata {
            action: KittyAction::Show,
            image_id: None,
            width: 1,
            height: 1,
            frame_delay_ms: None,
            config: &config,
        },
    );
    assert_eq!(text(out), "\x1b_Ga=T,f=32,s=1,v=1;AQIDBA==\x1b\\");
}

#[test]
fn continued_packets_of_a_new_image_have_no_action() {
    let config = config(None, None);
    let rgba = vec![0; 4 * 1000];
    let mut out = Vec::new();
    kitty_rgba(
        &mut out,
        &rgba,
        KittyRgbaMetadata {
            action: KittyAction::Show,
            image_id: None,
            width: 1000,
            height: 1,
            frame_delay_ms: None,
            config: &config,
        },
    );
    let out = text(out);
    assert!(out.starts_with("\x1b_Ga=T,f=32,s=1000,v=1,m=1;"));
    assert!(out.contains("\x1b\\\x1b_Gm=0;"));
}

#[test]
fn a_still_gif_is_not_started() {
    let mut out = Vec::new();
    kitty_gif_frames(&mut out, &red_gif(1), &config(None, None), 99).unwrap();
    assert_eq!(
        text(out),
        "\x1b_Ga=T,f=32,s=1,v=1,i=99;/wAA/w==\x1b\\\x1b_Ga=a,i=99,r=1,z=40\x1b\\"
    );
}

#[test]
fn an_animation_is_started() {
    let mut out = Vec::new();
    kitty_gif_frames(&mut out, &red_gif(2), &config(Some(5), None), 99).unwrap();
    assert_eq!(
        text(out),
        "\x1b_Ga=T,f=32,s=1,v=1,i=99,w=5;/wAA/w==\x1b\\\x1b_Ga=a,i=99,r=1,z=40\x1b\\\
         \x1b_Ga=f,f=32,s=1,v=1,i=99,z=40,w=5;/wAA/w==\x1b\\\x1b_Ga=a,i=99,s=3,v=1\x1b\\"
    );
}

#[test]
fn frames_report_what_is_wrong() {
    let mut out = Vec::new();
    let gif = red_gif(257);
    assert_eq!(
        kitty_gif_frames(&mut out, &gif, &config(None, None), 99),
        Err(DecodeError::TooManyFrames)
    );
    assert_eq!(
        kitty_gif_frames(&mut out, b"GIF89a", &config(None, None), 99),
        Err(DecodeError::Malformed)
    );
}

#[test]
fn nothing_is_written_for_what_cannot_be_shown() {
    let config = config(None, None);
    let mut ids = ImageIds::new(1);
    let empty = b"GIF89a\x01\x00\x01\x00\x00\x00\x00\x21\xfe\x01a\x00\x3b";
    for bytes in [&empty[..], &red_gif(2)[..20], b"GIF89a"] {
        let mut out = Vec::new();
        kitty_gif(&mut out, bytes, &config, &mut ids).unwrap();
        assert!(out.is_empty());
    }
    let mut out = Vec::new();
    kitty(&mut out, b"text", &config, &mut ids).unwrap();
    assert!(out.is_empty());
}

#[test]
fn frames_before_a_broken_one_are_written() {
    let start = "\x1b_Ga=a,i=99,s=3,v=1\x1b\\";
    let config = config(None, None);
    let framed = |frames| {
        let mut out = Vec::new();
        kitty_gif_frames(&mut out, &red_gif(frames), &config, 99).unwrap();
        text(out).strip_suffix(start).unwrap().to_string()
    };
    let mut out = b">".to_vec();
    assert!(kitty_gif_frames(&mut out, &red_gif(3)[..60], &config, 99).is_err());
    assert_eq!(text(out), format!(">{}", framed(2)));
    let mut out = b">".to_vec();
    assert!(kitty_gif_frames(&mut out, &red_gif(257), &config, 99).is_err());
    assert_eq!(text(out), format!(">{}", framed(256)));
    let mut out = b">".to_vec();
    assert!(kitty_gif_frames(&mut out, b"GIF89a", &config, 99).is_err());
    assert_eq!(text(out), ">");
}
