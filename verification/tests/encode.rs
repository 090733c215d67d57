//! One image in each protocol.

use image::ImageEncoder;
use pg_bager::config::Config;
use pg_bager::encode;
use pg_bager::gif::KITTY_GIF_MAX_FRAMES;
use pg_bager::image_id::ImageIds;
use pg_bager::raster::MAX_SCALED_SIDE;
use pg_bager::scan::{GIF89A_MAGIC, PNG_MAGIC};
use pg_bager::term::Protocol;

fn config() -> Config {
    Config {
        max_row_bytes: 1024,
        max_pixels_w: None,
        max_pixels_h: None,
        disable: false,
        fallback: None,
    }
}

fn ids() -> ImageIds {
    ImageIds::new(4711)
}

fn animated_gif() -> Vec<u8> {
    animated_gif_frames(2)
}

fn png() -> Vec<u8> {
    let mut bytes = Vec::new();
    let encoder = image::codecs::png::PngEncoder::new(&mut bytes);
    encoder
        .write_image(
            &[255, 0, 0, 255, 0, 0, 255, 255],
            2,
            1,
            image::ExtendedColorType::Rgba8,
        )
        .unwrap();
    bytes
}

fn red_png(width: u32) -> Vec<u8> {
    let mut bytes = Vec::new();
    let pixels = [255, 0, 0, 255].repeat(width as usize);
    let encoder = image::codecs::png::PngEncoder::new(&mut bytes);
    encoder
        .write_image(&pixels, width, 1, image::ExtendedColorType::Rgba8)
        .unwrap();
    bytes
}

fn animated_gif_frames(frame_count: usize) -> Vec<u8> {
    let mut bytes = Vec::new();
    {
        let mut encoder = image::codecs::gif::GifEncoder::new(&mut bytes);
        encoder
            .set_repeat(image::codecs::gif::Repeat::Infinite)
            .unwrap();

        for index in 0..frame_count {
            let color = if index % 2 == 0 {
                image::Rgba([255, 0, 0, 255])
            } else {
                image::Rgba([0, 0, 255, 255])
            };
            let frame = image::Frame::from_parts(
                image::RgbaImage::from_pixel(1, 1, color),
                0,
                0,
                image::Delay::from_numer_denom_ms(10 * (index as u32 + 1), 1),
            );
            encoder.encode_frame(frame).unwrap();
        }
    }
    bytes
}

fn first_kitty_image_id(output: &str) -> u32 {
    let start = output.find(",i=").unwrap() + 3;
    let end = output[start..]
        .find(|byte: char| !byte.is_ascii_digit())
        .map_or(output.len(), |offset| start + offset);
    output[start..end].parse().unwrap()
}

#[test]
fn kitty_single_chunk_omits_more_flag() {
    let mut out = Vec::new();
    encode::write(
        &mut out,
        Protocol::Kitty,
        "orig",
        &PNG_MAGIC,
        &config(),
        &mut ids(),
    )
    .unwrap();
    let text = String::from_utf8(out).unwrap();
    assert!(text.starts_with("\x1b_Gf=100,a=T;"));
    assert!(!text.contains("m=1"));
    assert!(text.ends_with("\x1b\\"));
}

#[test]
fn kitty_multi_chunk_terminates_with_m_zero() {
    let mut png = PNG_MAGIC.to_vec();
    png.resize(5000, 1);
    let mut out = Vec::new();
    encode::write(&mut out, Protocol::Kitty, "orig", &png, &config(), &mut ids()).unwrap();
    let text = String::from_utf8(out).unwrap();
    assert!(text.contains("f=100,a=T,m=1"));
    assert!(text.contains("\x1b_Gm=0;"));
}

#[test]
fn kitty_writes_gif_animation_escape() {
    let gif = animated_gif();
    let mut out = Vec::new();
    encode::write(&mut out, Protocol::Kitty, "orig", &gif, &config(), &mut ids()).unwrap();
    let text = String::from_utf8(out).unwrap();
    assert!(text.contains("\x1b_Ga=T,f=32,s=1,v=1,i="));
    assert!(text.contains("\x1b_Ga=a,i="));
    assert!(text.contains(",r=1,z=10\x1b\\"));
    assert!(text.contains("\x1b_Ga=f,f=32,s=1,v=1,i="));
    assert!(text.contains(",z=20;"));
    assert!(text.contains(",s=3,v=1\x1b\\"));
}

#[test]
fn kitty_gif_ids_do_not_restart_at_one() {
    let gif = animated_gif();
    let mut ids = ids();
    let mut first = Vec::new();
    let mut second = Vec::new();
    encode::write(&mut first, Protocol::Kitty, "orig", &gif, &config(), &mut ids).unwrap();
    encode::write(&mut second, Protocol::Kitty, "orig", &gif, &config(), &mut ids).unwrap();

    let first_id = first_kitty_image_id(&String::from_utf8(first).unwrap());
    let second_id = first_kitty_image_id(&String::from_utf8(second).unwrap());
    assert_ne!(first_id, 1);
    assert_ne!(second_id, 1);
    assert_ne!(first_id, second_id);
}

#[test]
fn kitty_gif_over_frame_limit_writes_original() {
    let gif = animated_gif_frames(KITTY_GIF_MAX_FRAMES + 1);
    let mut out = Vec::new();
    encode::write(&mut out, Protocol::Kitty, "orig", &gif, &config(), &mut ids()).unwrap();
    assert_eq!(out, b"orig");
}

#[test]
fn kitty_malformed_gif_writes_original() {
    let mut out = Vec::new();
    encode::write(
        &mut out,
        Protocol::Kitty,
        "orig",
        &GIF89A_MAGIC,
        &config(),
        &mut ids(),
    )
    .unwrap();
    assert_eq!(out, b"orig");
}

#[test]
fn iterm2_writes_gif_inline_file_escape() {
    let mut out = Vec::new();
    encode::write(
        &mut out,
        Protocol::ITerm2,
        "orig",
        &GIF89A_MAGIC,
        &config(),
        &mut ids(),
    )
    .unwrap();
    let text = String::from_utf8(out).unwrap();
    assert!(text.starts_with("\x1b]1337;File=inline=1;size=6;preserveAspectRatio=1:"));
    assert!(text.ends_with('\x07'));
}

#[test]
fn iterm2_writes_inline_file_escape() {
    let mut out = Vec::new();
    encode::write(
        &mut out,
        Protocol::ITerm2,
        "orig",
        &PNG_MAGIC,
        &config(),
        &mut ids(),
    )
    .unwrap();
    let text = String::from_utf8(out).unwrap();
    assert!(text.starts_with("\x1b]1337;File=inline=1;size=8;preserveAspectRatio=1:"));
    assert!(text.ends_with('\x07'));
}

#[test]
fn sixel_writes_png_escape() {
    let mut out = Vec::new();
    encode::write(&mut out, Protocol::Sixel, "orig", &png(), &config(), &mut ids()).unwrap();
    let text = String::from_utf8(out).unwrap();
    assert!(text.starts_with("\x1bPq\"1;1;2;1"));
    assert!(text.contains("#224;2;100;0;0"));
    assert!(text.contains("#3;2;0;0;100"));
    assert!(text.ends_with("\x1b\\"));
}

#[test]
fn sixel_malformed_image_writes_original() {
    let mut out = Vec::new();
    encode::write(
        &mut out,
        Protocol::Sixel,
        "orig",
        &PNG_MAGIC,
        &config(),
        &mut ids(),
    )
    .unwrap();
    assert_eq!(out, b"orig");
}

#[test]
fn sixel_uses_repeat_introducer_for_long_runs() {
    let mut out = Vec::new();
    encode::write(&mut out, Protocol::Sixel, "orig", &red_png(4), &config(), &mut ids()).unwrap();
    let text = String::from_utf8(out).unwrap();
    assert!(text.contains("#224!4@"));
    assert!(!text.contains("#224!4@@@@"));
}

#[test]
fn none_writes_original() {
    let mut out = Vec::new();
    encode::write(
        &mut out,
        Protocol::Plain,
        "orig",
        &PNG_MAGIC,
        &config(),
        &mut ids(),
    )
    .unwrap();
    assert_eq!(out, b"orig");
}

fn written(protocol: Protocol, original: &str, bytes: &[u8], config: &Config) -> String {
    let mut out = b">".to_vec();
    encode::write(&mut out, protocol, original, bytes, config, &mut ids()).unwrap();
    String::from_utf8(out).unwrap()
}

#[test]
fn what_is_no_image_stays_as_it_was() {
    for protocol in [
        Protocol::Kitty,
        Protocol::ITerm2,
        Protocol::Sixel,
        Protocol::Plain,
    ] {
        assert_eq!(written(protocol, "text", b"bytes", &config()), ">text");
        assert_eq!(written(protocol, "", b"", &config()), ">");
    }
}

#[test]
fn plain_terminals_get_the_original_of_any_image() {
    assert_eq!(written(Protocol::Plain, "text", &png(), &config()), ">text");
    assert_eq!(
        written(Protocol::Plain, "text", &animated_gif(), &config()),
        ">text"
    );
}

#[test]
fn iterm2_gets_the_file_and_its_size() {
    let sized = Config {
        max_pixels_w: Some(12),
        max_pixels_h: Some(34),
        ..config()
    };
    assert_eq!(
        written(Protocol::ITerm2, "text", b"GIF87a\x00", &sized),
        ">\x1b]1337;File=inline=1;size=7;width=12px;height=34px;preserveAspectRatio=1:R0lGODdhAA==\x07"
    );
}

#[test]
fn the_same_image_is_written_alike() {
    for protocol in [Protocol::Kitty, Protocol::ITerm2, Protocol::Sixel] {
        assert_eq!(
            written(protocol, "text", &png(), &config()),
            written(protocol, "text", &png(), &config())
        );
    }
}

#[test]
fn sixel_shows_the_first_frame_of_a_gif() {
    assert_eq!(
        written(Protocol::Sixel, "text", &animated_gif(), &config()),
        ">\x1bPq\"1;1;1;1#224;2;100;0;0#224@\x1b\\"
    );
}

#[test]
fn sixel_scales_to_the_limits() {
    let narrow = Config {
        max_pixels_w: Some(2),
        ..config()
    };
    assert!(written(Protocol::Sixel, "text", &red_png(8), &narrow).starts_with(">\x1bPq\"1;1;2;1"));
}

#[test]
fn an_image_that_stays_too_long_when_scaled_is_printed() {
    let limited = Config {
        max_pixels_w: Some(MAX_SCALED_SIDE + 1),
        ..config()
    };
    let file = red_png(MAX_SCALED_SIDE + 2);
    assert_eq!(written(Protocol::Sixel, "text", &file, &limited), ">text");
}
