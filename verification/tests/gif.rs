//! The frames of GIF files.

use pg_bager::config::Config;
use pg_bager::gif::{
    first_gif_frame, frame_delay_ms, gif_animation_stats, GifFrames, DEFAULT_GIF_FRAME_DELAY_MS,
    KITTY_GIF_MAX_FRAMES,
};
use pg_bager::raster::DecodeError;

fn config() -> Config {
    Config {
        max_row_bytes: 1024,
        max_pixels_w: None,
        max_pixels_h: None,
        disable: false,
        fallback: None,
    }
}

/// A GIF of a given size with frames of one red pixel each.
fn gif(width: u16, height: u16, frames: usize) -> Vec<u8> {
    let mut bytes = b"GIF89a".to_vec();
    bytes.extend_from_slice(&width.to_le_bytes());
    bytes.extend_from_slice(&height.to_le_bytes());
    bytes.extend_from_slice(&[0, 0, 0]);
    for _ in 0..frames {
        bytes.extend_from_slice(&[0x2c, 0, 0, 0, 0, 1, 0, 1, 0, 0x80]);
        bytes.extend_from_slice(&[255, 0, 0, 0, 0, 0]);
        bytes.extend_from_slice(&[2, 2, 0x44, 0x01, 0]);
    }
    bytes.push(0x3b);
    bytes
}

#[test]
fn rounds_delays_to_milliseconds() {
    assert_eq!(frame_delay_ms(10, 1), 10);
    assert_eq!(frame_delay_ms(15, 2), 8);
    assert_eq!(frame_delay_ms(14, 3), 5);
    assert_eq!(frame_delay_ms(13, 3), 4);
    assert_eq!(frame_delay_ms(i32::MAX as u32, 1), i32::MAX);
}

#[test]
fn delays_are_always_positive() {
    assert_eq!(DEFAULT_GIF_FRAME_DELAY_MS, 40);
    assert_eq!(frame_delay_ms(0, 1), 40);
    assert_eq!(frame_delay_ms(10, 0), 40);
    assert_eq!(frame_delay_ms(1, 3), 40);
    assert_eq!(frame_delay_ms(i32::MAX as u32 + 1, 1), 40);
    assert_eq!(frame_delay_ms(u32::MAX, 1), 40);
}

#[test]
fn reads_frames_one_by_one() {
    let bytes = gif(2, 1, 2);
    let config = config();
    let mut frames = GifFrames::open(&bytes, &config).unwrap();
    for _ in 0..2 {
        let frame = frames.next_frame().unwrap().unwrap();
        assert_eq!((frame.width, frame.height, frame.delay_ms), (2, 1, 40));
        assert_eq!(frame.rgba, [255, 0, 0, 255, 0, 0, 0, 0]);
    }
    assert!(frames.next_frame().unwrap().is_none());
    assert_eq!(gif_animation_stats(&bytes, &config).unwrap().frame_count, 2);
}

#[test]
fn first_frame_has_the_size_of_the_image() {
    let image = first_gif_frame(&gif(3, 2, 1), &config()).ok().unwrap();
    assert_eq!((image.width, image.height), (3, 2));
    assert_eq!(image.rgba.len(), 24);
    assert_eq!(image.rgba[..8], [255, 0, 0, 255, 0, 0, 0, 0]);
}

#[test]
fn a_gif_may_be_empty() {
    let bytes = b"GIF89a\x01\x00\x01\x00\x00\x00\x00\x21\xfe\x01a\x00\x3b";
    assert_eq!(gif_animation_stats(bytes, &config()).unwrap().frame_count, 0);
    assert_eq!(
        first_gif_frame(bytes, &config()).err(),
        Some(DecodeError::NoFrames)
    );
}

#[test]
fn broken_gifs_are_malformed() {
    assert_eq!(
        gif_animation_stats(&gif(1, 1, 0), &config()),
        Err(DecodeError::Malformed)
    );
    let bytes = gif(1, 1, 2);
    for len in [0, 6, 12, 20, 40] {
        assert_eq!(
            gif_animation_stats(&bytes[..len], &config()),
            Err(DecodeError::Malformed)
        );
    }
    assert_eq!(
        first_gif_frame(&bytes[..20], &config()).err(),
        Some(DecodeError::Malformed)
    );
}

#[test]
fn counts_frames_up_to_the_limit() {
    let most = gif(1, 1, KITTY_GIF_MAX_FRAMES);
    assert_eq!(
        gif_animation_stats(&most, &config()).unwrap().frame_count,
        KITTY_GIF_MAX_FRAMES
    );
    assert_eq!(
        gif_animation_stats(&gif(1, 1, KITTY_GIF_MAX_FRAMES + 1), &config()),
        Err(DecodeError::TooManyFrames)
    );
}

#[test]
fn frames_share_a_budget() {
    let bytes = gif(2000, 2000, 9);
    assert_eq!(
        gif_animation_stats(&bytes, &config()),
        Err(DecodeError::AnimationTooLarge)
    );
}

#[test]
fn wide_gifs_need_a_wide_limit() {
    let bytes = gif(9000, 1, 1);
    assert_eq!(
        gif_animation_stats(&bytes, &config()),
        Err(DecodeError::Malformed)
    );
    let wide = Config {
        max_pixels_w: Some(9000),
        ..config()
    };
    assert_eq!(gif_animation_stats(&bytes, &wide).unwrap().frame_count, 1);
    let narrow = Config {
        max_pixels_w: Some(10),
        ..config()
    };
    assert_eq!(gif_animation_stats(&gif(8192, 1, 1), &narrow).unwrap().frame_count, 1);
}

#[test]
fn errors_are_told_in_words() {
    assert_eq!(DecodeError::Unsupported.message(), "unsupported image format");
    assert_eq!(DecodeError::Malformed.message(), "invalid image");
    assert_eq!(DecodeError::NoFrames.message(), "gif has no frames");
    assert_eq!(DecodeError::TooManyFrames.message(), "gif has too many frames");
    assert_eq!(DecodeError::AnimationTooLarge.message(), "gif animation is too large");
    assert_eq!(DecodeError::ScaledTooLarge.message(), "scaled image is too large");
}
