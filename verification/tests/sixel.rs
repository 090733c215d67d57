//! Sixel graphics.

use image::ImageEncoder;
use pg_bager::config::Config;
use pg_bager::raster::{DecodeError, Pixmap, MAX_SCALED_SIDE};
use pg_bager::sixel::{
    palette_color, palette_index, percent, rgba_image, sixel, sixel_bits_for_color, sixel_pixels,
    write_sixel_run,
};

const RED: [u8; 4] = [255, 0, 0, 255];
const BLUE: [u8; 4] = [0, 0, 255, 255];
const CLEAR: [u8; 4] = [255, 0, 0, 127];

fn config() -> Config {
    Config {
        max_row_bytes: 1024,
        max_pixels_w: None,
        max_pixels_h: None,
        disable: false,
        fallback: None,
    }
}

fn pixmap(width: u32, height: u32, pixels: &[[u8; 4]]) -> Pixmap {
    assert_eq!(pixels.len() as u32, width * height);
    Pixmap {
        width,
        height,
        rgba: pixels.concat(),
    }
}

fn png(width: u32, height: u32, pixels: &[[u8; 4]]) -> Vec<u8> {
    let mut bytes = Vec::new();
    image::codecs::png::PngEncoder::new(&mut bytes)
        .write_image(
            &pixels.concat(),
            width,
            height,
            image::ExtendedColorType::Rgba8,
        )
        .unwrap();
    bytes
}

fn drawn(image: &Pixmap) -> String {
    let mut out = Vec::new();
    sixel_pixels(&mut out, image);
    String::from_utf8(out).unwrap()
}

#[test]
fn draws_each_color_of_a_band() {
    assert_eq!(
        drawn(&pixmap(2, 1, &[RED, BLUE])),
        "\x1bPq\"1;1;2;1#3;2;0;0;100#224;2;100;0;0#3?@$#224@?\x1b\\"
    );
}

#[test]
fn stacks_pixels_and_bands() {
    let mut pixels = vec![RED; 8];
    pixels[1] = CLEAR;
    assert_eq!(
        drawn(&pixmap(1, 8, &pixels)),
        "\x1bPq\"1;1;1;8#224;2;100;0;0#224|-#224B\x1b\\"
    );
}

#[test]
fn clear_pixels_are_not_drawn() {
    assert_eq!(drawn(&pixmap(1, 7, &[CLEAR; 7])), "\x1bPq\"1;1;1;7-\x1b\\");
    let almost = [255, 0, 0, 128];
    assert!(drawn(&pixmap(1, 1, &[almost])).contains("#224@"));
}

#[test]
fn an_image_without_pixels_is_nothing() {
    assert_eq!(drawn(&pixmap(0, 3, &[])), "");
    assert_eq!(drawn(&pixmap(3, 0, &[])), "");
}

#[test]
fn long_runs_are_counted() {
    for (run, expected) in [(0, ""), (1, "B"), (3, "BBB"), (4, "!4B"), (120, "!120B")] {
        let mut out = Vec::new();
        write_sixel_run(&mut out, run, b'B');
        assert_eq!(String::from_utf8(out).unwrap(), expected);
    }
}

/// What a terminal reads of sixels with repetitions.
fn read_back(text: &str) -> Vec<u8> {
    let mut sixels = Vec::new();
    let mut count = None;
    for byte in text.bytes() {
        match byte {
            b'!' => count = Some(0),
            b'0'..=b'9' => count = count.map(|n: usize| 10 * n + (byte - b'0') as usize),
            _ => sixels.extend(vec![byte; count.take().unwrap_or(1)]),
        }
    }
    sixels
}

#[test]
fn strips_are_read_back() {
    let mut pixels = vec![RED; 5];
    pixels.extend([CLEAR, RED, RED, CLEAR, CLEAR, CLEAR, CLEAR, RED]);
    let image = pixmap(13, 1, &pixels);
    let text = drawn(&image);
    let start = text.rfind("#224").unwrap() + 4;
    let strip = &text[start..text.len() - 2];
    assert_eq!(strip, "!5@?@@!4?@");
    let expected: Vec<u8> = (0..13)
        .map(|x| 63 + sixel_bits_for_color(&image, x, 0, 224))
        .collect();
    assert_eq!(read_back(strip), expected);
}

#[test]
fn bits_stand_for_pixels() {
    let mut pixels = vec![CLEAR; 9];
    pixels[0] = RED;
    pixels[2] = RED;
    pixels[5] = RED;
    pixels[7] = BLUE;
    let image = pixmap(1, 9, &pixels);
    assert_eq!(sixel_bits_for_color(&image, 0, 0, 224), 0b100101);
    assert_eq!(sixel_bits_for_color(&image, 0, 0, 3), 0);
    assert_eq!(sixel_bits_for_color(&image, 0, 6, 3), 0b10);
    assert_eq!(sixel_bits_for_color(&image, 0, 12, 224), 0);
}

#[test]
fn palette_entries_have_their_own_colors() {
    assert_eq!(palette_index(255, 0, 0), 224);
    assert_eq!(palette_index(31, 63, 127), 5);
    assert_eq!(palette_color(5), (0, 36, 85));
    assert_eq!(palette_color(255), (255, 255, 255));
    for index in 0..=255 {
        let (red, green, blue) = palette_color(index);
        assert_eq!(palette_index(red, green, blue), index);
    }
}

#[test]
fn percentages_are_rounded() {
    assert_eq!(percent(0), 0);
    assert_eq!(percent(1), 0);
    assert_eq!(percent(2), 1);
    assert_eq!(percent(36), 14);
    assert_eq!(percent(128), 50);
    assert_eq!(percent(255), 100);
    for value in 0..255 {
        assert!(percent(value) <= percent(value + 1));
    }
}

#[test]
fn decodes_png_and_gif_files() {
    let image = rgba_image(&png(2, 1, &[RED, BLUE]), &config()).ok().unwrap();
    assert_eq!((image.width, image.height), (2, 1));
    assert_eq!(image.rgba, [RED, BLUE].concat());

    let gif = b"GIF87a\x01\x00\x01\x00\x00\x00\x00\
        \x2c\x00\x00\x00\x00\x01\x00\x01\x00\x80\xff\x00\x00\x00\x00\x00\x02\x02\x44\x01\x00\x3b";
    let image = rgba_image(gif, &config()).ok().unwrap();
    assert_eq!((image.width, image.height), (1, 1));
    assert_eq!(image.rgba, RED);
}

#[test]
fn large_images_are_scaled_down() {
    let narrow = Config {
        max_pixels_w: Some(4),
        ..config()
    };
    let file = png(8, 6, &[RED; 48]);
    let image = rgba_image(&file, &narrow).ok().unwrap();
    assert_eq!((image.width, image.height), (4, 3));
    assert_eq!(image.rgba, [RED; 12].concat());
    let mut out = Vec::new();
    sixel(&mut out, &file, &narrow);
    assert_eq!(
        String::from_utf8(out).unwrap(),
        "\x1bPq\"1;1;4;3#224;2;100;0;0#224!4F\x1b\\"
    );
}

#[test]
fn says_why_there_is_no_image() {
    for (bytes, error) in [
        (&b"text"[..], DecodeError::Unsupported),
        (b"\x89PNG\r\n\x1a\n", DecodeError::Malformed),
        (b"GIF89a", DecodeError::Malformed),
        (
            b"GIF89a\x01\x00\x01\x00\x00\x00\x00\x21\xfe\x01a\x00\x3b",
            DecodeError::NoFrames,
        ),
    ] {
        assert_eq!(rgba_image(bytes, &config()).err(), Some(error));
        let mut out = Vec::new();
        sixel(&mut out, bytes, &config());
        assert!(out.is_empty());
    }
}

/// The pixels that a terminal paints, as column, row and register.
fn painted(text: &str) -> Vec<(u32, u32, u32)> {
    let data = text.strip_prefix("\x1bPq").unwrap().strip_suffix("\x1b\\").unwrap();
    let bytes = data.as_bytes();
    let number = |at: &mut usize| {
        let mut value = 0;
        while *at < bytes.len() && bytes[*at].is_ascii_digit() {
            value = 10 * value + (bytes[*at] - b'0') as u32;
            *at += 1;
        }
        value
    };
    let (mut register, mut x, mut top, mut at) = (0, 0, 0, 0);
    let mut pixels = Vec::new();
    while at < bytes.len() {
        let byte = bytes[at];
        at += 1;
        let mut count = 1;
        let mut sixel = byte;
        match byte {
            b'"' | b'#' => {
                let value = number(&mut at);
                if byte == b'#' {
                    register = value;
                }
                while at < bytes.len() && (bytes[at].is_ascii_digit() || bytes[at] == b';') {
                    at += 1;
                }
                continue;
            }
            b'$' => {
                x = 0;
                continue;
            }
            b'-' => {
                x = 0;
                top += 6;
                continue;
            }
            b'!' => {
                count = number(&mut at);
                sixel = bytes[at];
                at += 1;
            }
            _ => {}
        }
        for column in x..x + count {
            for bit in 0..6 {
                if (sixel - 63) >> bit & 1 == 1 {
                    pixels.push((column, top + bit, register));
                }
            }
        }
        x += count;
    }
    pixels.sort();
    pixels
}

#[test]
fn a_terminal_paints_the_image() {
    for (width, height) in [(1, 1), (5, 6), (9, 13), (40, 7)] {
        let pixels: Vec<[u8; 4]> = (0..width * height)
            .map(|i| match i / 5 % 4 {
                0 => RED,
                1 => CLEAR,
                2 => [0, (i * 3) as u8, 0, 200],
                _ => BLUE,
            })
            .collect();
        let image = pixmap(width, height, &pixels);
        let mut expected = Vec::new();
        for (i, pixel) in (0..).zip(&pixels) {
            if pixel[3] >= 128 {
                let color = palette_index(pixel[0], pixel[1], pixel[2]);
                expected.push((i % width, i / width, color as u32));
            }
        }
        expected.sort();
        assert_eq!(painted(&drawn(&image)), expected);
    }
}

#[test]
fn shown_images_stay_within_the_limits() {
    for (max_w, max_h) in [(1, 1), (3, 2), (4, 100), (7, 1)] {
        let small = Config {
            max_pixels_w: Some(max_w),
            max_pixels_h: Some(max_h),
            ..config()
        };
        let image = rgba_image(&png(9, 5, &[RED; 45]), &small).ok().unwrap();
        assert!((1..=max_w).contains(&image.width));
        assert!((1..=max_h).contains(&image.height));
    }
}

#[test]
fn images_are_scaled_up_to_a_longest_side() {
    let width = MAX_SCALED_SIDE + 3;
    let file = png(width, 1, &vec![RED; width as usize]);
    for (max_w, max_h, expected) in [
        (None, None, Ok(width)),
        (Some(width), Some(1), Ok(width)),
        (Some(MAX_SCALED_SIDE + 2), None, Err(DecodeError::ScaledTooLarge)),
        (Some(MAX_SCALED_SIDE + 1), None, Err(DecodeError::ScaledTooLarge)),
        (Some(MAX_SCALED_SIDE), None, Ok(MAX_SCALED_SIDE)),
        (Some(7), None, Ok(7)),
    ] {
        let limited = Config {
            max_pixels_w: max_w,
            max_pixels_h: max_h,
            ..config()
        };
        let shown = rgba_image(&file, &limited);
        assert_eq!(shown.map(|image| image.width), expected);
        if expected.is_err() {
            let mut out = Vec::new();
            sixel(&mut out, &file, &limited);
            assert!(out.is_empty());
        }
    }
}
