//! Images in a line.

use pg_bager::scan::{
    decode_hex_image_prefix, hex_value, image_tokens, is_gif_file, is_hex, is_supported_image,
    shortest_magic_len, ScanError, Token, GIF87A_MAGIC, GIF89A_MAGIC, PNG_MAGIC,
};

fn png_hex() -> String {
    let mut out = String::from("\\x");
    for byte in PNG_MAGIC {
        out.push_str(&format!("{byte:02x}"));
    }
    out
}

#[test]
fn finds_png_token() {
    let line = format!("prefix {} suffix", png_hex());
    let tokens = image_tokens(line.as_bytes(), 1024).unwrap();
    assert_eq!(tokens.len(), 1);
    assert_eq!(tokens[0].decoded, PNG_MAGIC);
}

#[test]
fn finds_gif_token() {
    let mut hex = String::from("\\x");
    for byte in GIF89A_MAGIC {
        hex.push_str(&format!("{byte:02x}"));
    }

    let tokens = image_tokens(hex.as_bytes(), 1024).unwrap();
    assert_eq!(tokens.len(), 1);
    assert_eq!(tokens[0].decoded, GIF89A_MAGIC);
}

#[test]
fn ignores_non_image_bytea() {
    let tokens = image_tokens(br"\xdeadbeef", 1024).unwrap();
    assert!(tokens.is_empty());
}

#[test]
fn reports_large_token() {
    let err = image_tokens(br"\x89504e470d0a1a0a", 8).unwrap_err();
    assert_eq!(err, ScanError::TokenTooLarge);
}

fn hex_of(bytes: &[u8]) -> String {
    bytes.iter().map(|byte| format!("{byte:02x}")).collect()
}

#[test]
fn finds_every_image_of_a_line_in_order() {
    let png = hex_of(&PNG_MAGIC);
    let gif = hex_of(&GIF87A_MAGIC);
    let line = format!("\\x{png}\\x{gif} \\xdead \\X{png} \\x{gif}ff|");
    let tokens = image_tokens(line.as_bytes(), 1024).unwrap();
    assert_eq!(
        tokens,
        vec![
            Token {
                start: 0,
                end: 18,
                decoded: PNG_MAGIC.to_vec(),
            },
            Token {
                start: 18,
                end: 32,
                decoded: GIF87A_MAGIC.to_vec(),
            },
            Token {
                start: line.len() - 17,
                end: line.len() - 1,
                decoded: [GIF87A_MAGIC.to_vec(), vec![0xff]].concat(),
            },
        ]
    );
    for pair in tokens.windows(2) {
        assert!(pair[0].end <= pair[1].start);
    }
}

#[test]
fn reads_hex_digits_of_either_case() {
    let line = format!("\\x{}", hex_of(&PNG_MAGIC).to_uppercase());
    assert_eq!(image_tokens(line.as_bytes(), 1024).unwrap().len(), 1);
}

#[test]
fn ignores_half_bytes_and_short_values() {
    let odd = format!("\\x{}0", hex_of(&PNG_MAGIC));
    assert!(image_tokens(odd.as_bytes(), 1024).unwrap().is_empty());
    for line in ["", "\\", "\\x", "\\xg", "\\x4749463839"] {
        assert!(image_tokens(line.as_bytes(), 1024).unwrap().is_empty());
    }
}

#[test]
fn token_limit_counts_the_whole_token() {
    let line = format!("a \\x{} b", hex_of(&PNG_MAGIC));
    assert_eq!(image_tokens(line.as_bytes(), 18).unwrap().len(), 1);
    assert_eq!(
        image_tokens(line.as_bytes(), 17).unwrap_err(),
        ScanError::TokenTooLarge
    );
    assert_eq!(
        image_tokens(b"\\xdeadbeef", 9).unwrap_err(),
        ScanError::TokenTooLarge
    );
    assert!(image_tokens(line.as_bytes(), line.len()).is_ok());
}

#[test]
fn finds_a_printed_image_again() {
    let image = [&PNG_MAGIC[..], &[0x00, 0x7f, 0xff, 0x5c]].concat();
    let line = format!("name | \\x{} (note)", hex_of(&image));
    let tokens = image_tokens(line.as_bytes(), 1024).unwrap();
    assert_eq!(tokens.len(), 1);
    assert_eq!(tokens[0].start, 7);
    assert_eq!(tokens[0].end, 7 + 2 + 2 * image.len());
    assert_eq!(tokens[0].decoded, image);
}

#[test]
fn tells_images_by_their_first_bytes() {
    assert!(is_supported_image(&PNG_MAGIC));
    assert!(is_supported_image(b"GIF87a and more"));
    assert!(is_supported_image(&GIF89A_MAGIC));
    assert!(!is_supported_image(b"GIF88a"));
    assert!(!is_supported_image(&PNG_MAGIC[..7]));
    assert!(is_gif_file(&GIF89A_MAGIC));
    assert!(!is_gif_file(&PNG_MAGIC));
    assert_eq!(shortest_magic_len(), 6);
}

#[test]
fn reads_hex_digits() {
    assert_eq!(hex_value(b'0'), Some(0));
    assert_eq!(hex_value(b'9'), Some(9));
    assert_eq!(hex_value(b'a'), Some(10));
    assert_eq!(hex_value(b'F'), Some(15));
    assert_eq!(hex_value(b'g'), None);
    assert_eq!(hex_value(b'@'), None);
    assert!(is_hex(b'f') && is_hex(b'A') && !is_hex(b'x') && !is_hex(b'/'));
    assert_eq!(
        decode_hex_image_prefix(b"474946383961ff"),
        Some(b"GIF89a\xff".to_vec())
    );
    assert_eq!(decode_hex_image_prefix(b"474946383961f"), None);
    assert_eq!(decode_hex_image_prefix(b"47494638396g"), None);
    assert_eq!(decode_hex_image_prefix(b"474946383861"), None);
}
