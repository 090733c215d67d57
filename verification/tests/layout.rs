//! Whole tables.

use pg_bager::config::Config;
use pg_bager::image_id::ImageIds;
use pg_bager::layout::{
    build_expanded_interactive_output, build_interactive_output, build_tabular_interactive_output,
    candidate_tokens, next_record_start, process, record_start_for, InteractiveOutput, Processed,
};
use pg_bager::render::{rewrite_line, write_aligned_placeholder};
use pg_bager::scan::{Token, GIF89A_MAGIC, PNG_MAGIC};
use pg_bager::table::{split_inclusive_lines, Mode};
use pg_bager::term::Protocol;

fn ids() -> ImageIds {
    ImageIds::new(4711)
}

fn config() -> Config {
    Config {
        max_row_bytes: 4096,
        max_pixels_w: None,
        max_pixels_h: None,
        disable: false,
        fallback: None,
    }
}

fn png_hex() -> String {
    let mut out = String::from("\\x");
    for byte in PNG_MAGIC {
        out.push_str(&format!("{byte:02x}"));
    }
    out
}

fn gif_hex() -> String {
    let mut out = String::from("\\x");
    for byte in GIF89A_MAGIC {
        out.push_str(&format!("{byte:02x}"));
    }
    out
}

#[test]
fn rewrites_single_column_unaligned() {
    let input = format!("thumbnail\n{}\n(1 row)\n", png_hex());
    let processed = process(input.as_bytes(), Protocol::Kitty, &config(), &mut ids()).unwrap();
    let text = String::from_utf8(processed.bytes).unwrap();
    assert!(processed.rewritten);
    assert!(text.contains("[img]\n\x1b_Gf=100,a=T;"));
}

#[test]
fn rewrites_gif_single_column_unaligned() {
    let input = format!("thumbnail\n{}\n(1 row)\n", gif_hex());
    let processed = process(input.as_bytes(), Protocol::ITerm2, &config(), &mut ids()).unwrap();
    let text = String::from_utf8(processed.bytes).unwrap();
    assert!(processed.rewritten);
    assert!(text.contains("[img]\n\x1b]1337;File=inline=1;size=6;"));
}

#[test]
fn rewrites_single_column_aligned() {
    let input = format!(" thumbnail \n-----------\n {} \n(1 row)\n", png_hex());
    let processed = process(input.as_bytes(), Protocol::Kitty, &config(), &mut ids()).unwrap();
    let text = String::from_utf8(processed.bytes).unwrap();
    assert!(processed.rewritten);
    assert!(text.contains(" [img]"));
    assert!(text.contains("\x1b_Gf=100,a=T;"));
}

#[test]
fn separates_aligned_rewrites_into_interactive_rows() {
    let input = format!(
        " thumbnail \n-----------\n {} \n {} \n(2 rows)\n",
        png_hex(),
        png_hex()
    );
    let processed = process(input.as_bytes(), Protocol::Kitty, &config(), &mut ids()).unwrap();
    let interactive = processed.interactive.as_ref().unwrap();

    assert_eq!(interactive.rows.len(), 2);
    assert_eq!(interactive.prefix, b" thumbnail \n-----------\n");
    assert_eq!(interactive.suffix, b"(2 rows)\n");
    assert!(String::from_utf8(interactive.rows[0].clone())
        .unwrap()
        .contains(" [img]"));
    assert_eq!(interactive.bytes(), processed.bytes);
}

#[test]
fn keeps_non_image_tabular_rows_between_rewrites() {
    let input = format!(
        " thumbnail \n-----------\n {} \n text row \n {} \n(3 rows)\n",
        png_hex(),
        png_hex()
    );
    let processed = process(input.as_bytes(), Protocol::Kitty, &config(), &mut ids()).unwrap();
    let interactive = processed.interactive.as_ref().unwrap();

    assert_eq!(interactive.rows.len(), 3);
    assert_eq!(interactive.rows[1], b" text row \n");
    assert!(String::from_utf8(processed.bytes.clone())
        .unwrap()
        .contains(" text row \n"));
    assert_eq!(interactive.bytes(), processed.bytes);
}

#[test]
fn rewrites_single_column_expanded() {
    let input = format!("-[ RECORD 1 ]-----\nthumbnail | {}\n", png_hex());
    let processed = process(input.as_bytes(), Protocol::ITerm2, &config(), &mut ids()).unwrap();
    let text = String::from_utf8(processed.bytes).unwrap();
    assert!(processed.rewritten);
    assert!(text.contains("thumbnail | [img]\n\x1b]1337;File="));
}

#[test]
fn separates_expanded_records_into_interactive_rows() {
    let input = format!(
        "-[ RECORD 1 ]-----\nthumbnail | {}\n-[ RECORD 2 ]-----\nthumbnail | {}\n",
        png_hex(),
        png_hex()
    );
    let processed = process(input.as_bytes(), Protocol::ITerm2, &config(), &mut ids()).unwrap();
    let interactive = processed.interactive.as_ref().unwrap();

    assert_eq!(interactive.rows.len(), 2);
    assert!(interactive.prefix.is_empty());
    assert!(interactive.suffix.is_empty());
    assert!(String::from_utf8(interactive.rows[0].clone())
        .unwrap()
        .starts_with("-[ RECORD 1 ]-----\nthumbnail | [img]\n"));
    assert!(String::from_utf8(interactive.rows[1].clone())
        .unwrap()
        .starts_with("-[ RECORD 2 ]-----\nthumbnail | [img]\n"));
    assert_eq!(interactive.bytes(), processed.bytes);
}

#[test]
fn keeps_non_image_expanded_records_between_rewrites() {
    let input = format!(
        "-[ RECORD 1 ]-----\nthumbnail | {}\n-[ RECORD 2 ]-----\nthumbnail | text row\n-[ RECORD 3 ]-----\nthumbnail | {}\n",
        png_hex(),
        png_hex()
    );
    let processed = process(input.as_bytes(), Protocol::ITerm2, &config(), &mut ids()).unwrap();
    let interactive = processed.interactive.as_ref().unwrap();

    assert_eq!(interactive.rows.len(), 3);
    assert_eq!(
        interactive.rows[1],
        b"-[ RECORD 2 ]-----\nthumbnail | text row\n"
    );
    assert!(String::from_utf8(processed.bytes.clone())
        .unwrap()
        .contains("-[ RECORD 2 ]-----\nthumbnail | text row\n"));
    assert_eq!(interactive.bytes(), processed.bytes);
}

#[test]
fn multi_column_unaligned_passthrough() {
    let input = format!("thumbnail|id\n{}|1\n(1 row)\n", png_hex());
    let processed = process(input.as_bytes(), Protocol::Kitty, &config(), &mut ids()).unwrap();
    assert!(processed.passthrough);
    assert_eq!(processed.bytes, input.as_bytes());
}

#[test]
fn multi_column_aligned_passthrough() {
    let input = format!(
        " thumbnail | id \n-----------+----\n {} | 1\n(1 row)\n",
        png_hex()
    );
    let processed = process(input.as_bytes(), Protocol::Kitty, &config(), &mut ids()).unwrap();
    assert!(processed.passthrough);
    assert_eq!(processed.bytes, input.as_bytes());
}

#[test]
fn multi_column_expanded_passthrough() {
    let input = format!(
        "-[ RECORD 1 ]-----\nthumbnail | {}\nid        | 1\n",
        png_hex()
    );
    let processed = process(input.as_bytes(), Protocol::Kitty, &config(), &mut ids()).unwrap();
    assert!(processed.passthrough);
    assert_eq!(processed.bytes, input.as_bytes());
}

#[test]
fn none_protocol_passthrough() {
    let input = format!("{}\n", png_hex());
    let processed = process(input.as_bytes(), Protocol::Plain, &config(), &mut ids()).unwrap();
    assert!(processed.passthrough);
    assert_eq!(processed.bytes, input.as_bytes());
}

#[test]
fn row_over_cap_passthrough() {
    let input = format!("{}\n", png_hex());
    let mut config = config();
    config.max_row_bytes = 8;
    let processed = process(input.as_bytes(), Protocol::Kitty, &config, &mut ids()).unwrap();
    assert!(processed.passthrough);
    assert_eq!(processed.bytes, input.as_bytes());
}

fn done(input: &str, protocol: Protocol) -> Processed {
    process(input.as_bytes(), protocol, &config(), &mut ids()).unwrap()
}

#[test]
fn text_is_handed_on() {
    for input in ["", "\n", " a \n---\n 1 \n(1 row)\n", "\\xdeadbeef\n"] {
        for protocol in [Protocol::Kitty, Protocol::ITerm2, Protocol::Sixel] {
            assert_eq!(
                done(input, protocol),
                Processed {
                    bytes: input.as_bytes().to_vec(),
                    rewritten: false,
                    passthrough: true,
                    interactive: None,
                }
            );
        }
    }
}

#[test]
fn rewriting_can_be_disabled() {
    let input = format!("{}\n", png_hex());
    let disabled = Config {
        disable: true,
        ..config()
    };
    let processed = process(input.as_bytes(), Protocol::Kitty, &disabled, &mut ids()).unwrap();
    assert!(processed.passthrough && !processed.rewritten);
    assert_eq!(processed.bytes, input.as_bytes());
}

#[test]
fn an_unaligned_table_is_rewritten_line_by_line() {
    let input = format!("thumbnail\n{}\n(1 row)\n", png_hex());
    let processed = done(&input, Protocol::Kitty);
    assert_eq!(
        String::from_utf8(processed.bytes).unwrap(),
        "thumbnail\n[img]\n\x1b_Gf=100,a=T;iVBORw0KGgo=\x1b\\\n(1 row)\n"
    );
    let interactive = processed.interactive.unwrap();
    assert_eq!(interactive.prefix, b"thumbnail\n");
    assert_eq!(interactive.rows.len(), 1);
    assert_eq!(interactive.suffix, b"(1 row)\n");
}

#[test]
fn an_aligned_line_keeps_its_width() {
    let line = format!(" {} x {} \n", png_hex(), gif_hex());
    let input = format!("-\n{line}");
    let processed = done(&input, Protocol::ITerm2);
    let row = &processed.interactive.unwrap().rows[0];
    let end = row.iter().position(|byte| *byte == b'\n').unwrap() + 1;
    assert_eq!(end, line.len());
    assert_eq!(
        &row[..end],
        b" [img]              x [img]          \n"
    );
}

#[test]
fn images_follow_their_line_in_order() {
    let input = format!("{} {}", gif_hex(), png_hex());
    let processed = done(&input, Protocol::ITerm2);
    assert_eq!(
        String::from_utf8(processed.bytes).unwrap(),
        "[img] [img]\
         \x1b]1337;File=inline=1;size=6;preserveAspectRatio=1:R0lGODlh\x07\n\
         \x1b]1337;File=inline=1;size=8;preserveAspectRatio=1:iVBORw0KGgo=\x07\n"
    );
}

#[test]
fn images_that_cannot_be_shown_are_printed() {
    let input = format!("{}\n", png_hex());
    let processed = done(&input, Protocol::Sixel);
    assert!(processed.rewritten);
    assert_eq!(
        String::from_utf8(processed.bytes).unwrap(),
        format!("[img]\n{}\n", png_hex())
    );
}

#[test]
fn rows_reach_from_the_first_image_to_the_last() {
    let image = gif_hex();
    let input = format!("head\n{image}\nplain\n\n{image}\ntail\nend");
    let processed = done(&input, Protocol::ITerm2);
    let table = processed.interactive.as_ref().unwrap();
    assert_eq!(table.prefix, b"head\n");
    assert_eq!(table.rows.len(), 4);
    assert_eq!(table.rows[1], b"plain\n");
    assert_eq!(table.rows[2], b"\n");
    assert_eq!(table.suffix, b"tail\nend");
    assert_eq!(table.bytes(), processed.bytes);
}

#[test]
fn records_are_rows() {
    let image = gif_hex();
    let input = format!(
        "title\n-[ RECORD 1 ]\na | 1\n-[ RECORD 2 ]\na | {image}\nmore\n-[ RECORD 3 ]\na | x\n\
         -[ RECORD 4 ]\na | {image}\n\n-[ RECORD 5 ]\na | 5\n"
    );
    let processed = done(&input, Protocol::ITerm2);
    let table = processed.interactive.as_ref().unwrap();
    assert_eq!(table.prefix, b"title\n-[ RECORD 1 ]\na | 1\n");
    assert_eq!(table.rows.len(), 3);
    let shown = "[img]\n\x1b]1337;File=inline=1;size=6;preserveAspectRatio=1:R0lGODlh\x07\n";
    assert_eq!(
        String::from_utf8(table.rows[0].clone()).unwrap(),
        format!("-[ RECORD 2 ]\na | {shown}more\n")
    );
    assert_eq!(table.rows[1], b"-[ RECORD 3 ]\na | x\n");
    assert_eq!(
        String::from_utf8(table.rows[2].clone()).unwrap(),
        format!("-[ RECORD 4 ]\na | {shown}\n")
    );
    assert_eq!(table.suffix, b"-[ RECORD 5 ]\na | 5\n");
    assert_eq!(table.bytes(), processed.bytes);
}

#[test]
fn an_image_before_the_first_record_is_a_row() {
    let image = gif_hex();
    let input = format!("x {image}\n-[ RECORD 1 ]\na | 1\n");
    let table = done(&input, Protocol::ITerm2).interactive.unwrap();
    assert!(table.prefix.is_empty());
    assert_eq!(table.rows.len(), 1);
    assert_eq!(table.suffix, b"-[ RECORD 1 ]\na | 1\n");
}

#[test]
fn a_large_line_matters_only_with_a_value() {
    let image = gif_hex();
    let small = Config {
        max_row_bytes: 20,
        ..config()
    };
    let long = "a text of more than twenty bytes";
    let input = format!("{long}\n{image}\n");
    let processed = process(input.as_bytes(), Protocol::ITerm2, &small, &mut ids()).unwrap();
    assert!(processed.rewritten);
    assert!(processed.bytes.starts_with(long.as_bytes()));
    let input = format!("{image}\n{long} \\x\n");
    let processed = process(input.as_bytes(), Protocol::ITerm2, &small, &mut ids()).unwrap();
    assert!(processed.passthrough);
    assert_eq!(processed.bytes, input.as_bytes());
}

#[test]
fn a_bar_elsewhere_does_not_matter() {
    let input = format!("a|b\n{}\n", png_hex());
    assert!(done(&input, Protocol::Kitty).rewritten);
    let input = format!("a\n{}|\n", png_hex());
    assert!(done(&input, Protocol::Kitty).passthrough);
}

#[test]
fn placeholders_are_filled_up() {
    for (width, expected) in [(0, "[img]"), (5, "[img]"), (6, "[img] "), (8, "[img]   ")] {
        let mut out = Vec::new();
        write_aligned_placeholder(&mut out, width);
        assert_eq!(String::from_utf8(out).unwrap(), expected);
    }
}

#[test]
fn records_are_found_from_their_lines() {
    let text = b"x\n-[ RECORD 1 ]\na\nb\n-[ RECORD 2 ]\nc\n";
    let lines = split_inclusive_lines(text);
    assert_eq!(record_start_for(&lines, 3, 0), 1);
    assert_eq!(record_start_for(&lines, 3, 2), 2);
    assert_eq!(record_start_for(&lines, 0, 0), 0);
    assert_eq!(record_start_for(&lines, 4, 0), 4);
    assert_eq!(record_start_for(&lines, 3, 5), 1);
    assert_eq!(record_start_for(&lines, 5, 9), 4);
    assert_eq!(next_record_start(&lines, 0), 1);
    assert_eq!(next_record_start(&lines, 2), 4);
    assert_eq!(next_record_start(&lines, 5), 6);
    assert_eq!(next_record_start(&lines, 6), 6);
}

#[test]
fn candidates_are_found_by_their_line() {
    let token = Token {
        start: 1,
        end: 2,
        decoded: vec![3],
    };
    let candidates = vec![(2, vec![token.clone()]), (5, vec![token.clone(), token])];
    assert_eq!(candidate_tokens(&candidates, 2).unwrap().len(), 1);
    assert_eq!(candidate_tokens(&candidates, 5).unwrap().len(), 2);
    assert!(candidate_tokens(&candidates, 3).is_none());
}

#[test]
fn an_output_is_its_parts_in_order() {
    let output = InteractiveOutput {
        prefix: b"p".to_vec(),
        rows: vec![b"1".to_vec(), Vec::new(), b"23".to_vec()],
        suffix: b"s".to_vec(),
    };
    assert_eq!(output.bytes(), b"p123s");
}

#[test]
fn the_same_input_is_rewritten_alike() {
    let input = format!("a\n{} {}\nb\n{}", png_hex(), gif_hex(), png_hex());
    for protocol in [Protocol::Kitty, Protocol::ITerm2] {
        assert_eq!(done(&input, protocol), done(&input, protocol));
    }
}

#[test]
fn a_second_pass_changes_nothing() {
    let (png, gif) = (png_hex(), gif_hex());
    for input in [
        png.clone(),
        format!("{gif}{png}x\\xdead{gif} \\x\n\\xbeef\n{png}\n"),
        format!(" a \n---\n {gif} x{gif}\n(1 row)\n"),
        format!("-[ RECORD 1 ]\na | {png}\n-[ RECORD 2 ]\na | \\x{}0\n", &gif[2..]),
        "no image".to_string(),
    ] {
        let first = done(&input, Protocol::ITerm2);
        let output = String::from_utf8(first.bytes).unwrap();
        let second = done(&output, Protocol::ITerm2);
        assert!(second.passthrough);
        assert_eq!(second.bytes, output.as_bytes());
    }
}

fn token(start: usize, end: usize) -> Token {
    Token {
        start,
        end,
        decoded: b"no image".to_vec(),
    }
}

fn rewritten_line(line: &[u8], tokens: &[Token], mode: Mode) -> Vec<u8> {
    let mut out = b">".to_vec();
    rewrite_line(&mut out, line, tokens, mode, Protocol::Kitty, &config(), &mut ids()).unwrap();
    out
}

#[test]
fn any_tokens_of_a_line_are_rewritten() {
    let tokens = [token(1, 3), token(3, 3), token(4, 10)];
    assert_eq!(
        rewritten_line(b"abcdefghijk\n", &tokens, Mode::Unaligned),
        b">a[img][img]d[img]k\nbc\nefghij\n"
    );
    assert_eq!(
        rewritten_line(b"abcdefghijk\n", &tokens, Mode::Aligned),
        b">a[img][img]d[img] k\nbc\nefghij\n"
    );
    assert_eq!(rewritten_line(b"abc", &[], Mode::Expanded), b">abc");
}

#[test]
fn tokens_that_are_no_text_leave_nothing() {
    assert_eq!(
        rewritten_line(b"a\xffb\n", &[token(1, 2)], Mode::Unaligned),
        b">a[img]b\n"
    );
    assert_eq!(
        rewritten_line(b"a\xffb", &[token(1, 2)], Mode::Unaligned),
        b">a[img]b\n"
    );
}

#[test]
fn rows_follow_the_candidates() {
    let text = b"x\n-[ RECORD 1 ]\na\nb\n-[ RECORD 2 ]\nc\n";
    let lines = split_inclusive_lines(text);
    let candidates = vec![
        (2, Vec::new()),
        (3, vec![token(0, 1)]),
        (3, vec![token(0, 0)]),
    ];
    let table = build_tabular_interactive_output(
        &lines,
        &candidates,
        Mode::Unaligned,
        Protocol::Kitty,
        &config(),
        &mut ids(),
    )
    .unwrap();
    assert_eq!(table.prefix, b"x\n-[ RECORD 1 ]\n");
    assert_eq!(table.rows, [&b"a\n"[..], b"[img]\nb\n"]);
    assert_eq!(table.suffix, b"-[ RECORD 2 ]\nc\n");
    let table = build_expanded_interactive_output(
        &lines,
        &candidates,
        Protocol::Kitty,
        &config(),
        &mut ids(),
    )
    .unwrap();
    assert_eq!(table.prefix, b"x\n");
    assert_eq!(table.rows, [b"-[ RECORD 1 ]\na\n[img]\nb\n"]);
    assert_eq!(table.suffix, b"-[ RECORD 2 ]\nc\n");
}

#[test]
fn rows_do_not_depend_on_other_candidates() {
    let text = b"x\n-[ RECORD 1 ]\na\nb\n-[ RECORD 2 ]\nc\n";
    let lines = split_inclusive_lines(text);
    let candidates = vec![
        (2, vec![token(0, 1)]),
        (99, vec![token(7, 9)]),
        (0, vec![token(7, 9)]),
        (3, vec![token(0, 1)]),
    ];
    let table = build_tabular_interactive_output(
        &lines,
        &candidates,
        Mode::Unaligned,
        Protocol::Kitty,
        &config(),
        &mut ids(),
    )
    .unwrap();
    assert_eq!(table.prefix, b"x\n-[ RECORD 1 ]\n");
    assert_eq!(table.rows, [b"[img]\na\n", b"[img]\nb\n"]);
    assert_eq!(table.suffix, b"-[ RECORD 2 ]\nc\n");
    let table = build_expanded_interactive_output(
        &lines,
        &candidates,
        Protocol::Kitty,
        &config(),
        &mut ids(),
    )
    .unwrap();
    assert_eq!(table.prefix, b"x\n");
    assert_eq!(table.rows, [b"-[ RECORD 1 ]\n[img]\na\n[img]\nb\n"]);
    assert_eq!(table.suffix, b"-[ RECORD 2 ]\nc\n");
}

#[test]
fn records_in_reverse_are_no_rows() {
    let text = b"-[ RECORD 1 ]\na\n-[ RECORD 2 ]\nb\n-[ RECORD 3 ]\nc\n";
    let lines = split_inclusive_lines(text);
    let table = build_interactive_output(
        &lines,
        &[(5, vec![token(0, 1)]), (1, vec![token(0, 1)])],
        Mode::Expanded,
        Protocol::Kitty,
        &config(),
        &mut ids(),
    )
    .unwrap();
    assert_eq!(table.prefix, b"-[ RECORD 1 ]\na\n-[ RECORD 2 ]\nb\n");
    assert!(table.rows.is_empty());
    assert_eq!(table.suffix, b"-[ RECORD 2 ]\nb\n-[ RECORD 3 ]\nc\n");
}
