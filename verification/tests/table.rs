//! Lines and layouts.

use pg_bager::layout::classify;
use pg_bager::scan::Token;
use pg_bager::table::{
    expanded_is_single_column, is_record_start, looks_aligned, looks_expanded,
    split_inclusive_lines, Line, Mode,
};

fn lines(text: &str) -> Vec<Line<'_>> {
    split_inclusive_lines(text.as_bytes())
}

#[test]
fn lines_are_the_input() {
    for text in ["", "\n", "a", "a\n", "a\nb", "\n\na\n\nb\n"] {
        let found = lines(text);
        let joined: Vec<u8> = found.iter().flat_map(|line| line.bytes.to_vec()).collect();
        assert_eq!(joined, text.as_bytes());
        for (index, line) in found.iter().enumerate() {
            assert!(!line.bytes.is_empty());
            assert!(!line.content_without_newline().contains(&b'\n'));
            assert!(index + 1 == found.len() || line.bytes.ends_with(b"\n"));
        }
    }
    let found = lines("a\n\nb");
    assert_eq!(found.len(), 3);
    assert_eq!(found[0].bytes, b"a\n");
    assert_eq!(found[1].bytes, b"\n");
    assert_eq!(found[2].bytes, b"b");
    assert_eq!(found[0].content_without_newline(), b"a");
    assert_eq!(found[1].content_without_newline(), b"");
    assert_eq!(found[2].content_without_newline(), b"b");
}

#[test]
fn records_start_with_a_header() {
    assert!(is_record_start(lines("-[ RECORD 1 ]--\n")[0]));
    assert!(is_record_start(lines("-[ RECORD")[0]));
    assert!(!is_record_start(lines(" -[ RECORD 1 ]\n")[0]));
    assert!(looks_expanded(&lines("a\n-[ RECORD 2 ]\n")));
    assert!(!looks_expanded(&lines("a\n-[ record 2 ]\n")));
    assert!(!looks_expanded(&[]));
}

#[test]
fn rules_make_an_aligned_table() {
    assert!(looks_aligned(&lines(" a \n---\n 1 \n")));
    assert!(looks_aligned(&lines("\t --+--  \r\n")));
    assert!(!looks_aligned(&lines(" a \n+++\n   \n\n")));
    assert!(!looks_aligned(&lines("a\n-x-\n")));
}

#[test]
fn one_field_in_each_record_is_one_column() {
    assert!(expanded_is_single_column(&lines("-[ RECORD 1 ]\na | 1\n-[ RECORD 2 ]\na | 2\n")));
    assert!(expanded_is_single_column(&lines("-[ RECORD 1 ]\na | 1\n\n(1 row) | x\n")));
    assert!(expanded_is_single_column(&lines("a | 1\nb | 2\n-[ RECORD 1 ]\n")));
    assert!(expanded_is_single_column(&lines("-[ RECORD 1 ]\na | 1\ncontinued\n")));
    assert!(!expanded_is_single_column(&lines("-[ RECORD 1 ]\na | 1\nb | 2\n")));
    assert!(!expanded_is_single_column(&lines(
        "-[ RECORD 1 ]\na | 1\nb | 2\n-[ RECORD 2 ]\na | 1\n"
    )));
    assert!(!expanded_is_single_column(&lines("-[ RECORD 1 ]\na: 1\n")));
    assert!(!expanded_is_single_column(&lines("a | 1\n")));
    assert!(!expanded_is_single_column(&[]));
}

#[test]
fn layouts_are_told_apart() {
    let candidate = |index| vec![(index, Vec::new())];
    let aligned = lines(" a \n---\n 1 \n");
    assert_eq!(classify(&aligned, &candidate(2)), Some(Mode::Aligned));
    let unaligned = lines("a\n1\n");
    assert_eq!(classify(&unaligned, &candidate(1)), Some(Mode::Unaligned));
    let expanded = lines("-[ RECORD 1 ]\na | 1\n");
    assert_eq!(classify(&expanded, &candidate(1)), Some(Mode::Expanded));
    let wide = lines("a|b\n1|2\nx\n");
    assert_eq!(classify(&wide, &candidate(1)), None);
    assert_eq!(classify(&wide, &candidate(2)), Some(Mode::Unaligned));
    let records = lines("-[ RECORD 1 ]\na | 1\nb | 2\n");
    assert_eq!(classify(&records, &candidate(1)), None);
}

#[test]
fn only_candidates_up_to_a_bar_are_looked_at() {
    let candidates = |indices: &[usize]| -> Vec<(usize, Vec<Token>)> {
        indices.iter().map(|index| (*index, Vec::new())).collect()
    };
    let expanded = lines("-[ RECORD 1 ]\na | 1\n");
    assert_eq!(classify(&expanded, &candidates(&[9])), Some(Mode::Expanded));
    let wide = lines("a\n1|2\nx\n");
    assert_eq!(classify(&wide, &candidates(&[2, 1, 9])), None);
    assert_eq!(classify(&wide, &candidates(&[2, 0])), Some(Mode::Unaligned));
}
