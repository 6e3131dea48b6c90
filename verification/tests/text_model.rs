use lang_lsp::span::Span;
use lang_lsp::text::{line_col_at, offset_to_position, position_to_offset};

#[test]
fn spans_are_half_open() {
    let s = Span { start: 2, end: 5 };
    assert!(!s.contains(1));
    assert!(s.contains(2));
    assert!(s.contains(4));
    assert!(!s.contains(5));
    assert_eq!(s.len(), 3);
}

#[test]
fn empty_span_contains_nothing() {
    let s = Span { start: 3, end: 3 };
    assert!(!s.contains(3));
    assert_eq!(s.len(), 0);
}

#[test]
fn line_and_column_of_offsets() {
    let text = b"ab\ncd\n\nxyz".to_vec();
    assert_eq!(line_col_at(&text, 0), (0, 0));
    assert_eq!(line_col_at(&text, 2), (0, 2));
    assert_eq!(line_col_at(&text, 3), (1, 0));
    assert_eq!(line_col_at(&text, 5), (1, 2));
    assert_eq!(line_col_at(&text, 6), (2, 0));
    assert_eq!(line_col_at(&text, 7), (3, 0));
    assert_eq!(line_col_at(&text, 10), (3, 3));
}

#[test]
fn columns_count_code_points_not_bytes() {
    let text = "héllo".as_bytes().to_vec();
    // 'h' 1 byte, 'é' 2 bytes, so byte 3 is the 'l' at column 2.
    assert_eq!(line_col_at(&text, 3), (0, 2));
}

#[test]
fn offset_to_position_is_absent_past_the_end() {
    let text = b"ab".to_vec();
    assert_eq!(offset_to_position(&text, 2), Some((0, 2)));
    assert_eq!(offset_to_position(&text, 3), None);
}

#[test]
fn position_to_offset_walks_lines_and_columns() {
    let text = b"ab\ncd\n\nxyz".to_vec();
    assert_eq!(position_to_offset(&text, 0, 0), 0);
    assert_eq!(position_to_offset(&text, 0, 2), 2);
    assert_eq!(position_to_offset(&text, 1, 1), 4);
    assert_eq!(position_to_offset(&text, 2, 0), 6);
    assert_eq!(position_to_offset(&text, 3, 3), 10);
}

#[test]
fn position_to_offset_clamps_at_line_ends() {
    let text = b"ab\ncd".to_vec();
    // A column past the line's end stops at the line break.
    assert_eq!(position_to_offset(&text, 0, 99), 2);
    // A line past the document's end stops at the text's end.
    assert_eq!(position_to_offset(&text, 9, 0), 5);
}

#[test]
fn position_to_offset_steps_over_multibyte_characters() {
    let text = "é x".as_bytes().to_vec();
    assert_eq!(position_to_offset(&text, 0, 1), 2);
    assert_eq!(position_to_offset(&text, 0, 2), 3);
}

#[test]
fn round_trip_between_offsets_and_positions() {
    let text = b"one\ntwo three\nfour".to_vec();
    for off in 0..text.len() {
        let (line, col) = line_col_at(&text, off);
        assert_eq!(position_to_offset(&text, line, col), off);
    }
}
