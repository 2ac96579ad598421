//! Board checking against a header.

use skyscrapper::check::{check, count_viewed, parse, parse_board, BoardErrorKind};
use skyscrapper::generate::solution_to_header;

#[test]
fn counts_visible_cells() {
    assert_eq!(count_viewed(&[2, 1, 4, 3], 4), 2);
    assert_eq!(count_viewed(&[1, 2, 3, 4], 4), 4);
    assert_eq!(count_viewed(&[4, 3, 2, 1], 4), 1);
    assert_eq!(count_viewed(&[1], 1), 1);
}

#[test]
fn parses_decimal_numbers() {
    assert_eq!(parse(b"0"), Some(0));
    assert_eq!(parse(b"42"), Some(42));
    assert_eq!(parse(b"255"), Some(255));
    assert_eq!(parse(b"256"), None);
    assert_eq!(parse(b"4x"), None);
}

#[test]
fn parses_a_board() {
    let cells = parse_board(b"1 2 3\n2 3 1\n3 1 2\n", 3).unwrap();
    assert_eq!(cells.len(), 9);
    let values: Vec<u8> = cells.iter().map(|c| c.value).collect();
    assert_eq!(values, vec![1, 2, 3, 2, 3, 1, 3, 1, 2]);
}

#[test]
fn parses_a_board_without_final_line_feed() {
    let cells = parse_board(b"1 2\n2 1", 2).unwrap();
    assert_eq!(cells.len(), 4);
}

#[test]
fn rejects_bad_column_count() {
    let e = parse_board(b"1 2\n2 3 1\n3 1 2\n", 3).unwrap_err();
    assert!(matches!(
        e.kind,
        BoardErrorKind::ColumnCount {
            expected: 3,
            given: 2
        }
    ));
}

#[test]
fn rejects_bad_row_count() {
    let e = parse_board(b"1 2 3\n2 3 1\n", 3).unwrap_err();
    assert!(matches!(
        e.kind,
        BoardErrorKind::RowCount {
            expected: 3,
            given: 2
        }
    ));
}

#[test]
fn rejects_stray_characters() {
    let e = parse_board(b"1 2 3\n2 a 1\n3 1 2\n", 3).unwrap_err();
    assert!(matches!(e.kind, BoardErrorKind::UnexpectedCharacter(b'a')));
    assert_eq!(e.spans.len(), 1);
    assert_eq!(e.spans[0].start, 8);
    assert_eq!(e.spans[0].end, 9);
}

#[test]
fn rejects_out_of_range_numbers() {
    let e = parse_board(b"1 2 4\n2 3 1\n3 1 2\n", 3).unwrap_err();
    assert!(matches!(e.kind, BoardErrorKind::InvalidNumber));
    let e = parse_board(b"1 0 2\n2 3 1\n3 1 2\n", 3).unwrap_err();
    assert!(matches!(e.kind, BoardErrorKind::InvalidNumber));
}

#[test]
fn accepts_a_matching_board() {
    // the header derived from the board itself always matches it
    let board = [1u8, 2, 3, 2, 3, 1, 3, 1, 2];
    let header = solution_to_header(&board, 3);
    assert!(check(&header, 3, b"1 2 3\n2 3 1\n3 1 2\n").is_ok());
}

#[test]
fn reports_a_view_mismatch() {
    let board = [1u8, 2, 3, 2, 3, 1, 3, 1, 2];
    let mut header = solution_to_header(&board, 3);
    // break the top clue of the first column
    header[0] = if header[0] == 1 { 2 } else { 1 };
    let e = check(&header, 3, b"1 2 3\n2 3 1\n3 1 2\n").unwrap_err();
    assert!(matches!(e.kind, BoardErrorKind::TopToBottom { .. }));
    // the spans cover the three cells of the offending column
    assert_eq!(e.spans.len(), 3);
    assert_eq!((e.spans[0].start, e.spans[0].end), (0, 1));
    assert_eq!((e.spans[1].start, e.spans[1].end), (6, 7));
    assert_eq!((e.spans[2].start, e.spans[2].end), (12, 13));
}

#[test]
fn reports_duplicates_with_their_spans() {
    let header = [2u8, 2, 1, 2, 3, 1, 2, 2, 1, 2, 3, 1];
    let e = check(&header, 3, b"1 1 2\n2 3 1\n3 2 3\n").unwrap_err();
    assert!(matches!(e.kind, BoardErrorKind::Doubles));
    // the spans cover the two occurrences of 1 on the first row
    assert_eq!(e.spans.len(), 2);
    assert_eq!(e.spans[0].start, 0);
    assert_eq!(e.spans[0].end, 1);
    assert_eq!(e.spans[1].start, 2);
    assert_eq!(e.spans[1].end, 3);
}

#[test]
fn reports_duplicates_in_a_column() {
    let header = [2u8, 2, 1, 2, 3, 1, 2, 2, 1, 2, 3, 1];
    let e = check(&header, 3, b"1 2 3\n1 3 2\n3 1 2\n").unwrap_err();
    assert!(matches!(e.kind, BoardErrorKind::Doubles));
}
