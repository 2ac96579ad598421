//! Header text parsing.

use skyscrapper::args::{Header, ParseHeaderError};

#[test]
fn parses_a_simple_header() {
    let h = Header::from_str("2 2 1 2 2 3 4 1 2 2 1 2 2 3 4 1").unwrap();
    assert_eq!(h.0, vec![2, 2, 1, 2, 2, 3, 4, 1, 2, 2, 1, 2, 2, 3, 4, 1]);
}

#[test]
fn parses_with_mixed_whitespace() {
    let h = Header::from_str(" 1\t1\n1  1 ").unwrap();
    assert_eq!(h.0, vec![1, 1, 1, 1]);
}

#[test]
fn rejects_count_not_multiple_of_four() {
    // a header length that is not a multiple of 4 must be rejected
    assert_eq!(Header::from_str("1 2 3").unwrap_err(), ParseHeaderError::InvalidViewCount);
    assert_eq!(Header::from_str("2 2 1 2 2").unwrap_err(), ParseHeaderError::InvalidViewCount);
}

#[test]
fn rejects_zero_views() {
    assert_eq!(Header::from_str("0 1 1 1").unwrap_err(), ParseHeaderError::ViewZero);
}

#[test]
fn rejects_views_beyond_the_size() {
    assert_eq!(Header::from_str("5 1 1 1").unwrap_err(), ParseHeaderError::ViewTooLarge);
}

#[test]
fn rejects_views_beyond_eight_bits() {
    assert_eq!(Header::from_str("300 1 1 1").unwrap_err(), ParseHeaderError::ViewTooLarge);
}

#[test]
fn rejects_non_numbers() {
    assert_eq!(Header::from_str("a 1 1 1").unwrap_err(), ParseHeaderError::InvalidInteger);
    assert_eq!(Header::from_str("1x 1 1 1").unwrap_err(), ParseHeaderError::InvalidInteger);
}

#[test]
fn rejects_too_many_views() {
    let mut text = String::new();
    for _ in 0..1024 {
        text.push_str("1 ");
    }
    assert_eq!(Header::from_str(&text).unwrap_err(), ParseHeaderError::TooManyViews);
}

#[test]
fn empty_header_parses_as_size_zero() {
    // the program turns a size of zero into its own exit code before any
    // solving happens
    let h = Header::from_str("").unwrap();
    assert!(h.0.is_empty());
}

#[test]
fn error_messages_name_the_problem() {
    assert!(ParseHeaderError::ViewZero.message().contains("0"));
    assert!(ParseHeaderError::InvalidViewCount.message().contains("4"));
}
