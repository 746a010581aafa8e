//! Tests for parsing the terminal's cursor position report.

use te::term::parse_cursor_report;

#[test]
fn test_cursor_report_well_formed() {
    // ESC [ 12 ; 34 R  -> one-based row 12, column 34
    let bytes = b"\x1b[12;34R".to_vec();
    assert_eq!(parse_cursor_report(&bytes), Some((33, 11)));
}

#[test]
fn test_cursor_report_at_origin() {
    let bytes = b"\x1b[1;1R".to_vec();
    assert_eq!(parse_cursor_report(&bytes), Some((0, 0)));
}

#[test]
fn test_cursor_report_zero_saturates() {
    let bytes = b"\x1b[0;0R".to_vec();
    assert_eq!(parse_cursor_report(&bytes), Some((0, 0)));
}

#[test]
fn test_cursor_report_malformed() {
    assert_eq!(parse_cursor_report(&b"".to_vec()), None);
    assert_eq!(parse_cursor_report(&b"\x1b[12R".to_vec()), None);
    assert_eq!(parse_cursor_report(&b"\x1b[12;34".to_vec()), None);
    assert_eq!(parse_cursor_report(&b"12;34R".to_vec()), None);
    assert_eq!(parse_cursor_report(&b"\x1b[a;bR".to_vec()), None);
    assert_eq!(parse_cursor_report(&b"\x1b[;R".to_vec()), None);
    assert_eq!(parse_cursor_report(&b"\x1b[99999;1R".to_vec()), None);
}
