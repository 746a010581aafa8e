//! Tests for the wrapping text buffer.

use te::wrap_text::WrapText;
use te::wrap_text::WrapTextLine;
use te::wrap_text::wrap_text;

fn contents(lines: Vec<WrapTextLine>) -> Vec<String> {
    lines.into_iter().map(|l| l.content).collect()
}

#[test]
fn test_wrap_text_empty_string() {
    assert_eq!(contents(wrap_text("", 10)), vec![""]);
}

#[test]
fn test_wrap_text_zero_width() {
    assert_eq!(contents(wrap_text("hello", 0)), vec!["hello"]);
}

#[test]
fn test_wrap_text_fits_within_width() {
    assert_eq!(contents(wrap_text("hello", 10)), vec!["hello"]);
}

#[test]
fn test_wrap_text_exact_width() {
    assert_eq!(contents(wrap_text("hello", 5)), vec!["hello"]);
}

#[test]
fn test_wrap_text_exceeds_width() {
    assert_eq!(
        contents(wrap_text("hello world", 6)),
        vec!["hello ", "world"]
    );
}

#[test]
fn test_wrap_text_long_word_must_break() {
    assert_eq!(contents(wrap_text("abcdefghij", 5)), vec!["abcde", "fghij"]);
}

#[test]
fn test_wrap_text_preserves_newlines() {
    assert_eq!(
        contents(wrap_text("hello\nworld", 20)),
        vec!["hello", "world"]
    );
}

#[test]
fn test_wrap_text_newline_and_wrap() {
    assert_eq!(
        contents(wrap_text("hello\nworld test", 6)),
        vec!["hello", "world ", "test"]
    );
}

#[test]
fn test_wrap_text_multiple_spaces() {
    // Width 8: "hello  " (7) + "w" (1) = 8, fits on first line
    assert_eq!(
        contents(wrap_text("hello  world", 8)),
        vec!["hello  w", "orld"]
    );
    // Width 7: "hello  " (7) fits exactly, "world" goes to next line
    assert_eq!(
        contents(wrap_text("hello  world", 7)),
        vec!["hello  ", "world"]
    );
}

#[test]
fn test_wrap_text_wide_characters_cjk() {
    // CJK characters are typically 2 display units wide
    assert_eq!(contents(wrap_text("你好世界", 4)), vec!["你好", "世界"]);
}

#[test]
fn test_wrap_text_wide_characters_mixed() {
    // "a" = 1, "你" = 2, "b" = 1 -> total 4 display units
    assert_eq!(contents(wrap_text("a你b", 4)), vec!["a你b"]);
    assert_eq!(contents(wrap_text("a你b", 3)), vec!["a你", "b"]);
}

#[test]
fn test_wrap_text_emoji() {
    assert_eq!(contents(wrap_text("ab", 4)), vec!["ab"]);
}

#[test]
fn test_wrap_text_long_sentence() {
    assert_eq!(
        contents(wrap_text("the quick brown fox", 10)),
        vec!["the quick ", "brown fox"]
    );
}

#[test]
fn test_wrap_text_trailing_space() {
    assert_eq!(contents(wrap_text("hello ", 10)), vec!["hello "]);
}

#[test]
fn test_wrap_text_leading_space() {
    assert_eq!(contents(wrap_text(" hello", 10)), vec![" hello"]);
}

#[test]
fn test_wrap_text_byte_ranges() {
    let lines = wrap_text("hello world", 6);
    assert_eq!(lines[0].start_index, 0);
    assert_eq!(lines[0].end_index, 6);
    assert_eq!(lines[1].start_index, 6);
    assert_eq!(lines[1].end_index, 11);
}

#[test]
fn test_wrap_text_newline_byte_ranges() {
    // The newline is consumed: it belongs to neither adjacent line.
    let lines = wrap_text("ab\ncd", 10);
    assert_eq!(lines[0].start_index, 0);
    assert_eq!(lines[0].end_index, 2);
    assert_eq!(lines[1].start_index, 3);
    assert_eq!(lines[1].end_index, 5);
}

#[test]
fn test_position_index_round_trip_ascii() {
    let w = WrapText::new("hello world", 6);
    for i in 0..12usize {
        let p = w.position(i);
        assert_eq!(w.index_at_position(p), i);
    }
}

#[test]
fn test_position_index_round_trip_cjk() {
    // Each ideograph is three bytes; valid boundaries step by three.
    let w = WrapText::new("你好世界", 4);
    for k in 0..5usize {
        let i = 3 * k;
        let p = w.position(i);
        assert_eq!(w.index_at_position(p), i);
    }
}

#[test]
fn test_position_reports_columns_by_display_width() {
    let w = WrapText::new("a你b", 10);
    assert_eq!(w.position(0), [0, 0]);
    assert_eq!(w.position(1), [1, 0]);
    // the ideograph occupies two columns
    assert_eq!(w.position(4), [3, 0]);
}

#[test]
fn test_wrap_text_set_text_and_len() {
    let mut w = WrapText::new("", 10);
    assert_eq!(w.len(), 0);
    assert_eq!(w.height(), 1);
    w.set_text("hello world");
    assert_eq!(w.len(), 11);
    assert_eq!(w.text(), "hello world");
    assert_eq!(w.height(), 2);
    w.set_width(20);
    assert_eq!(w.height(), 1);
    w.clear();
    assert_eq!(w.len(), 0);
    assert_eq!(w.height(), 0);
}

#[test]
fn test_wrap_text_insert_remove() {
    let mut w = WrapText::new("helo", 10);
    w.insert(3, 'l');
    assert_eq!(w.text(), "hello");
    w.remove(0);
    assert_eq!(w.text(), "ello");
}
