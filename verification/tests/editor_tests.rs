//! Tests for the scratch editor: input sessions, cursor movement on
//! character boundaries, and deletions.

use te::editor::Editor;

#[test]
fn test_editor_input_session() {
    let mut e = Editor::new();
    assert!(!e.is_editing());
    e.start_input("hello");
    assert!(e.is_editing());
    let value = e.end_input();
    assert_eq!(value, "hello");
    assert!(!e.is_editing());
}

#[test]
fn test_editor_cancel_discards() {
    let mut e = Editor::new();
    e.start_input("hello");
    e.cancel_input();
    assert!(!e.is_editing());
    let value = e.end_input();
    assert_eq!(value, "");
}

#[test]
fn test_editor_typing_and_backspace() {
    let mut e = Editor::new();
    e.start_input("");
    e.input_char('h');
    e.input_char('i');
    e.delete_backward();
    e.input_char('a');
    assert_eq!(e.end_input(), "ha");
}

#[test]
fn test_editor_cursor_moves_by_characters() {
    let mut e = Editor::new();
    e.start_input("a你b");
    // cursor starts at the end: byte 5
    assert_eq!(e.cursor_position(), [4, 0]);
    e.move_cursor_left();
    assert_eq!(e.cursor_position(), [3, 0]);
    e.move_cursor_left();
    // stepping over the three-byte ideograph in one move
    assert_eq!(e.cursor_position(), [1, 0]);
    e.move_cursor_right();
    assert_eq!(e.cursor_position(), [3, 0]);
}

#[test]
fn test_editor_delete_forward_keeps_cursor() {
    let mut e = Editor::new();
    e.start_input("abc");
    e.move_cursor_left();
    e.move_cursor_left();
    e.delete_forward();
    assert_eq!(e.cursor_position(), [1, 0]);
    assert_eq!(e.end_input(), "ac");
}

#[test]
fn test_editor_delete_backward_multibyte() {
    let mut e = Editor::new();
    e.start_input("a你");
    e.delete_backward();
    assert_eq!(e.end_input(), "a");
}

#[test]
fn test_editor_cursor_rows() {
    let mut e = Editor::new();
    e.set_content_width(6);
    e.start_input("hello world");
    assert_eq!(e.content_height(), 2);
    // cursor at the end: row 1, after "world"
    assert_eq!(e.cursor_position(), [5, 1]);
    e.move_cursor_up();
    let p = e.cursor_position();
    assert_eq!(p[1], 0);
    e.move_cursor_down();
    assert_eq!(e.cursor_position()[1], 1);
}

#[test]
fn test_editor_lines_snapshot() {
    let mut e = Editor::new();
    e.set_content_width(6);
    e.start_input("hello world");
    let lines = e.lines();
    assert_eq!(lines.len(), 2);
    assert_eq!(lines[0].content, "hello ");
    assert_eq!(lines[1].content, "world");
}
