//! Tests for the editing session: document edits, selection repair, and
//! the undo/redo inverse behavior.

use te::command::Command;
use te::session::EditSession;
use te::undo::Undo;
use te::undo::UndoAction;

fn session_for(line: &str) -> EditSession {
    EditSession::new(Command::try_from(line).unwrap())
}

fn doc_words(s: &EditSession) -> Vec<String> {
    s.document().iter_components().clone()
}

#[test]
fn test_remove_at_middle_keeps_order() {
    let mut s = session_for("kubectl get pods -n default");
    s.select(2);
    s.remove_at(2);
    assert_eq!(s.document().component_count(), 4);
    assert_eq!(s.document().component_at(2), "-n");
    assert_eq!(s.selected(), Some(2));
}

#[test]
fn test_remove_last_clamps_selection() {
    let mut s = session_for("kubectl get pods");
    s.select(2);
    s.remove_at(2);
    assert_eq!(s.document().component_count(), 2);
    assert_eq!(s.selected(), Some(1));
}

#[test]
fn test_remove_only_component_clears_selection() {
    let mut s = session_for("kubectl");
    s.remove_at(0);
    assert_eq!(s.document().component_count(), 0);
    assert_eq!(s.selected(), None);
}

#[test]
fn test_insert_at_selected_shifts_right_and_follows() {
    let mut s = session_for("kubectl get pods");
    s.select(1);
    s.insert_at(1, String::new());
    assert_eq!(s.document().component_count(), 4);
    assert_eq!(s.document().component_at(1), "");
    assert_eq!(s.document().component_at(2), "get");
    assert_eq!(s.selected(), Some(1));
}

#[test]
fn test_undo_redo_single_edit() {
    let mut s = session_for("kubectl get pods");
    s.edit_at(2, "services");
    assert_eq!(s.document().component_at(2), "services");
    s.undo();
    assert_eq!(s.document().component_at(2), "pods");
    s.redo();
    assert_eq!(s.document().component_at(2), "services");
}

#[test]
fn test_undo_redo_sequence_restores_exactly() {
    let mut s = session_for("kubectl get pods -n default");
    let before = doc_words(&s);

    s.edit_at(2, "services");
    s.remove_at(4);
    s.insert_at(0, String::from("env"));
    let after = doc_words(&s);

    s.undo();
    s.undo();
    s.undo();
    assert_eq!(doc_words(&s), before);

    s.redo();
    s.redo();
    s.redo();
    assert_eq!(doc_words(&s), after);
}

#[test]
fn test_undo_on_empty_stack_is_noop() {
    let mut s = session_for("kubectl get");
    let before = doc_words(&s);
    s.undo();
    assert_eq!(doc_words(&s), before);
    s.redo();
    assert_eq!(doc_words(&s), before);
}

#[test]
fn test_new_edit_clears_redo() {
    let mut s = session_for("kubectl get pods");
    s.edit_at(2, "services");
    s.undo();
    assert!(s.can_redo());
    s.edit_at(1, "describe");
    assert!(!s.can_redo());
}

#[test]
fn test_undo_of_remove_reinserts_component() {
    let mut s = session_for("kubectl get pods");
    let removed = s.remove_at(1);
    assert_eq!(removed, "get");
    assert_eq!(s.document().component_count(), 2);
    s.undo();
    assert_eq!(s.document().component_count(), 3);
    assert_eq!(s.document().component_at(1), "get");
}

#[test]
fn test_undo_stacks_push_pop() {
    let mut u = Undo::new();
    assert!(matches!(u.pop(), None));
    assert!(matches!(u.pop_redo(), None));

    u.push(UndoAction::Insert { position: 3 }, true);
    u.push(
        UndoAction::Edit {
            position: 1,
            original_value: String::from("a"),
            updated_value: String::from("b"),
        },
        true,
    );
    match u.pop() {
        Some(UndoAction::Edit {
            position,
            original_value,
            updated_value,
        }) => {
            assert_eq!(position, 1);
            assert_eq!(original_value, "a");
            assert_eq!(updated_value, "b");
        }
        _ => panic!("expected the edit on top"),
    }
    match u.pop() {
        Some(UndoAction::Insert { position }) => assert_eq!(position, 3),
        _ => panic!("expected the insert next"),
    }
}

#[test]
fn test_push_clear_redo_empties_redo_stack() {
    let mut u = Undo::new();
    u.push_redo(UndoAction::Insert { position: 0 });
    u.push(UndoAction::Insert { position: 1 }, false);
    assert!(matches!(u.pop_redo(), Some(UndoAction::Insert { position: 0 })));
    u.push_redo(UndoAction::Insert { position: 2 });
    u.push(UndoAction::Insert { position: 3 }, true);
    assert!(matches!(u.pop_redo(), None));
}
