//! One editing session: the command document, the undo/redo stacks, and
//! the current selection, kept consistent with each other.
//!
//! Every mutation records the action that inverts it.  `undo` pops the
//! most recent action, applies its inversion to the document, and pushes
//! the action that redoes it; `redo` is the exact mirror.  The proof
//! functions at the end state the inverse laws: undoing a whole sequence
//! of edits restores the document that preceded them, and redoing
//! everything afterwards replays the edits forward.

use vstd::prelude::*;

use crate::command::Command;
use crate::undo::ActionSpec;
use crate::undo::Undo;
use crate::undo::UndoAction;

verus! {

/// Whether a recorded action can be inverted against `doc`.
pub open spec fn action_applies(a: ActionSpec, doc: Seq<Seq<char>>) -> bool {
    match a {
        ActionSpec::Insert { position } => 0 <= position < doc.len(),
        ActionSpec::Edit { position, original, updated } => 0 <= position < doc.len()
            && doc[position] == updated,
        ActionSpec::Delete { position, value } => 0 <= position <= doc.len(),
    }
}

/// The document after inverting `a`: an insertion is removed, an edit is
/// set back to its original value, a deletion is re-inserted.
pub open spec fn apply_action(doc: Seq<Seq<char>>, a: ActionSpec) -> Seq<Seq<char>> {
    match a {
        ActionSpec::Insert { position } => doc.remove(position),
        ActionSpec::Edit { position, original, updated } => doc.update(position, original),
        ActionSpec::Delete { position, value } => doc.insert(position, value),
    }
}

/// The action whose inversion takes `apply_action(doc, a)` back to `doc`:
/// what `undo` pushes onto the redo stack.
pub open spec fn inverse_action(a: ActionSpec, doc: Seq<Seq<char>>) -> ActionSpec {
    match a {
        ActionSpec::Insert { position } => ActionSpec::Delete { position, value: doc[position] },
        ActionSpec::Edit { position, original, updated } => ActionSpec::Edit {
            position,
            original: updated,
            updated: original,
        },
        ActionSpec::Delete { position, value } => ActionSpec::Insert { position },
    }
}

/// Whether the whole stack can be inverted in order against `doc`: the
/// top action applies now, and the rest apply to what remains.
pub open spec fn stack_applies(doc: Seq<Seq<char>>, stack: Seq<ActionSpec>) -> bool
    decreases stack.len(),
{
    stack.len() == 0 || {
        action_applies(stack.last(), doc) && stack_applies(
            apply_action(doc, stack.last()),
            stack.drop_last(),
        )
    }
}

/// The selection after the document length changed to `len`: cleared when
/// the document is empty, otherwise clamped to the last valid index.
pub open spec fn repair_selection(sel: Option<usize>, len: int) -> Option<usize> {
    if len == 0 {
        None
    } else {
        match sel {
            None => None,
            Some(i) => if i < len {
                Some(i)
            } else {
                Some((len - 1) as usize)
            },
        }
    }
}

/// The command document together with its undo/redo stacks and the current
/// selection.
pub struct EditSession {
    doc: Command,
    history: Undo,
    selected: Option<usize>,
}

impl EditSession {
    /// The components of the document.
    pub closed spec fn doc_view(&self) -> Seq<Seq<char>> {
        self.doc@
    }

    /// The undo stack, oldest action first.
    pub closed spec fn undo_view(&self) -> Seq<ActionSpec> {
        self.history.undo_actions()
    }

    /// The redo stack, oldest action first.
    pub closed spec fn redo_view(&self) -> Seq<ActionSpec> {
        self.history.redo_actions()
    }

    /// The current selection.
    pub closed spec fn selected_view(&self) -> Option<usize> {
        self.selected
    }

    /// Both stacks can be inverted against the document, and the selection
    /// is a valid index (or absent).
    pub open spec fn wf(&self) -> bool {
        &&& stack_applies(self.doc_view(), self.undo_view())
        &&& stack_applies(self.doc_view(), self.redo_view())
        &&& match self.selected_view() {
            None => true,
            Some(i) => i < self.doc_view().len(),
        }
    }

    /// Starts a session on a freshly parsed document: empty stacks, the
    /// first component selected when there is one.
    pub fn new(doc: Command) -> (r: EditSession)
        ensures
            r.wf(),
            r.doc_view() == doc@,
            r.undo_view() == Seq::<ActionSpec>::empty(),
            r.redo_view() == Seq::<ActionSpec>::empty(),
            r.selected_view() == if doc@.len() > 0 {
                Some(0usize)
            } else {
                None::<usize>
            },
    {
        let selected = if doc.component_count() > 0 {
            Some(0usize)
        } else {
            None
        };
        EditSession { doc, history: Undo::new(), selected }
    }

    /// The document, read-only.
    pub fn document(&self) -> (r: &Command)
        ensures
            r@ == self.doc_view(),
    {
        &self.doc
    }

    /// The current selection.
    pub fn selected(&self) -> (r: Option<usize>)
        ensures
            r == self.selected_view(),
    {
        self.selected
    }

    /// Selects the component at `index`.
    pub fn select(&mut self, index: usize)
        requires
            old(self).wf(),
            index < old(self).doc_view().len(),
        ensures
            final(self).wf(),
            final(self).doc_view() == old(self).doc_view(),
            final(self).undo_view() == old(self).undo_view(),
            final(self).redo_view() == old(self).redo_view(),
            final(self).selected_view() == Some(index),
    {
        self.selected = Some(index);
    }

    /// Whether an undo step is available.
    pub fn can_undo(&self) -> (r: bool)
        ensures
            r == (self.undo_view().len() > 0),
    {
        self.history.undo_len() > 0
    }

    /// Whether a redo step is available.
    pub fn can_redo(&self) -> (r: bool)
        ensures
            r == (self.redo_view().len() > 0),
    {
        self.history.redo_len() > 0
    }

    /// Inserts a component at `index` as a fresh user edit: the later
    /// components shift right by one, the selection follows to the new
    /// index, an `Insert` action is recorded, and the redo history is
    /// invalidated.
    pub fn insert_at(&mut self, index: usize, value: String)
        requires
            old(self).wf(),
            index <= old(self).doc_view().len(),
        ensures
            final(self).wf(),
            final(self).doc_view() == old(self).doc_view().insert(index as int, value@),
            final(self).undo_view() == old(self).undo_view().push(
                ActionSpec::Insert { position: index as int },
            ),
            final(self).redo_view() == Seq::<ActionSpec>::empty(),
            final(self).selected_view() == Some(index),
    {
        let ghost doc0 = self.doc@;
        self.doc.insert_component_at(index, value);
        self.history.push(UndoAction::Insert { position: index }, true);
        self.selected = Some(index);
        proof {
            let a = ActionSpec::Insert { position: index as int };
            assert(apply_action(self.doc@, a) =~= doc0);
            lemma_stack_applies_push(doc0, old(self).undo_view(), a, self.doc@);
        }
    }

    /// Replaces the value of the component at `index` as a fresh user
    /// edit: an `Edit` action recording both values is pushed, and the
    /// redo history is invalidated.  The selection does not move.
    pub fn edit_at(&mut self, index: usize, new_value: &str)
        requires
            old(self).wf(),
            index < old(self).doc_view().len(),
        ensures
            final(self).wf(),
            final(self).doc_view() == old(self).doc_view().update(index as int, new_value@),
            final(self).undo_view() == old(self).undo_view().push(
                ActionSpec::Edit {
                    position: index as int,
                    original: old(self).doc_view()[index as int],
                    updated: new_value@,
                },
            ),
            final(self).redo_view() == Seq::<ActionSpec>::empty(),
            final(self).selected_view() == old(self).selected_view(),
    {
        let ghost doc0 = self.doc@;
        let previous = self.doc.set_value_at(index, new_value);
        let updated = new_value.to_owned();
        self.history.push(
            UndoAction::Edit { position: index, original_value: previous, updated_value: updated },
            true,
        );
        proof {
            let a = ActionSpec::Edit {
                position: index as int,
                original: doc0[index as int],
                updated: new_value@,
            };
            assert(apply_action(self.doc@, a) =~= doc0);
            lemma_stack_applies_push(doc0, old(self).undo_view(), a, self.doc@);
        }
    }

    /// Removes the component at `index` as a fresh user edit: the later
    /// components shift left by one, the selection is clamped (and cleared
    /// when the document empties), a `Delete` action carrying the removed
    /// component is recorded, and the redo history is invalidated.
    pub fn remove_at(&mut self, index: usize) -> (r: String)
        requires
            old(self).wf(),
            index < old(self).doc_view().len(),
        ensures
            final(self).wf(),
            r@ == old(self).doc_view()[index as int],
            final(self).doc_view() == old(self).doc_view().remove(index as int),
            final(self).undo_view() == old(self).undo_view().push(
                ActionSpec::Delete { position: index as int, value: r@ },
            ),
            final(self).redo_view() == Seq::<ActionSpec>::empty(),
            final(self).selected_view() == repair_selection(
                old(self).selected_view(),
                final(self).doc_view().len() as int,
            ),
    {
        let ghost doc0 = self.doc@;
        let removed = self.doc.remove_component_at(index);
        let kept = clone_string(&removed);
        self.history.push(UndoAction::Delete { position: index, deleted_value: kept }, true);
        self.repair_selection_now();
        proof {
            let a = ActionSpec::Delete { position: index as int, value: removed@ };
            assert(apply_action(self.doc@, a) =~= doc0);
            lemma_stack_applies_push(doc0, old(self).undo_view(), a, self.doc@);
        }
        removed
    }

    /// Clamps the selection to the document, clearing it when the document
    /// is empty.
    fn repair_selection_now(&mut self)
        ensures
            final(self).doc == old(self).doc,
            final(self).history == old(self).history,
            final(self).selected_view() == repair_selection(
                old(self).selected_view(),
                old(self).doc_view().len() as int,
            ),
    {
        let len = self.doc.component_count();
        if len == 0 {
            self.selected = None;
        } else {
            match self.selected {
                None => {},
                Some(i) => {
                    if i >= len {
                        self.selected = Some(len - 1);
                    }
                },
            }
        }
    }

    /// Undoes the most recent action, if any: inverts it against the
    /// document, pushes the action that redoes it onto the redo stack,
    /// and repairs the selection.  A silent no-op on an empty undo stack.
    pub fn undo(&mut self)
        requires
            old(self).wf(),
        ensures
            final(self).wf(),
            old(self).undo_view().len() == 0 ==> {
                &&& final(self).doc_view() == old(self).doc_view()
                &&& final(self).undo_view() == old(self).undo_view()
                &&& final(self).redo_view() == old(self).redo_view()
                &&& final(self).selected_view() == old(self).selected_view()
            },
            old(self).undo_view().len() > 0 ==> {
                let a = old(self).undo_view().last();
                &&& final(self).doc_view() == apply_action(old(self).doc_view(), a)
                &&& final(self).undo_view() == old(self).undo_view().drop_last()
                &&& final(self).redo_view() == old(self).redo_view().push(
                    inverse_action(a, old(self).doc_view()),
                )
                &&& final(self).selected_view() == repair_selection(
                    old(self).selected_view(),
                    final(self).doc_view().len() as int,
                )
            },
    {
        let ghost doc0 = self.doc@;
        match self.history.pop() {
            None => {},
            Some(action) => {
                let ghost a = action@;
                match action {
                    UndoAction::Insert { position } => {
                        let removed = self.doc.remove_component_at(position);
                        self.history.push_redo(
                            UndoAction::Delete { position, deleted_value: removed },
                        );
                    },
                    UndoAction::Edit { position, original_value, updated_value } => {
                        let previous = self.doc.set_value_at(position, original_value.as_str());
                        self.history.push_redo(
                            UndoAction::Edit {
                                position,
                                original_value: previous,
                                updated_value: original_value,
                            },
                        );
                    },
                    UndoAction::Delete { position, deleted_value } => {
                        self.doc.insert_component_at(position, deleted_value);
                        self.history.push_redo(UndoAction::Insert { position });
                    },
                }
                self.repair_selection_now();
                proof {
                    lemma_apply_inverse(doc0, a);
                    lemma_stack_applies_push(
                        doc0,
                        old(self).redo_view(),
                        inverse_action(a, doc0),
                        self.doc@,
                    );
                }
            },
        }
    }

    /// Redoes the most recently undone action, if any: re-applies its
    /// forward effect, pushes it back onto the undo stack without touching
    /// the rest of the redo history, and repairs the selection.  A silent
    /// no-op on an empty redo stack.
    pub fn redo(&mut self)
        requires
            old(self).wf(),
        ensures
            final(self).wf(),
            old(self).redo_view().len() == 0 ==> {
                &&& final(self).doc_view() == old(self).doc_view()
                &&& final(self).undo_view() == old(self).undo_view()
                &&& final(self).redo_view() == old(self).redo_view()
                &&& final(self).selected_view() == old(self).selected_view()
            },
            old(self).redo_view().len() > 0 ==> {
                let a = old(self).redo_view().last();
                &&& final(self).doc_view() == apply_action(old(self).doc_view(), a)
                &&& final(self).redo_view() == old(self).redo_view().drop_last()
                &&& final(self).undo_view() == old(self).undo_view().push(
                    inverse_action(a, old(self).doc_view()),
                )
                &&& final(self).selected_view() == repair_selection(
                    old(self).selected_view(),
                    final(self).doc_view().len() as int,
                )
            },
    {
        let ghost doc0 = self.doc@;
        match self.history.pop_redo() {
            None => {},
            Some(action) => {
                let ghost a = action@;
                match action {
                    UndoAction::Insert { position } => {
                        let removed = self.doc.remove_component_at(position);
                        self.history.push(
                            UndoAction::Delete { position, deleted_value: removed },
                            false,
                        );
                    },
                    UndoAction::Edit { position, original_value, updated_value } => {
                        let previous = self.doc.set_value_at(position, original_value.as_str());
                        self.history.push(
                            UndoAction::Edit {
                                position,
                                original_value: previous,
                                updated_value: original_value,
                            },
                            false,
                        );
                    },
                    UndoAction::Delete { position, deleted_value } => {
                        self.doc.insert_component_at(position, deleted_value);
                        self.history.push(UndoAction::Insert { position }, false);
                    },
                }
                self.repair_selection_now();
                proof {
                    lemma_apply_inverse(doc0, a);
                    lemma_stack_applies_push(
                        doc0,
                        old(self).undo_view(),
                        inverse_action(a, doc0),
                        self.doc@,
                    );
                }
            },
        }
    }
}

/// Relies on `String::clone`: the copy equals the original.
fn clone_string(s: &String) -> (r: String)
    ensures
        r@ == s@,
{
    s.clone()
}

/// Pushing an action that undoes the latest document change keeps the
/// whole stack invertible.
proof fn lemma_stack_applies_push(
    doc0: Seq<Seq<char>>,
    stack: Seq<ActionSpec>,
    a: ActionSpec,
    doc1: Seq<Seq<char>>,
)
    requires
        stack_applies(doc0, stack),
        action_applies(a, doc1),
        apply_action(doc1, a) == doc0,
    ensures
        stack_applies(doc1, stack.push(a)),
{
    assert(stack.push(a).last() == a);
    assert(stack.push(a).drop_last() =~= stack);
}

/// Inverting an action and then inverting its inverse restores the
/// document, and the inverse applies to the changed document.
pub proof fn lemma_apply_inverse(doc: Seq<Seq<char>>, a: ActionSpec)
    requires
        action_applies(a, doc),
    ensures
        action_applies(inverse_action(a, doc), apply_action(doc, a)),
        apply_action(apply_action(doc, a), inverse_action(a, doc)) == doc,
{
    match a {
        ActionSpec::Insert { position } => {
            assert(apply_action(apply_action(doc, a), inverse_action(a, doc)) =~= doc);
        },
        ActionSpec::Edit { position, original, updated } => {
            assert(apply_action(apply_action(doc, a), inverse_action(a, doc)) =~= doc);
        },
        ActionSpec::Delete { position, value } => {
            assert(apply_action(apply_action(doc, a), inverse_action(a, doc)) =~= doc);
        },
    }
}

/// An edit requested of the document, in mathematical form.
pub enum DocOp {
    /// Insert `value` at `position`.
    InsertOp { position: int, value: Seq<char> },
    /// Replace the component at `position` with `value`.
    EditOp { position: int, value: Seq<char> },
    /// Remove the component at `position`.
    DeleteOp { position: int },
}

/// Whether `op` addresses a valid position of `doc`.
pub open spec fn op_valid(op: DocOp, doc: Seq<Seq<char>>) -> bool {
    match op {
        DocOp::InsertOp { position, value } => 0 <= position <= doc.len(),
        DocOp::EditOp { position, value } => 0 <= position < doc.len(),
        DocOp::DeleteOp { position } => 0 <= position < doc.len(),
    }
}

/// The document after performing `op`.
pub open spec fn do_op(doc: Seq<Seq<char>>, op: DocOp) -> Seq<Seq<char>> {
    match op {
        DocOp::InsertOp { position, value } => doc.insert(position, value),
        DocOp::EditOp { position, value } => doc.update(position, value),
        DocOp::DeleteOp { position } => doc.remove(position),
    }
}

/// The action the session records when performing `op` on `doc`.
pub open spec fn record_of(op: DocOp, doc: Seq<Seq<char>>) -> ActionSpec {
    match op {
        DocOp::InsertOp { position, value } => ActionSpec::Insert { position },
        DocOp::EditOp { position, value } => ActionSpec::Edit {
            position,
            original: doc[position],
            updated: value,
        },
        DocOp::DeleteOp { position } => ActionSpec::Delete { position, value: doc[position] },
    }
}

/// Whether each op in turn addresses a valid position.
pub open spec fn ops_valid(doc: Seq<Seq<char>>, ops: Seq<DocOp>) -> bool
    decreases ops.len(),
{
    ops.len() == 0 || {
        op_valid(ops[0], doc) && ops_valid(do_op(doc, ops[0]), ops.drop_first())
    }
}

/// The document after performing all of `ops` in order.
pub open spec fn run_ops(doc: Seq<Seq<char>>, ops: Seq<DocOp>) -> Seq<Seq<char>>
    decreases ops.len(),
{
    if ops.len() == 0 {
        doc
    } else {
        run_ops(do_op(doc, ops[0]), ops.drop_first())
    }
}

/// The undo stack the session builds while performing `ops`, oldest
/// action first.
pub open spec fn records_of(doc: Seq<Seq<char>>, ops: Seq<DocOp>) -> Seq<ActionSpec>
    decreases ops.len(),
{
    if ops.len() == 0 {
        Seq::empty()
    } else {
        seq![record_of(ops[0], doc)] + records_of(do_op(doc, ops[0]), ops.drop_first())
    }
}

/// The document after inverting the whole stack, top first: what repeated
/// `undo` calls produce.
pub open spec fn unwind_all(doc: Seq<Seq<char>>, stack: Seq<ActionSpec>) -> Seq<Seq<char>>
    decreases stack.len(),
{
    if stack.len() == 0 {
        doc
    } else {
        unwind_all(apply_action(doc, stack.last()), stack.drop_last())
    }
}

/// The redo stack built while unwinding the whole `stack` against `doc`,
/// oldest entry first: what repeated `undo` calls leave for `redo`.
pub open spec fn inverses_of(doc: Seq<Seq<char>>, stack: Seq<ActionSpec>) -> Seq<ActionSpec>
    decreases stack.len(),
{
    if stack.len() == 0 {
        Seq::empty()
    } else {
        seq![inverse_action(stack.last(), doc)] + inverses_of(
            apply_action(doc, stack.last()),
            stack.drop_last(),
        )
    }
}

proof fn lemma_unwind_prepend(doc: Seq<Seq<char>>, a: ActionSpec, stack: Seq<ActionSpec>)
    ensures
        unwind_all(doc, seq![a] + stack) == apply_action(unwind_all(doc, stack), a),
    decreases stack.len(),
{
    let s = seq![a] + stack;
    if stack.len() == 0 {
        assert(s.last() == a);
        assert(s.drop_last() =~= Seq::<ActionSpec>::empty());
        assert(unwind_all(doc, s) == unwind_all(apply_action(doc, a), s.drop_last()));
        assert(unwind_all(apply_action(doc, a), s.drop_last()) == apply_action(doc, a));
        assert(unwind_all(doc, stack) == doc);
    } else {
        let d1 = apply_action(doc, stack.last());
        assert(s.last() == stack.last());
        assert(s.drop_last() =~= seq![a] + stack.drop_last());
        lemma_unwind_prepend(d1, a, stack.drop_last());
        assert(unwind_all(doc, s) == unwind_all(d1, seq![a] + stack.drop_last()));
        assert(unwind_all(doc, stack) == unwind_all(d1, stack.drop_last()));
    }
}

/// Performing an edit and then inverting the recorded action restores the
/// document; the recorded action applies to the changed document.
pub proof fn lemma_record_inverts_op(doc: Seq<Seq<char>>, op: DocOp)
    requires
        op_valid(op, doc),
    ensures
        action_applies(record_of(op, doc), do_op(doc, op)),
        apply_action(do_op(doc, op), record_of(op, doc)) == doc,
{
    match op {
        DocOp::InsertOp { position, value } => {
            assert(apply_action(do_op(doc, op), record_of(op, doc)) =~= doc);
        },
        DocOp::EditOp { position, value } => {
            assert(apply_action(do_op(doc, op), record_of(op, doc)) =~= doc);
        },
        DocOp::DeleteOp { position } => {
            assert(apply_action(do_op(doc, op), record_of(op, doc)) =~= doc);
        },
    }
}

/// The undo inverse law: for any valid sequence of insert, edit and
/// delete operations, undoing as many times as there were operations
/// reproduces the exact prior document, and the actions recorded along
/// the way all remain invertible.
pub proof fn lemma_undo_restores(doc: Seq<Seq<char>>, ops: Seq<DocOp>)
    requires
        ops_valid(doc, ops),
    ensures
        unwind_all(run_ops(doc, ops), records_of(doc, ops)) == doc,
        stack_applies(run_ops(doc, ops), records_of(doc, ops)),
    decreases ops.len(),
{
    if ops.len() == 0 {
    } else {
        let op = ops[0];
        let doc1 = do_op(doc, op);
        let r = record_of(op, doc);
        lemma_undo_restores(doc1, ops.drop_first());
        lemma_unwind_prepend(run_ops(doc, ops), r, records_of(doc1, ops.drop_first()));
        lemma_record_inverts_op(doc, op);
        lemma_stack_applies_prepend(run_ops(doc, ops), r, records_of(doc1, ops.drop_first()), doc1);
    }
}

proof fn lemma_stack_applies_prepend(
    doc: Seq<Seq<char>>,
    a: ActionSpec,
    stack: Seq<ActionSpec>,
    mid: Seq<Seq<char>>,
)
    requires
        stack_applies(doc, stack),
        unwind_all(doc, stack) == mid,
        action_applies(a, mid),
    ensures
        stack_applies(doc, seq![a] + stack),
    decreases stack.len(),
{
    let s = seq![a] + stack;
    if stack.len() == 0 {
        assert(s.last() == a);
        assert(s.drop_last() =~= Seq::<ActionSpec>::empty());
        assert(unwind_all(doc, stack) == doc);
        assert(action_applies(a, doc));
        assert(stack_applies(apply_action(doc, a), s.drop_last()));
        assert(stack_applies(doc, s));
    } else {
        let d1 = apply_action(doc, stack.last());
        assert(s.last() == stack.last());
        assert(s.drop_last() =~= seq![a] + stack.drop_last());
        assert(unwind_all(doc, stack) == unwind_all(d1, stack.drop_last()));
        lemma_stack_applies_prepend(d1, a, stack.drop_last(), mid);
        assert(stack_applies(doc, s));
    }
}

/// The redo inverse law: after undoing a whole stack of recorded actions,
/// redoing everything the undos left behind replays the document forward
/// to exactly the state before the undos.
pub proof fn lemma_redo_replays(doc: Seq<Seq<char>>, stack: Seq<ActionSpec>)
    requires
        stack_applies(doc, stack),
    ensures
        unwind_all(unwind_all(doc, stack), inverses_of(doc, stack)) == doc,
        stack_applies(unwind_all(doc, stack), inverses_of(doc, stack)),
    decreases stack.len(),
{
    if stack.len() == 0 {
    } else {
        let a = stack.last();
        let doc1 = apply_action(doc, a);
        let bottom = unwind_all(doc, stack);
        lemma_redo_replays(doc1, stack.drop_last());
        lemma_unwind_prepend(bottom, inverse_action(a, doc), inverses_of(doc1, stack.drop_last()));
        lemma_apply_inverse(doc, a);
        lemma_stack_applies_prepend(
            bottom,
            inverse_action(a, doc),
            inverses_of(doc1, stack.drop_last()),
            doc1,
        );
    }
}

} // verus!
