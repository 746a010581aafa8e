//! Undo and redo stacks for the command document.
//!
//! Each recorded action carries exactly the data needed to invert itself;
//! the session ([`crate::session`]) applies inversions to the document and
//! keeps both stacks consistent with it.

use vstd::prelude::*;

verus! {

/// An action recorded for undo.  Each variant stores what is needed to
/// reverse or replay it.
pub enum UndoAction {
    /// A component was inserted at `position`.  To undo: delete the
    /// component at `position`.
    Insert { position: usize },
    /// A component's value changed at `position`.  To undo: restore
    /// `original_value`; to redo: apply `updated_value`.
    Edit { position: usize, original_value: String, updated_value: String },
    /// A component was deleted from `position`.  To undo: re-insert
    /// `deleted_value` at `position`.
    Delete { position: usize, deleted_value: String },
}

/// The mathematical shadow of an [`UndoAction`]: positions as integers,
/// strings as character sequences.
pub enum ActionSpec {
    Insert { position: int },
    Edit { position: int, original: Seq<char>, updated: Seq<char> },
    Delete { position: int, value: Seq<char> },
}

impl View for UndoAction {
    type V = ActionSpec;

    open spec fn view(&self) -> ActionSpec {
        match self {
            UndoAction::Insert { position } => ActionSpec::Insert { position: *position as int },
            UndoAction::Edit { position, original_value, updated_value } => ActionSpec::Edit {
                position: *position as int,
                original: original_value@,
                updated: updated_value@,
            },
            UndoAction::Delete { position, deleted_value } => ActionSpec::Delete {
                position: *position as int,
                value: deleted_value@,
            },
        }
    }
}

impl DeepView for UndoAction {
    type V = ActionSpec;

    open spec fn deep_view(&self) -> ActionSpec {
        self.view()
    }
}

/// Two ordered stacks of reversible actions: `undo_stack` holds what can
/// be undone (most recent last), `redo_stack` what has been undone and can
/// be redone.
pub struct Undo {
    undo_stack: Vec<UndoAction>,
    redo_stack: Vec<UndoAction>,
}

impl Undo {
    /// The recorded undo actions, oldest first.
    pub closed spec fn undo_actions(&self) -> Seq<ActionSpec> {
        self.undo_stack.deep_view()
    }

    /// The recorded redo actions, oldest first.
    pub closed spec fn redo_actions(&self) -> Seq<ActionSpec> {
        self.redo_stack.deep_view()
    }

    /// An empty pair of stacks.
    pub fn new() -> (r: Undo)
        ensures
            r.undo_actions() == Seq::<ActionSpec>::empty(),
            r.redo_actions() == Seq::<ActionSpec>::empty(),
    {
        let r = Undo { undo_stack: Vec::new(), redo_stack: Vec::new() };
        proof {
            assert(r.undo_actions() =~= Seq::<ActionSpec>::empty());
            assert(r.redo_actions() =~= Seq::<ActionSpec>::empty());
        }
        r
    }

    /// How many actions the undo stack holds.
    pub fn undo_len(&self) -> (r: usize)
        ensures
            r == self.undo_actions().len(),
    {
        self.undo_stack.len()
    }

    /// How many actions the redo stack holds.
    pub fn redo_len(&self) -> (r: usize)
        ensures
            r == self.redo_actions().len(),
    {
        self.redo_stack.len()
    }

    /// Pushes an action onto the undo stack; clears the redo stack iff
    /// `clear_redo` (true for fresh user edits, false while redoing).
    pub fn push(&mut self, action: UndoAction, clear_redo: bool)
        ensures
            final(self).undo_actions() == old(self).undo_actions().push(action@),
            final(self).redo_actions() == if clear_redo {
                Seq::<ActionSpec>::empty()
            } else {
                old(self).redo_actions()
            },
    {
        let ghost pre = self.undo_stack.deep_view();
        self.undo_stack.push(action);
        if clear_redo {
            self.redo_stack.clear();
        }
        proof {
            assert(self.undo_stack.deep_view() =~= pre.push(action@));
            if clear_redo {
                assert(self.redo_stack.deep_view() =~= Seq::<ActionSpec>::empty());
            }
        }
    }

    /// Pops the most recent action from the undo stack; `None` and no
    /// change when it is empty.
    pub fn pop(&mut self) -> (r: Option<UndoAction>)
        ensures
            final(self).redo_actions() == old(self).redo_actions(),
            match r {
                None => old(self).undo_actions().len() == 0 && final(self).undo_actions() == old(
                    self,
                ).undo_actions(),
                Some(a) => old(self).undo_actions().len() > 0 && a@ == old(
                    self,
                ).undo_actions().last() && final(self).undo_actions() == old(
                    self,
                ).undo_actions().drop_last(),
            },
    {
        let ghost pre = self.undo_stack.deep_view();
        let r = self.undo_stack.pop();
        proof {
            if pre.len() > 0 {
                assert(self.undo_stack.deep_view() =~= pre.drop_last());
            }
        }
        r
    }

    /// Pushes an action onto the redo stack.
    pub fn push_redo(&mut self, action: UndoAction)
        ensures
            final(self).undo_actions() == old(self).undo_actions(),
            final(self).redo_actions() == old(self).redo_actions().push(action@),
    {
        let ghost pre = self.redo_stack.deep_view();
        self.redo_stack.push(action);
        proof {
            assert(self.redo_stack.deep_view() =~= pre.push(action@));
        }
    }

    /// Pops the most recent action from the redo stack; `None` and no
    /// change when it is empty.
    pub fn pop_redo(&mut self) -> (r: Option<UndoAction>)
        ensures
            final(self).undo_actions() == old(self).undo_actions(),
            match r {
                None => old(self).redo_actions().len() == 0 && final(self).redo_actions() == old(
                    self,
                ).redo_actions(),
                Some(a) => old(self).redo_actions().len() > 0 && a@ == old(
                    self,
                ).redo_actions().last() && final(self).redo_actions() == old(
                    self,
                ).redo_actions().drop_last(),
            },
    {
        let ghost pre = self.redo_stack.deep_view();
        let r = self.redo_stack.pop();
        proof {
            if pre.len() > 0 {
                assert(self.redo_stack.deep_view() =~= pre.drop_last());
            }
        }
        r
    }
}

impl Default for Undo {
    /// An empty pair of stacks.
    fn default() -> (r: Undo)
        ensures
            r.undo_actions() == Seq::<ActionSpec>::empty(),
            r.redo_actions() == Seq::<ActionSpec>::empty(),
    {
        Undo::new()
    }
}

} // verus!
