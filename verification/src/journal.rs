//! The undo/redo journal: two stacks of paired transitions, each entry stamped
//! with a journal-assigned id.
//!
//! Entries are only ever appended and moved between the two stacks; recording
//! a fresh transition clears the redo stack so an entry never contradicts a
//! transition recorded after it.
use vstd::prelude::*;

verus! {

/// A paired undo and redo transition, not yet stamped with a journal id.
pub struct Transition<T> {
    /// Transition that returns the state to what it was.
    pub undo: T,
    /// Transition that reproduces the change.
    pub redo: T,
}

/// One reversible step, identified by a journal-assigned id.
pub struct JournalEntry<T> {
    /// Journal-assigned id, increasing in recording order.
    pub id: u64,
    /// Transition that returns the state to what it was.
    pub undo: T,
    /// Transition that reproduces the change.
    pub redo: T,
}

/// The unified undo/redo journal: two stacks of resolved transitions.
pub struct Journal<T> {
    next_id: u64,
    undo_stack: Vec<JournalEntry<T>>,
    redo_stack: Vec<JournalEntry<T>>,
}

impl<T> Journal<T> {
    /// The id the next recorded entry receives.
    pub closed spec fn next_id(&self) -> u64 {
        self.next_id
    }

    /// Entries that can be undone, oldest first.
    pub closed spec fn undo_entries(&self) -> Seq<JournalEntry<T>> {
        self.undo_stack@
    }

    /// Entries that can be redone, least recently undone first.
    pub closed spec fn redo_entries(&self) -> Seq<JournalEntry<T>> {
        self.redo_stack@
    }

    /// An empty journal.
    pub fn new() -> (j: Journal<T>)
        ensures
            j.next_id() == 0,
            j.undo_entries() == Seq::<JournalEntry<T>>::empty(),
            j.redo_entries() == Seq::<JournalEntry<T>>::empty(),
    {
        Journal { next_id: 0, undo_stack: Vec::new(), redo_stack: Vec::new() }
    }

    /// Records a freshly applied transition, drops any pending redo history,
    /// and returns the id stamped on the new entry.
    pub fn record(&mut self, transition: Transition<T>) -> (id: u64)
        requires
            old(self).next_id() < u64::MAX,
        ensures
            id == old(self).next_id(),
            final(self).next_id() == old(self).next_id() + 1,
            final(self).undo_entries() == old(self).undo_entries().push(
                JournalEntry { id, undo: transition.undo, redo: transition.redo },
            ),
            final(self).redo_entries() == Seq::<JournalEntry<T>>::empty(),
    {
        let id = self.next_id;
        self.next_id = self.next_id + 1;
        let Transition { undo, redo } = transition;
        self.undo_stack.push(JournalEntry { id, undo, redo });
        self.redo_stack.clear();
        id
    }

    /// Pops the most recent entry for undo.
    pub fn take_undo(&mut self) -> (r: Option<JournalEntry<T>>)
        ensures
            final(self).next_id() == old(self).next_id(),
            final(self).redo_entries() == old(self).redo_entries(),
            old(self).undo_entries().len() == 0 ==> r is None && final(self).undo_entries()
                == old(self).undo_entries(),
            old(self).undo_entries().len() > 0 ==> r == Some(old(self).undo_entries().last())
                && final(self).undo_entries() == old(self).undo_entries().drop_last(),
    {
        self.undo_stack.pop()
    }

    /// Returns an undone entry to the redo stack.
    pub fn park_redo(&mut self, entry: JournalEntry<T>)
        ensures
            final(self).next_id() == old(self).next_id(),
            final(self).undo_entries() == old(self).undo_entries(),
            final(self).redo_entries() == old(self).redo_entries().push(entry),
    {
        self.redo_stack.push(entry);
    }

    /// Pops the most recently undone entry for redo.
    pub fn take_redo(&mut self) -> (r: Option<JournalEntry<T>>)
        ensures
            final(self).next_id() == old(self).next_id(),
            final(self).undo_entries() == old(self).undo_entries(),
            old(self).redo_entries().len() == 0 ==> r is None && final(self).redo_entries()
                == old(self).redo_entries(),
            old(self).redo_entries().len() > 0 ==> r == Some(old(self).redo_entries().last())
                && final(self).redo_entries() == old(self).redo_entries().drop_last(),
    {
        self.redo_stack.pop()
    }

    /// Returns a redone entry to the undo stack.
    pub fn park_undo(&mut self, entry: JournalEntry<T>)
        ensures
            final(self).next_id() == old(self).next_id(),
            final(self).redo_entries() == old(self).redo_entries(),
            final(self).undo_entries() == old(self).undo_entries().push(entry),
    {
        self.undo_stack.push(entry);
    }

    /// Number of entries that can still be undone.
    pub fn undo_depth(&self) -> (n: usize)
        ensures
            n == self.undo_entries().len(),
    {
        self.undo_stack.len()
    }

    /// Number of entries that can still be redone.
    pub fn redo_depth(&self) -> (n: usize)
        ensures
            n == self.redo_entries().len(),
    {
        self.redo_stack.len()
    }

    /// The entry `take_undo` would return, left in place.
    pub fn peek_undo(&self) -> (r: Option<&JournalEntry<T>>)
        ensures
            self.undo_entries().len() == 0 ==> r is None,
            self.undo_entries().len() > 0 ==> (r matches Some(e) && *e == self.undo_entries().last()),
    {
        if self.undo_stack.len() == 0 {
            None
        } else {
            Some(&self.undo_stack[self.undo_stack.len() - 1])
        }
    }

    /// The entry `take_redo` would return, left in place.
    pub fn peek_redo(&self) -> (r: Option<&JournalEntry<T>>)
        ensures
            self.redo_entries().len() == 0 ==> r is None,
            self.redo_entries().len() > 0 ==> (r matches Some(e) && *e == self.redo_entries().last()),
    {
        if self.redo_stack.len() == 0 {
            None
        } else {
            Some(&self.redo_stack[self.redo_stack.len() - 1])
        }
    }

    /// The id the next recorded entry receives.
    pub fn next_entry_id(&self) -> (r: u64)
        ensures
            r == self.next_id(),
    {
        self.next_id
    }

    /// Id of the entry a call to `take_undo` would return right now, or `None`
    /// when there is nothing to undo.
    pub fn head_id(&self) -> (r: Option<u64>)
        ensures
            self.undo_entries().len() == 0 ==> r is None,
            self.undo_entries().len() > 0 ==> r == Some(self.undo_entries().last().id),
    {
        if self.undo_stack.len() == 0 {
            None
        } else {
            Some(self.undo_stack[self.undo_stack.len() - 1].id)
        }
    }
}

} // verus!
