//! Changes of cached paths and their bounded lifetime tracking.

use vstd::prelude::*;

verus! {

/// Changes that may be pending at once.
pub const MAX_PENDING_CHANGES: usize = 4096;

/// The number of the latest change of one path, and whether it is pending.
#[derive(Clone, Copy, Debug, PartialEq, Eq, Structural)]
pub struct PathChanges {
    change: u64,
    pending: bool,
}

/// One started change of a path.
#[derive(Clone, Copy, Debug, PartialEq, Eq, Structural)]
pub struct PendingChange {
    change: u64,
}

/// Counts the pending changes of all paths.
#[derive(Clone, Copy, Debug, PartialEq, Eq, Structural)]
pub struct PendingChangeLimit {
    pending_changes: usize,
}

/// The change after `change`; zero is left out, which names the state before the
/// first change.
pub open spec fn next_change(change: u64) -> u64 {
    if change == u64::MAX {
        1
    } else {
        (change + 1) as u64
    }
}

impl View for PathChanges {
    type V = (u64, bool);

    closed spec fn view(&self) -> (u64, bool) {
        (self.change, self.pending)
    }
}

impl View for PendingChange {
    type V = u64;

    closed spec fn view(&self) -> u64 {
        self.change
    }
}

impl View for PendingChangeLimit {
    type V = usize;

    closed spec fn view(&self) -> usize {
        self.pending_changes
    }
}

impl Default for PathChanges {
    /// A path that no change has touched.
    fn default() -> (r: Self)
        ensures
            r@ == (0u64, false),
    {
        PathChanges { change: 0, pending: false }
    }
}

impl PathChanges {
    /// Reports whether the latest change is pending.
    pub fn is_pending(&self) -> (r: bool)
        ensures
            r == self@.1,
    {
        self.pending
    }

    /// Returns the latest change and whether it is pending.
    pub fn snapshot(&self) -> (r: (u64, bool))
        ensures
            r == self@,
    {
        (self.change, self.pending)
    }

    /// Starts a new change.
    pub fn begin(&mut self) -> (r: u64)
        ensures
            final(self)@ == begun(old(self)@),
            r == final(self)@.0,
    {
        self.change = if self.change == u64::MAX { 1 } else { self.change + 1 };
        self.pending = true;
        self.change
    }

    /// Ends a change, unless a later one has started.
    pub fn finish(&mut self, change: u64)
        ensures
            final(self)@ == finished(old(self)@, change),
    {
        if self.change == change {
            self.pending = false;
        }
    }
}

impl PendingChange {
    /// Reports whether this is still the path's pending change.
    pub fn is_latest(&self, changes: &PathChanges) -> (r: bool)
        ensures
            r == (changes@ == (self@, true)),
    {
        changes.change == self.change && changes.pending
    }
}

impl PendingChangeLimit {
    /// Creates a tracker without pending changes.
    pub fn new() -> (r: Self)
        ensures
            r@ == 0,
    {
        PendingChangeLimit { pending_changes: 0 }
    }

    /// Starts a change of a path, or returns `None` when too many changes are
    /// pending.
    pub fn begin(&mut self, changes: &mut PathChanges) -> (r: Option<PendingChange>)
        ensures
            r is Some <==> old(self)@ < MAX_PENDING_CHANGES,
            r matches Some(pending_change) ==> {
                &&& final(changes)@ == begun(old(changes)@)
                &&& pending_change@ == final(changes)@.0
                &&& final(self)@ == old(self)@ + 1
            },
            r is None ==> *final(changes) == *old(changes) && *final(self) == *old(self),
    {
        if self.pending_changes < MAX_PENDING_CHANGES {
            self.pending_changes = self.pending_changes + 1;
            Some(PendingChange { change: changes.begin() })
        } else {
            None
        }
    }

    /// Returns the number of pending changes.
    pub fn pending_count(&self) -> (r: usize)
        ensures
            r == self@,
    {
        self.pending_changes
    }

    /// Ends a pending change.
    pub fn end(&mut self, changes: &mut PathChanges, pending_change: PendingChange)
        requires
            old(self)@ > 0,
        ensures
            final(self)@ == old(self)@ - 1,
            final(changes)@ == finished(old(changes)@, pending_change@),
    {
        changes.finish(pending_change.change);
        self.pending_changes = self.pending_changes - 1;
    }
}

/// The changes after a new change of its path began.
pub open spec fn begun(changes: (u64, bool)) -> (u64, bool) {
    (next_change(changes.0), true)
}

/// The changes after `change` ended.
pub open spec fn finished(changes: (u64, bool), change: u64) -> (u64, bool) {
    if changes.0 == change {
        (change, false)
    } else {
        changes
    }
}

/// Law: a newer change of a path cancels an older one; the end of the older one
/// leaves the path pending, and only the end of the newer one opens it.
pub proof fn law_newer_change_cancels_older(changes: (u64, bool))
    ensures
        ({
            let older = begun(changes);
            let newer = begun(older);
            &&& newer != older
            &&& finished(newer, older.0) == newer
            &&& newer.1
            &&& !finished(newer, newer.0).1
            &&& older.0 != 0
            &&& newer.0 != 0
        }),
{
}

} // verus!
