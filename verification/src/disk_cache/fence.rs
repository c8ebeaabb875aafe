//! Persistent-cache path epochs and their bounded lifetime tracking.

use vstd::prelude::*;

verus! {

/// Path fences that may be active at once.
pub const MAX_ACTIVE_FENCES: usize = 4096;

/// The epoch of one path, and whether its latest epoch is still active.
#[derive(Clone, Copy, Debug, PartialEq, Eq, Structural)]
pub struct PathFence {
    epoch: u64,
    active: bool,
}

/// One started epoch of a path.
#[derive(Clone, Copy, Debug, PartialEq, Eq, Structural)]
pub struct FenceGuard {
    epoch: u64,
}

/// Counts the active fences of all paths.
#[derive(Clone, Copy, Debug, PartialEq, Eq, Structural)]
pub struct FenceTracker {
    active_fences: usize,
}

/// The epoch after `epoch`; zero is left out, which names the state before the
/// first epoch.
pub open spec fn next_epoch(epoch: u64) -> u64 {
    if epoch == u64::MAX {
        1
    } else {
        (epoch + 1) as u64
    }
}

impl View for PathFence {
    type V = (u64, bool);

    closed spec fn view(&self) -> (u64, bool) {
        (self.epoch, self.active)
    }
}

impl View for FenceGuard {
    type V = u64;

    closed spec fn view(&self) -> u64 {
        self.epoch
    }
}

impl View for FenceTracker {
    type V = usize;

    closed spec fn view(&self) -> usize {
        self.active_fences
    }
}

impl Default for PathFence {
    /// A path that no change has touched.
    fn default() -> (r: Self)
        ensures
            r@ == (0u64, false),
    {
        PathFence { epoch: 0, active: false }
    }
}

impl PathFence {
    /// Reports whether the latest epoch is active.
    pub fn is_active(&self) -> (r: bool)
        ensures
            r == self@.1,
    {
        self.active
    }

    /// Returns the latest epoch and whether it is active.
    pub fn snapshot(&self) -> (r: (u64, bool))
        ensures
            r == self@,
    {
        (self.epoch, self.active)
    }

    /// Starts a new epoch.
    pub fn begin(&mut self) -> (r: u64)
        ensures
            final(self)@ == begun(old(self)@),
            r == final(self)@.0,
    {
        self.epoch = if self.epoch == u64::MAX { 1 } else { self.epoch + 1 };
        self.active = true;
        self.epoch
    }

    /// Ends an epoch, unless a later one has started.
    pub fn finish(&mut self, epoch: u64)
        ensures
            final(self)@ == finished(old(self)@, epoch),
    {
        if self.epoch == epoch {
            self.active = false;
        }
    }
}

impl FenceGuard {
    /// Reports whether this is still the path's active epoch.
    pub fn is_current(&self, fence: &PathFence) -> (r: bool)
        ensures
            r == (fence@ == (self@, true)),
    {
        fence.epoch == self.epoch && fence.active
    }
}

impl FenceTracker {
    /// Creates a tracker without active fences.
    pub fn new() -> (r: Self)
        ensures
            r@ == 0,
    {
        FenceTracker { active_fences: 0 }
    }

    /// Starts an epoch of a path, or returns `None` when too many fences are
    /// active.
    pub fn begin(&mut self, fence: &mut PathFence) -> (r: Option<FenceGuard>)
        ensures
            r is Some <==> old(self)@ < MAX_ACTIVE_FENCES,
            r matches Some(guard) ==> {
                &&& final(fence)@ == begun(old(fence)@)
                &&& guard@ == final(fence)@.0
                &&& final(self)@ == old(self)@ + 1
            },
            r is None ==> *final(fence) == *old(fence) && *final(self) == *old(self),
    {
        if self.active_fences < MAX_ACTIVE_FENCES {
            self.active_fences = self.active_fences + 1;
            Some(FenceGuard { epoch: fence.begin() })
        } else {
            None
        }
    }

    /// Ends the epoch of a guard.
    pub fn end(&mut self, fence: &mut PathFence, guard: FenceGuard)
        requires
            old(self)@ > 0,
        ensures
            final(self)@ == old(self)@ - 1,
            final(fence)@ == finished(old(fence)@, guard@),
    {
        fence.finish(guard.epoch);
        self.active_fences = self.active_fences - 1;
    }
}

/// A fence after a new epoch of its path began.
pub open spec fn begun(fence: (u64, bool)) -> (u64, bool) {
    (next_epoch(fence.0), true)
}

/// A fence after `epoch` ended.
pub open spec fn finished(fence: (u64, bool), epoch: u64) -> (u64, bool) {
    if fence.0 == epoch {
        (epoch, false)
    } else {
        fence
    }
}

/// Law: a newer epoch of a path cancels an older one; the end of the older one
/// leaves the path fenced, and only the end of the newer one opens it.
pub proof fn law_newer_epoch_cancels_older(fence: (u64, bool))
    ensures
        ({
            let older = begun(fence);
            let newer = begun(older);
            &&& newer != older
            &&& finished(newer, older.0) == newer
            &&& newer.1
            &&& !finished(newer, newer.0).1
            &&& older.0 != 0
            &&& newer.0 != 0
        }),
{
}

} // verus!
