//! Persistent-cache work admission, lifecycle and worker policy.

use vstd::prelude::*;
use vstd::string::*;

use super::admission::{Admission, HitFilter};
use super::fence::PathFence;
use super::format::CacheFormat;

verus! {

/// Pieces of work that the queue holds.
pub const WORK_QUEUE_ITEMS: usize = 4096;

/// Nanoseconds after which written bytes are synchronized.
pub const SYNC_INTERVAL_NANOS: u64 = 5_000_000_000;

/// Kinds of queued work.
#[derive(Clone, Copy, Debug, PartialEq, Eq, Structural)]
pub enum WorkKind {
    /// Read the record of a path.
    Lookup,
    /// Append a record and publish its pointer.
    Replace,
    /// Clear the pointers of a path.
    Invalidate,
    /// Append a popular record once more.
    Promote,
    /// Stop after a clean shutdown.
    Shutdown,
}

/// How a piece of work is performed.
#[derive(Clone, Copy, Debug, PartialEq, Eq, Structural)]
pub enum WorkAction {
    /// Look the path up and answer.
    LookUp,
    /// Answer that the path is not cached.
    AnswerNothing,
    /// Append the record and publish its pointer.
    Append,
    /// Clear the pointers of the path.
    Clear,
    /// Promote the path's record, if it still is worth it.
    Promote,
    /// Do nothing.
    Skip,
}

/// What becomes of a body offered to the cache.
#[derive(Clone, Copy, Debug, PartialEq, Eq, Structural)]
pub enum Admitted {
    /// It is queued, and this many payload bytes are reserved for it.
    Queue(u64),
    /// It is not admitted, and the path's pointers are cleared instead.
    Invalidate,
}

/// Lifecycle of one opened cache.
#[derive(Clone, Copy, Debug, PartialEq, Eq, Structural)]
pub struct Lifecycle {
    /// Cleared for good by the first failure.
    pub enabled: bool,
    /// Set when shutdown has begun.
    pub shutdown_requested: bool,
    /// Set by the first call to shut down.
    pub shutdown_started: bool,
}

impl Lifecycle {
    /// The lifecycle of a cache that was just opened.
    pub fn new() -> (r: Self)
        ensures
            r == (Lifecycle {
                enabled: true,
                shutdown_requested: false,
                shutdown_started: false,
            }),
    {
        Lifecycle { enabled: true, shutdown_requested: false, shutdown_started: false }
    }

    /// Disables the cache; reports whether this call did it, in which case one
    /// error is counted.
    pub fn disable(&mut self) -> (r: bool)
        ensures
            r == old(self).enabled,
            *final(self) == (Lifecycle { enabled: false, ..*old(self) }),
    {
        let was: bool = self.enabled;
        self.enabled = false;
        was
    }

    /// Begins shutdown; reports whether the worker has to be woken.
    pub fn begin_shutdown(&mut self) -> (r: bool)
        ensures
            r == !old(self).shutdown_started,
            r ==> *final(self) == (Lifecycle {
                shutdown_started: true,
                shutdown_requested: true,
                ..*old(self)
            }),
            !r ==> *final(self) == *old(self),
    {
        if self.shutdown_started {
            false
        } else {
            self.shutdown_started = true;
            self.shutdown_requested = true;
            true
        }
    }

    /// New work is taken.
    pub open spec fn accepting(&self) -> bool {
        self.enabled && !self.shutdown_requested
    }

    /// Reports whether required work is queued at all.
    pub fn accepts_required(&self) -> (r: bool)
        ensures
            r == self.accepting(),
    {
        !self.shutdown_requested && self.enabled
    }

    /// Reserves room for optional work, if it is queued at all.
    pub fn accept_optional(&self, admission: &mut Admission) -> (r: bool)
        requires
            old(admission).wf(),
        ensures
            final(admission).wf(),
            r == (self.accepting() && old(admission).optional()
                < super::admission::OPTIONAL_QUEUE_ITEMS),
            final(admission).optional() == if r {
                old(admission).optional() + 1
            } else {
                old(admission).optional() as int
            },
            final(admission).promoting() == old(admission).promoting(),
            final(admission).payload() == old(admission).payload(),
    {
        if self.shutdown_requested || !self.enabled {
            return false;
        }
        admission.reserve_optional()
    }

    /// Decides how a piece of work is performed. A disabled cache performs none,
    /// and a replaced body is not written under a path epoch that has passed.
    pub fn work_action(&self, kind: WorkKind, fence_current: bool) -> (r: WorkAction)
        ensures
            r == match kind {
                WorkKind::Lookup => if self.enabled {
                    WorkAction::LookUp
                } else {
                    WorkAction::AnswerNothing
                },
                WorkKind::Replace => if self.enabled && fence_current {
                    WorkAction::Append
                } else {
                    WorkAction::Skip
                },
                WorkKind::Invalidate => if self.enabled {
                    WorkAction::Clear
                } else {
                    WorkAction::Skip
                },
                WorkKind::Promote => if self.enabled {
                    WorkAction::Promote
                } else {
                    WorkAction::Skip
                },
                WorkKind::Shutdown => WorkAction::Skip,
            },
    {
        match kind {
            WorkKind::Lookup => if self.enabled {
                WorkAction::LookUp
            } else {
                WorkAction::AnswerNothing
            },
            WorkKind::Replace => if self.enabled && fence_current {
                WorkAction::Append
            } else {
                WorkAction::Skip
            },
            WorkKind::Invalidate => if self.enabled {
                WorkAction::Clear
            } else {
                WorkAction::Skip
            },
            WorkKind::Promote => if self.enabled {
                WorkAction::Promote
            } else {
                WorkAction::Skip
            },
            WorkKind::Shutdown => WorkAction::Skip,
        }
    }

    /// Reports whether the clean tail is stored at shutdown.
    pub fn stores_clean_tail(&self) -> (r: bool)
        ensures
            r == self.enabled,
    {
        self.enabled
    }

    /// Decides whether one more hit of a present path is queued for promotion.
    /// The hit is counted only where the path is cached and not being changed.
    pub fn hit_promotes(
        &self,
        format: &CacheFormat,
        filter: &mut HitFilter,
        admission: &mut Admission,
        fence: &PathFence,
        path: &str,
    ) -> (r: bool)
        requires
            old(filter).wf(),
            old(admission).wf(),
        ensures
            final(filter).wf(),
            final(admission).wf(),
            ({
                let fingerprint = format.fingerprint(path.spec_bytes());
                let counted = self.enabled && !fence@.1 && path.spec_bytes().len() <= u32::MAX;
                let second = super::admission::is_second_hit(
                    old(filter).counters(),
                    fingerprint,
                );
                let room = !old(admission).promoting().contains(path.spec_bytes())
                    && old(admission).promoting().len() < super::admission::OPTIONAL_QUEUE_ITEMS;
                &&& r == (counted && second && room)
                &&& !counted ==> *final(filter) == *old(filter)
                &&& counted ==> final(filter).hit_from(old(filter), fingerprint)
                &&& final(admission).promoting() == if r {
                    old(admission).promoting().push(path.spec_bytes())
                } else {
                    old(admission).promoting()
                }
                &&& final(admission).payload() == old(admission).payload()
                &&& final(admission).optional() == old(admission).optional()
            }),
    {
        if !self.enabled || fence.is_active() || path.as_bytes().len() as u64 > u32::MAX as u64 {
            return false;
        }
        let fingerprint: u64 = format.path_fingerprint(path);
        if !filter.observe(fingerprint) {
            return false;
        }
        admission.reserve_promotion(path)
    }
}

/// Reports whether a path can be named in the container.
pub fn path_fits(path: &str) -> (r: bool)
    ensures
        r == (path.spec_bytes().len() <= u32::MAX),
{
    path.as_bytes().len() as u64 <= u32::MAX as u64
}

/// The body is admitted: its path and its record fit, and so does the queue.
pub open spec fn admits(
    format: &CacheFormat,
    payload: u64,
    path: Seq<u8>,
    revision_len: int,
    body_len: int,
) -> bool {
    &&& path.len() <= u32::MAX
    &&& format.record_size(revision_len, body_len) matches Some(size) && {
        &&& size <= format.spec_geometry().segment_bytes - format.spec_geometry().block_bytes
        &&& payload + size <= super::admission::MAX_QUEUED_PAYLOAD_BYTES
    }
}

/// Decides whether a body offered to the cache is queued, and reserves its
/// payload.
pub fn admit_replace(
    format: &CacheFormat,
    admission: &mut Admission,
    path: &str,
    revision_len: usize,
    body_len: usize,
) -> (r: Admitted)
    requires
        format.wf(),
        old(admission).wf(),
    ensures
        final(admission).wf(),
        r is Queue <==> admits(
            format,
            old(admission).payload(),
            path.spec_bytes(),
            revision_len as int,
            body_len as int,
        ),
        r matches Admitted::Queue(size) ==> {
            &&& format.record_size(revision_len as int, body_len as int) == Some(size as int)
            &&& final(admission).payload() == old(admission).payload() + size
        },
        r is Invalidate ==> final(admission).payload() == old(admission).payload(),
        final(admission).promoting() == old(admission).promoting(),
        final(admission).optional() == old(admission).optional(),
{
    if !path_fits(path) {
        return Admitted::Invalidate;
    }
    match format.record_bytes(revision_len, body_len) {
        Some(size) => {
            if size <= format.maximum_record_bytes() && admission.reserve_payload(size) {
                Admitted::Queue(size)
            } else {
                Admitted::Invalidate
            }
        },
        None => Admitted::Invalidate,
    }
}

/// Reports whether a queued promotion may read its record: the path has not
/// changed since the hit.
pub fn promotion_starts(fence: &PathFence, epoch: u64) -> (r: bool)
    ensures
        r == (fence@ == (epoch, false)),
{
    let (current, active) = fence.snapshot();
    current == epoch && !active
}

} // verus!
