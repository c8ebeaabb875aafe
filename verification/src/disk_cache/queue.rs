//! The persistent cache's queue: what is queued, what that holds, and what the
//! worker does with it.

use vstd::prelude::*;
use vstd::string::*;

use super::admission::{Admission, HitFilter, OPTIONAL_QUEUE_ITEMS};
use super::fence::{self, FenceGuard, FenceTracker, PathFence};
use super::worker::{self, Lifecycle, WorkAction, WorkKind, WORK_QUEUE_ITEMS};
use crate::cache_stats::{CacheMetrics, CacheStats};
use crate::disk_cache::format::CacheFormat;
use crate::timeline::SequencePoint;

verus! {

/// One queued piece of work.
#[derive(Debug)]
pub enum Work {
    /// Read the record of a path, and answer whoever holds the ticket.
    Lookup {
        /// The path.
        path: String,
        /// Names the one who waits for the answer.
        ticket: u64,
    },
    /// Append a record and publish its pointer.
    Replace {
        /// The path.
        path: String,
        /// The revision.
        revision: Vec<u8>,
        /// The body.
        body: Vec<u8>,
        /// The point after which the body was known to be current.
        current_after: SequencePoint,
        /// Fences the path until the record is published.
        fence: FenceGuard,
        /// The record's size, which is reserved until then.
        payload: u64,
    },
    /// Clear the pointers of a path.
    Invalidate {
        /// The path.
        path: String,
        /// Fences the path until its pointers are cleared.
        fence: FenceGuard,
    },
    /// Append a popular record once more.
    Promote {
        /// The path.
        path: String,
        /// The path's epoch at the hit.
        epoch: u64,
    },
    /// Stop after a clean shutdown.
    Shutdown,
}

/// What pieces of work hold until they are done.
pub struct Held {
    /// Reserved record bytes.
    pub payload: int,
    /// Fences.
    pub fences: int,
    /// Reservations of optional work.
    pub optional: int,
}

/// Two holdings together.
pub open spec fn together(a: Held, b: Held) -> Held {
    Held {
        payload: a.payload + b.payload,
        fences: a.fences + b.fences,
        optional: a.optional + b.optional,
    }
}

impl Work {
    /// What the work holds.
    pub open spec fn holds(&self) -> Held {
        match self {
            Work::Lookup { .. } => Held { payload: 0, fences: 0, optional: 1 },
            Work::Replace { payload, .. } => Held {
                payload: *payload as int,
                fences: 1,
                optional: 0,
            },
            Work::Invalidate { .. } => Held { payload: 0, fences: 1, optional: 0 },
            Work::Promote { .. } => Held { payload: 0, fences: 0, optional: 1 },
            Work::Shutdown => Held { payload: 0, fences: 0, optional: 0 },
        }
    }

    /// The path of the work.
    pub open spec fn spec_path(&self) -> Seq<u8> {
        match self {
            Work::Lookup { path, .. } => vstd::utf8::encode_utf8(path@),
            Work::Replace { path, .. } => vstd::utf8::encode_utf8(path@),
            Work::Invalidate { path, .. } => vstd::utf8::encode_utf8(path@),
            Work::Promote { path, .. } => vstd::utf8::encode_utf8(path@),
            Work::Shutdown => Seq::empty(),
        }
    }

    /// The kind of the work.
    pub open spec fn spec_kind(&self) -> WorkKind {
        match self {
            Work::Lookup { .. } => WorkKind::Lookup,
            Work::Replace { .. } => WorkKind::Replace,
            Work::Invalidate { .. } => WorkKind::Invalidate,
            Work::Promote { .. } => WorkKind::Promote,
            Work::Shutdown => WorkKind::Shutdown,
        }
    }

    /// The container can name the path, and a segment can hold the record, whose
    /// size is the reserved one.
    pub open spec fn fits(&self, format: &CacheFormat) -> bool {
        &&& self.spec_path().len() <= u32::MAX
        &&& self matches Work::Replace { revision, body, payload, .. } ==> {
            &&& format.record_size(revision@.len() as int, body@.len() as int) == Some(
                *payload as int,
            )
            &&& payload <= format.spec_geometry().segment_bytes
                - format.spec_geometry().block_bytes
        }
    }

    /// Returns the kind of the work.
    pub fn kind(&self) -> (r: WorkKind)
        ensures
            r == self.spec_kind(),
    {
        match self {
            Work::Lookup { .. } => WorkKind::Lookup,
            Work::Replace { .. } => WorkKind::Replace,
            Work::Invalidate { .. } => WorkKind::Invalidate,
            Work::Promote { .. } => WorkKind::Promote,
            Work::Shutdown => WorkKind::Shutdown,
        }
    }
}

/// What the queued work holds.
pub open spec fn queued(queue: Seq<Work>) -> Held
    decreases queue.len(),
{
    if queue.len() == 0 {
        Held { payload: 0, fences: 0, optional: 0 }
    } else {
        together(queued(queue.drop_last()), queue.last().holds())
    }
}

/// The first piece of work and the others hold what all of them hold.
proof fn lemma_queued_front(queue: Seq<Work>)
    requires
        queue.len() > 0,
    ensures
        queued(queue) == together(queue[0].holds(), queued(queue.remove(0))),
        queued(queue).payload >= queue[0].holds().payload,
        queued(queue).fences >= queue[0].holds().fences,
        queued(queue).optional >= queue[0].holds().optional,
    decreases queue.len(),
{
    let rest = queue.remove(0);
    lemma_queued_not_negative(rest);
    if queue.len() == 1 {
        assert(queue.drop_last() =~= Seq::<Work>::empty());
        assert(rest =~= Seq::<Work>::empty());
    } else {
        lemma_queued_front(queue.drop_last());
        assert(rest.drop_last() =~= queue.drop_last().remove(0));
        assert(rest.last() == queue.last());
    }
}

/// Work holds no negative amounts.
proof fn lemma_queued_not_negative(queue: Seq<Work>)
    ensures
        queued(queue).payload >= 0,
        queued(queue).fences >= 0,
        queued(queue).optional >= 0,
    decreases queue.len(),
{
    if queue.len() > 0 {
        lemma_queued_not_negative(queue.drop_last());
    }
}

/// What the holders of a fence see once a piece of work is let go.
pub open spec fn unfenced(fence: (u64, bool), work: &Work) -> (u64, bool) {
    match work {
        Work::Replace { fence: guard, .. } => fence::finished(fence, guard@),
        Work::Invalidate { fence: guard, .. } => fence::finished(fence, guard@),
        _ => fence,
    }
}

/// The counts after one more failure.
pub open spec fn one_more_error(counts: CacheStats) -> CacheStats {
    CacheStats { l2_errors: counts.l2_errors.wrapping_add(1), ..counts }
}

/// The shared state of an opened cache.
pub struct CacheInner {
    /// The container's format.
    pub format: CacheFormat,
    /// Whether the cache runs.
    pub lifecycle: Lifecycle,
    /// What is reserved.
    pub admission: Admission,
    /// The hits of cached paths.
    pub filter: HitFilter,
    /// The active fences.
    pub fences: FenceTracker,
    /// The queue.
    pub queue: Vec<Work>,
}

impl CacheInner {
    /// The parts are valid, the queue is bounded, and everything that queued
    /// work holds is accounted for.
    pub open spec fn wf(&self) -> bool {
        &&& self.format.wf()
        &&& self.admission.wf()
        &&& self.filter.wf()
        &&& self.queue@.len() <= WORK_QUEUE_ITEMS
        &&& forall|i: int|
            0 <= i < self.queue@.len() ==> (#[trigger] self.queue@[i]).fits(&self.format)
        &&& self.outstanding().payload >= 0
        &&& self.outstanding().fences >= 0
        &&& self.outstanding().optional >= 0
    }

    /// What is held beyond the queue: by work that was taken, and by fences
    /// whose work is not queued yet.
    pub open spec fn outstanding(&self) -> Held {
        Held {
            payload: self.admission.payload() - queued(self.queue@).payload,
            fences: self.fences@ - queued(self.queue@).fences,
            optional: self.admission.optional() - queued(self.queue@).optional,
        }
    }

    /// Creates the state of a cache that was just opened.
    pub fn new(format: CacheFormat) -> (r: Self)
        requires
            format.wf(),
        ensures
            r.wf(),
            r.format == format,
            r.lifecycle == (Lifecycle {
                enabled: true,
                shutdown_requested: false,
                shutdown_started: false,
            }),
            r.queue@ == Seq::<Work>::empty(),
            r.fences@ == 0,
            r.filter.is_fresh(),
            r.admission.payload() == 0,
            r.admission.optional() == 0,
            r.admission.promoting() == Seq::<Seq<u8>>::empty(),
    {
        CacheInner {
            format,
            lifecycle: Lifecycle::new(),
            admission: Admission::new(),
            filter: HitFilter::new(),
            fences: FenceTracker::new(),
            queue: Vec::new(),
        }
    }

    /// Lets go of the fence and the reservation of a piece of required work.
    fn let_go(&mut self, work: Work, fence: &mut PathFence)
        requires
            old(self).wf(),
            old(self).outstanding().payload >= work.holds().payload,
            old(self).outstanding().fences >= work.holds().fences,
        ensures
            final(self).wf(),
            final(fence)@ == unfenced(old(fence)@, &work),
            final(self).outstanding() == (Held {
                payload: old(self).outstanding().payload - work.holds().payload,
                fences: old(self).outstanding().fences - work.holds().fences,
                ..old(self).outstanding()
            }),
            final(self).queue == old(self).queue,
            final(self).format == old(self).format,
            final(self).lifecycle == old(self).lifecycle,
            final(self).filter == old(self).filter,
            final(self).admission.promoting() == old(self).admission.promoting(),
    {
        proof {
            lemma_queued_not_negative(self.queue@);
        }
        match work {
            Work::Replace { fence: guard, payload, .. } => {
                self.admission.release_payload(payload);
                self.fences.end(fence, guard);
            },
            Work::Invalidate { fence: guard, .. } => {
                self.fences.end(fence, guard);
            },
            _ => {},
        }
    }

    /// Disables the cache; the first time counts one error.
    pub fn disable(&mut self, metrics: &mut CacheMetrics) -> (r: bool)
        ensures
            r == old(self).lifecycle.enabled,
            *final(self) == (CacheInner {
                lifecycle: Lifecycle { enabled: false, ..old(self).lifecycle },
                ..*old(self)
            }),
            final(metrics)@ == if r {
                one_more_error(old(metrics)@)
            } else {
                old(metrics)@
            },
    {
        let first: bool = self.lifecycle.disable();
        if first {
            metrics.l2_error();
        }
        first
    }
}

impl CacheInner {
    /// Queues work that has to be done: a change of a path. A cache that takes
    /// no work drops it; a full queue disables the cache.
    pub fn enqueue_required(
        &mut self,
        work: Work,
        fence: &mut PathFence,
        metrics: &mut CacheMetrics,
    ) -> (r: bool)
        requires
            old(self).wf(),
            work is Replace || work is Invalidate,
            work.fits(&old(self).format),
            old(self).outstanding().payload >= work.holds().payload,
            old(self).outstanding().fences >= work.holds().fences,
        ensures
            final(self).wf(),
            r == (old(self).lifecycle.accepting() && old(self).queue@.len() < WORK_QUEUE_ITEMS),
            final(self).queue@ == if r {
                old(self).queue@.push(work)
            } else {
                old(self).queue@
            },
            final(fence)@ == if r {
                old(fence)@
            } else {
                unfenced(old(fence)@, &work)
            },
            final(self).lifecycle == if old(self).lifecycle.accepting() && !r {
                Lifecycle { enabled: false, ..old(self).lifecycle }
            } else {
                old(self).lifecycle
            },
            final(metrics)@ == if old(self).lifecycle.accepting() && !r {
                one_more_error(old(metrics)@)
            } else {
                old(metrics)@
            },
            final(self).outstanding() == (Held {
                payload: old(self).outstanding().payload - work.holds().payload,
                fences: old(self).outstanding().fences - work.holds().fences,
                ..old(self).outstanding()
            }),
            final(self).format == old(self).format,
            final(self).filter == old(self).filter,
            final(self).admission.promoting() == old(self).admission.promoting(),
    {
        if !self.lifecycle.accepts_required() {
            self.let_go(work, fence);
            return false;
        }
        if self.queue.len() >= WORK_QUEUE_ITEMS {
            let _ = self.disable(metrics);
            self.let_go(work, fence);
            return false;
        }
        proof {
            assert(self.queue@.push(work).drop_last() =~= self.queue@);
        }
        self.queue.push(work);
        true
    }

    /// Queues work that may be left undone. What is not queued is forgotten.
    pub fn enqueue_optional(&mut self, work: Work) -> (r: bool)
        requires
            old(self).wf(),
            work is Lookup || work is Promote,
            work.fits(&old(self).format),
        ensures
            final(self).wf(),
            r == (old(self).lifecycle.accepting() && old(self).admission.optional()
                < OPTIONAL_QUEUE_ITEMS && old(self).queue@.len() < WORK_QUEUE_ITEMS),
            final(self).queue@ == if r {
                old(self).queue@.push(work)
            } else {
                old(self).queue@
            },
            final(self).outstanding() == old(self).outstanding(),
            r || work is Lookup ==> final(self).admission.promoting()
                == old(self).admission.promoting(),
            !r && work is Promote ==> forgets(
                old(self).admission.promoting(),
                final(self).admission.promoting(),
                work.spec_path(),
            ),
            final(self).lifecycle == old(self).lifecycle,
            final(self).format == old(self).format,
            final(self).filter == old(self).filter,
            final(self).fences == old(self).fences,
    {
        let reserved: bool = self.lifecycle.accept_optional(&mut self.admission);
        if reserved && self.queue.len() < WORK_QUEUE_ITEMS {
            proof {
                assert(self.queue@.push(work).drop_last() =~= self.queue@);
            }
            self.queue.push(work);
            return true;
        }
        if reserved {
            self.admission.release_optional();
        }
        match work {
            Work::Promote { path, .. } => {
                self.admission.remove_promotion(path.as_str());
            },
            _ => {},
        }
        false
    }

    /// Queues the lookup of a path.
    pub fn lookup(&mut self, path: &str, ticket: u64, metrics: &mut CacheMetrics) -> (r: bool)
        requires
            old(self).wf(),
        ensures
            final(self).wf(),
            ({
                let fits = path.spec_bytes().len() <= u32::MAX;
                &&& r == (fits && old(self).lifecycle.accepting()
                    && old(self).admission.optional() < OPTIONAL_QUEUE_ITEMS
                    && old(self).queue@.len() < WORK_QUEUE_ITEMS)
                &&& r ==> {
                    &&& final(self).queue@.len() == old(self).queue@.len() + 1
                    &&& final(self).queue@.drop_last() == old(self).queue@
                    &&& final(self).queue@.last() matches Work::Lookup { path: p, ticket: t }
                    &&& p@ == path@
                    &&& t == ticket
                }
                &&& !r ==> final(self).queue@ == old(self).queue@
                &&& final(metrics)@ == if fits {
                    old(metrics)@
                } else {
                    CacheStats {
                        l2_misses: old(metrics)@.l2_misses.wrapping_add(1),
                        ..old(metrics)@
                    }
                }
            }),
            final(self).outstanding() == old(self).outstanding(),
            final(self).admission.promoting() == old(self).admission.promoting(),
            final(self).lifecycle == old(self).lifecycle,
            final(self).format == old(self).format,
            final(self).filter == old(self).filter,
            final(self).fences == old(self).fences,
    {
        if !worker::path_fits(path) {
            metrics.l2_miss();
            return false;
        }
        let ghost before = self.queue@;
        let queued = self.enqueue_optional(
            Work::Lookup { path: String::from_str(path), ticket },
        );
        proof {
            if queued {
                assert(self.queue@.drop_last() =~= before);
            }
        }
        queued
    }

    /// Starts an epoch of a path whose cached copy is out of date. A cache with
    /// too many active fences is disabled.
    pub fn begin_fence(&mut self, fence: &mut PathFence, metrics: &mut CacheMetrics) -> (r: Option<
        FenceGuard,
    >)
        requires
            old(self).wf(),
        ensures
            final(self).wf(),
            r is Some <==> old(self).lifecycle.enabled && old(self).fences@
                < fence::MAX_ACTIVE_FENCES,
            r matches Some(guard) ==> {
                &&& final(fence)@ == fence::begun(old(fence)@)
                &&& guard@ == final(fence)@.0
            },
            r is None ==> final(fence)@ == old(fence)@,
            final(self).lifecycle == (Lifecycle {
                enabled: r is Some,
                ..old(self).lifecycle
            }),
            final(metrics)@ == if old(self).lifecycle.enabled && r is None {
                one_more_error(old(metrics)@)
            } else {
                old(metrics)@
            },
            final(self).outstanding() == (Held {
                fences: old(self).outstanding().fences + if r is Some {
                    1int
                } else {
                    0int
                },
                ..old(self).outstanding()
            }),
            final(self).queue@ == old(self).queue@,
            final(self).admission == old(self).admission,
            final(self).format == old(self).format,
            final(self).filter == old(self).filter,
    {
        if !self.lifecycle.enabled {
            return None;
        }
        match self.fences.begin(fence) {
            Some(guard) => Some(guard),
            None => {
                let _ = self.disable(metrics);
                None
            },
        }
    }

    /// Queues the invalidation of a path. A path that the container cannot name
    /// is only unfenced.
    pub fn invalidate(
        &mut self,
        path: &str,
        guard: FenceGuard,
        fence: &mut PathFence,
        metrics: &mut CacheMetrics,
    ) -> (r: bool)
        requires
            old(self).wf(),
            old(self).outstanding().fences >= 1,
        ensures
            final(self).wf(),
            invalidates(
                old(self),
                final(self),
                path,
                guard,
                old(fence)@,
                final(fence)@,
                old(metrics)@,
                final(metrics)@,
                r,
            ),
            final(self).outstanding() == (Held {
                fences: old(self).outstanding().fences - 1,
                ..old(self).outstanding()
            }),
    {
        let ghost before = self.queue@;
        let work = Work::Invalidate { path: String::from_str(path), fence: guard };
        if !worker::path_fits(path) {
            self.let_go(work, fence);
            return false;
        }
        let queued = self.enqueue_required(work, fence, metrics);
        proof {
            if queued {
                assert(self.queue@.drop_last() =~= before);
            }
        }
        queued
    }
}

/// A path is no longer queued for promotion; the others still are.
pub open spec fn forgets(before: Seq<Seq<u8>>, after: Seq<Seq<u8>>, path: Seq<u8>) -> bool {
    &&& !after.contains(path)
    &&& forall|other: Seq<u8>|
        other != path ==> (#[trigger] after.contains(other) <==> before.contains(other))
}

/// The invalidation of a path was queued, or the path was unfenced.
pub open spec fn invalidates(
    before: &CacheInner,
    after: &CacheInner,
    path: &str,
    guard: FenceGuard,
    old_fence: (u64, bool),
    new_fence: (u64, bool),
    old_counts: CacheStats,
    new_counts: CacheStats,
    queued: bool,
) -> bool {
    let fits = path.spec_bytes().len() <= u32::MAX;
    let full = before.queue@.len() >= WORK_QUEUE_ITEMS;
    let accepting = before.lifecycle.accepting();
    &&& queued == (fits && accepting && !full)
    &&& queued ==> {
        &&& after.queue@.len() == before.queue@.len() + 1
        &&& after.queue@.drop_last() == before.queue@
        &&& after.queue@.last() matches Work::Invalidate { path: p, fence: g }
        &&& p@ == path@
        &&& g == guard
        &&& new_fence == old_fence
    }
    &&& !queued ==> {
        &&& after.queue@ == before.queue@
        &&& new_fence == fence::finished(old_fence, guard@)
    }
    &&& after.lifecycle == if fits && accepting && full {
        Lifecycle { enabled: false, ..before.lifecycle }
    } else {
        before.lifecycle
    }
    &&& new_counts == if fits && accepting && full {
        one_more_error(old_counts)
    } else {
        old_counts
    }
    &&& after.format == before.format
    &&& after.filter == before.filter
    &&& after.admission.promoting() == before.admission.promoting()
}

impl CacheInner {
    /// Queues a body of a path, or the path's invalidation where the body is
    /// not admitted.
    pub fn replace(
        &mut self,
        path: &str,
        revision: Vec<u8>,
        body: Vec<u8>,
        current_after: SequencePoint,
        guard: FenceGuard,
        fence: &mut PathFence,
        metrics: &mut CacheMetrics,
    ) -> (r: bool)
        requires
            old(self).wf(),
            old(self).outstanding().fences >= 1,
        ensures
            final(self).wf(),
            ({
                let admitted = worker::admits(
                    &old(self).format,
                    old(self).admission.payload(),
                    path.spec_bytes(),
                    revision@.len() as int,
                    body@.len() as int,
                );
                let accepting = old(self).lifecycle.accepting();
                let full = old(self).queue@.len() >= WORK_QUEUE_ITEMS;
                &&& !admitted ==> invalidates(
                    old(self),
                    final(self),
                    path,
                    guard,
                    old(fence)@,
                    final(fence)@,
                    old(metrics)@,
                    final(metrics)@,
                    r,
                )
                &&& admitted ==> {
                    &&& r == (accepting && !full)
                    &&& r ==> {
                        &&& final(self).queue@.len() == old(self).queue@.len() + 1
                        &&& final(self).queue@.drop_last() == old(self).queue@
                        &&& final(self).queue@.last() matches Work::Replace {
                            path: p,
                            revision: v,
                            body: b,
                            current_after: c,
                            fence: g,
                            ..
                        }
                        &&& p@ == path@
                        &&& v == revision
                        &&& b == body
                        &&& c == current_after
                        &&& g == guard
                        &&& final(fence)@ == old(fence)@
                    }
                    &&& !r ==> {
                        &&& final(self).queue@ == old(self).queue@
                        &&& final(fence)@ == fence::finished(old(fence)@, guard@)
                    }
                    &&& final(self).lifecycle == if accepting && full {
                        Lifecycle { enabled: false, ..old(self).lifecycle }
                    } else {
                        old(self).lifecycle
                    }
                    &&& final(metrics)@ == if accepting && full {
                        one_more_error(old(metrics)@)
                    } else {
                        old(metrics)@
                    }
                    &&& final(self).format == old(self).format
                    &&& final(self).filter == old(self).filter
                    &&& final(self).admission.promoting() == old(self).admission.promoting()
                }
            }),
            final(self).outstanding() == (Held {
                fences: old(self).outstanding().fences - 1,
                ..old(self).outstanding()
            }),
    {
        let ghost before = self.queue@;
        match worker::admit_replace(
            &self.format,
            &mut self.admission,
            path,
            revision.len(),
            body.len(),
        ) {
            worker::Admitted::Invalidate => self.invalidate(path, guard, fence, metrics),
            worker::Admitted::Queue(payload) => {
                let queued = self.enqueue_required(
                    Work::Replace {
                        path: String::from_str(path),
                        revision,
                        body,
                        current_after,
                        fence: guard,
                        payload,
                    },
                    fence,
                    metrics,
                );
                proof {
                    if queued {
                        assert(self.queue@.drop_last() =~= before);
                    }
                }
                queued
            },
        }
    }

    /// Counts an unusable persisted body of a path, and clears the path's
    /// pointers.
    pub fn reject_corrupt_candidate(
        &mut self,
        path: &str,
        fence: &mut PathFence,
        metrics: &mut CacheMetrics,
    ) -> (r: bool)
        requires
            old(self).wf(),
        ensures
            final(self).wf(),
            final(self).outstanding() == old(self).outstanding(),
            final(self).admission.promoting() == old(self).admission.promoting(),
            final(self).format == old(self).format,
            final(self).filter == old(self).filter,
            ({
                let fenced = old(self).lifecycle.enabled && old(self).fences@
                    < fence::MAX_ACTIVE_FENCES;
                let full = old(self).queue@.len() >= WORK_QUEUE_ITEMS;
                let fits = path.spec_bytes().len() <= u32::MAX;
                let accepting = old(self).lifecycle.accepting();
                let counted = one_more_error(old(metrics)@);
                let fails = old(self).lifecycle.enabled && (!fenced || fits && accepting && full);
                &&& r == (fenced && fits && accepting && !full)
                &&& r ==> {
                    &&& final(self).queue@.len() == old(self).queue@.len() + 1
                    &&& final(self).queue@.drop_last() == old(self).queue@
                    &&& final(self).queue@.last() matches Work::Invalidate { path: p, fence: g }
                    &&& p@ == path@
                    &&& g@ == fence::begun(old(fence)@).0
                    &&& final(fence)@ == fence::begun(old(fence)@)
                }
                &&& !r ==> final(self).queue@ == old(self).queue@
                &&& !fenced ==> final(fence)@ == old(fence)@
                &&& fenced && !r ==> final(fence)@ == (fence::begun(old(fence)@).0, false)
                &&& final(self).lifecycle == if fails {
                    Lifecycle { enabled: false, ..old(self).lifecycle }
                } else {
                    old(self).lifecycle
                }
                &&& final(metrics)@ == if fails {
                    one_more_error(counted)
                } else {
                    counted
                }
            }),
    {
        metrics.l2_error();
        match self.begin_fence(fence, metrics) {
            None => false,
            Some(guard) => self.invalidate(path, guard, fence, metrics),
        }
    }

    /// Counts a hit of a cached path; the hit that makes the path popular
    /// queues its promotion.
    pub fn record_present_hit(&mut self, path: &str, fence: &PathFence) -> (r: bool)
        requires
            old(self).wf(),
        ensures
            final(self).wf(),
            final(self).outstanding() == old(self).outstanding(),
            final(self).lifecycle == old(self).lifecycle,
            final(self).format == old(self).format,
            final(self).fences == old(self).fences,
            ({
                let fingerprint = old(self).format.fingerprint(path.spec_bytes());
                let counted = old(self).lifecycle.enabled && !fence@.1 && path.spec_bytes().len()
                    <= u32::MAX;
                let before = old(self).admission.promoting();
                let reserved = counted && super::admission::is_second_hit(
                    old(self).filter.counters(),
                    fingerprint,
                ) && !before.contains(path.spec_bytes()) && before.len() < OPTIONAL_QUEUE_ITEMS;
                &&& r == (reserved && old(self).lifecycle.accepting()
                    && old(self).admission.optional() < OPTIONAL_QUEUE_ITEMS
                    && old(self).queue@.len() < WORK_QUEUE_ITEMS)
                &&& r ==> {
                    &&& final(self).queue@.len() == old(self).queue@.len() + 1
                    &&& final(self).queue@.drop_last() == old(self).queue@
                    &&& final(self).queue@.last() matches Work::Promote { path: p, epoch }
                    &&& p@ == path@
                    &&& epoch == fence@.0
                    &&& final(self).admission.promoting() == before.push(path.spec_bytes())
                }
                &&& !r ==> {
                    &&& final(self).queue@ == old(self).queue@
                    &&& forall|other: Seq<u8>| #[trigger]
                        final(self).admission.promoting().contains(other) <==> before.contains(
                            other,
                        )
                }
                &&& !counted ==> final(self).filter == old(self).filter
                &&& counted ==> final(self).filter.hit_from(&old(self).filter, fingerprint)
            }),
    {
        let ghost queue = self.queue@;
        let ghost before = self.admission.promoting();
        if !self.lifecycle.hit_promotes(
            &self.format,
            &mut self.filter,
            &mut self.admission,
            fence,
            path,
        ) {
            return false;
        }
        let (epoch, _) = fence.snapshot();
        let ghost reserved = self.admission.promoting();
        let queued = self.enqueue_optional(Work::Promote { path: String::from_str(path), epoch });
        proof {
            if queued {
                assert(self.queue@.drop_last() =~= queue);
            } else {
                assert forall|other: Seq<u8>| #[trigger]
                    self.admission.promoting().contains(other) <==> before.contains(other) by {
                    assert(reserved == before.push(path.spec_bytes()));
                    if before.contains(other) {
                        let k = before.index_of(other);
                        assert(reserved[k] == other);
                    }
                    if reserved.contains(other) && other != path.spec_bytes() {
                        let k = reserved.index_of(other);
                        assert(before[k] == other);
                    }
                }
            }
        }
        queued
    }

    /// Begins shutdown: no work is taken any more, and an idle worker is woken.
    pub fn begin_shutdown(&mut self) -> (r: bool)
        requires
            old(self).wf(),
        ensures
            final(self).wf(),
            final(self).outstanding() == old(self).outstanding(),
            r == !old(self).lifecycle.shutdown_started,
            final(self).lifecycle == if r {
                Lifecycle {
                    shutdown_started: true,
                    shutdown_requested: true,
                    ..old(self).lifecycle
                }
            } else {
                old(self).lifecycle
            },
            final(self).queue@ == if r && old(self).queue@.len() < WORK_QUEUE_ITEMS {
                old(self).queue@.push(Work::Shutdown)
            } else {
                old(self).queue@
            },
            final(self).admission == old(self).admission,
            final(self).format == old(self).format,
            final(self).filter == old(self).filter,
            final(self).fences == old(self).fences,
    {
        let first: bool = self.lifecycle.begin_shutdown();
        if first && self.queue.len() < WORK_QUEUE_ITEMS {
            proof {
                assert(self.queue@.push(Work::Shutdown).drop_last() =~= self.queue@);
            }
            self.queue.push(Work::Shutdown);
        }
        first
    }
}

/// What the worker does next.
#[derive(Debug)]
pub enum Next {
    /// Perform the piece of work.
    Handle(Work),
    /// Wait for work, for at most the sync interval.
    Wait,
    /// Synchronize what was written, then go on.
    ForcedSync,
    /// Store the clean tail, then stop.
    CleanShutdown,
}

impl CacheInner {
    /// Takes the first queued piece of work, and with it the room of optional
    /// work. Without work, a shutdown that was requested begins, and otherwise
    /// the worker waits; once it has waited for the whole sync interval, it
    /// synchronizes.
    pub fn next_work(&mut self, waited: bool) -> (r: Next)
        requires
            old(self).wf(),
        ensures
            final(self).wf(),
            final(self).lifecycle == old(self).lifecycle,
            final(self).format == old(self).format,
            final(self).filter == old(self).filter,
            final(self).fences == old(self).fences,
            final(self).admission.promoting() == old(self).admission.promoting(),
            final(self).admission.payload() == old(self).admission.payload(),
            ({
                let queue = old(self).queue@;
                if queue.len() == 0 {
                    &&& final(self).queue@ == queue
                    &&& final(self).outstanding() == old(self).outstanding()
                    &&& r == if old(self).lifecycle.shutdown_requested {
                        Next::CleanShutdown
                    } else if waited {
                        Next::ForcedSync
                    } else {
                        Next::Wait
                    }
                } else {
                    &&& final(self).queue@ == queue.remove(0)
                    &&& final(self).outstanding() == (Held {
                        payload: old(self).outstanding().payload + queue[0].holds().payload,
                        fences: old(self).outstanding().fences + queue[0].holds().fences,
                        ..old(self).outstanding()
                    })
                    &&& r == if queue[0] is Shutdown {
                        Next::CleanShutdown
                    } else {
                        Next::Handle(queue[0])
                    }
                    &&& queue[0].fits(&old(self).format)
                }
            }),
    {
        if self.queue.len() == 0 {
            return if self.lifecycle.shutdown_requested {
                Next::CleanShutdown
            } else if waited {
                Next::ForcedSync
            } else {
                Next::Wait
            };
        }
        proof {
            lemma_queued_front(self.queue@);
            lemma_queued_not_negative(self.queue@.remove(0));
            assert(self.queue@[0].fits(&self.format));
        }
        let work = self.queue.remove(0);
        match work.kind() {
            WorkKind::Shutdown => return Next::CleanShutdown,
            WorkKind::Lookup => self.admission.release_optional(),
            WorkKind::Promote => self.admission.release_optional(),
            _ => {},
        }
        Next::Handle(work)
    }

    /// Decides how a piece of work is performed, now that its path has the
    /// given fence.
    pub fn action(&self, work: &Work, fence: &PathFence) -> (r: WorkAction)
        ensures
            r == match work {
                Work::Lookup { .. } => if self.lifecycle.enabled {
                    WorkAction::LookUp
                } else {
                    WorkAction::AnswerNothing
                },
                Work::Replace { fence: guard, .. } => if self.lifecycle.enabled && fence@ == (
                    guard@,
                    true,
                ) {
                    WorkAction::Append
                } else {
                    WorkAction::Skip
                },
                Work::Invalidate { .. } => if self.lifecycle.enabled {
                    WorkAction::Clear
                } else {
                    WorkAction::Skip
                },
                Work::Promote { epoch, .. } => if self.lifecycle.enabled && fence@ == (
                    *epoch,
                    false,
                ) {
                    WorkAction::Promote
                } else {
                    WorkAction::Skip
                },
                Work::Shutdown => WorkAction::Skip,
            },
    {
        let current = match work {
            Work::Replace { fence: guard, .. } => guard.is_current(fence),
            _ => true,
        };
        let action = self.lifecycle.work_action(work.kind(), current);
        match work {
            Work::Promote { epoch, .. } => if worker::promotion_starts(fence, *epoch) {
                action
            } else {
                WorkAction::Skip
            },
            _ => action,
        }
    }

    /// Settles a piece of work that was performed: its outcome is counted, a
    /// failure disables the cache, a started segment ages the hits, and what
    /// the work held is let go.
    pub fn finish(
        &mut self,
        work: Work,
        outcome: Outcome,
        segment_count: usize,
        fence: &mut PathFence,
        metrics: &mut CacheMetrics,
    )
        requires
            old(self).wf(),
            old(self).outstanding().payload >= work.holds().payload,
            old(self).outstanding().fences >= work.holds().fences,
        ensures
            final(self).wf(),
            final(fence)@ == unfenced(old(fence)@, &work),
            final(self).queue == old(self).queue,
            final(self).format == old(self).format,
            final(self).outstanding() == (Held {
                payload: old(self).outstanding().payload - work.holds().payload,
                fences: old(self).outstanding().fences - work.holds().fences,
                ..old(self).outstanding()
            }),
            final(self).lifecycle == (Lifecycle {
                enabled: old(self).lifecycle.enabled && outcome != Outcome::Failed,
                ..old(self).lifecycle
            }),
            final(metrics)@ == match outcome {
                Outcome::Hit => CacheStats {
                    l2_hits: old(metrics)@.l2_hits.wrapping_add(1),
                    ..old(metrics)@
                },
                Outcome::Missed => CacheStats {
                    l2_misses: old(metrics)@.l2_misses.wrapping_add(1),
                    ..old(metrics)@
                },
                Outcome::Failed => if old(self).lifecycle.enabled {
                    one_more_error(old(metrics)@)
                } else {
                    old(metrics)@
                },
                _ => old(metrics)@,
            },
            outcome != Outcome::SegmentStarted ==> final(self).filter == old(self).filter,
            outcome == Outcome::SegmentStarted ==> final(self).filter.aged_from(
                &old(self).filter,
                segment_count,
            ),
            work is Promote ==> forgets(
                old(self).admission.promoting(),
                final(self).admission.promoting(),
                work.spec_path(),
            ),
            !(work is Promote) ==> final(self).admission.promoting()
                == old(self).admission.promoting(),
    {
        match outcome {
            Outcome::Hit => metrics.l2_hit(),
            Outcome::Missed => metrics.l2_miss(),
            Outcome::SegmentStarted => self.filter.note_segment_reinitialized(segment_count),
            Outcome::Failed => {
                let _ = self.disable(metrics);
            },
            Outcome::Done => {},
            Outcome::Skipped => {},
        }
        match &work {
            Work::Promote { path, .. } => self.admission.remove_promotion(path.as_str()),
            _ => {},
        }
        self.let_go(work, fence);
    }
}

/// How a piece of work went.
#[derive(Clone, Copy, Debug, PartialEq, Eq, Structural)]
pub enum Outcome {
    /// A lookup found the path's record.
    Hit,
    /// A lookup found no usable record.
    Missed,
    /// The change is in the container.
    Done,
    /// The change is in the container, and a segment was started for it.
    SegmentStarted,
    /// Nothing had to be done.
    Skipped,
    /// The medium or the container failed.
    Failed,
}

} // verus!
