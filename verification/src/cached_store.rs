//! The causally coordinated decoded object cache.
//!
//! One database-local store sits between the object backend and every typed
//! store. It decides what a request may answer from decoded knowledge, what the
//! backend is asked, and how each reply is reconciled with what is known. Its
//! caller performs the backend requests, one at a time for each path.

pub mod evidence;
pub mod knowledge;
pub mod laws;
pub mod mutation;
pub mod path_lane;

use vstd::prelude::*;
use vstd::string::*;

use std::sync::Arc;

use crate::cache::SHARD_COUNT;
use crate::cache_stats::{self, CacheMetrics, CacheStats};
use crate::error::{self, BackendError, StorageError};
use crate::text;
use crate::timeline::{self, Requirement, SequencePoint};

pub use evidence::{
    CasReceipt, CasResult, EvidenceCells, Observation, ObservationCheck, ObservationView, Revision,
};
pub use knowledge::{FetchResult, FetchView, Incoming, Knowledge, PresentSeed, SeedView};
pub use mutation::{DiskChange, MutationOutcome, MutationRound};
pub use path_lane::{Flight, FlightEnd, PathLane, ReadAdmission};

verus! {

/// A body that the backend returned, decoded by the typed store.
#[derive(Debug)]
pub struct Body<V> {
    /// The decoded value with its decoded size, or why decoding failed.
    pub decoded: Result<(Arc<V>, usize), StorageError>,
    /// The version of the object.
    pub version: String,
}

/// How a read begins.
#[derive(Debug)]
pub enum ReadStart<V> {
    /// Decoded knowledge answers. The hit is reported to the persistent cache
    /// when `record_hit` is set.
    Hit { observed: Observation<V>, record_hit: bool },
    /// The object is fetched.
    Fetch,
}

/// How the leader of a path's read goes on.
#[derive(Debug)]
pub enum Lead<V> {
    /// What is known answers by now.
    Answer { fetched: FetchResult<V>, record_hit: bool },
    /// The backend is asked for the object unless it has the seed's revision.
    Conditional(PresentSeed<V>),
    /// The persistent cache is asked for a body to start from.
    Persistent,
    /// The backend is asked for the object.
    Unconditional,
}

/// How a check of an observation begins.
#[derive(Debug)]
pub enum CheckStart<V> {
    /// What is known settles the check.
    Settled { check: ObservationCheck<V>, record_hit: bool },
    /// The object is fetched.
    Fetch,
}

/// What a body of the persistent cache is worth.
#[derive(Debug)]
pub enum Candidate<V> {
    /// The body starts the read, and its use is recorded.
    Seed(PresentSeed<V>),
    /// The body is corrupt and is dropped.
    Corrupt,
}

/// The decoded object cache of one database.
pub struct CachedStore<V> {
    knowledge: Knowledge<V>,
    body_reads: u64,
    metrics: CacheMetrics,
    persistent: bool,
}

impl<V> CachedStore<V> {
    /// What is known of objects.
    pub closed spec fn known(&self) -> Knowledge<V> {
        self.knowledge
    }

    /// The number of bodies that the backend returned.
    pub closed spec fn reads(&self) -> u64 {
        self.body_reads
    }

    /// The counters.
    pub closed spec fn counts(&self) -> CacheStats {
        self.metrics@
    }

    /// A persistent cache is configured.
    pub closed spec fn is_persistent(&self) -> bool {
        self.persistent
    }

    /// The knowledge is well formed.
    pub open spec fn wf(&self) -> bool {
        self.known().wf()
    }

    /// An observation's evidence has a cell here, which is for the state that
    /// was observed.
    pub open spec fn owns(&self, observed: ObservationView<V>) -> bool {
        self.known().owns(observed)
    }

    /// Nothing but knowledge differs.
    pub open spec fn same_but_knowledge(&self, before: &Self) -> bool {
        &&& self.reads() == before.reads()
        &&& self.counts() == before.counts()
        &&& self.is_persistent() == before.is_persistent()
    }

    /// Knows nothing yet; holds decoded values of at most `max_size` bytes.
    pub fn new(max_size: usize, persistent: bool) -> (r: Self)
        ensures
            r.wf(),
            forall|i: int|
                0 <= i < SHARD_COUNT ==> (#[trigger] r.known().cache().shards()[i]).budget()
                    == max_size / SHARD_COUNT,
            r.known().marks() == Seq::<u64>::empty(),
            forall|path: &str| (#[trigger] r.known().known(path)) is None,
            r.reads() == 0,
            r.counts() == cache_stats::no_activity(),
            r.is_persistent() == persistent,
    {
        CachedStore {
            knowledge: Knowledge::new(max_size),
            body_reads: 0,
            metrics: CacheMetrics::new(),
            persistent,
        }
    }

    /// Returns the number of bodies that the backend returned.
    pub fn body_reads(&self) -> (r: u64)
        ensures
            r == self.reads(),
    {
        self.body_reads
    }

    /// Returns the counters and sets them to zero.
    pub fn cache_stats_and_reset(&mut self) -> (r: CacheStats)
        ensures
            r == old(self).counts(),
            final(self).counts() == cache_stats::no_activity(),
            final(self).known() == old(self).known(),
            final(self).reads() == old(self).reads(),
            final(self).is_persistent() == old(self).is_persistent(),
    {
        self.metrics.snapshot_and_reset()
    }

    /// Returns the watermark cells of the observations.
    pub fn cells(&self) -> (r: &EvidenceCells)
        ensures
            r@ == self.known().marks(),
    {
        self.knowledge.cells()
    }

    /// Returns what is known of a path when its evidence satisfies the
    /// requirement, and whether the use is reported to the persistent cache.
    pub fn try_hit(&mut self, path: &str, kind: &str, requirement: Requirement) -> (r: Result<
        Option<(Observation<V>, bool)>,
        StorageError,
    >)
        requires
            old(self).wf(),
        ensures
            final(self).wf(),
            final(self).same_but_knowledge(old(self)),
            final(self).known().marks() == old(self).known().marks(),
            final(self).known().subjects() == old(self).known().subjects(),
            final(self).known().cache().touched(&old(self).known().cache(), path),
            final(self).known().known(path) == old(self).known().known(path),
            match Knowledge::answers(
                old(self).known().marks(),
                path@,
                old(self).known().known(path),
                kind@,
                requirement,
            ) {
                Ok(Some(view)) => r matches Ok(Some((found, record))) && found@ == view && record
                    == (view.value is Some && old(self).is_persistent()) && old(self).owns(view),
                Ok(None) => r matches Ok(None),
                Err(words) => r matches Err(error) && error.says(words),
            },
            r matches Ok(Some((found, _))) ==> (requirement matches Requirement::AtLeast(point)
                ==> old(self).known().marks()[found@.cell as int] >= point@),
    {
        match self.knowledge.peek(path, kind, requirement) {
            Ok(Some(observed)) => {
                let record = observed.is_present() && self.persistent;
                Ok(Some((observed, record)))
            },
            Ok(None) => Ok(None),
            Err(error) => Err(error),
        }
    }

    /// Starts a read: what is known answers when it satisfies the requirement.
    pub fn begin_read(&mut self, path: &str, kind: &str, requirement: Requirement) -> (r: Result<
        ReadStart<V>,
        StorageError,
    >)
        requires
            old(self).wf(),
        ensures
            final(self).wf(),
            final(self).reads() == old(self).reads(),
            final(self).is_persistent() == old(self).is_persistent(),
            final(self).known().marks() == old(self).known().marks(),
            final(self).known().subjects() == old(self).known().subjects(),
            final(self).known().cache().touched(&old(self).known().cache(), path),
            final(self).known().known(path) == old(self).known().known(path),
            match Knowledge::answers(
                old(self).known().marks(),
                path@,
                old(self).known().known(path),
                kind@,
                requirement,
            ) {
                Ok(Some(view)) => {
                    &&& r matches Ok(ReadStart::Hit { observed, record_hit })
                    &&& observed@ == view
                    &&& record_hit == (view.value is Some && old(self).is_persistent())
                    &&& final(self).owns(view)
                    &&& final(self).counts() == (CacheStats {
                        l1_hits: old(self).counts().l1_hits.wrapping_add(1),
                        ..old(self).counts()
                    })
                },
                Ok(None) => {
                    &&& r matches Ok(ReadStart::Fetch)
                    &&& final(self).counts() == (CacheStats {
                        l1_misses: old(self).counts().l1_misses.wrapping_add(1),
                        ..old(self).counts()
                    })
                },
                Err(words) => {
                    &&& r matches Err(error) && error.says(words)
                    &&& final(self).counts() == old(self).counts()
                },
            },
            r matches Ok(ReadStart::Hit { observed, .. }) ==> (
            requirement matches Requirement::AtLeast(point)
                ==> final(self).known().marks()[observed@.cell as int] >= point@),
    {
        match self.try_hit(path, kind, requirement) {
            Ok(Some((observed, record_hit))) => {
                self.metrics.l1_hit();
                Ok(ReadStart::Hit { observed, record_hit })
            },
            Ok(None) => {
                self.metrics.l1_miss();
                Ok(ReadStart::Fetch)
            },
            Err(error) => Err(error),
        }
    }
}

/// The fetch result that an observation gives.
pub open spec fn fetched_from<V>(observed: ObservationView<V>, kind: Seq<char>) -> FetchView<V> {
    FetchView {
        value: observed.value,
        kind,
        revision: observed.revision,
        cell: observed.cell,
        cache_hit: true,
    }
}

/// The fetch result that a seed gives.
pub open spec fn fetched_from_seed<V>(seed: SeedView<V>) -> FetchView<V> {
    FetchView {
        value: Some(seed.value),
        kind: seed.kind,
        revision: Some(seed.revision),
        cell: seed.cell,
        cache_hit: true,
    }
}

/// How the leader of a path's read goes on.
pub enum LeadView<V> {
    /// What is known answers by now.
    Answer { fetched: FetchView<V>, record_hit: bool },
    /// The backend is asked with the seed's revision.
    Conditional(SeedView<V>),
    /// The persistent cache is asked.
    Persistent,
    /// The backend is asked.
    Unconditional,
}

impl<V> View for Lead<V> {
    type V = LeadView<V>;

    open spec fn view(&self) -> LeadView<V> {
        match self {
            Lead::Answer { fetched, record_hit } => LeadView::Answer {
                fetched: fetched@,
                record_hit: *record_hit,
            },
            Lead::Conditional(seed) => LeadView::Conditional(seed@),
            Lead::Persistent => LeadView::Persistent,
            Lead::Unconditional => LeadView::Unconditional,
        }
    }
}

/// How the leader of a path's read goes on, given what is known: the retained
/// observation or the cached state answers when its evidence satisfies the
/// requirement; else a present state is checked conditionally; else the
/// persistent cache is asked when there is one.
pub open spec fn leads<V>(
    marks: Seq<u64>,
    path: Seq<char>,
    known: Option<knowledge::CacheEntry<V>>,
    kind: Seq<char>,
    requirement: Requirement,
    fallback: Option<(ObservationView<V>, usize)>,
    persistent: bool,
) -> Result<LeadView<V>, Seq<char>> {
    if fallback is Some && timeline::satisfied(
        requirement,
        marks[fallback->Some_0.0.cell as int],
    ) {
        Ok(
            LeadView::Answer {
                fetched: fetched_from(fallback->Some_0.0, kind),
                record_hit: false,
            },
        )
    } else {
        match Knowledge::answers(marks, path, known, kind, requirement) {
            Err(words) => Err(words),
            Ok(Some(observed)) => Ok(
                LeadView::Answer {
                    fetched: fetched_from(observed, kind),
                    record_hit: observed.value is Some && persistent,
                },
            ),
            Ok(None) => match knowledge::offered_seed(path, known, kind, fallback) {
                Err(words) => Err(words),
                Ok(Some(seed)) => Ok(LeadView::Conditional(seed)),
                Ok(None) => Ok(
                    if persistent {
                        LeadView::Persistent
                    } else {
                        LeadView::Unconditional
                    },
                ),
            },
        }
    }
}

/// How the leader of a path's read goes on once the persistent cache answered: a
/// body answers a read that accepts any state, and else is checked.
pub open spec fn leads_on<V>(requirement: Requirement, seed: Option<SeedView<V>>) -> LeadView<V> {
    match (seed, requirement) {
        (Some(seed), Requirement::Any) => LeadView::Answer {
            fetched: fetched_from_seed(seed),
            record_hit: false,
        },
        (Some(seed), Requirement::AtLeast(_)) => LeadView::Conditional(seed),
        (None, _) => LeadView::Unconditional,
    }
}

impl<V> CachedStore<V> {
    /// Decides how the leader of a path's read goes on, once it has the path's
    /// permit. `fallback` is a retained observation with its decoded size.
    pub fn lead(
        &mut self,
        path: &str,
        kind: &str,
        requirement: Requirement,
        fallback: Option<(&Observation<V>, usize)>,
    ) -> (r: Result<Lead<V>, StorageError>)
        requires
            old(self).wf(),
            fallback matches Some((observed, _)) ==> observed@.path == path@ && old(self).owns(
                observed@,
            ),
        ensures
            final(self).wf(),
            final(self).same_but_knowledge(old(self)),
            final(self).known().marks() == old(self).known().marks(),
            final(self).known().subjects() == old(self).known().subjects(),
            final(self).known().known(path) == old(self).known().known(path),
            if fallback matches Some((observed, _)) && timeline::satisfied(
                requirement,
                old(self).known().marks()[observed@.cell as int],
            ) {
                final(self).known() == old(self).known()
            } else {
                final(self).known().cache().touched(&old(self).known().cache(), path)
            },
            match leads(
                old(self).known().marks(),
                path@,
                old(self).known().known(path),
                kind@,
                requirement,
                knowledge::fallback_view(fallback),
                old(self).is_persistent(),
            ) {
                Ok(view) => r matches Ok(step) && step@ == view,
                Err(words) => r matches Err(error) && error.says(words),
            },
            r matches Ok(Lead::Conditional(seed)) ==> final(self).known().owns_seed(path@, seed@),
            r matches Ok(Lead::Answer { fetched, record_hit }) ==> {
                &&& final(self).known().owns_fetched(path@, fetched@)
                &&& requirement matches Requirement::AtLeast(point)
                    ==> final(self).known().marks()[fetched@.cell as int] >= point@
            },
            r matches Ok(Lead::Unconditional) ==> !old(self).is_persistent(),
            r matches Ok(Lead::Persistent) ==> old(self).is_persistent(),
    {
        let ghost before = self.knowledge.cache();
        if let Some((observed, _)) = fallback {
            if observed.satisfies(self.knowledge.cells(), requirement) {
                let fetched = self.knowledge.result_from_observation(observed, kind, true);
                return Ok(Lead::Answer { fetched, record_hit: false });
            }
        }
        match self.try_hit(path, kind, requirement) {
            Err(error) => return Err(error),
            Ok(Some((observed, record_hit))) => {
                let fetched = self.knowledge.result_from_observation(&observed, kind, true);
                return Ok(Lead::Answer { fetched, record_hit });
            },
            Ok(None) => {},
        }
        let ghost mid = self.knowledge.cache();
        let seed = self.knowledge.present_seed(path, kind, fallback);
        proof {
            crate::cache::Cache::lemma_touch_again(&before, &mid, &self.knowledge.cache(), path);
        }
        match seed {
            Err(error) => Err(error),
            Ok(Some(seed)) => Ok(Lead::Conditional(seed)),
            Ok(None) => Ok(
                if self.persistent {
                    Lead::Persistent
                } else {
                    Lead::Unconditional
                },
            ),
        }
    }

    /// Decides how the leader goes on once the persistent cache answered: a
    /// body answers a read that accepts any state, and else is checked.
    pub fn lead_on(&self, requirement: Requirement, seed: Option<PresentSeed<V>>) -> (r: Lead<V>)
        ensures
            r@ == leads_on(
                requirement,
                match seed {
                    Some(seed) => Some(seed@),
                    None => None,
                },
            ),
            r matches Lead::Answer { .. } ==> requirement is Any,
            r@ == (match seed {
                Some(seed) => if requirement is Any {
                    LeadView::Answer { fetched: fetched_from_seed(seed@), record_hit: false }
                } else {
                    LeadView::Conditional(seed@)
                },
                None => LeadView::Unconditional,
            }),
    {
        match seed {
            Some(seed) => match requirement {
                Requirement::Any => Lead::Answer {
                    fetched: self.knowledge.result_from_seed(seed, true),
                    record_hit: false,
                },
                Requirement::AtLeast(_) => Lead::Conditional(seed),
            },
            None => Lead::Unconditional,
        }
    }

    /// Installs a body of the persistent cache, unless its revision is no text
    /// or the body does not decode.
    pub fn decode_candidate(
        &mut self,
        path: &str,
        kind: &str,
        revision: Vec<u8>,
        decoded: Result<(Arc<V>, usize), StorageError>,
        current_after: SequencePoint,
    ) -> (r: Candidate<V>)
        requires
            old(self).wf(),
        ensures
            final(self).wf(),
            final(self).same_but_knowledge(old(self)),
            evidence::advanced(old(self).known().marks(), final(self).known().marks()),
            final(self).known().keeps_subjects(&old(self).known()),
            if vstd::utf8::valid_utf8(revision@) && decoded is Ok {
                let token = vstd::utf8::decode_utf8(revision@);
                let (value, size) = decoded->Ok_0;
                &&& final(self).known().installs_present(
                    &old(self).known(),
                    path,
                    *value,
                    kind@,
                    size,
                    token,
                    Incoming::Point(current_after),
                )
                &&& r matches Candidate::Seed(seed)
                &&& seed@ == knowledge::seed_of(
                    *value,
                    kind@,
                    size,
                    token,
                    knowledge::merged_cell(
                        old(self).known().marks(),
                        knowledge::shared_present(old(self).known().known(path), token),
                        Incoming::Point(current_after),
                    ),
                )
                &&& final(self).known().owns_seed(path@, seed@)
            } else {
                r is Corrupt && *final(self) == *old(self)
            },
    {
        let token = match text::from_utf8(revision) {
            Some(token) => token,
            None => {
                return Candidate::Corrupt;
            },
        };
        match decoded {
            Err(_) => Candidate::Corrupt,
            Ok((value, size)) => {
                let seed = self.knowledge.install_persistent(
                    path,
                    value,
                    kind,
                    size,
                    Revision::from_backend(token),
                    current_after,
                );
                Candidate::Seed(seed)
            },
        }
    }
}

impl<V> CachedStore<V> {
    /// Reconciles the reply to a read. `seed` is the state that a conditional
    /// read was made with; then a refused precondition means that it is
    /// unchanged.
    pub fn finish_fetch(
        &mut self,
        path: &str,
        kind: &str,
        seed: Option<PresentSeed<V>>,
        reply: Result<Body<V>, BackendError>,
        invoked: SequencePoint,
    ) -> (r: (Result<FetchResult<V>, StorageError>, DiskChange))
        requires
            old(self).wf(),
            seed matches Some(seed) ==> old(self).known().owns_seed(path@, seed@),
        ensures
            final(self).wf(),
            final(self).counts() == old(self).counts(),
            final(self).is_persistent() == old(self).is_persistent(),
            final(self).reads() == if reply is Ok {
                old(self).reads().wrapping_add(1)
            } else {
                old(self).reads()
            },
            evidence::advanced(old(self).known().marks(), final(self).known().marks()),
            final(self).known().keeps_subjects(&old(self).known()),
            r.0 matches Ok(fetched) ==> final(self).known().owns_fetched(path@, fetched@)
                && final(self).known().marks()[fetched@.cell as int] >= invoked@,
            match reply {
                Ok(body) => match body.decoded {
                    Ok((value, size)) => {
                        &&& final(self).known().installs_present(
                            &old(self).known(),
                            path,
                            *value,
                            kind@,
                            size,
                            body.version@,
                            Incoming::Point(invoked),
                        )
                        &&& r.0 matches Ok(fetched)
                        &&& fetched@ == (FetchView {
                            value: Some(*value),
                            kind: kind@,
                            revision: Some(body.version@),
                            cell: knowledge::merged_cell(
                                old(self).known().marks(),
                                knowledge::shared_present(
                                    old(self).known().known(path),
                                    body.version@,
                                ),
                                Incoming::Point(invoked),
                            ),
                            cache_hit: false,
                        })
                        &&& r.1 == DiskChange::Replace
                    },
                    Err(error) => {
                        &&& final(self).known().marks() == old(self).known().marks()
                        &&& final(self).known().known(path) is None
                        &&& final(self).known().cache().wrote(
                            &old(self).known().cache(),
                            path,
                            None,
                        )
                        &&& r.0 matches Err(failure)
                        &&& failure == error
                        &&& r.1 == DiskChange::Invalidate
                    },
                },
                Err(BackendError::NotFound) => {
                    &&& final(self).known().installs_absent(
                        &old(self).known(),
                        path,
                        invoked@,
                    )
                    &&& r.0 matches Ok(fetched)
                    &&& fetched@ == (FetchView::<V> {
                        value: None,
                        kind: Seq::empty(),
                        revision: None,
                        cell: final(self).known().known(path)->Some_0.cell_of() as nat,
                        cache_hit: false,
                    })
                    &&& r.1 == DiskChange::Invalidate
                },
                Err(error) => if error is Precondition && seed is Some {
                    let seed = seed->Some_0@;
                    &&& final(self).known().confirms_seed(
                        &old(self).known(),
                        path,
                        seed,
                        invoked@,
                    )
                    &&& r.0 matches Ok(fetched)
                    &&& fetched@ == (FetchView {
                        value: Some(seed.value),
                        kind: seed.kind,
                        revision: Some(seed.revision),
                        cell: knowledge::confirmed_cell(old(self).known().known(path), seed),
                        cache_hit: true,
                    })
                    &&& r.1 == DiskChange::Keep
                } else {
                    &&& final(self).known() == old(self).known()
                    &&& r.0 matches Err(failure)
                    &&& failure == error::storage_error(error)
                    &&& r.1 == DiskChange::Keep
                },
            },
    {
        match reply {
            Ok(body) => {
                self.body_reads = self.body_reads.wrapping_add(1);
                match body.decoded {
                    Ok((value, size)) => {
                        let fetched = self.knowledge.install_fetched(
                            path,
                            value,
                            kind,
                            size,
                            Revision::from_backend(body.version),
                            invoked,
                        );
                        (Ok(fetched), DiskChange::Replace)
                    },
                    Err(error) => {
                        self.knowledge.invalidate(path);
                        (Err(error), DiskChange::Invalidate)
                    },
                }
            },
            Err(BackendError::NotFound) => {
                let fetched = self.knowledge.install_absent_result(path, invoked);
                (Ok(fetched), DiskChange::Invalidate)
            },
            Err(BackendError::Precondition) => match seed {
                Some(seed) => {
                    let fetched = self.knowledge.confirm_unchanged(path, seed, invoked);
                    (Ok(fetched), DiskChange::Keep)
                },
                None => (Err(StorageError::Precondition), DiskChange::Keep),
            },
            Err(error) => (Err(StorageError::from(error)), DiskChange::Keep),
        }
    }

    /// Makes the observation of a read of its fetch result.
    pub fn finish_read(&self, path: &str, kind: &str, fetched: FetchResult<V>) -> (r: Result<
        Observation<V>,
        StorageError,
    >)
        ensures
            if fetched@.value is Some && fetched@.kind != kind@ {
                r matches Err(error) && error.says(knowledge::wrong_type(path@, kind@))
            } else {
                r matches Ok(found) && found@ == (ObservationView {
                    path: path@,
                    value: fetched@.value,
                    revision: fetched@.revision,
                    cell: fetched@.cell,
                    cache_hit: fetched@.cache_hit,
                })
            },
    {
        self.knowledge.to_observation(path, kind, fetched)
    }

    /// Starts a check of a retained observation: its own evidence or what is
    /// known of its path may settle it.
    pub fn begin_check(
        &mut self,
        observed: &Observation<V>,
        kind: &str,
        requirement: Requirement,
    ) -> (r: Result<CheckStart<V>, StorageError>)
        requires
            old(self).wf(),
            old(self).owns(observed@),
        ensures
            final(self).wf(),
            final(self).same_but_knowledge(old(self)),
            evidence::advanced(old(self).known().marks(), final(self).known().marks()),
            final(self).known().keeps_subjects(&old(self).known()),
            forall|path: &str|
                path@ == observed@.path ==> {
                    &&& #[trigger] final(self).known().known(path) == old(self).known().known(path)
                    &&& timeline::satisfied(
                        requirement,
                        old(self).known().marks()[observed@.cell as int],
                    ) || final(self).known().cache().touched(&old(self).known().cache(), path)
                },
            ({
                let marks = old(self).known().marks();
                let own = observed@.cell as int;
                if timeline::satisfied(requirement, marks[own]) {
                    &&& r matches Ok(CheckStart::Settled { check, record_hit })
                    &&& check is Current
                    &&& !record_hit
                    &&& final(self).known() == old(self).known()
                } else {
                    forall|path: &str|
                        path@ == observed@.path ==> match Knowledge::answers(
                            marks,
                            path@,
                            #[trigger] old(self).known().known(path),
                            kind@,
                            requirement,
                        ) {
                            Err(words) => {
                                &&& r matches Err(error)
                                &&& error.says(words)
                                &&& final(self).known().marks() == marks
                            },
                            Ok(None) => {
                                &&& r matches Ok(CheckStart::Fetch)
                                &&& final(self).known().marks() == marks
                            },
                            Ok(Some(current)) => {
                                &&& r matches Ok(CheckStart::Settled { check, record_hit })
                                &&& record_hit == (current.value is Some
                                    && old(self).is_persistent())
                                &&& if current.revision == observed@.revision {
                                    &&& check is Current
                                    &&& final(self).known().marks() == evidence::raised(
                                        marks,
                                        own,
                                        marks[current.cell as int],
                                    )
                                } else {
                                    &&& check matches ObservationCheck::Changed(found)
                                    &&& found@ == current
                                    &&& final(self).owns(current)
                                    &&& final(self).known().marks() == marks
                                }
                            },
                        }
                }
            }),
            r matches Ok(CheckStart::Settled { check, .. }) ==> match check {
                ObservationCheck::Current => requirement matches Requirement::AtLeast(point)
                    ==> final(self).known().marks()[observed@.cell as int] >= point@,
                ObservationCheck::Changed(found) => found@.path == observed@.path
                    && found@.revision != observed@.revision && (
                requirement matches Requirement::AtLeast(point)
                    ==> final(self).known().marks()[found@.cell as int] >= point@),
            },
    {
        if observed.satisfies(self.knowledge.cells(), requirement) {
            return Ok(
                CheckStart::Settled { check: ObservationCheck::Current, record_hit: false },
            );
        }
        match self.try_hit(observed.path(), kind, requirement) {
            Err(error) => Err(error),
            Ok(None) => Ok(CheckStart::Fetch),
            Ok(Some((current, record_hit))) => {
                let same = match (current.revision(), observed.revision()) {
                    (Some(now), Some(then)) => now.same(then),
                    (None, None) => true,
                    _ => false,
                };
                if same {
                    let point = current.current_after(self.knowledge.cells());
                    self.knowledge.advance_observed(observed, point);
                    Ok(CheckStart::Settled { check: ObservationCheck::Current, record_hit })
                } else {
                    Ok(
                        CheckStart::Settled {
                            check: ObservationCheck::Changed(current),
                            record_hit,
                        },
                    )
                }
            },
        }
    }

    /// Ends a check of a retained observation with the state that was fetched:
    /// the evidence of both is merged when they are the same state.
    pub fn finish_check(&mut self, observed: &Observation<V>, current: Observation<V>) -> (r:
        ObservationCheck<V>)
        requires
            old(self).wf(),
            old(self).owns(observed@),
            old(self).owns(current@),
        ensures
            final(self).wf(),
            final(self).same_but_knowledge(old(self)),
            final(self).known().cache() == old(self).known().cache(),
            evidence::advanced(old(self).known().marks(), final(self).known().marks()),
            final(self).known().keeps_subjects(&old(self).known()),
            ({
                let marks = old(self).known().marks();
                let own = observed@.cell as int;
                let other = current@.cell as int;
                if observed@.path == current@.path && observed@.revision == current@.revision {
                    &&& r is Current
                    &&& final(self).known().marks() == evidence::raised(
                        evidence::raised(marks, own, marks[other]),
                        other,
                        marks[own],
                    )
                } else {
                    &&& r == ObservationCheck::Changed(current)
                    &&& final(self).known() == old(self).known()
                }
            }),
            match r {
                ObservationCheck::Current => {
                    &&& observed@.path == current@.path
                    &&& observed@.revision == current@.revision
                    &&& final(self).known().marks()[observed@.cell as int] >= old(
                        self,
                    ).known().marks()[current@.cell as int]
                },
                ObservationCheck::Changed(found) => observed@.path != found@.path
                    || observed@.revision != found@.revision,
            },
    {
        if observed.same_observed_state(&current) {
            let ghost marks = self.knowledge.marks();
            let mine = observed.current_after(self.knowledge.cells());
            let theirs = current.current_after(self.knowledge.cells());
            let merged = mine.later(theirs);
            self.knowledge.advance_observed(observed, merged);
            let ghost mid = self.knowledge.marks();
            self.knowledge.advance_observed(&current, merged);
            proof {
                evidence::law_advanced_is_transitive(marks, mid, self.knowledge.marks());
                assert(self.knowledge.marks() =~= evidence::raised(
                    evidence::raised(
                        marks,
                        observed@.cell as int,
                        marks[current@.cell as int],
                    ),
                    current@.cell as int,
                    marks[observed@.cell as int],
                ));
            }
            ObservationCheck::Current
        } else {
            ObservationCheck::Changed(current)
        }
    }
}

impl<V> CachedStore<V> {
    /// Starts a conditional create, with the absence that was observed.
    pub fn begin_create(&mut self, path: &str, absence: Option<&Observation<V>>) -> (r: Result<
        MutationRound,
        StorageError,
    >)
        requires
            old(self).wf(),
            absence matches Some(observed) ==> old(self).owns(observed@),
        ensures
            final(self).wf(),
            final(self).same_but_knowledge(old(self)),
            final(self).known().marks() == old(self).known().marks(),
            final(self).known().subjects() == old(self).known().subjects(),
            final(self).known().known(path) == old(self).known().known(path),
            if (absence matches Some(observed) ==> observed@.value is None && observed@.path
                == path@) {
                &&& final(self).known().cache().touched(&old(self).known().cache(), path)
                &&& r matches Ok(round)
                &&& round.expectation() == knowledge::captured(
                    knowledge::ExpectedView {
                        revision: None,
                        observed: match absence {
                            Some(observed) => Some(observed@.cell),
                            None => None,
                        },
                        cached: None,
                    },
                    old(self).known().known(path),
                )
                &&& knowledge::vouched_for(
                    round.expectation(),
                    path@,
                    final(self).known().subjects(),
                )
            } else {
                &&& final(self).known() == old(self).known()
                &&& r matches Err(error)
                &&& error.says("create requires an absence observation for the same path"@)
            },
    {
        if let Some(observed) = absence {
            if observed.is_present() || !(String::from_str(observed.path()) == String::from_str(
                path,
            )) {
                return Err(
                    StorageError::other("create requires an absence observation for the same path"),
                );
            }
        }
        let expected = self.knowledge.expected_absent(absence);
        Ok(MutationRound::new(&mut self.knowledge, path, expected))
    }

    /// Starts a conditional replacement of an observed present state.
    pub fn begin_cas(&mut self, expected: &Observation<V>) -> (r: Result<
        (Revision, MutationRound),
        StorageError,
    >)
        requires
            old(self).wf(),
            old(self).owns(expected@),
        ensures
            final(self).wf(),
            begins(old(self), final(self), expected@, r, "CAS requires a present observation"@),
    {
        match expected.revision() {
            Some(revision) => {
                let state = self.knowledge.expected_present(revision.clone(), expected);
                let round = MutationRound::new(&mut self.knowledge, expected.path(), state);
                Ok((revision.clone(), round))
            },
            None => Err(StorageError::other("CAS requires a present observation")),
        }
    }

    /// Starts a conditional delete of an observed present state.
    pub fn begin_delete(&mut self, expected: &Observation<V>) -> (r: Result<
        (Revision, MutationRound),
        StorageError,
    >)
        requires
            old(self).wf(),
            old(self).owns(expected@),
        ensures
            final(self).wf(),
            begins(
                old(self),
                final(self),
                expected@,
                r,
                "delete requires a present observation"@,
            ),
    {
        match expected.revision() {
            Some(revision) => {
                let state = self.knowledge.expected_present(revision.clone(), expected);
                let round = MutationRound::new(&mut self.knowledge, expected.path(), state);
                Ok((revision.clone(), round))
            },
            None => Err(StorageError::other("delete requires a present observation")),
        }
    }
}

/// A mutation of a present state begins: its revision is what the backend is
/// asked to replace, and the evidence of the same cached state is captured.
pub open spec fn begins<V>(
    before: &CachedStore<V>,
    after: &CachedStore<V>,
    expected: ObservationView<V>,
    r: Result<(Revision, MutationRound), StorageError>,
    words: Seq<char>,
) -> bool {
    &&& after.same_but_knowledge(before)
    &&& after.known().marks() == before.known().marks()
    &&& after.known().subjects() == before.known().subjects()
    &&& match expected.revision {
        Some(revision) => {
            &&& r matches Ok((asked, round))
            &&& asked@ == revision
            &&& knowledge::vouched_for(
                round.expectation(),
                expected.path,
                after.known().subjects(),
            )
            &&& forall|path: &str|
                path@ == expected.path ==> {
                    &&& (#[trigger] after.known().known(path)) == before.known().known(path)
                    &&& after.known().cache().touched(&before.known().cache(), path)
                    &&& round.expectation() == knowledge::captured(
                        knowledge::ExpectedView {
                            revision: Some(revision),
                            observed: Some(expected.cell),
                            cached: None,
                        },
                        before.known().known(path),
                    )
                }
        },
        None => {
            &&& after.known() == before.known()
            &&& r matches Err(error)
            &&& error.says(words)
        },
    }
}

/// A mutation that did not apply was reconciled.
pub open spec fn settles<V>(
    before: &CachedStore<V>,
    after: &CachedStore<V>,
    path: &str,
    expected: knowledge::ExpectedView,
    outcome: MutationOutcome,
    change: DiskChange,
) -> bool {
    &&& after.known().marks() == before.known().marks()
    &&& after.known().subjects() == before.known().subjects()
    &&& after.known().known(path) == mutation::left(
        before.known().known(path),
        expected,
        outcome,
    )
    &&& if outcome is DefiniteFailure {
        change == DiskChange::Keep && after.known().cache() == before.known().cache()
    } else {
        change == DiskChange::Invalidate && after.known().cache().wrote(
            &before.known().cache(),
            path,
            after.known().known(path),
        )
    }
}

/// How the reply to a mutation that did not apply is classified.
pub open spec fn refused(error: BackendError) -> MutationOutcome {
    match error {
        BackendError::Precondition => MutationOutcome::Conflict,
        BackendError::Unavailable(text) => MutationOutcome::Uncertain(
            StorageError::Unavailable(text),
        ),
        _ => MutationOutcome::DefiniteFailure(error::storage_error(error)),
    }
}

/// What is known after a mutation wrote a value: the value was installed, and
/// then the evidence of the state that it replaced was advanced.
pub open spec fn applies<V>(
    before: &CachedStore<V>,
    after: &CachedStore<V>,
    path: &str,
    value: V,
    kind: Seq<char>,
    size: usize,
    version: Seq<char>,
    invoked: SequencePoint,
    expected: knowledge::ExpectedView,
) -> bool {
    let shared = knowledge::shared_present(before.known().known(path), version);
    let incoming = Incoming::Point(invoked);
    let installed = knowledge::merged_marks(before.known().marks(), shared, incoming);
    &&& after.known().marks() == knowledge::raised_at(
        knowledge::raised_at(installed, expected.observed, invoked@),
        expected.cached,
        invoked@,
    )
    &&& after.known().cache().wrote(
        &before.known().cache(),
        path,
        after.known().known(path),
    )
    &&& if shared is Some {
        after.known().known(path) == before.known().known(path)
    } else {
        &&& after.known().known(path) matches Some(
            knowledge::CacheEntry::Present { value: v, kind: k, size: s, revision, cell },
        )
        &&& *v == value
        &&& k@ == kind
        &&& s == size
        &&& revision@ == version
        &&& cell == before.known().marks().len()
    }
}

impl<V> CachedStore<V> {
    /// Installs a value that a mutation wrote.
    fn apply(
        &mut self,
        path: &str,
        kind: &str,
        round: &MutationRound,
        value: Arc<V>,
        size: usize,
        version: String,
        invoked: SequencePoint,
    ) -> (r: Observation<V>)
        requires
            old(self).wf(),
            knowledge::vouched_for(round.expectation(), path@, old(self).known().subjects()),
        ensures
            final(self).wf(),
            final(self).same_but_knowledge(old(self)),
            evidence::advanced(old(self).known().marks(), final(self).known().marks()),
            final(self).known().keeps_subjects(&old(self).known()),
            applies(
                old(self),
                final(self),
                path,
                *value,
                kind@,
                size,
                version@,
                invoked,
                round.expectation(),
            ),
            r@ == (ObservationView {
                path: path@,
                value: Some(*value),
                revision: Some(version@),
                cell: knowledge::merged_cell(
                    old(self).known().marks(),
                    knowledge::shared_present(old(self).known().known(path), version@),
                    Incoming::Point(invoked),
                ),
                cache_hit: false,
            }),
            final(self).owns(r@),
            final(self).known().marks()[r@.cell as int] >= invoked@,
    {
        let ghost before = self.knowledge.marks();
        let installed = self.knowledge.install_mutation(
            path,
            value,
            kind,
            size,
            Revision::from_backend(version),
            invoked,
        );
        let ghost mid = self.knowledge.marks();
        round.confirm(&mut self.knowledge, invoked);
        proof {
            evidence::law_advanced_is_transitive(before, mid, self.knowledge.marks());
        }
        installed
    }

    /// Reconciles the reply to a conditional create.
    pub fn finish_create(
        &mut self,
        path: &str,
        kind: &str,
        round: MutationRound,
        value: Arc<V>,
        size: usize,
        reply: Result<String, BackendError>,
        invoked: SequencePoint,
    ) -> (r: (Result<CasResult<V>, StorageError>, DiskChange))
        requires
            old(self).wf(),
            knowledge::vouched_for(round.expectation(), path@, old(self).known().subjects()),
        ensures
            final(self).wf(),
            final(self).same_but_knowledge(old(self)),
            evidence::advanced(old(self).known().marks(), final(self).known().marks()),
            final(self).known().keeps_subjects(&old(self).known()),
            match reply {
                Ok(version) => {
                    &&& applies(
                        old(self),
                        final(self),
                        path,
                        *value,
                        kind@,
                        size,
                        version@,
                        invoked,
                        round.expectation(),
                    )
                    &&& r.1 == DiskChange::Invalidate
                    &&& r.0 matches Ok(CasResult::Applied(receipt))
                    &&& receipt.expected() is None
                    &&& receipt.invoked_at() == invoked@
                    &&& receipt.state().path == path@
                    &&& receipt.state().value == Some(*value)
                    &&& receipt.state().revision == Some(version@)
                    &&& receipt.state().cell == knowledge::merged_cell(
                        old(self).known().marks(),
                        knowledge::shared_present(old(self).known().known(path), version@),
                        Incoming::Point(invoked),
                    )
                    &&& !receipt.state().cache_hit
                    &&& final(self).owns(receipt.state())
                    &&& final(self).known().marks()[receipt.state().cell as int] >= invoked@
                },
                Err(error) => {
                    &&& settles(
                        old(self),
                        final(self),
                        path,
                        round.expectation(),
                        refused(error),
                        r.1,
                    )
                    &&& if error is Precondition {
                        r.0 matches Ok(result) && result is Rejected
                    } else {
                        r.0 matches Err(failure) && failure == error::storage_error(error)
                    }
                },
            },
    {
        match reply {
            Ok(version) => {
                let installed = self.apply(path, kind, &round, value, size, version, invoked);
                let receipt = CasReceipt::of(None, installed, invoked);
                (Ok(CasResult::Applied(receipt)), DiskChange::Invalidate)
            },
            Err(BackendError::Precondition) => {
                let (_, change) = round.settle(
                    &mut self.knowledge,
                    path,
                    MutationOutcome::Conflict,
                );
                (Ok(CasResult::Rejected), change)
            },
            Err(error) => {
                let (failure, change) = round.settle(
                    &mut self.knowledge,
                    path,
                    MutationOutcome::failed(error),
                );
                match failure {
                    Some(failure) => (Err(failure), change),
                    None => (Ok(CasResult::Rejected), change),
                }
            },
        }
    }

    /// Reconciles the reply to a conditional replacement. An object that was
    /// gone is known to be absent from then on.
    pub fn finish_cas(
        &mut self,
        path: &str,
        kind: &str,
        revision: Revision,
        round: MutationRound,
        value: Arc<V>,
        size: usize,
        reply: Result<String, BackendError>,
        invoked: SequencePoint,
    ) -> (r: (Result<CasResult<V>, StorageError>, DiskChange))
        requires
            old(self).wf(),
            knowledge::vouched_for(round.expectation(), path@, old(self).known().subjects()),
        ensures
            final(self).wf(),
            final(self).same_but_knowledge(old(self)),
            evidence::advanced(old(self).known().marks(), final(self).known().marks()),
            final(self).known().keeps_subjects(&old(self).known()),
            match reply {
                Ok(version) => {
                    &&& applies(
                        old(self),
                        final(self),
                        path,
                        *value,
                        kind@,
                        size,
                        version@,
                        invoked,
                        round.expectation(),
                    )
                    &&& r.1 == DiskChange::Invalidate
                    &&& r.0 matches Ok(CasResult::Applied(receipt))
                    &&& receipt.expected() == Some(revision@)
                    &&& receipt.invoked_at() == invoked@
                    &&& receipt.state().path == path@
                    &&& receipt.state().value == Some(*value)
                    &&& receipt.state().revision == Some(version@)
                    &&& receipt.state().cell == knowledge::merged_cell(
                        old(self).known().marks(),
                        knowledge::shared_present(old(self).known().known(path), version@),
                        Incoming::Point(invoked),
                    )
                    &&& !receipt.state().cache_hit
                    &&& final(self).owns(receipt.state())
                    &&& final(self).known().marks()[receipt.state().cell as int] >= invoked@
                },
                Err(BackendError::NotFound) => {
                    &&& final(self).known().installs_absent(
                        &old(self).known(),
                        path,
                        invoked@,
                    )
                    &&& round.expectation().revision is Some ==> knowledge::unmoved(
                        round.expectation(),
                        old(self).known().marks(),
                        final(self).known().marks(),
                    )
                    &&& r.1 == DiskChange::Invalidate
                    &&& r.0 matches Ok(result)
                    &&& result is Rejected
                },
                Err(error) => {
                    &&& settles(
                        old(self),
                        final(self),
                        path,
                        round.expectation(),
                        refused(error),
                        r.1,
                    )
                    &&& if error is Precondition {
                        r.0 matches Ok(result) && result is Rejected
                    } else {
                        r.0 matches Err(failure) && failure == error::storage_error(error)
                    }
                },
            },
    {
        match reply {
            Ok(version) => {
                let installed = self.apply(path, kind, &round, value, size, version, invoked);
                let receipt = CasReceipt::of(Some(revision), installed, invoked);
                (Ok(CasResult::Applied(receipt)), DiskChange::Invalidate)
            },
            Err(BackendError::NotFound) => {
                proof {
                    self.knowledge.lemma_known_cell(path);
                }
                let _absent = self.knowledge.install_absent_observation(path, invoked);
                (Ok(CasResult::Rejected), DiskChange::Invalidate)
            },
            Err(BackendError::Precondition) => {
                let (_, change) = round.settle(
                    &mut self.knowledge,
                    path,
                    MutationOutcome::Conflict,
                );
                (Ok(CasResult::Rejected), change)
            },
            Err(error) => {
                let (failure, change) = round.settle(
                    &mut self.knowledge,
                    path,
                    MutationOutcome::failed(error),
                );
                match failure {
                    Some(failure) => (Err(failure), change),
                    None => (Ok(CasResult::Rejected), change),
                }
            },
        }
    }

    /// Reconciles the reply to a conditional delete. An object that was gone
    /// already is as deleted.
    pub fn finish_delete(
        &mut self,
        path: &str,
        round: MutationRound,
        reply: Result<(), BackendError>,
        invoked: SequencePoint,
    ) -> (r: (Result<Observation<V>, StorageError>, DiskChange))
        requires
            old(self).wf(),
            knowledge::vouched_for(round.expectation(), path@, old(self).known().subjects()),
        ensures
            final(self).wf(),
            final(self).same_but_knowledge(old(self)),
            evidence::advanced(old(self).known().marks(), final(self).known().marks()),
            final(self).known().keeps_subjects(&old(self).known()),
            reply is Ok || reply->Err_0 is NotFound ==> {
                &&& final(self).known().known(path) matches Some(
                    knowledge::CacheEntry::Absent { cell },
                )
                &&& final(self).known().cache().wrote(
                    &old(self).known().cache(),
                    path,
                    final(self).known().known(path),
                )
                &&& r.1 == DiskChange::Invalidate
                &&& r.0 matches Ok(observed)
                &&& observed@ == (ObservationView::<V> {
                    path: path@,
                    value: None,
                    revision: None,
                    cell: cell as nat,
                    cache_hit: false,
                })
                &&& final(self).owns(observed@)
                &&& final(self).known().marks()[cell as int] >= invoked@
                &&& ({
                    let shared = knowledge::shared_absent(old(self).known().known(path));
                    let installed = match shared {
                        Some(held) => evidence::raised(
                            old(self).known().marks(),
                            held as int,
                            invoked@,
                        ),
                        None => old(self).known().marks().push(invoked@),
                    };
                    final(self).known().marks() == if reply is Ok {
                        knowledge::raised_at(
                            knowledge::raised_at(
                                installed,
                                round.expectation().observed,
                                invoked@,
                            ),
                            round.expectation().cached,
                            invoked@,
                        )
                    } else {
                        installed
                    }
                })
            },
            reply matches Err(BackendError::NotFound) && round.expectation().revision is Some
                ==> knowledge::unmoved(
                round.expectation(),
                old(self).known().marks(),
                final(self).known().marks(),
            ),
            reply matches Err(error) && !(error is NotFound) ==> {
                &&& settles(
                    old(self),
                    final(self),
                    path,
                    round.expectation(),
                    refused(reply->Err_0),
                    r.1,
                )
                &&& r.0 matches Err(failure)
                &&& failure == error::storage_error(reply->Err_0)
            },
    {
        match reply {
            Ok(()) => {
                let ghost before = self.knowledge.marks();
                let observed = self.knowledge.install_absent_observation(path, invoked);
                let ghost mid = self.knowledge.marks();
                round.confirm(&mut self.knowledge, invoked);
                proof {
                    evidence::law_advanced_is_transitive(before, mid, self.knowledge.marks());
                }
                (Ok(observed), DiskChange::Invalidate)
            },
            Err(BackendError::NotFound) => {
                proof {
                    self.knowledge.lemma_known_cell(path);
                }
                let observed = self.knowledge.install_absent_observation(path, invoked);
                (Ok(observed), DiskChange::Invalidate)
            },
            Err(BackendError::Precondition) => {
                let (_, change) = round.settle(
                    &mut self.knowledge,
                    path,
                    MutationOutcome::Conflict,
                );
                (Err(StorageError::Precondition), change)
            },
            Err(error) => {
                let (failure, change) = round.settle(
                    &mut self.knowledge,
                    path,
                    MutationOutcome::failed(error),
                );
                match failure {
                    Some(failure) => (Err(failure), change),
                    None => (Err(StorageError::Precondition), change),
                }
            },
        }
    }

    /// Reconciles a mutation whose caller went away: its outcome is unknown.
    pub fn abandon(&mut self, path: &str) -> (r: DiskChange)
        requires
            old(self).wf(),
        ensures
            final(self).wf(),
            final(self).same_but_knowledge(old(self)),
            final(self).known().marks() == old(self).known().marks(),
            final(self).known().subjects() == old(self).known().subjects(),
            final(self).known().known(path) is None,
            final(self).known().cache().wrote(&old(self).known().cache(), path, None),
            r == DiskChange::Invalidate,
    {
        self.knowledge.invalidate(path);
        DiskChange::Invalidate
    }
}

/// Law: a read after an applied mutation gets what the mutation wrote, from
/// decoded knowledge, for every requirement that the mutation's invocation
/// satisfies. The version is one that was not known before.
pub proof fn law_applied_write_is_read<V>(
    before: &CachedStore<V>,
    after: &CachedStore<V>,
    path: &str,
    value: V,
    kind: Seq<char>,
    size: usize,
    version: Seq<char>,
    invoked: SequencePoint,
    expected: knowledge::ExpectedView,
    requirement: Requirement,
)
    requires
        applies(before, after, path, value, kind, size, version, invoked, expected),
        knowledge::within(expected, before.known().marks().len()),
        knowledge::shared_present(before.known().known(path), version) is None,
        timeline::satisfied(requirement, invoked@),
    ensures
        Knowledge::answers(
            after.known().marks(),
            path@,
            after.known().known(path),
            kind,
            requirement,
        ) == Ok::<Option<ObservationView<V>>, Seq<char>>(
            Some(
                ObservationView {
                    path: path@,
                    value: Some(value),
                    revision: Some(version),
                    cell: before.known().marks().len(),
                    cache_hit: true,
                },
            ),
        ),
{
}

/// Law: an absence that a read or a delete installed is what a read finds,
/// unless the read asks for evidence later than the call.
pub proof fn law_installed_absence_is_read<V>(
    before: &CachedStore<V>,
    after: &CachedStore<V>,
    path: &str,
    invoked: SequencePoint,
    kind: Seq<char>,
    requirement: Requirement,
)
    requires
        before.wf(),
        after.known().installs_absent(&before.known(), path, invoked@),
        timeline::satisfied(requirement, invoked@),
    ensures
        Knowledge::answers(
            after.known().marks(),
            path@,
            after.known().known(path),
            kind,
            requirement,
        ) matches Ok(Some(found)) && found.value is None && found.revision is None
            && found.path == path@,
{
    before.known().lemma_known_cell(path);
}

/// Law: a conditional read that found its state unchanged makes that state
/// answer every read that asks for evidence no later than the call.
pub proof fn law_unchanged_state_is_read<V>(
    before: &CachedStore<V>,
    after: &CachedStore<V>,
    path: &str,
    seed: knowledge::SeedView<V>,
    invoked: SequencePoint,
    requirement: Requirement,
)
    requires
        before.wf(),
        seed.cell < before.known().marks().len(),
        knowledge::shared_present(before.known().known(path), seed.revision) is None,
        after.known().confirms_seed(&before.known(), path, seed, invoked@),
        timeline::satisfied(requirement, invoked@),
    ensures
        Knowledge::answers(
            after.known().marks(),
            path@,
            after.known().known(path),
            seed.kind,
            requirement,
        ) == Ok::<Option<ObservationView<V>>, Seq<char>>(
            Some(
                ObservationView {
                    path: path@,
                    value: Some(seed.value),
                    revision: Some(seed.revision),
                    cell: seed.cell,
                    cache_hit: true,
                },
            ),
        ),
{
}

/// Law: a mutation that took effect makes the observation that it was made with
/// current at its invocation, and takes evidence from none.
pub proof fn law_applied_write_confirms_what_it_replaced<V>(
    before: &CachedStore<V>,
    after: &CachedStore<V>,
    path: &str,
    value: V,
    kind: Seq<char>,
    size: usize,
    version: Seq<char>,
    invoked: SequencePoint,
    expected: knowledge::ExpectedView,
)
    requires
        before.wf(),
        applies(before, after, path, value, kind, size, version, invoked, expected),
        knowledge::within(expected, before.known().marks().len()),
    ensures
        evidence::advanced(before.known().marks(), after.known().marks()),
        expected.observed matches Some(cell) ==> after.known().marks()[cell as int] >= invoked@,
        expected.cached matches Some(cell) ==> after.known().marks()[cell as int] >= invoked@,
{
    before.known().lemma_known_cell(path);
}

/// Law: a mutation that was not applied advances no evidence. One that is known
/// to have failed leaves what is known; after one whose outcome is unknown, no
/// read is answered from what is known.
pub proof fn law_unapplied_mutation_proves_nothing<V>(
    before: &CachedStore<V>,
    after: &CachedStore<V>,
    path: &str,
    expected: knowledge::ExpectedView,
    outcome: MutationOutcome,
    change: DiskChange,
    kind: Seq<char>,
    requirement: Requirement,
)
    requires
        settles(before, after, path, expected, outcome, change),
    ensures
        after.known().marks() == before.known().marks(),
        outcome is DefiniteFailure ==> after.known().known(path) == before.known().known(path),
        outcome is Uncertain ==> Knowledge::answers(
            after.known().marks(),
            path@,
            after.known().known(path),
            kind,
            requirement,
        ) == Ok::<Option<ObservationView<V>>, Seq<char>>(None),
{
}

/// Law: a state that the backend refused is not answered any more, and after a
/// mutation of unknown outcome nothing is.
pub proof fn law_refused_state_is_forgotten<V>(
    before: &CachedStore<V>,
    after: &CachedStore<V>,
    path: &str,
    expected: knowledge::ExpectedView,
    outcome: MutationOutcome,
    change: DiskChange,
)
    requires
        settles(before, after, path, expected, outcome, change),
        !(outcome is DefiniteFailure),
    ensures
        after.known().known(path) matches Some(entry) ==> outcome is Conflict
            && !knowledge::expects(expected, entry) && before.known().known(path) == Some(entry),
{
}

/// Law: observations that share a cell are of the same state of the same path.
pub proof fn law_cells_are_held_apart<V>(
    store: &CachedStore<V>,
    first: ObservationView<V>,
    second: ObservationView<V>,
)
    requires
        store.owns(first),
        store.owns(second),
        first.cell == second.cell,
    ensures
        first.path == second.path,
        first.revision == second.revision,
        first.value is Some == second.value is Some,
{
}

/// Law: the cell of a cached absence is that of no present observation, and the
/// cell of a cached present state is that of no observation of another state.
pub proof fn law_cached_state_has_its_own_cell<V>(
    store: &CachedStore<V>,
    path: &str,
    observed: ObservationView<V>,
)
    requires
        store.wf(),
        store.owns(observed),
    ensures
        store.known().known(path) matches Some(entry) ==> (entry.cell_of() == observed.cell ==> {
            &&& observed.path == path@
            &&& observed.revision == entry.revision_of()
            &&& observed.value is Some == entry is Present
        }),
{
    store.known().lemma_known_cell(path);
}

/// Law: an observation stays owned as evidence is gathered, whatever becomes of
/// the cache entry.
pub proof fn law_observations_stay_owned<V>(
    before: &CachedStore<V>,
    after: &CachedStore<V>,
    observed: ObservationView<V>,
)
    requires
        before.owns(observed),
        after.known().keeps_subjects(&before.known()),
    ensures
        after.owns(observed),
{
}

/// Law: an absence that was found says nothing of when a present state was
/// current, nor of another path: their evidence is what it was.
pub proof fn law_absence_leaves_present_evidence<V>(
    before: &CachedStore<V>,
    after: &CachedStore<V>,
    path: &str,
    invoked: SequencePoint,
    observed: ObservationView<V>,
)
    requires
        before.wf(),
        before.owns(observed),
        observed.value is Some || observed.path != path@,
        after.known().installs_absent(&before.known(), path, invoked@),
    ensures
        after.known().marks()[observed.cell as int] == before.known().marks()[observed.cell as int],
{
    before.known().lemma_known_cell(path);
}

/// Law: a present state that was read or written says nothing of when another
/// state was current: the evidence of an absence, of another revision and of
/// another path is what it was.
pub proof fn law_present_state_leaves_other_evidence<V>(
    before: &CachedStore<V>,
    after: &CachedStore<V>,
    path: &str,
    value: V,
    kind: Seq<char>,
    size: usize,
    revision: Seq<char>,
    invoked: SequencePoint,
    observed: ObservationView<V>,
)
    requires
        before.wf(),
        before.owns(observed),
        observed.revision != Some(revision) || observed.path != path@,
        after.known().installs_present(
            &before.known(),
            path,
            value,
            kind,
            size,
            revision,
            Incoming::Point(invoked),
        ),
    ensures
        after.known().marks()[observed.cell as int] == before.known().marks()[observed.cell as int],
{
    before.known().lemma_known_cell(path);
}

/// Law: a state that was found unchanged says nothing of when another state was
/// current.
pub proof fn law_unchanged_state_leaves_other_evidence<V>(
    before: &CachedStore<V>,
    after: &CachedStore<V>,
    path: &str,
    seed: knowledge::SeedView<V>,
    invoked: SequencePoint,
    observed: ObservationView<V>,
)
    requires
        before.wf(),
        before.known().owns_seed(path@, seed),
        before.owns(observed),
        observed.revision != Some(seed.revision) || observed.path != path@,
        after.known().confirms_seed(&before.known(), path, seed, invoked@),
    ensures
        after.known().marks()[observed.cell as int] == before.known().marks()[observed.cell as int],
{
    before.known().lemma_known_cell(path);
}

/// Says that a path names another kind of object.
pub open spec fn wrong_object(path: Seq<char>, kind: Seq<char>) -> Seq<char> {
    "path "@ + text::quoted(path) + " does not name a "@ + kind + " object"@
}

/// Checks that a typed store accepts a path.
pub fn check_path(accepted: bool, path: &str, kind: &str) -> (r: Result<(), StorageError>)
    ensures
        match r {
            Ok(_) => accepted,
            Err(error) => !accepted && error.says(wrong_object(path@, kind@)),
        },
{
    if accepted {
        return Ok(());
    }
    let mut words = String::from_str("path ");
    words.append(text::quote(path).as_str());
    words.append(" does not name a ");
    words.append(kind);
    words.append(" object");
    Err(StorageError::other(words.as_str()))
}

/// One path of a listing: whether the typed store accepts it, or why it names
/// no object.
#[derive(Debug)]
pub struct ListedPath {
    /// The path as listed.
    pub path: String,
    /// Whether the typed store accepts it, or the text of the parse error.
    pub accepted: Result<bool, String>,
}

/// A listed path is one of the typed store's.
pub open spec fn is_listed(listed: ListedPath) -> bool {
    listed.accepted matches Ok(accepted) && accepted
}

/// Checks the paths of a listing. The first path that does not parse or that
/// is of another kind fails the page.
pub fn typed_page(listed: Vec<ListedPath>, kind: &str) -> (r: Result<Vec<String>, StorageError>)
    ensures
        r is Ok == (forall|i: int| 0 <= i < listed@.len() ==> is_listed(#[trigger] listed@[i])),
        r matches Ok(paths) ==> {
            &&& paths@.len() == listed@.len()
            &&& forall|i: int| 0 <= i < listed@.len() ==> (#[trigger] paths@[i])@ == listed@[i].path@
        },
        r matches Err(error) ==> exists|i: int|
            {
                &&& 0 <= i < listed@.len()
                &&& !is_listed(#[trigger] listed@[i])
                &&& forall|j: int| 0 <= j < i ==> is_listed(#[trigger] listed@[j])
                &&& match listed@[i].accepted {
                    Ok(_) => error.says(wrong_object(listed@[i].path@, kind@)),
                    Err(cause) => {
                        &&& error matches StorageError::Other { msg, source: Some(text) }
                        &&& msg@ == "parsing listed object path"@
                        &&& text@ == cause@
                    },
                }
            },
{
    let mut paths: Vec<String> = Vec::new();
    let mut i: usize = 0;
    while i < listed.len()
        invariant
            i <= listed@.len(),
            paths@.len() == i,
            forall|j: int| 0 <= j < i ==> is_listed(#[trigger] listed@[j]),
            forall|j: int| 0 <= j < i ==> (#[trigger] paths@[j])@ == listed@[j].path@,
        decreases listed@.len() - i,
    {
        let item = &listed[i];
        match &item.accepted {
            Err(cause) => {
                assert(!is_listed(listed@[i as int]));
                return Err(StorageError::with_source("parsing listed object path", cause.clone()));
            },
            Ok(accepted) => {
                if let Err(error) = check_path(*accepted, item.path.as_str(), kind) {
                    assert(!is_listed(listed@[i as int]));
                    return Err(error);
                }
            },
        }
        paths.push(item.path.clone());
        i = i + 1;
    }
    Ok(paths)
}

} // verus!
