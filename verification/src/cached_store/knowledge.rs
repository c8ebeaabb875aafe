//! Decoded present and absent knowledge and its transitions.

use vstd::prelude::*;
use vstd::string::*;

use std::sync::Arc;

use crate::cache::{Cache, Weighable, SHARD_COUNT};
use crate::cached_store::evidence::{
    self, EvidenceCells, Observation, ObservationView, Revision,
};
use crate::error::StorageError;
use crate::shared;
use crate::timeline::{self, Requirement, SequencePoint};

verus! {

/// The bookkeeping size of one entry, in bytes.
pub const ENTRY_OVERHEAD: usize = 96;

/// One entry of the shared decoded cache: either a present decoded value or a
/// confirmed absence. An object that nothing is known of has no entry.
#[derive(Debug)]
pub enum CacheEntry<V> {
    /// A present object.
    Present {
        /// The decoded value.
        value: Arc<V>,
        /// The decoded type, by name.
        kind: String,
        /// The decoded size in bytes.
        size: usize,
        /// The revision.
        revision: Revision,
        /// The cell of the currentness evidence.
        cell: usize,
    },
    /// A confirmed absence.
    Absent {
        /// The cell of the currentness evidence.
        cell: usize,
    },
}

impl<V> Clone for CacheEntry<V> {
    fn clone(&self) -> (r: Self)
        ensures
            r == *self,
    {
        match self {
            CacheEntry::Present { value, kind, size, revision, cell } => CacheEntry::Present {
                value: shared::share(value),
                kind: kind.clone(),
                size: *size,
                revision: revision.clone(),
                cell: *cell,
            },
            CacheEntry::Absent { cell } => CacheEntry::Absent { cell: *cell },
        }
    }
}

/// A sum, or the greatest number when it does not fit.
pub open spec fn capped(n: int) -> usize {
    if n <= usize::MAX {
        n as usize
    } else {
        usize::MAX
    }
}

impl<V> CacheEntry<V> {
    /// The cell of the currentness evidence.
    pub open spec fn cell_of(self) -> usize {
        match self {
            CacheEntry::Present { cell, .. } => cell,
            CacheEntry::Absent { cell } => cell,
        }
    }

    /// The revision of a present object; an absence has none.
    pub open spec fn revision_of(self) -> Option<Seq<char>> {
        match self {
            CacheEntry::Present { revision, .. } => Some(revision@),
            CacheEntry::Absent { .. } => None,
        }
    }
}

impl<V> Weighable for CacheEntry<V> {
    /// A present entry weighs its decoded size and its revision's token, an
    /// absent one only the bookkeeping.
    open spec fn weight(&self) -> usize {
        match self {
            CacheEntry::Present { size, revision, .. } => capped(
                capped(*size + evidence::token_len(*revision)) + ENTRY_OVERHEAD,
            ),
            CacheEntry::Absent { .. } => ENTRY_OVERHEAD,
        }
    }

    fn size(&self) -> (r: usize) {
        match self {
            CacheEntry::Present { size, revision, .. } => size.saturating_add(
                revision.len(),
            ).saturating_add(ENTRY_OVERHEAD),
            CacheEntry::Absent { .. } => ENTRY_OVERHEAD,
        }
    }
}

/// What one read of a path yields, shared by the readers that waited for it.
pub struct FetchView<V> {
    /// The decoded value, or none for an absence.
    pub value: Option<V>,
    /// The decoded type, by name; empty for an absence.
    pub kind: Seq<char>,
    /// The revision, or none for an absence.
    pub revision: Option<Seq<char>>,
    /// The cell of the currentness evidence.
    pub cell: nat,
    /// The read reused a cached decoded body.
    pub cache_hit: bool,
}

/// What one read of a path yields, shared by the readers that waited for it.
#[derive(Debug)]
pub struct FetchResult<V> {
    value: Option<Arc<V>>,
    kind: String,
    revision: Option<Revision>,
    cell: usize,
    cache_hit: bool,
}

impl<V> View for FetchResult<V> {
    type V = FetchView<V>;

    closed spec fn view(&self) -> FetchView<V> {
        FetchView {
            value: evidence::value_view(self.value),
            kind: self.kind@,
            revision: evidence::revision_view(self.revision),
            cell: self.cell as nat,
            cache_hit: self.cache_hit,
        }
    }
}

impl<V> Clone for FetchResult<V> {
    fn clone(&self) -> (r: Self)
        ensures
            r == *self,
    {
        FetchResult {
            value: match &self.value {
                Some(value) => Some(shared::share(value)),
                None => None,
            },
            kind: self.kind.clone(),
            revision: match &self.revision {
                Some(revision) => Some(revision.clone()),
                None => None,
            },
            cell: self.cell,
            cache_hit: self.cache_hit,
        }
    }
}

/// Present knowledge retained for a version-conditional backend read.
pub struct SeedView<V> {
    /// The decoded value.
    pub value: V,
    /// The decoded type, by name.
    pub kind: Seq<char>,
    /// The decoded size in bytes.
    pub size: usize,
    /// The revision.
    pub revision: Seq<char>,
    /// The cell of the currentness evidence.
    pub cell: nat,
}

/// Present knowledge retained for a version-conditional backend read.
#[derive(Debug)]
pub struct PresentSeed<V> {
    value: Arc<V>,
    kind: String,
    size: usize,
    revision: Revision,
    cell: usize,
}

impl<V> View for PresentSeed<V> {
    type V = SeedView<V>;

    closed spec fn view(&self) -> SeedView<V> {
        SeedView {
            value: *self.value,
            kind: self.kind@,
            size: self.size,
            revision: self.revision@,
            cell: self.cell as nat,
        }
    }
}

impl<V> PresentSeed<V> {
    /// Returns the revision to check.
    pub fn revision(&self) -> (r: &Revision)
        ensures
            r@ == self@.revision,
    {
        &self.revision
    }
}

/// Says that a path was used through the wrong typed store.
pub open spec fn wrong_type(path: Seq<char>, kind: Seq<char>) -> Seq<char> {
    "cached object at "@ + path + " has a different decoded type than "@ + kind
}

/// Says that a path was used through the wrong typed store.
fn wrong_type_error(path: &str, kind: &str) -> (r: StorageError)
    ensures
        r.says(wrong_type(path@, kind@)),
{
    let mut words = String::from_str("cached object at ");
    words.append(path);
    words.append(" has a different decoded type than ");
    words.append(kind);
    StorageError::other(words.as_str())
}

/// Where the evidence of an installed state comes from.
#[derive(Clone, Copy, Debug)]
pub enum Incoming {
    /// The state was current at this point.
    Point(SequencePoint),
    /// The evidence has a cell already.
    Cell(usize),
}

/// Owns all discoverable decoded knowledge for physical object paths.
pub struct Knowledge<V> {
    cache: Cache<CacheEntry<V>>,
    cells: EvidenceCells,
    subjects: Ghost<Seq<Subject>>,
}

/// The one state of one path that a cell holds evidence of.
pub struct Subject {
    /// The path.
    pub path: Seq<char>,
    /// The revision of the present state, or none for the absence.
    pub revision: Option<Seq<char>>,
}

/// A cell is issued and holds evidence of a state of a path.
pub open spec fn vouched(
    subjects: Seq<Subject>,
    cell: nat,
    path: Seq<char>,
    revision: Option<Seq<char>>,
) -> bool {
    cell < subjects.len() && subjects[cell as int] == (Subject { path, revision })
}

/// Entries whose cell holds evidence of their own state.
pub open spec fn has_cell<V>(subjects: Seq<Subject>) -> spec_fn(
    (Seq<char>, CacheEntry<V>),
) -> bool {
    |entry: (Seq<char>, CacheEntry<V>)|
        vouched(subjects, entry.1.cell_of() as nat, entry.0, entry.1.revision_of())
}

impl<V> Knowledge<V> {
    /// The decoded cache.
    pub closed spec fn cache(&self) -> Cache<CacheEntry<V>> {
        self.cache
    }

    /// The watermarks of the cells.
    pub closed spec fn marks(&self) -> Seq<u64> {
        self.cells@
    }

    /// The state that each cell holds evidence of. A cell keeps its state for
    /// good.
    pub closed spec fn subjects(&self) -> Seq<Subject> {
        self.subjects@
    }

    /// The cache is well formed, and the evidence of every entry has a cell that
    /// is for this state of this path: no two states share a cell, nor do two
    /// paths.
    pub open spec fn wf(&self) -> bool {
        &&& self.cache().wf()
        &&& self.subjects().len() == self.marks().len()
        &&& self.cache().all_entries(has_cell(self.subjects()))
    }

    /// A cell is issued and holds evidence of a state of a path.
    pub open spec fn vouches(
        &self,
        cell: nat,
        path: Seq<char>,
        revision: Option<Seq<char>>,
    ) -> bool {
        vouched(self.subjects(), cell, path, revision)
    }

    /// A seed's cell holds evidence of the seed's own state.
    pub open spec fn owns_seed(&self, path: Seq<char>, seed: SeedView<V>) -> bool {
        self.vouches(seed.cell, path, Some(seed.revision))
    }

    /// A fetch result's cell holds evidence of the state that was fetched.
    pub open spec fn owns_fetched(&self, path: Seq<char>, fetched: FetchView<V>) -> bool {
        &&& self.vouches(fetched.cell, path, fetched.revision)
        &&& fetched.value is Some <==> fetched.revision is Some
    }

    /// An observation's cell holds evidence of the state that was observed.
    pub open spec fn owns(&self, observed: ObservationView<V>) -> bool {
        &&& self.vouches(observed.cell, observed.path, observed.revision)
        &&& observed.value is Some <==> observed.revision is Some
    }

    /// Every cell that was issued before still holds evidence of the same state.
    pub open spec fn keeps_subjects(&self, before: &Self) -> bool {
        &&& before.subjects().len() <= self.subjects().len()
        &&& forall|i: int|
            0 <= i < before.subjects().len() ==> #[trigger] self.subjects()[i]
                == before.subjects()[i]
    }

    /// What is known of a path.
    pub open spec fn known(&self, path: &str) -> Option<CacheEntry<V>> {
        self.cache().entry(path)
    }

    /// The evidence of what is known has a cell.
    pub proof fn lemma_known_cell(&self, path: &str)
        requires
            self.wf(),
        ensures
            self.known(path) matches Some(entry) ==> entry.cell_of() < self.marks().len()
                && self.vouches(entry.cell_of() as nat, path@, entry.revision_of()),
    {
        self.cache().lemma_all_of_found(path, has_cell(self.subjects()));
    }

    /// Knows nothing yet; holds at most `max_size` bytes.
    pub fn new(max_size: usize) -> (r: Self)
        ensures
            r.wf(),
            forall|i: int|
                0 <= i < SHARD_COUNT ==> (#[trigger] r.cache().shards()[i]).budget() == max_size
                    / SHARD_COUNT,
            r.marks() == Seq::<u64>::empty(),
            r.subjects() == Seq::<Subject>::empty(),
            forall|path: &str| (#[trigger] r.known(path)) is None,
    {
        let r = Knowledge {
            cache: Cache::new(max_size),
            cells: EvidenceCells::new(),
            subjects: Ghost(Seq::empty()),
        };
        proof {
            assert forall|path: &str| (#[trigger] r.known(path)) is None by {
                let i = Cache::<CacheEntry<V>>::shard_of(path);
                assert(r.cache().shards()[i].entries().len() == 0);
            }
        }
        r
    }

    /// Returns the watermark cells.
    pub fn cells(&self) -> (r: &EvidenceCells)
        ensures
            r@ == self.marks(),
    {
        &self.cells
    }
}

impl<V> Knowledge<V> {
    /// Looks a path up, which makes it the most recently used one.
    fn look(&mut self, path: &str) -> (r: Option<CacheEntry<V>>)
        requires
            old(self).wf(),
        ensures
            final(self).wf(),
            final(self).marks() == old(self).marks(),
            final(self).subjects() == old(self).subjects(),
            final(self).cache().touched(&old(self).cache(), path),
            final(self).known(path) == old(self).known(path),
            r == old(self).known(path),
            r matches Some(entry) ==> entry.cell_of() < old(self).marks().len() && old(
                self,
            ).vouches(entry.cell_of() as nat, path@, entry.revision_of()),
    {
        let ghost before = self.cache;
        let r = self.cache.get(path);
        proof {
            Cache::lemma_touch_keeps(&before, &self.cache, path);
            Cache::lemma_all_after_touch(
                &before,
                &self.cache,
                path,
                has_cell(self.subjects()),
            );
        }
        r
    }

    /// Replaces what is known of a path.
    fn put(&mut self, path: &str, new: Option<CacheEntry<V>>)
        requires
            old(self).wf(),
            new matches Some(entry) ==> old(self).vouches(
                entry.cell_of() as nat,
                path@,
                entry.revision_of(),
            ),
        ensures
            final(self).wf(),
            final(self).marks() == old(self).marks(),
            final(self).subjects() == old(self).subjects(),
            final(self).cache().wrote(&old(self).cache(), path, new),
            final(self).known(path) == new,
    {
        let ghost before = self.cache;
        let ghost written = new;
        match new {
            Some(entry) => self.cache.set(path, entry),
            None => self.cache.delete(path),
        }
        proof {
            Cache::lemma_written_is_found(&before, &self.cache, path, written);
            Cache::lemma_all_after_write(
                &before,
                &self.cache,
                path,
                written,
                has_cell(self.subjects()),
            );
        }
    }

    /// Issues a cell for evidence of a state that starts at a point.
    fn issue(&mut self, point: SequencePoint, Ghost(subject): Ghost<Subject>) -> (r: usize)
        requires
            old(self).wf(),
        ensures
            final(self).wf(),
            final(self).cache() == old(self).cache(),
            r == old(self).marks().len(),
            final(self).marks() == old(self).marks().push(point@),
            final(self).subjects() == old(self).subjects().push(subject),
    {
        let ghost before = self.subjects();
        let r = self.cells.issue(point);
        self.subjects = Ghost(before.push(subject));
        proof {
            assert forall|i: int, j: int|
                0 <= i < self.cache.shards().len() && 0 <= j
                    < self.cache.shards()[i].entries().len() implies has_cell::<V>(
                self.subjects(),
            )(#[trigger] self.cache.shards()[i].entries()[j]) by {
                assert(has_cell::<V>(before)(self.cache.shards()[i].entries()[j]));
            }
        }
        r
    }

    /// Advances the evidence of a cell.
    fn advance(&mut self, cell: usize, point: SequencePoint)
        requires
            old(self).wf(),
            cell < old(self).marks().len(),
        ensures
            final(self).wf(),
            final(self).cache() == old(self).cache(),
            final(self).subjects() == old(self).subjects(),
            final(self).marks() == evidence::raised(old(self).marks(), cell as int, point@),
            evidence::advanced(old(self).marks(), final(self).marks()),
    {
        self.cells.advance(cell, point);
    }

    /// Reports what an entry says of a path, when its evidence satisfies the
    /// requirement: an observation, or that the decoded type is another one.
    pub open spec fn answers(
        marks: Seq<u64>,
        path: Seq<char>,
        known: Option<CacheEntry<V>>,
        kind: Seq<char>,
        requirement: Requirement,
    ) -> Result<Option<ObservationView<V>>, Seq<char>> {
        match known {
            None => Ok(None),
            Some(entry) => if !timeline::satisfied(requirement, marks[entry.cell_of() as int]) {
                Ok(None)
            } else {
                match entry {
                    CacheEntry::Present { value, kind: held, revision, cell, .. } => if held@
                        == kind {
                        Ok(
                            Some(
                                ObservationView {
                                    path,
                                    value: Some(*value),
                                    revision: Some(revision@),
                                    cell: cell as nat,
                                    cache_hit: true,
                                },
                            ),
                        )
                    } else {
                        Err(wrong_type(path, kind))
                    },
                    CacheEntry::Absent { cell } => Ok(
                        Some(
                            ObservationView {
                                path,
                                value: None,
                                revision: None,
                                cell: cell as nat,
                                cache_hit: true,
                            },
                        ),
                    ),
                }
            },
        }
    }

    /// Returns a cached observation that satisfies `requirement`, with no
    /// backend request.
    pub fn peek(&mut self, path: &str, kind: &str, requirement: Requirement) -> (r: Result<
        Option<Observation<V>>,
        StorageError,
    >)
        requires
            old(self).wf(),
        ensures
            final(self).wf(),
            final(self).marks() == old(self).marks(),
            final(self).subjects() == old(self).subjects(),
            final(self).cache().touched(&old(self).cache(), path),
            final(self).known(path) == old(self).known(path),
            match Self::answers(old(self).marks(), path@, old(self).known(path), kind@, requirement) {
                Ok(Some(view)) => r matches Ok(Some(found)) && found@ == view && old(self).owns(
                    view,
                ),
                Ok(None) => r matches Ok(None),
                Err(words) => r matches Err(error) && error.says(words),
            },
    {
        match self.look(path) {
            None => Ok(None),
            Some(CacheEntry::Present { value, kind: held, revision, cell, .. }) => {
                if !requirement.is_satisfied_by(self.cells.get(cell)) {
                    return Ok(None);
                }
                if !(held == String::from_str(kind)) {
                    return Err(wrong_type_error(path, kind));
                }
                Ok(Some(Observation::of(path, Some(value), Some(revision), cell, true)))
            },
            Some(CacheEntry::Absent { cell }) => {
                if !requirement.is_satisfied_by(self.cells.get(cell)) {
                    return Ok(None);
                }
                Ok(Some(Observation::of(path, None, None, cell, true)))
            },
        }
    }
}

/// The cell that an installed present state shares: that of the same revision,
/// when it is known already.
pub open spec fn shared_present<V>(known: Option<CacheEntry<V>>, revision: Seq<char>) -> Option<
    usize,
> {
    match known {
        Some(CacheEntry::Present { revision: held, cell, .. }) => if held@ == revision {
            Some(cell)
        } else {
            None
        },
        _ => None,
    }
}

/// The cell that an installed absence shares: that of the absence, when it is
/// known already.
pub open spec fn shared_absent<V>(known: Option<CacheEntry<V>>) -> Option<usize> {
    match known {
        Some(CacheEntry::Absent { cell }) => Some(cell),
        _ => None,
    }
}

/// The watermark of incoming evidence.
pub open spec fn incoming_mark(marks: Seq<u64>, incoming: Incoming) -> u64 {
    match incoming {
        Incoming::Point(point) => point@,
        Incoming::Cell(cell) => marks[cell as int],
    }
}

/// The cell of incoming evidence that shares none.
pub open spec fn incoming_cell(marks: Seq<u64>, incoming: Incoming) -> nat {
    match incoming {
        Incoming::Point(_) => marks.len(),
        Incoming::Cell(cell) => cell as nat,
    }
}

/// The watermarks once incoming evidence shares a cell or has its own.
pub open spec fn merged_marks(marks: Seq<u64>, shared: Option<usize>, incoming: Incoming) -> Seq<
    u64,
> {
    match (shared, incoming) {
        (Some(cell), _) => evidence::raised(marks, cell as int, incoming_mark(marks, incoming)),
        (None, Incoming::Point(point)) => marks.push(point@),
        (None, Incoming::Cell(_)) => marks,
    }
}

/// The cell once incoming evidence shares one or has its own.
pub open spec fn merged_cell(marks: Seq<u64>, shared: Option<usize>, incoming: Incoming) -> nat {
    match shared {
        Some(cell) => cell as nat,
        None => incoming_cell(marks, incoming),
    }
}

impl<V> Knowledge<V> {
    /// What is known after a present state was installed: the state that was
    /// known before, when it had the same revision, and else the new one.
    pub open spec fn installs_present(
        &self,
        before: &Self,
        path: &str,
        value: V,
        kind: Seq<char>,
        size: usize,
        revision: Seq<char>,
        incoming: Incoming,
    ) -> bool {
        let shared = shared_present(before.known(path), revision);
        &&& self.marks() == merged_marks(before.marks(), shared, incoming)
        &&& self.cache().wrote(&before.cache(), path, self.known(path))
        &&& if shared is Some {
            self.known(path) == before.known(path)
        } else {
            &&& self.known(path) matches Some(
                CacheEntry::Present { value: v, kind: k, size: s, revision: held, cell },
            )
            &&& *v == value
            &&& k@ == kind
            &&& s == size
            &&& held@ == revision
            &&& cell == incoming_cell(before.marks(), incoming)
        }
    }

    /// What is known after an absence was installed.
    pub open spec fn installs_absent(&self, before: &Self, path: &str, point: u64) -> bool {
        let shared = shared_absent(before.known(path));
        let cell = match shared {
            Some(cell) => cell as nat,
            None => before.marks().len(),
        };
        &&& self.marks() == match shared {
            Some(cell) => evidence::raised(before.marks(), cell as int, point),
            None => before.marks().push(point),
        }
        &&& self.cache().wrote(&before.cache(), path, self.known(path))
        &&& self.known(path) matches Some(CacheEntry::Absent { cell: held }) && held == cell
    }

    /// Installs a present entry, merging evidence when the current entry has the
    /// same revision.
    fn install_present(
        &mut self,
        path: &str,
        value: Arc<V>,
        kind: String,
        size: usize,
        revision: Revision,
        incoming: Incoming,
    ) -> (r: usize)
        requires
            old(self).wf(),
            incoming matches Incoming::Cell(cell) ==> old(self).vouches(
                cell as nat,
                path@,
                Some(revision@),
            ),
        ensures
            final(self).wf(),
            final(self).installs_present(
                old(self),
                path,
                *value,
                kind@,
                size,
                revision@,
                incoming,
            ),
            evidence::advanced(old(self).marks(), final(self).marks()),
            final(self).keeps_subjects(old(self)),
            r == merged_cell(
                old(self).marks(),
                shared_present(old(self).known(path), revision@),
                incoming,
            ),
            r < final(self).marks().len(),
            final(self).vouches(r as nat, path@, Some(revision@)),
            final(self).marks()[r as int] >= incoming_mark(old(self).marks(), incoming),
    {
        let ghost before = *self;
        let known = self.look(path);
        let ghost looked = self.cache;
        let merged = match &known {
            Some(CacheEntry::Present { revision: held, cell, .. }) => if held.same(&revision) {
                Some(*cell)
            } else {
                None
            },
            _ => None,
        };
        let r = match merged {
            Some(cell) => {
                let point = match incoming {
                    Incoming::Point(point) => point,
                    Incoming::Cell(cell) => self.cells.get(cell),
                };
                self.advance(cell, point);
                self.put(path, known);
                cell
            },
            None => {
                let cell: usize = match incoming {
                    Incoming::Point(point) => self.issue(
                        point,
                        Ghost(Subject { path: path@, revision: Some(revision@) }),
                    ),
                    Incoming::Cell(cell) => cell,
                };
                self.put(path, Some(CacheEntry::Present { value, kind, size, revision, cell }));
                cell
            },
        };
        proof {
            Cache::lemma_touch_then_write(
                &before.cache,
                &looked,
                &self.cache,
                path,
                self.known(path),
            );
        }
        r
    }

    /// Installs confirmed absence, merging evidence with an existing absence.
    fn install_absent(&mut self, path: &str, current_after: SequencePoint) -> (r: usize)
        requires
            old(self).wf(),
        ensures
            final(self).wf(),
            final(self).installs_absent(old(self), path, current_after@),
            evidence::advanced(old(self).marks(), final(self).marks()),
            final(self).keeps_subjects(old(self)),
            final(self).known(path) == Some(CacheEntry::<V>::Absent { cell: r }),
            r < final(self).marks().len(),
            final(self).vouches(r as nat, path@, None),
            final(self).marks()[r as int] >= current_after@,
    {
        let ghost before = *self;
        let known = self.look(path);
        let ghost looked = self.cache;
        let cell: usize = match known {
            Some(CacheEntry::Absent { cell }) => {
                self.advance(cell, current_after);
                cell
            },
            _ => self.issue(current_after, Ghost(Subject { path: path@, revision: None })),
        };
        self.put(path, Some(CacheEntry::Absent { cell }));
        proof {
            Cache::lemma_touch_then_write(
                &before.cache,
                &looked,
                &self.cache,
                path,
                self.known(path),
            );
        }
        cell
    }
}

/// What a seed made of a present entry is.
pub open spec fn seed_of<V>(
    value: V,
    kind: Seq<char>,
    size: usize,
    revision: Seq<char>,
    cell: nat,
) -> SeedView<V> {
    SeedView { value, kind, size, revision, cell }
}

/// What the cached or the fallback state of a path offers for a conditional
/// read.
pub open spec fn offered_seed<V>(
    path: Seq<char>,
    known: Option<CacheEntry<V>>,
    kind: Seq<char>,
    fallback: Option<(ObservationView<V>, usize)>,
) -> Result<Option<SeedView<V>>, Seq<char>> {
    match (known, fallback) {
        (
            Some(CacheEntry::Present { value, kind: held, size, revision, cell }),
            _,
        ) => if held@ == kind {
            Ok(Some(seed_of(*value, kind, size, revision@, cell as nat)))
        } else {
            Err(wrong_type(path, kind))
        },
        (_, Some((observed, size))) => match (observed.value, observed.revision) {
            (Some(value), Some(revision)) => Ok(
                Some(seed_of(value, kind, size, revision, observed.cell)),
            ),
            _ => Ok(None),
        },
        (_, None) => Ok(None),
    }
}

/// The cell of a seed that was found unchanged.
pub open spec fn confirmed_cell<V>(known: Option<CacheEntry<V>>, seed: SeedView<V>) -> nat {
    match shared_present(known, seed.revision) {
        Some(cell) => cell as nat,
        None => seed.cell,
    }
}

/// What a fallback observation with its decoded size is.
pub open spec fn fallback_view<V>(fallback: Option<(&Observation<V>, usize)>) -> Option<
    (ObservationView<V>, usize),
> {
    match fallback {
        Some((observed, size)) => Some((observed@, size)),
        None => None,
    }
}

impl<V> Knowledge<V> {
    /// Returns the present state to check conditionally: the cached one, or the
    /// retained observation `fallback` with its decoded size.
    pub fn present_seed(
        &mut self,
        path: &str,
        kind: &str,
        fallback: Option<(&Observation<V>, usize)>,
    ) -> (r: Result<Option<PresentSeed<V>>, StorageError>)
        requires
            old(self).wf(),
            fallback matches Some((observed, _)) ==> observed@.path == path@ && old(self).owns(
                observed@,
            ),
        ensures
            final(self).wf(),
            final(self).marks() == old(self).marks(),
            final(self).subjects() == old(self).subjects(),
            final(self).cache().touched(&old(self).cache(), path),
            final(self).known(path) == old(self).known(path),
            match offered_seed(path@, old(self).known(path), kind@, fallback_view(fallback)) {
                Ok(Some(view)) => r matches Ok(Some(seed)) && seed@ == view && old(
                    self,
                ).owns_seed(path@, view),
                Ok(None) => r matches Ok(None),
                Err(words) => r matches Err(error) && error.says(words),
            },
    {
        if let Some(CacheEntry::Present { value, kind: held, size, revision, cell }) = self.look(
            path,
        ) {
            if !(held == String::from_str(kind)) {
                return Err(wrong_type_error(path, kind));
            }
            return Ok(Some(PresentSeed { value, kind: held, size, revision, cell }));
        }
        match fallback {
            None => Ok(None),
            Some((observed, size)) => match (observed.value(), observed.revision()) {
                (Some(value), Some(revision)) => Ok(
                    Some(
                        PresentSeed {
                            value: shared::share(value),
                            kind: String::from_str(kind),
                            size,
                            revision: revision.clone(),
                            cell: observed.cell(),
                        },
                    ),
                ),
                _ => Ok(None),
            },
        }
    }

    /// Makes a fetch result of a retained observation.
    pub fn result_from_observation(
        &self,
        observed: &Observation<V>,
        kind: &str,
        cache_hit: bool,
    ) -> (r: FetchResult<V>)
        ensures
            r@ == (FetchView {
                value: observed@.value,
                kind: kind@,
                revision: observed@.revision,
                cell: observed@.cell,
                cache_hit,
            }),
    {
        FetchResult {
            value: match observed.value() {
                Some(value) => Some(shared::share(value)),
                None => None,
            },
            kind: String::from_str(kind),
            revision: match observed.revision() {
                Some(revision) => Some(revision.clone()),
                None => None,
            },
            cell: observed.cell(),
            cache_hit,
        }
    }

    /// Makes a fetch result of a present seed.
    pub fn result_from_seed(&self, seed: PresentSeed<V>, cache_hit: bool) -> (r: FetchResult<V>)
        ensures
            r@ == (FetchView {
                value: Some(seed@.value),
                kind: seed@.kind,
                revision: Some(seed@.revision),
                cell: seed@.cell,
                cache_hit,
            }),
    {
        FetchResult {
            value: Some(seed.value),
            kind: seed.kind,
            revision: Some(seed.revision),
            cell: seed.cell,
            cache_hit,
        }
    }

    /// Installs a state that was read from the persistent cache.
    pub fn install_persistent(
        &mut self,
        path: &str,
        value: Arc<V>,
        kind: &str,
        size: usize,
        revision: Revision,
        current_after: SequencePoint,
    ) -> (r: PresentSeed<V>)
        requires
            old(self).wf(),
        ensures
            final(self).wf(),
            final(self).installs_present(
                old(self),
                path,
                *value,
                kind@,
                size,
                revision@,
                Incoming::Point(current_after),
            ),
            evidence::advanced(old(self).marks(), final(self).marks()),
            final(self).keeps_subjects(old(self)),
            r@ == seed_of(
                *value,
                kind@,
                size,
                revision@,
                merged_cell(
                    old(self).marks(),
                    shared_present(old(self).known(path), revision@),
                    Incoming::Point(current_after),
                ),
            ),
            r@.cell < final(self).marks().len(),
            final(self).owns_seed(path@, r@),
    {
        let cell: usize = self.install_present(
            path,
            shared::share(&value),
            String::from_str(kind),
            size,
            revision.clone(),
            Incoming::Point(current_after),
        );
        PresentSeed { value, kind: String::from_str(kind), size, revision, cell }
    }

    /// Installs a state that was read from the backend.
    pub fn install_fetched(
        &mut self,
        path: &str,
        value: Arc<V>,
        kind: &str,
        size: usize,
        revision: Revision,
        current_after: SequencePoint,
    ) -> (r: FetchResult<V>)
        requires
            old(self).wf(),
        ensures
            final(self).wf(),
            final(self).installs_present(
                old(self),
                path,
                *value,
                kind@,
                size,
                revision@,
                Incoming::Point(current_after),
            ),
            evidence::advanced(old(self).marks(), final(self).marks()),
            final(self).keeps_subjects(old(self)),
            r@ == (FetchView {
                value: Some(*value),
                kind: kind@,
                revision: Some(revision@),
                cell: merged_cell(
                    old(self).marks(),
                    shared_present(old(self).known(path), revision@),
                    Incoming::Point(current_after),
                ),
                cache_hit: false,
            }),
            r@.cell < final(self).marks().len(),
            final(self).owns_fetched(path@, r@),
            final(self).marks()[r@.cell as int] >= current_after@,
    {
        let cell: usize = self.install_present(
            path,
            shared::share(&value),
            String::from_str(kind),
            size,
            revision.clone(),
            Incoming::Point(current_after),
        );
        FetchResult {
            value: Some(value),
            kind: String::from_str(kind),
            revision: Some(revision),
            cell,
            cache_hit: false,
        }
    }

    /// Installs a state that a mutation wrote.
    pub fn install_mutation(
        &mut self,
        path: &str,
        value: Arc<V>,
        kind: &str,
        size: usize,
        revision: Revision,
        current_after: SequencePoint,
    ) -> (r: Observation<V>)
        requires
            old(self).wf(),
        ensures
            final(self).wf(),
            final(self).installs_present(
                old(self),
                path,
                *value,
                kind@,
                size,
                revision@,
                Incoming::Point(current_after),
            ),
            evidence::advanced(old(self).marks(), final(self).marks()),
            final(self).keeps_subjects(old(self)),
            r@ == (ObservationView {
                path: path@,
                value: Some(*value),
                revision: Some(revision@),
                cell: merged_cell(
                    old(self).marks(),
                    shared_present(old(self).known(path), revision@),
                    Incoming::Point(current_after),
                ),
                cache_hit: false,
            }),
            r@.cell < final(self).marks().len(),
            final(self).owns(r@),
            final(self).marks()[r@.cell as int] >= current_after@,
    {
        let cell: usize = self.install_present(
            path,
            shared::share(&value),
            String::from_str(kind),
            size,
            revision.clone(),
            Incoming::Point(current_after),
        );
        Observation::of(path, Some(value), Some(revision), cell, false)
    }

    /// Installs an absence that was read from the backend.
    pub fn install_absent_result(&mut self, path: &str, current_after: SequencePoint) -> (r:
        FetchResult<V>)
        requires
            old(self).wf(),
        ensures
            final(self).wf(),
            final(self).installs_absent(old(self), path, current_after@),
            evidence::advanced(old(self).marks(), final(self).marks()),
            final(self).keeps_subjects(old(self)),
            r@ == (FetchView::<V> {
                value: None,
                kind: Seq::empty(),
                revision: None,
                cell: final(self).known(path)->Some_0.cell_of() as nat,
                cache_hit: false,
            }),
            r@.cell < final(self).marks().len(),
            final(self).owns_fetched(path@, r@),
            final(self).marks()[r@.cell as int] >= current_after@,
    {
        let cell: usize = self.install_absent(path, current_after);
        let kind = String::new();
        FetchResult { value: None, kind, revision: None, cell, cache_hit: false }
    }

    /// Installs an absence that a mutation left.
    pub fn install_absent_observation(&mut self, path: &str, current_after: SequencePoint) -> (r:
        Observation<V>)
        requires
            old(self).wf(),
        ensures
            final(self).wf(),
            final(self).installs_absent(old(self), path, current_after@),
            evidence::advanced(old(self).marks(), final(self).marks()),
            final(self).keeps_subjects(old(self)),
            r@ == (ObservationView::<V> {
                path: path@,
                value: None,
                revision: None,
                cell: final(self).known(path)->Some_0.cell_of() as nat,
                cache_hit: false,
            }),
            r@.cell < final(self).marks().len(),
            final(self).owns(r@),
            final(self).marks()[r@.cell as int] >= current_after@,
    {
        let cell: usize = self.install_absent(path, current_after);
        Observation::of(path, None, None, cell, false)
    }

    /// What is known after a conditional read found a seed unchanged: the
    /// seed's evidence is advanced, and merged with that of the same cached
    /// revision, or the seed is cached again.
    pub open spec fn confirms_seed(
        &self,
        before: &Self,
        path: &str,
        seed: SeedView<V>,
        point: u64,
    ) -> bool {
        let seen = evidence::raised(before.marks(), seed.cell as int, point);
        &&& self.cache().wrote(&before.cache(), path, self.known(path))
        &&& match shared_present(before.known(path), seed.revision) {
            Some(cell) => {
                &&& self.known(path) == before.known(path)
                &&& self.marks() == evidence::raised(seen, cell as int, seen[seed.cell as int])
            },
            None => {
                &&& self.marks() == seen
                &&& self.known(path) matches Some(
                    CacheEntry::Present { value, kind, size, revision, cell },
                )
                &&& *value == seed.value
                &&& kind@ == seed.kind
                &&& size == seed.size
                &&& revision@ == seed.revision
                &&& cell == seed.cell
            },
        }
    }

    /// Installs a seed that a conditional read found unchanged, with its
    /// evidence advanced.
    pub fn confirm_unchanged(
        &mut self,
        path: &str,
        seed: PresentSeed<V>,
        current_after: SequencePoint,
    ) -> (r: FetchResult<V>)
        requires
            old(self).wf(),
            old(self).owns_seed(path@, seed@),
        ensures
            final(self).wf(),
            final(self).confirms_seed(old(self), path, seed@, current_after@),
            r@ == (FetchView {
                value: Some(seed@.value),
                kind: seed@.kind,
                revision: Some(seed@.revision),
                cell: confirmed_cell(old(self).known(path), seed@),
                cache_hit: true,
            }),
            evidence::advanced(old(self).marks(), final(self).marks()),
            final(self).keeps_subjects(old(self)),
            r@.cell < final(self).marks().len(),
            final(self).owns_fetched(path@, r@),
            final(self).marks()[r@.cell as int] >= current_after@,
    {
        let ghost before = self.marks();
        self.advance(seed.cell, current_after);
        let ghost seen = self.marks();
        let cell: usize = self.install_present(
            path,
            shared::share(&seed.value),
            seed.kind.clone(),
            seed.size,
            seed.revision.clone(),
            Incoming::Cell(seed.cell),
        );
        proof {
            evidence::law_advanced_is_transitive(before, seen, self.marks());
        }
        FetchResult {
            value: Some(seed.value),
            kind: seed.kind,
            revision: Some(seed.revision),
            cell,
            cache_hit: true,
        }
    }

    /// Makes an observation of a fetch result.
    pub fn to_observation(&self, path: &str, kind: &str, fetched: FetchResult<V>) -> (r: Result<
        Observation<V>,
        StorageError,
    >)
        ensures
            if fetched@.value is Some && fetched@.kind != kind@ {
                r matches Err(error) && error.says(wrong_type(path@, kind@))
            } else {
                r matches Ok(found) && found@ == (ObservationView {
                    path: path@,
                    value: fetched@.value,
                    revision: fetched@.revision,
                    cell: fetched@.cell,
                    cache_hit: fetched@.cache_hit,
                })
            },
    {
        if fetched.value.is_some() && !(fetched.kind == String::from_str(kind)) {
            return Err(wrong_type_error(path, kind));
        }
        Ok(
            Observation::of(
                path,
                fetched.value,
                fetched.revision,
                fetched.cell,
                fetched.cache_hit,
            ),
        )
    }
}

/// What one mutation round expects of a path, and the cells of the evidence
/// that its success proves current.
pub struct ExpectedView {
    /// The expected revision, or none when absence is expected.
    pub revision: Option<Seq<char>>,
    /// The cell of the retained observation.
    pub observed: Option<nat>,
    /// The cell of the matching cache entry, when it is another one.
    pub cached: Option<nat>,
}

/// The exact knowledge predicate and evidence retained by one mutation round.
///
/// A retained observation and a matching cache entry can have distinct cells
/// after eviction and reload, so both are kept until reconciliation.
#[derive(Debug)]
pub struct Expected {
    revision: Option<Revision>,
    observed: Option<usize>,
    cached: Option<usize>,
}

impl View for Expected {
    type V = ExpectedView;

    closed spec fn view(&self) -> ExpectedView {
        ExpectedView {
            revision: evidence::revision_view(self.revision),
            observed: cell_view(self.observed),
            cached: cell_view(self.cached),
        }
    }
}

/// What an optional cell is.
pub open spec fn cell_view(cell: Option<usize>) -> Option<nat> {
    match cell {
        Some(cell) => Some(cell as nat),
        None => None,
    }
}

/// An entry is in the state that a mutation expects.
pub open spec fn expects<V>(expected: ExpectedView, entry: CacheEntry<V>) -> bool {
    match (expected.revision, entry) {
        (None, CacheEntry::Absent { .. }) => true,
        (Some(wanted), CacheEntry::Present { revision, .. }) => wanted == revision@,
        _ => false,
    }
}

/// The expectation once the matching cache entry's cell was captured.
pub open spec fn captured<V>(expected: ExpectedView, known: Option<CacheEntry<V>>) -> ExpectedView {
    match known {
        Some(entry) => if expects(expected, entry) && expected.observed != Some(
            entry.cell_of() as nat,
        ) && expected.cached != Some(entry.cell_of() as nat) {
            ExpectedView { cached: Some(entry.cell_of() as nat), ..expected }
        } else {
            expected
        },
        None => expected,
    }
}

/// The watermarks with an optional cell raised.
pub open spec fn raised_at(marks: Seq<u64>, cell: Option<nat>, mark: u64) -> Seq<u64> {
    match cell {
        Some(cell) => evidence::raised(marks, cell as int, mark),
        None => marks,
    }
}

/// Every cell of an expectation is among the first.
pub open spec fn within(expected: ExpectedView, cells: nat) -> bool {
    &&& expected.observed matches Some(cell) ==> cell < cells
    &&& expected.cached matches Some(cell) ==> cell < cells
}

/// Every cell of an expectation holds evidence of the expected state.
pub open spec fn vouched_for(
    expected: ExpectedView,
    path: Seq<char>,
    subjects: Seq<Subject>,
) -> bool {
    &&& expected.observed matches Some(cell) ==> vouched(subjects, cell, path, expected.revision)
    &&& expected.cached matches Some(cell) ==> vouched(subjects, cell, path, expected.revision)
}

/// The evidence of an expectation is what it was.
pub open spec fn unmoved(expected: ExpectedView, before: Seq<u64>, after: Seq<u64>) -> bool {
    &&& expected.observed matches Some(cell) ==> after[cell as int] == before[cell as int]
    &&& expected.cached matches Some(cell) ==> after[cell as int] == before[cell as int]
}

impl Expected {
    /// Reports whether an entry is in the expected state.
    fn matches_entry<V>(&self, entry: &CacheEntry<V>) -> (r: bool)
        ensures
            r == expects(self@, *entry),
    {
        match (&self.revision, entry) {
            (None, CacheEntry::Absent { .. }) => true,
            (Some(wanted), CacheEntry::Present { revision, .. }) => wanted.same(revision),
            _ => false,
        }
    }
}

impl<V> Knowledge<V> {
    /// Expects that the object is absent.
    pub fn expected_absent(&self, observed: Option<&Observation<V>>) -> (r: Expected)
        ensures
            r@ == (ExpectedView {
                revision: None,
                observed: match observed {
                    Some(observed) => Some(observed@.cell),
                    None => None,
                },
                cached: None,
            }),
    {
        let observed = match observed {
            Some(observed) => Some(observed.cell()),
            None => None,
        };
        Expected { revision: None, observed, cached: None }
    }

    /// Expects that the object has a revision.
    pub fn expected_present(&self, revision: Revision, observed: &Observation<V>) -> (r: Expected)
        ensures
            r@ == (ExpectedView {
                revision: Some(revision@),
                observed: Some(observed@.cell),
                cached: None,
            }),
    {
        Expected { revision: Some(revision), observed: Some(observed.cell()), cached: None }
    }

    /// Captures the evidence of a cache entry in the expected state. A mutation
    /// captures at most one matching cache entry.
    pub fn capture_expected(&mut self, path: &str, expected: &mut Expected)
        requires
            old(self).wf(),
            old(expected)@.cached is None,
        ensures
            final(self).wf(),
            final(self).marks() == old(self).marks(),
            final(self).subjects() == old(self).subjects(),
            final(self).cache().touched(&old(self).cache(), path),
            final(self).known(path) == old(self).known(path),
            final(expected)@ == captured(old(expected)@, old(self).known(path)),
            vouched_for(old(expected)@, path@, old(self).subjects()) ==> vouched_for(
                final(expected)@,
                path@,
                final(self).subjects(),
            ),
    {
        if let Some(entry) = self.look(path) {
            if expected.matches_entry(&entry) {
                let cell: usize = match entry {
                    CacheEntry::Present { cell, .. } => cell,
                    CacheEntry::Absent { cell } => cell,
                };
                let seen = match expected.observed {
                    Some(observed) => observed == cell,
                    None => false,
                };
                if !seen {
                    expected.cached = Some(cell);
                }
            }
        }
    }

    /// Advances the evidence that a successful mutation proves current.
    pub fn advance_expected(&mut self, expected: &Expected, current_after: SequencePoint)
        requires
            old(self).wf(),
            within(expected@, old(self).marks().len()),
        ensures
            final(self).wf(),
            final(self).cache() == old(self).cache(),
            final(self).subjects() == old(self).subjects(),
            final(self).marks() == raised_at(
                raised_at(old(self).marks(), expected@.observed, current_after@),
                expected@.cached,
                current_after@,
            ),
            evidence::advanced(old(self).marks(), final(self).marks()),
    {
        let ghost before = self.marks();
        if let Some(cell) = expected.observed {
            self.advance(cell, current_after);
        }
        let ghost mid = self.marks();
        if let Some(cell) = expected.cached {
            self.advance(cell, current_after);
        }
        proof {
            evidence::law_advanced_is_transitive(before, mid, self.marks());
        }
    }

    /// Forgets a path, when its entry is in the expected state.
    pub fn invalidate_expected(&mut self, path: &str, expected: &Expected)
        requires
            old(self).wf(),
        ensures
            final(self).wf(),
            final(self).marks() == old(self).marks(),
            final(self).subjects() == old(self).subjects(),
            final(self).known(path) == match old(self).known(path) {
                Some(entry) => if expects(expected@, entry) {
                    None
                } else {
                    Some(entry)
                },
                None => None,
            },
            final(self).cache().wrote(&old(self).cache(), path, final(self).known(path)),
    {
        let ghost before = self.cache;
        let known = self.look(path);
        let ghost looked = self.cache;
        let kept = match known {
            Some(entry) => if expected.matches_entry(&entry) {
                None
            } else {
                Some(entry)
            },
            None => None,
        };
        self.put(path, kept);
        proof {
            Cache::lemma_touch_then_write(&before, &looked, &self.cache, path, self.known(path));
        }
    }

    /// Forgets a path.
    pub fn invalidate(&mut self, path: &str)
        requires
            old(self).wf(),
        ensures
            final(self).wf(),
            final(self).marks() == old(self).marks(),
            final(self).subjects() == old(self).subjects(),
            final(self).known(path) is None,
            final(self).cache().wrote(&old(self).cache(), path, None),
    {
        self.put(path, None);
    }

    /// Advances the evidence of a retained observation.
    pub fn advance_observed(&mut self, observed: &Observation<V>, current_after: SequencePoint)
        requires
            old(self).wf(),
            observed@.cell < old(self).marks().len(),
        ensures
            final(self).wf(),
            final(self).cache() == old(self).cache(),
            final(self).subjects() == old(self).subjects(),
            final(self).marks() == evidence::raised(
                old(self).marks(),
                observed@.cell as int,
                current_after@,
            ),
            evidence::advanced(old(self).marks(), final(self).marks()),
    {
        self.advance(observed.cell(), current_after);
    }
}

} // verus!
