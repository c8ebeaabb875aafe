//! Exact observations, revisions, and conditional-mutation evidence.

use vstd::prelude::*;
use vstd::string::*;

use std::sync::Arc;

use crate::shared;
use crate::timeline::{self, CurrentnessBarrier, Requirement, SequencePoint};

verus! {

/// The cached store's opaque content revision, wrapping the backend's token.
///
/// Higher layers may retain, compare, and pass a revision, but do not interpret
/// or manufacture one.
#[derive(Debug, PartialEq, Eq)]
pub struct Revision {
    token: String,
}

impl View for Revision {
    type V = Seq<char>;

    closed spec fn view(&self) -> Seq<char> {
        self.token@
    }
}

impl Clone for Revision {
    fn clone(&self) -> (r: Self)
        ensures
            r == *self,
    {
        Revision { token: self.token.clone() }
    }
}

impl Revision {
    /// Retains the token of an exact backend state.
    pub fn from_backend(token: String) -> (r: Self)
        ensures
            r@ == token@,
    {
        Revision { token }
    }

    /// Returns the provider token for durable recovery metadata.
    pub fn serialize(&self) -> (r: &str)
        ensures
            r@ == self@,
    {
        self.token.as_str()
    }

    /// Returns the size of the token in bytes.
    pub fn len(&self) -> (r: usize)
        ensures
            r == token_len(*self),
    {
        self.token.as_str().len()
    }

    /// Reports whether two revisions are the same.
    pub fn same(&self, other: &Self) -> (r: bool)
        ensures
            r == (self@ == other@),
    {
        self.token == other.token
    }
}

/// The size of a revision's token in bytes.
pub closed spec fn token_len(revision: Revision) -> usize {
    vstd::utf8::encode_utf8(revision.token@).len() as usize
}

/// What an optional revision is.
pub open spec fn revision_view(revision: Option<Revision>) -> Option<Seq<char>> {
    match revision {
        Some(revision) => Some(revision@),
        None => None,
    }
}

/// Reports whether two optional revisions are the same.
pub fn same_revision(a: &Option<Revision>, b: &Option<Revision>) -> (r: bool)
    ensures
        r == (revision_view(*a) == revision_view(*b)),
{
    match (a, b) {
        (Some(mine), Some(theirs)) => mine.same(theirs),
        (None, None) => true,
        _ => false,
    }
}

/// Monotonically advanceable currentness watermarks, one per cell.
/// Observations of one state and that state's cache entry name the same cell,
/// so checking advances the evidence that every holder sees. A cell outlives
/// the eviction of the corresponding cache entry.
#[derive(Debug)]
pub struct EvidenceCells {
    marks: Vec<u64>,
}

impl View for EvidenceCells {
    type V = Seq<u64>;

    closed spec fn view(&self) -> Seq<u64> {
        self.marks@
    }
}

/// Watermarks that were only advanced: cells stay and no mark regresses.
pub open spec fn advanced(before: Seq<u64>, after: Seq<u64>) -> bool {
    &&& before.len() <= after.len()
    &&& forall|i: int| 0 <= i < before.len() ==> (#[trigger] after[i]) >= before[i]
}

/// The watermarks with one raised to at least `mark`.
pub open spec fn raised(marks: Seq<u64>, cell: int, mark: u64) -> Seq<u64> {
    marks.update(
        cell,
        if marks[cell] >= mark {
            marks[cell]
        } else {
            mark
        },
    )
}

impl EvidenceCells {
    /// Creates no cells.
    pub fn new() -> (r: Self)
        ensures
            r@ == Seq::<u64>::empty(),
    {
        EvidenceCells { marks: Vec::new() }
    }

    /// Issues a cell with its first watermark.
    pub fn issue(&mut self, point: SequencePoint) -> (r: usize)
        ensures
            r == old(self)@.len(),
            final(self)@ == old(self)@.push(point@),
            advanced(old(self)@, final(self)@),
    {
        let cell: usize = self.marks.len();
        self.marks.push(point.raw());
        cell
    }

    /// Returns the watermark of a cell.
    pub fn get(&self, cell: usize) -> (r: SequencePoint)
        requires
            cell < self@.len(),
        ensures
            r@ == self@[cell as int],
    {
        SequencePoint::from_raw(self.marks[cell])
    }

    /// Advances the watermark of a cell to at least `point`, never regressing
    /// it.
    pub fn advance(&mut self, cell: usize, point: SequencePoint)
        requires
            cell < old(self)@.len(),
        ensures
            final(self)@ == raised(old(self)@, cell as int, point@),
            advanced(old(self)@, final(self)@),
    {
        let ghost before = self@;
        if self.marks[cell] < point.raw() {
            self.marks.set(cell, point.raw());
        }
        proof {
            assert(self@ =~= raised(before, cell as int, point@));
        }
    }
}

/// Law: advancing twice only ever adds to what is known.
pub proof fn law_advanced_is_transitive(a: Seq<u64>, b: Seq<u64>, c: Seq<u64>)
    requires
        advanced(a, b),
        advanced(b, c),
    ensures
        advanced(a, c),
{
    assert forall|i: int| 0 <= i < a.len() implies (#[trigger] c[i]) >= a[i] by {
        assert(b[i] >= a[i]);
    }
}

/// An exact observed state of one object.
pub struct ObservationView<V> {
    /// The object's path.
    pub path: Seq<char>,
    /// The decoded value, or none for an observed absence.
    pub value: Option<V>,
    /// The observed revision, or none for an absence.
    pub revision: Option<Seq<char>>,
    /// The cell of the currentness evidence.
    pub cell: nat,
    /// The observation reused a cached decoded body.
    pub cache_hit: bool,
}

/// An exact observed state of one object, returned by a successful read or
/// mutation. It carries the decoded value (or absence), the revision, and the
/// cell of its currentness evidence. It remains inspectable after the state is
/// evicted or invalidated as the current cache entry.
#[derive(Debug)]
pub struct Observation<V> {
    path: String,
    value: Option<Arc<V>>,
    revision: Option<Revision>,
    cell: usize,
    cache_hit: bool,
}

/// What an optional shared value is.
pub open spec fn value_view<V>(value: Option<Arc<V>>) -> Option<V> {
    match value {
        Some(value) => Some(*value),
        None => None,
    }
}

impl<V> View for Observation<V> {
    type V = ObservationView<V>;

    closed spec fn view(&self) -> ObservationView<V> {
        ObservationView {
            path: self.path@,
            value: value_view(self.value),
            revision: revision_view(self.revision),
            cell: self.cell as nat,
            cache_hit: self.cache_hit,
        }
    }
}

impl<V> Clone for Observation<V> {
    fn clone(&self) -> (r: Self)
        ensures
            r == *self,
    {
        Observation {
            path: self.path.clone(),
            value: match &self.value {
                Some(value) => Some(shared::share(value)),
                None => None,
            },
            revision: match &self.revision {
                Some(revision) => Some(revision.clone()),
                None => None,
            },
            cell: self.cell,
            cache_hit: self.cache_hit,
        }
    }
}

impl<V> Observation<V> {
    /// Builds an observation.
    pub(super) fn of(
        path: &str,
        value: Option<Arc<V>>,
        revision: Option<Revision>,
        cell: usize,
        cache_hit: bool,
    ) -> (r: Self)
        ensures
            r@ == (ObservationView {
                path: path@,
                value: value_view(value),
                revision: revision_view(revision),
                cell: cell as nat,
                cache_hit,
            }),
    {
        Observation { path: String::from_str(path), value, revision, cell, cache_hit }
    }

    /// Returns the decoded value, or `None` for an observed absence.
    pub fn value(&self) -> (r: Option<&Arc<V>>)
        ensures
            match self@.value {
                Some(value) => r matches Some(found) && **found == value,
                None => r is None,
            },
    {
        match &self.value {
            Some(value) => Some(value),
            None => None,
        }
    }

    /// Consumes the observation, yielding the decoded value.
    pub fn into_value(self) -> (r: Option<Arc<V>>)
        ensures
            value_view(r) == self@.value,
    {
        self.value
    }

    /// Reports whether the observed state has a value.
    pub fn is_present(&self) -> (r: bool)
        ensures
            r == (self@.value is Some),
    {
        self.value.is_some()
    }

    /// Reports whether the observed state is absent.
    pub fn is_absent(&self) -> (r: bool)
        ensures
            r == (self@.value is None),
    {
        self.value.is_none()
    }

    /// Returns the observed revision, or `None` for an absence.
    pub fn revision(&self) -> (r: Option<&Revision>)
        ensures
            match self@.revision {
                Some(revision) => r matches Some(found) && found@ == revision,
                None => r is None,
            },
    {
        match &self.revision {
            Some(revision) => Some(revision),
            None => None,
        }
    }

    /// Returns the path of the observed object.
    pub fn path(&self) -> (r: &str)
        ensures
            r@ == self@.path,
    {
        self.path.as_str()
    }

    /// Returns the cell of the currentness evidence.
    pub fn cell(&self) -> (r: usize)
        ensures
            r == self@.cell,
    {
        self.cell
    }

    /// Reports whether the observation reused a cached decoded body.
    pub fn cache_hit(&self) -> (r: bool)
        ensures
            r == self@.cache_hit,
    {
        self.cache_hit
    }

    /// Returns the watermark after which the state was known to be current.
    pub fn current_after(&self, cells: &EvidenceCells) -> (r: SequencePoint)
        requires
            self@.cell < cells@.len(),
        ensures
            r@ == cells@[self@.cell as int],
    {
        cells.get(self.cell)
    }

    /// Reports whether this state has currentness evidence at or after
    /// `barrier`.
    pub fn is_current_after(&self, cells: &EvidenceCells, barrier: CurrentnessBarrier) -> (r: bool)
        requires
            self@.cell < cells@.len(),
        ensures
            r == (cells@[self@.cell as int] >= barrier@),
    {
        barrier.is_reached_by(cells.get(self.cell))
    }

    /// Reports whether the retained evidence satisfies the freshness
    /// requirement.
    pub fn satisfies(&self, cells: &EvidenceCells, requirement: Requirement) -> (r: bool)
        requires
            self@.cell < cells@.len(),
        ensures
            r == timeline::satisfied(requirement, cells@[self@.cell as int]),
    {
        requirement.is_satisfied_by(cells.get(self.cell))
    }

    /// Reports whether two observations refer to the same exact state.
    ///
    /// Observations of one state normally share the same evidence cell. But a
    /// cache eviction and reload issue a fresh cell for the very same
    /// committed revision, so two observations of the same path and revision
    /// are still the same state.
    pub fn same_state(&self, other: &Self) -> (r: bool)
        ensures
            r == (self@.cell == other@.cell || (self@.revision is Some && self@.revision
                == other@.revision && self@.path == other@.path)),
    {
        if self.cell == other.cell {
            return true;
        }
        match (&self.revision, &other.revision) {
            (Some(mine), Some(theirs)) => self.path == other.path && mine.same(theirs),
            _ => false,
        }
    }

    /// Returns the same observed state with its value in another decoded form.
    pub fn retyped<W>(&self, value: Option<Arc<W>>) -> (r: Observation<W>)
        ensures
            r@ == (ObservationView {
                path: self@.path,
                value: value_view(value),
                revision: self@.revision,
                cell: self@.cell,
                cache_hit: self@.cache_hit,
            }),
    {
        Observation {
            path: self.path.clone(),
            value,
            revision: match &self.revision {
                Some(revision) => Some(revision.clone()),
                None => None,
            },
            cell: self.cell,
            cache_hit: self.cache_hit,
        }
    }

    /// Reports whether two observations have the same path and revision.
    pub fn same_observed_state(&self, other: &Self) -> (r: bool)
        ensures
            r == (self@.path == other@.path && self@.revision == other@.revision),
    {
        self.path == other.path && same_revision(&self.revision, &other.revision)
    }
}

/// Law: being the same exact state is symmetric, and an observation is the
/// same state as itself.
pub proof fn law_same_state_is_symmetric<V>(a: ObservationView<V>, b: ObservationView<V>)
    ensures
        (a.cell == b.cell || (a.revision is Some && a.revision == b.revision && a.path == b.path))
            <==> (b.cell == a.cell || (b.revision is Some && b.revision == a.revision && b.path
            == a.path)),
{
}

/// The outcome of checking whether a retained observation is still current.
#[derive(Debug)]
pub enum ObservationCheck<V> {
    /// The observed state is still current after the required bound.
    Current,
    /// The state changed; here is the current observation.
    Changed(Observation<V>),
}

/// Proof of one applied conditional mutation.
///
/// The expected revision identifies the precondition; `None` means absence for
/// a conditional create. The installed observation retains the exact state
/// written by this mutation. Its invocation point is fixed.
#[derive(Debug)]
pub struct CasReceipt<V> {
    expected_revision: Option<Revision>,
    installed: Observation<V>,
    invoked: SequencePoint,
}

impl<V> CasReceipt<V> {
    /// The revision that the mutation expected.
    pub closed spec fn expected(&self) -> Option<Seq<char>> {
        revision_view(self.expected_revision)
    }

    /// The state that the mutation installed.
    pub closed spec fn state(&self) -> ObservationView<V> {
        self.installed@
    }

    /// The point at which the mutation was invoked.
    pub closed spec fn invoked_at(&self) -> u64 {
        self.invoked@
    }

    /// Builds a receipt.
    pub(super) fn of(
        expected_revision: Option<Revision>,
        installed: Observation<V>,
        invoked: SequencePoint,
    ) -> (r: Self)
        ensures
            r.expected() == revision_view(expected_revision),
            r.state() == installed@,
            r.invoked_at() == invoked@,
    {
        CasReceipt { expected_revision, installed, invoked }
    }

    /// Returns the exact state installed by the successful mutation.
    pub fn installed(&self) -> (r: &Observation<V>)
        ensures
            r@ == self.state(),
    {
        &self.installed
    }

    /// Consumes the receipt and retains only its installed-state observation.
    pub fn into_installed(self) -> (r: Observation<V>)
        ensures
            r@ == self.state(),
    {
        self.installed
    }

    /// Returns the same receipt with the installed value in another decoded form.
    pub fn retyped<W>(&self, value: Option<Arc<W>>) -> (r: CasReceipt<W>)
        ensures
            r.expected() == self.expected(),
            r.invoked_at() == self.invoked_at(),
            r.state() == (ObservationView {
                path: self.state().path,
                value: value_view(value),
                revision: self.state().revision,
                cell: self.state().cell,
                cache_hit: self.state().cache_hit,
            }),
    {
        CasReceipt {
            expected_revision: match &self.expected_revision {
                Some(revision) => Some(revision.clone()),
                None => None,
            },
            installed: self.installed.retyped(value),
            invoked: self.invoked,
        }
    }

    /// Reports whether this mutation confirmed the observation's state at or
    /// after `barrier`. It does not prove continuous currentness since the
    /// read.
    pub fn confirms_expected(&self, observed: &Observation<V>, barrier: CurrentnessBarrier) -> (r:
        bool)
        ensures
            r == (self.invoked_at() >= barrier@ && self.state().path == observed@.path
                && self.expected() == observed@.revision),
    {
        barrier.is_reached_by(self.invoked) && self.installed.path == observed.path
            && same_revision(&self.expected_revision, &observed.revision)
    }
}

/// The outcome of a conditional create or replace.
#[derive(Debug)]
pub enum CasResult<V> {
    /// The mutation definitively took effect; the receipt retains its
    /// precondition and installed state.
    Applied(CasReceipt<V>),
    /// The precondition failed: the starting revision or cached absence was
    /// obsolete. The exact starting entry has been invalidated.
    Rejected,
}

impl<V> CasResult<V> {
    /// Reports whether the conditional mutation definitively took effect.
    pub fn is_applied(&self) -> (r: bool)
        ensures
            r == (self is Applied),
    {
        matches!(self, CasResult::Applied(_))
    }

    /// Reports whether the mutation committed.
    pub fn committed(&self) -> (r: bool)
        ensures
            r == (self is Applied),
    {
        matches!(self, CasResult::Applied(_))
    }

    /// Returns the successful mutation's receipt, or `None` when the mutation
    /// was rejected.
    pub fn into_receipt(self) -> (r: Option<CasReceipt<V>>)
        ensures
            match self {
                CasResult::Applied(receipt) => r == Some(receipt),
                CasResult::Rejected => r is None,
            },
    {
        match self {
            CasResult::Applied(receipt) => Some(receipt),
            CasResult::Rejected => None,
        }
    }

    /// Returns the committed observation, or `None` when the mutation was
    /// rejected.
    pub fn into_observation(self) -> (r: Option<Observation<V>>)
        ensures
            match self {
                CasResult::Applied(receipt) => r matches Some(found) && found@
                    == receipt.state(),
                CasResult::Rejected => r is None,
            },
    {
        match self {
            CasResult::Applied(receipt) => Some(receipt.into_installed()),
            CasResult::Rejected => None,
        }
    }
}

} // verus!
