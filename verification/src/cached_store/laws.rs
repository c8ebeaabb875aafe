//! What reads, checks and mutations through the decoded cache promise.

use vstd::prelude::*;

use crate::cache::Weighable;
use crate::cached_store::evidence::{self, ObservationView, Revision};
use crate::cached_store::knowledge::{
    self, CacheEntry, ExpectedView, Incoming, Knowledge, SeedView,
};
use crate::cached_store::mutation::{DiskChange, MutationRound};
use crate::cached_store::{self, CachedStore, LeadView, ListedPath};
use crate::error::{BackendError, StorageError};
use crate::timeline::{Requirement, SequencePoint};

verus! {

/// Evidence of a watermark is late enough for a reader: a reader that asks for a
/// point gets nothing that is older.
pub open spec fn late_enough(requirement: Requirement, mark: u64) -> bool {
    requirement matches Requirement::AtLeast(point) ==> mark >= point@
}

/// An observation is that of a cached entry.
pub open spec fn is_of<V>(
    observed: ObservationView<V>,
    path: Seq<char>,
    entry: CacheEntry<V>,
) -> bool {
    &&& observed.path == path
    &&& observed.cell == entry.cell_of()
    &&& match entry {
        CacheEntry::Present { value, revision, .. } => observed.value == Some(*value)
            && observed.revision == Some(revision@),
        CacheEntry::Absent { .. } => observed.value is None && observed.revision is None,
    }
}

/// A cached entry is a value of another decoded type.
pub open spec fn is_other_kind<V>(entry: CacheEntry<V>, kind: Seq<char>) -> bool {
    entry matches CacheEntry::Present { kind: held, .. } && held@ != kind
}

/// Law: a reader is answered from the cache just when something is known whose
/// evidence is late enough and whose type is the wanted one, and the answer is
/// what is known. A value of another type is an error, also only when its evidence
/// is late enough.
pub proof fn law_cache_answers_only_late_enough<V>(
    marks: Seq<u64>,
    path: Seq<char>,
    known: Option<CacheEntry<V>>,
    kind: Seq<char>,
    requirement: Requirement,
)
    ensures
        match Knowledge::answers(marks, path, known, kind, requirement) {
            Ok(Some(observed)) => {
                &&& known matches Some(entry)
                &&& is_of(observed, path, entry)
                &&& observed.cache_hit
                &&& !is_other_kind(entry, kind)
                &&& late_enough(requirement, marks[observed.cell as int])
            },
            Ok(None) => known matches Some(entry) ==> !late_enough(
                requirement,
                marks[entry.cell_of() as int],
            ),
            Err(_) => known matches Some(entry) && is_other_kind(entry, kind) && late_enough(
                requirement,
                marks[entry.cell_of() as int],
            ),
        },
{
}

/// A retained observation's evidence is late enough.
pub open spec fn retained_suffices<V>(
    marks: Seq<u64>,
    requirement: Requirement,
    fallback: Option<(ObservationView<V>, usize)>,
) -> bool {
    fallback matches Some((observed, _)) && late_enough(requirement, marks[observed.cell as int])
}

/// A cached entry's evidence is late enough.
pub open spec fn cached_suffices<V>(
    marks: Seq<u64>,
    requirement: Requirement,
    known: Option<CacheEntry<V>>,
) -> bool {
    known matches Some(entry) && late_enough(requirement, marks[entry.cell_of() as int])
}

/// A present state is at hand to be checked: a cached one, or a retained one.
pub open spec fn present_at_hand<V>(
    known: Option<CacheEntry<V>>,
    fallback: Option<(ObservationView<V>, usize)>,
) -> bool {
    ||| known matches Some(entry) && entry is Present
    ||| fallback matches Some((observed, _)) && observed.value is Some && observed.revision is Some
}

/// Law: the leader of a read answers without the backend just when the evidence of
/// the retained observation or of the cached state is late enough, and then with
/// that state. Else it checks the present state at hand, and without one it reads.
pub proof fn law_leader_answers_only_late_enough<V>(
    marks: Seq<u64>,
    path: Seq<char>,
    known: Option<CacheEntry<V>>,
    kind: Seq<char>,
    requirement: Requirement,
    fallback: Option<(ObservationView<V>, usize)>,
    persistent: bool,
)
    ensures
        match cached_store::leads(marks, path, known, kind, requirement, fallback, persistent) {
            Ok(LeadView::Answer { fetched, record_hit }) => {
                &&& late_enough(requirement, marks[fetched.cell as int])
                &&& fetched.cache_hit
                &&& if retained_suffices(marks, requirement, fallback) {
                    &&& fetched.cell == fallback->Some_0.0.cell
                    &&& fetched.value == fallback->Some_0.0.value
                    &&& fetched.revision == fallback->Some_0.0.revision
                    &&& !record_hit
                } else {
                    &&& cached_suffices(marks, requirement, known)
                    &&& is_of(
                        ObservationView {
                            path,
                            value: fetched.value,
                            revision: fetched.revision,
                            cell: fetched.cell,
                            cache_hit: true,
                        },
                        path,
                        known->0,
                    )
                    &&& record_hit == (persistent && known->0 is Present)
                }
            },
            Ok(LeadView::Conditional(seed)) => {
                &&& !retained_suffices(marks, requirement, fallback)
                &&& !cached_suffices(marks, requirement, known)
                &&& seed.kind == kind
                &&& if known is Some && known->0 is Present {
                    &&& Some(seed.revision) == known->0.revision_of()
                    &&& seed.cell == known->0.cell_of()
                    &&& known->0 matches CacheEntry::Present { value, size, .. }
                    &&& seed.value == *value
                    &&& seed.size == size
                } else {
                    &&& fallback matches Some((observed, size))
                    &&& observed.value == Some(seed.value)
                    &&& observed.revision == Some(seed.revision)
                    &&& observed.cell == seed.cell
                    &&& seed.size == size
                }
            },
            Ok(LeadView::Persistent) => {
                &&& persistent
                &&& !retained_suffices(marks, requirement, fallback)
                &&& !cached_suffices(marks, requirement, known)
                &&& !present_at_hand(known, fallback)
            },
            Ok(LeadView::Unconditional) => {
                &&& !persistent
                &&& !retained_suffices(marks, requirement, fallback)
                &&& !cached_suffices(marks, requirement, known)
                &&& !present_at_hand(known, fallback)
            },
            Err(_) => {
                &&& !retained_suffices(marks, requirement, fallback)
                &&& known matches Some(entry)
                &&& is_other_kind(entry, kind)
            },
        },
{
    law_cache_answers_only_late_enough(marks, path, known, kind, requirement);
}

/// Law: a state that the backend returned is known from then on, with evidence of
/// the call: with the value that was returned, or with the one that was known of
/// the same revision.
pub proof fn law_returned_state_is_known<V>(
    before: &Knowledge<V>,
    after: &Knowledge<V>,
    path: &str,
    value: V,
    kind: Seq<char>,
    size: usize,
    revision: Seq<char>,
    invoked: SequencePoint,
)
    requires
        before.wf(),
        after.installs_present(before, path, value, kind, size, revision, Incoming::Point(invoked)),
    ensures
        after.known(path) matches Some(entry) && entry.revision_of() == Some(revision)
            && after.marks()[entry.cell_of() as int] >= invoked@ && if (before.known(path) matches
            Some(was) && was.revision_of() == Some(revision)) {
            Some(entry) == before.known(path)
        } else {
            entry matches CacheEntry::Present { value: v, kind: k, size: s, .. } && *v == value
                && k@ == kind && s == size
        },
{
    before.lemma_known_cell(path);
}

/// Law: a state that was found unchanged is known from then on, and its evidence
/// and the seed's are of the call or later.
pub proof fn law_unchanged_state_is_known<V>(
    before: &Knowledge<V>,
    after: &Knowledge<V>,
    path: &str,
    seed: SeedView<V>,
    invoked: SequencePoint,
)
    requires
        before.wf(),
        before.owns_seed(path@, seed),
        after.confirms_seed(before, path, seed, invoked@),
    ensures
        after.marks()[seed.cell as int] >= invoked@,
        after.known(path) matches Some(entry) && entry.revision_of() == Some(seed.revision)
            && after.marks()[entry.cell_of() as int] >= invoked@ && if (before.known(path) matches
            Some(was) && was.revision_of() == Some(seed.revision)) {
            Some(entry) == before.known(path)
        } else {
            entry matches CacheEntry::Present { value, kind, size, .. } && *value == seed.value
                && kind@ == seed.kind && size == seed.size
        },
{
    before.lemma_known_cell(path);
}

/// Law: an absence that was found is known from then on, with evidence of the
/// call.
pub proof fn law_returned_absence_is_known<V>(
    before: &Knowledge<V>,
    after: &Knowledge<V>,
    path: &str,
    invoked: SequencePoint,
)
    requires
        before.wf(),
        after.installs_absent(before, path, invoked@),
    ensures
        after.known(path) matches Some(entry) && entry is Absent
            && after.marks()[entry.cell_of() as int] >= invoked@,
{
    before.lemma_known_cell(path);
}

/// Law: a cached entry is in the state that a mutation expects just when it has
/// the expected revision, or is absent where an absence is expected.
pub proof fn law_expected_state_has_the_revision<V>(expected: ExpectedView, entry: CacheEntry<V>)
    ensures
        knowledge::expects(expected, entry) <==> entry.revision_of() == expected.revision,
{
}

/// Law: a mutation keeps what it expects, and captures the evidence of a cached
/// entry just when the entry is in the expected state and has a cell of its own.
pub proof fn law_captured_evidence_is_of_the_expected_state<V>(
    expected: ExpectedView,
    known: Option<CacheEntry<V>>,
)
    requires
        expected.cached is None,
    ensures
        ({
            let after = knowledge::captured(expected, known);
            &&& after.revision == expected.revision
            &&& after.observed == expected.observed
            &&& after.cached == if (known matches Some(entry) && entry.revision_of()
                == expected.revision && expected.observed != Some(entry.cell_of() as nat)) {
                Some(known->0.cell_of() as nat)
            } else {
                None
            }
        }),
{
}

/// Law: what a refused or failed mutation leaves known. After a refused
/// precondition the expected state is forgotten, and any other is kept; when the
/// reply was lost, nothing is known; any other failure leaves what is known. No
/// evidence is advanced.
pub proof fn law_failed_mutation_keeps_only_what_still_holds<V>(
    before: &CachedStore<V>,
    after: &CachedStore<V>,
    path: &str,
    expected: ExpectedView,
    error: BackendError,
    change: DiskChange,
)
    requires
        cached_store::settles(before, after, path, expected, cached_store::refused(error), change),
    ensures
        after.known().marks() == before.known().marks(),
        error is Precondition ==> {
            &&& change == DiskChange::Invalidate
            &&& after.known().known(path) == if (before.known().known(path) matches Some(entry)
                && entry.revision_of() != expected.revision) {
                before.known().known(path)
            } else {
                None
            }
        },
        error is Unavailable ==> {
            &&& change == DiskChange::Invalidate
            &&& after.known().known(path) is None
        },
        !(error is Precondition) && !(error is Unavailable) ==> {
            &&& change == DiskChange::Keep
            &&& after.known().known(path) == before.known().known(path)
        },
{
}

/// Law: after a mutation took effect, the state that it wrote is known, with
/// evidence of the call; so is every state that it expected.
pub proof fn law_written_state_is_known<V>(
    before: &CachedStore<V>,
    after: &CachedStore<V>,
    path: &str,
    value: V,
    kind: Seq<char>,
    size: usize,
    version: Seq<char>,
    invoked: SequencePoint,
    expected: ExpectedView,
)
    requires
        before.wf(),
        cached_store::applies(
            before,
            after,
            path,
            value,
            kind,
            size,
            version,
            invoked,
            expected,
        ),
        knowledge::within(expected, before.known().marks().len()),
    ensures
        after.known().known(path) matches Some(entry) && entry.revision_of() == Some(version)
            && after.known().marks()[entry.cell_of() as int] >= invoked@ && if (
        before.known().known(path) matches Some(was) && was.revision_of() == Some(version)) {
            Some(entry) == before.known().known(path)
        } else {
            entry matches CacheEntry::Present { value: v, kind: k, size: s, .. } && *v == value
                && k@ == kind && s == size
        },
{
    before.known().lemma_known_cell(path);
}

/// Law: raising a watermark raises it to the later of the two, and moves no other.
pub proof fn law_raised_mark_is_the_later(marks: Seq<u64>, cell: int, mark: u64)
    requires
        0 <= cell < marks.len(),
    ensures
        ({
            let after = evidence::raised(marks, cell, mark);
            &&& after.len() == marks.len()
            &&& after[cell] >= mark
            &&& after[cell] >= marks[cell]
            &&& after[cell] == mark || after[cell] == marks[cell]
            &&& forall|i: int| 0 <= i < marks.len() && i != cell ==> #[trigger] after[i] == marks[i]
        }),
{
}

/// Law: a mutation of an observed state asks the backend to replace just that
/// state, and expects it.
pub proof fn law_mutation_asks_for_the_observed_revision<V>(
    before: &CachedStore<V>,
    after: &CachedStore<V>,
    expected: ObservationView<V>,
    asked: Revision,
    round: MutationRound,
    words: Seq<char>,
    path: &str,
)
    requires
        cached_store::begins(
            before,
            after,
            expected,
            Ok::<(Revision, MutationRound), StorageError>((asked, round)),
            words,
        ),
        path@ == expected.path,
    ensures
        expected.revision == Some(asked@),
        round.expectation().revision == Some(asked@),
        round.expectation().observed == Some(expected.cell),
        after.known().marks() == before.known().marks(),
        after.known().known(path) == before.known().known(path),
{
    assert(after.known().known(path) == before.known().known(path));
    law_captured_evidence_is_of_the_expected_state(
        ExpectedView {
            revision: expected.revision,
            observed: Some(expected.cell),
            cached: None,
        },
        before.known().known(path),
    );
}

/// Law: a mutation of an absence is refused.
pub proof fn law_absence_is_not_mutated<V>(
    before: &CachedStore<V>,
    after: &CachedStore<V>,
    expected: ObservationView<V>,
    r: Result<(Revision, MutationRound), StorageError>,
    words: Seq<char>,
)
    requires
        cached_store::begins(before, after, expected, r, words),
        expected.revision is None,
    ensures
        r is Err,
        after.known() == before.known(),
{
}

/// Law: states of one revision share the cell of their evidence; another revision
/// has a cell of its own, one that was never issued before.
pub proof fn law_one_revision_has_one_cell<V>(
    marks: Seq<u64>,
    known: Option<CacheEntry<V>>,
    revision: Seq<char>,
    invoked: SequencePoint,
)
    ensures
        ({
            let cell = knowledge::merged_cell(
                marks,
                knowledge::shared_present(known, revision),
                Incoming::Point(invoked),
            );
            if (known matches Some(entry) && entry.revision_of() == Some(revision)) {
                cell == known->0.cell_of()
            } else {
                cell == marks.len()
            }
        }),
{
}

/// Law: an absence that was known already keeps its cell; one that was not has a
/// cell that was never issued before.
pub proof fn law_one_absence_has_one_cell<V>(
    before: &Knowledge<V>,
    after: &Knowledge<V>,
    path: &str,
    invoked: SequencePoint,
)
    requires
        after.installs_absent(before, path, invoked@),
    ensures
        after.known(path) matches Some(entry) && entry.cell_of() == if (before.known(
            path,
        ) matches Some(was) && was.revision_of() is None) {
            before.known(path)->0.cell_of() as nat
        } else {
            before.marks().len()
        },
{
}

/// Law: a seed that was found unchanged has the evidence of the cached state of
/// its revision, and else its own; what a seed gives is its own state.
pub proof fn law_confirmed_seed_is_the_cached_state<V>(
    known: Option<CacheEntry<V>>,
    seed: SeedView<V>,
)
    ensures
        knowledge::confirmed_cell(known, seed) == if (known matches Some(entry)
            && entry.revision_of() == Some(seed.revision)) {
            known->0.cell_of() as nat
        } else {
            seed.cell
        },
        cached_store::fetched_from_seed(seed).value == Some(seed.value),
        cached_store::fetched_from_seed(seed).revision == Some(seed.revision),
        cached_store::fetched_from_seed(seed).cell == seed.cell,
        cached_store::fetched_from_seed(seed).kind == seed.kind,
{
}

/// Law: a page of a listing is good when every path on it is of the typed store.
pub proof fn law_listed_paths_are_accepted(listed: ListedPath)
    ensures
        cached_store::is_listed(listed) <==> listed.accepted == Ok::<bool, String>(true),
{
}

/// Law: a cached state weighs what it holds: its decoded bytes, its revision and
/// its bookkeeping; an absence weighs its bookkeeping.
pub proof fn law_cached_states_weigh_what_they_hold<V>(entry: CacheEntry<V>)
    ensures
        match entry {
            CacheEntry::Present { size, revision, .. } => {
                let bytes = size + evidence::token_len(revision) + 96;
                entry.weight() == if bytes <= usize::MAX {
                    bytes
                } else {
                    usize::MAX as int
                }
            },
            CacheEntry::Absent { .. } => entry.weight() == 96,
        },
{
}

/// Law: a body of the persistent cache answers by itself only a reader that asks
/// for no evidence. For any other the backend is asked whether the body is still
/// the current one, and without a body it is read.
pub proof fn law_persistent_body_is_checked<V>(
    requirement: Requirement,
    seed: SeedView<V>,
    point: SequencePoint,
)
    ensures
        cached_store::leads_on(Requirement::AtLeast(point), Some(seed)) == LeadView::Conditional(
            seed,
        ),
        cached_store::leads_on(Requirement::Any, Some(seed)) matches LeadView::Answer {
            fetched,
            record_hit,
        } && fetched.value == Some(seed.value) && fetched.revision == Some(seed.revision)
            && fetched.cell == seed.cell && fetched.kind == seed.kind && !record_hit,
        cached_store::leads_on(requirement, None::<SeedView<V>>) == LeadView::<V>::Unconditional,
{
}

} // verus!
