//! Reconciliation of conditional mutations with decoded knowledge.

use vstd::prelude::*;
use vstd::string::*;

use crate::cached_store::evidence;
use crate::cached_store::knowledge::{self, CacheEntry, Expected, ExpectedView, Knowledge};
use crate::error::{self, BackendError, StorageError};
use crate::timeline::SequencePoint;

verus! {

/// What a reconciled operation does to the persistent copy of a path.
#[derive(Clone, Copy, Debug, PartialEq, Eq, Structural)]
pub enum DiskChange {
    /// The copy stays.
    Keep,
    /// The copy is replaced by the body that was read.
    Replace,
    /// The copy is invalidated.
    Invalidate,
}

/// How a mutation that did not apply ended.
#[derive(Debug)]
pub enum MutationOutcome {
    /// The precondition failed.
    Conflict,
    /// The mutation definitely did not apply.
    DefiniteFailure(StorageError),
    /// The mutation may have applied.
    Uncertain(StorageError),
}

impl MutationOutcome {
    /// Classifies an error of the backend that is no refused precondition.
    pub fn failed(error: BackendError) -> (r: Self)
        ensures
            match error {
                BackendError::Unavailable(text) => r == MutationOutcome::Uncertain(
                    StorageError::Unavailable(text),
                ),
                _ => r == MutationOutcome::DefiniteFailure(error::storage_error(error)),
            },
    {
        match error {
            BackendError::Unavailable(text) => MutationOutcome::Uncertain(
                StorageError::Unavailable(text),
            ),
            error => MutationOutcome::DefiniteFailure(StorageError::from(error)),
        }
    }
}

/// What a round that did not apply leaves known of its path: nothing, when the
/// outcome is unknown or the state is the refused one.
pub open spec fn left<V>(
    known: Option<CacheEntry<V>>,
    expected: ExpectedView,
    outcome: MutationOutcome,
) -> Option<CacheEntry<V>> {
    match (outcome, known) {
        (MutationOutcome::DefiniteFailure(_), known) => known,
        (MutationOutcome::Uncertain(_), _) => None,
        (MutationOutcome::Conflict, Some(entry)) => if knowledge::expects(expected, entry) {
            None
        } else {
            Some(entry)
        },
        (MutationOutcome::Conflict, None) => None,
    }
}

/// One conditional mutation of a path, from before its dispatch to its
/// reconciliation.
#[derive(Debug)]
pub struct MutationRound {
    expected: Expected,
}

impl MutationRound {
    /// What the mutation expects.
    pub closed spec fn expectation(&self) -> ExpectedView {
        self.expected@
    }

    /// Starts a round: the evidence of the cached state that the mutation
    /// expects is captured.
    pub fn new<V>(knowledge: &mut Knowledge<V>, path: &str, expected: Expected) -> (r: Self)
        requires
            old(knowledge).wf(),
            expected@.cached is None,
        ensures
            final(knowledge).wf(),
            final(knowledge).marks() == old(knowledge).marks(),
            final(knowledge).subjects() == old(knowledge).subjects(),
            final(knowledge).cache().touched(&old(knowledge).cache(), path),
            final(knowledge).known(path) == old(knowledge).known(path),
            r.expectation() == knowledge::captured(expected@, old(knowledge).known(path)),
            knowledge::vouched_for(expected@, path@, old(knowledge).subjects())
                ==> knowledge::vouched_for(r.expectation(), path@, final(knowledge).subjects()),
    {
        let mut expected = expected;
        knowledge.capture_expected(path, &mut expected);
        MutationRound { expected }
    }

    /// Reconciles a success that proves the expected state current.
    pub fn confirm<V>(&self, knowledge: &mut Knowledge<V>, current_at: SequencePoint)
        requires
            old(knowledge).wf(),
            knowledge::within(self.expectation(), old(knowledge).marks().len()),
        ensures
            final(knowledge).wf(),
            final(knowledge).cache() == old(knowledge).cache(),
            final(knowledge).subjects() == old(knowledge).subjects(),
            final(knowledge).marks() == knowledge::raised_at(
                knowledge::raised_at(
                    old(knowledge).marks(),
                    self.expectation().observed,
                    current_at@,
                ),
                self.expectation().cached,
                current_at@,
            ),
            evidence::advanced(old(knowledge).marks(), final(knowledge).marks()),
    {
        knowledge.advance_expected(&self.expected, current_at);
    }

    /// Reconciles a mutation that did not apply. The error is that of the
    /// outcome; there is none for a conflict.
    pub fn settle<V>(
        &self,
        knowledge: &mut Knowledge<V>,
        path: &str,
        outcome: MutationOutcome,
    ) -> (r: (Option<StorageError>, DiskChange))
        requires
            old(knowledge).wf(),
        ensures
            final(knowledge).wf(),
            final(knowledge).marks() == old(knowledge).marks(),
            final(knowledge).subjects() == old(knowledge).subjects(),
            final(knowledge).known(path) == left(
                old(knowledge).known(path),
                self.expectation(),
                outcome,
            ),
            !(outcome is DefiniteFailure) ==> final(knowledge).cache().wrote(
                &old(knowledge).cache(),
                path,
                final(knowledge).known(path),
            ),
            outcome is DefiniteFailure ==> final(knowledge).cache() == old(knowledge).cache(),
            match outcome {
                MutationOutcome::Conflict => r == (None::<StorageError>, DiskChange::Invalidate),
                MutationOutcome::DefiniteFailure(error) => r == (Some(error), DiskChange::Keep),
                MutationOutcome::Uncertain(error) => r == (Some(error), DiskChange::Invalidate),
            },
    {
        match outcome {
            MutationOutcome::Conflict => {
                knowledge.invalidate_expected(path, &self.expected);
                (None, DiskChange::Invalidate)
            },
            MutationOutcome::DefiniteFailure(error) => (Some(error), DiskChange::Keep),
            MutationOutcome::Uncertain(error) => {
                knowledge.invalidate(path);
                (Some(error), DiskChange::Invalidate)
            },
        }
    }
}

} // verus!
