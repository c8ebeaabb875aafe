//! The node-level coordination state.

use vstd::prelude::*;

use crate::ids::{StructuralIntentId, TxId};
use crate::lock::{ExclusiveGate, LockType, LockView, SharedExclusiveLock};

verus! {

/// The node-level coordination state.
pub struct LocksView {
    /// A gate guarding changes to the node's physical shape.
    pub structure: LockView,
    /// The lock guarding a leaf's live key set.
    pub membership: LockView,
    /// Advances with every logical membership change.
    pub generation: u64,
    /// The transaction preparing a drop of the containing collection.
    pub drop_intent: Option<Seq<u8>>,
    /// The merge that can still land in this node or be abandoned.
    pub merge_reservation: Option<Seq<u8>>,
}

impl LocksView {
    /// The locks are ones that they can be.
    pub open spec fn valid(self) -> bool {
        &&& self.structure.valid()
        &&& self.structure.typ == LockType::NoLock || self.structure.typ == LockType::Write
        &&& self.membership.valid()
        &&& self.membership.typ == LockType::NoLock || self.membership.typ == LockType::Read
            || self.membership.typ == LockType::Write
    }

    /// Nothing is held and nothing has happened.
    pub open spec fn idle() -> LocksView {
        LocksView {
            structure: LockView::unlocked(),
            membership: LockView::unlocked(),
            generation: 0,
            drop_intent: None,
            merge_reservation: None,
        }
    }

    /// The next generation.
    pub open spec fn advanced(self) -> LocksView {
        LocksView { generation: self.generation.wrapping_add(1), ..self }
    }

    /// A gate closed for one structural operation. Closing it anew advances
    /// the generation.
    pub open spec fn gated(self, id: Seq<u8>) -> LocksView {
        if self.structure.holders == seq![id] {
            self
        } else {
            (LocksView {
                structure: LockView::exclusive(LockType::Write, id),
                ..self
            }).advanced()
        }
    }

    /// The merge reserved. Reserving it anew advances the generation.
    pub open spec fn reserved(self, intent: Seq<u8>) -> LocksView {
        if self.merge_reservation == Some(intent) {
            self
        } else {
            (LocksView { merge_reservation: Some(intent), ..self }).advanced()
        }
    }

    /// The membership held exclusively. Holding it anew advances the
    /// generation.
    pub open spec fn written(self, id: Seq<u8>) -> LocksView {
        if self.membership == LockView::exclusive(LockType::Write, id) {
            self
        } else {
            (LocksView {
                membership: LockView::exclusive(LockType::Write, id),
                ..self
            }).advanced()
        }
    }

    /// No transient holders.
    pub open spec fn cleared(self) -> LocksView {
        LocksView {
            structure: LockView::unlocked(),
            membership: LockView::unlocked(),
            merge_reservation: None,
            ..self
        }
    }
}

/// What an optional transaction identifier is.
pub open spec fn tx_view(id: Option<TxId>) -> Option<Seq<u8>> {
    match id {
        Some(id) => Some(id@),
        None => None,
    }
}

/// What an optional structural intent is.
pub open spec fn intent_view(id: Option<StructuralIntentId>) -> Option<Seq<u8>> {
    match id {
        Some(id) => Some(id@),
        None => None,
    }
}

/// The node-level coordination state threaded through a leaf round.
///
/// Keeping this separate from the node's topology keeps rounds that only
/// change locks from replacing bounds, sibling links or the node body.
#[derive(Debug, PartialEq, Eq)]
pub struct NodeLocks {
    pub(super) structure: ExclusiveGate,
    pub(super) membership: SharedExclusiveLock,
    pub(super) membership_generation: u64,
    pub(super) drop_intent: Option<TxId>,
    pub(super) merge_reservation: Option<StructuralIntentId>,
}

impl View for NodeLocks {
    type V = LocksView;

    closed spec fn view(&self) -> LocksView {
        LocksView {
            structure: self.structure@,
            membership: self.membership@,
            generation: self.membership_generation,
            drop_intent: tx_view(self.drop_intent),
            merge_reservation: intent_view(self.merge_reservation),
        }
    }
}

impl Clone for NodeLocks {
    fn clone(&self) -> (r: Self)
        ensures
            r@ == self@,
    {
        NodeLocks {
            structure: self.structure.clone(),
            membership: self.membership.clone(),
            membership_generation: self.membership_generation,
            drop_intent: match &self.drop_intent {
                Some(id) => Some(id.clone()),
                None => None,
            },
            merge_reservation: self.merge_reservation,
        }
    }
}

impl Default for NodeLocks {
    fn default() -> (r: Self)
        ensures
            r@ == LocksView::idle(),
            r.wf(),
    {
        NodeLocks {
            structure: ExclusiveGate::default(),
            membership: SharedExclusiveLock::default(),
            membership_generation: 0,
            drop_intent: None,
            merge_reservation: None,
        }
    }
}

/// The holders are exactly one transaction.
fn held_by(holders: &Vec<TxId>, id: &TxId) -> (r: bool)
    ensures
        r == (crate::ids::tx_views(holders@) == seq![id@]),
{
    let ghost views = crate::ids::tx_views(holders@);
    if holders.len() == 1 {
        let same: bool = holders[0].same(id);
        proof {
            assert(views[0] == holders@[0]@);
            if same {
                assert(views =~= seq![id@]);
            } else {
                assert(seq![id@][0] == id@);
            }
        }
        same
    } else {
        proof {
            assert(views.len() == holders@.len());
            assert(seq![id@].len() == 1);
        }
        false
    }
}

impl NodeLocks {
    /// The locks are ones that they can be.
    pub open spec fn wf(&self) -> bool {
        self@.valid()
    }

    /// Identifiers always have their size.
    pub proof fn lemma_identifiers(&self)
        ensures
            self@.merge_reservation matches Some(id) ==> id.len() == 16,
    {
        if let Some(id) = self.merge_reservation {
            StructuralIntentId::lemma_view(id, id);
        }
    }

    /// Builds the state from its parts.
    pub(super) fn from_parts(
        structure: ExclusiveGate,
        membership: SharedExclusiveLock,
        membership_generation: u64,
        drop_intent: Option<TxId>,
        merge_reservation: Option<StructuralIntentId>,
    ) -> (r: Self)
        ensures
            r@ == (LocksView {
                structure: structure@,
                membership: membership@,
                generation: membership_generation,
                drop_intent: tx_view(drop_intent),
                merge_reservation: intent_view(merge_reservation),
            }),
    {
        NodeLocks { structure, membership, membership_generation, drop_intent, merge_reservation }
    }

    /// Returns the exclusive gate guarding changes to the node's physical
    /// shape.
    pub fn structural_gate(&self) -> (r: &ExclusiveGate)
        ensures
            r@ == self@.structure,
    {
        &self.structure
    }

    /// Returns the membership lock guarding a leaf's live key set.
    pub fn membership(&self) -> (r: &SharedExclusiveLock)
        ensures
            r@ == self@.membership,
    {
        &self.membership
    }

    /// Returns the membership generation used by scans and unmarked point
    /// absence.
    pub fn membership_generation(&self) -> (r: u64)
        ensures
            r == self@.generation,
    {
        self.membership_generation
    }

    /// Records one logical membership change without installing a holder.
    pub fn advance_membership_generation(&mut self)
        ensures
            final(self)@ == old(self)@.advanced(),
    {
        self.membership_generation = self.membership_generation.wrapping_add(1);
    }

    /// Raises the generation to at least `generation`.
    pub(super) fn raise_generation(&mut self, generation: u64)
        ensures
            final(self)@ == (LocksView {
                generation: if old(self)@.generation < generation {
                    generation
                } else {
                    old(self)@.generation
                },
                ..old(self)@
            }),
    {
        if self.membership_generation < generation {
            self.membership_generation = generation;
        }
    }

    /// Returns the transaction preparing a drop of the containing collection.
    pub fn drop_intent(&self) -> (r: Option<&TxId>)
        ensures
            r is Some <==> self@.drop_intent is Some,
            r matches Some(id) ==> self@.drop_intent == Some(id@),
    {
        match &self.drop_intent {
            Some(id) => Some(id),
            None => None,
        }
    }

    /// Installs the drop intent owned by `id`.
    pub fn set_drop_intent(&mut self, id: TxId)
        ensures
            final(self)@ == (LocksView { drop_intent: Some(id@), ..old(self)@ }),
    {
        self.drop_intent = Some(id);
    }

    /// Removes the drop intent when it is owned by `id`.
    pub fn remove_drop_intent(&mut self, id: &TxId) -> (r: bool)
        ensures
            r == (old(self)@.drop_intent == Some(id@)),
            final(self)@ == if r {
                LocksView { drop_intent: None, ..old(self)@ }
            } else {
                old(self)@
            },
    {
        let owned: bool = match &self.drop_intent {
            Some(owner) => owner.same(id),
            None => false,
        };
        if owned {
            self.drop_intent = None;
        }
        owned
    }

    /// Closes the structural gate for one structural operation. The state from
    /// before a closing must never come back, so the generation advances.
    pub fn set_structural_gate(&mut self, id: TxId)
        ensures
            final(self)@ == old(self)@.gated(id@),
            old(self).wf() ==> final(self).wf(),
    {
        if held_by(self.structure.holders(), &id) {
            return;
        }
        self.structure.set_writer(id);
        self.advance_membership_generation();
    }

    /// Opens the structural gate when held by `id`.
    pub fn remove_structural_gate(&mut self, id: &TxId) -> (r: bool)
        requires
            old(self).wf(),
        ensures
            r == old(self)@.structure.holders.contains(id@),
            final(self)@ == if r {
                LocksView { structure: LockView::unlocked(), ..old(self)@ }
            } else {
                old(self)@
            },
            final(self).wf(),
    {
        let removed: bool = self.structure.remove(id);
        proof {
            if removed {
                let before = old(self)@.structure.holders;
                let after = self@.structure.holders;
                assert(before.len() == 1);
                if after.len() > 0 {
                    assert(after.contains(after[0]));
                    assert(before.contains(after[0]));
                    assert(false);
                }
                assert(after =~= Seq::<Seq<u8>>::empty());
            }
        }
        removed
    }

    /// Returns the structural intent of a merge into this node that can still
    /// land or be abandoned.
    pub fn merge_reservation(&self) -> (r: Option<&StructuralIntentId>)
        ensures
            r is Some <==> self@.merge_reservation is Some,
            r matches Some(intent) ==> self@.merge_reservation == Some(intent@),
    {
        match &self.merge_reservation {
            Some(intent) => Some(intent),
            None => None,
        }
    }

    /// Installs the merge reservation of `intent`, with the same fence as a
    /// structural gate installation.
    pub fn set_merge_reservation(&mut self, intent: StructuralIntentId)
        ensures
            final(self)@ == old(self)@.reserved(intent@),
            old(self).wf() ==> final(self).wf(),
    {
        let held: bool = match &self.merge_reservation {
            Some(owner) => owner.same(&intent),
            None => false,
        };
        if held {
            return;
        }
        self.merge_reservation = Some(intent);
        self.advance_membership_generation();
    }

    /// Removes the merge reservation when it names `intent`.
    pub fn remove_merge_reservation(&mut self, intent: &StructuralIntentId) -> (r: bool)
        ensures
            r == (old(self)@.merge_reservation == Some(intent@)),
            final(self)@ == if r {
                LocksView { merge_reservation: None, ..old(self)@ }
            } else {
                old(self)@
            },
            old(self).wf() ==> final(self).wf(),
    {
        let held: bool = match &self.merge_reservation {
            Some(owner) => owner.same(intent),
            None => false,
        };
        if held {
            self.merge_reservation = None;
        }
        held
    }

    /// Installs a shared membership holder without recording write activity.
    pub fn add_membership_reader(&mut self, id: TxId)
        requires
            old(self).wf(),
        ensures
            final(self).wf(),
            final(self)@ == (LocksView { membership: final(self)@.membership, ..old(self)@ }),
            final(self)@.membership.typ == LockType::Read,
            forall|k: Seq<u8>|
                final(self)@.membership.holders.contains(k)
                    <==> old(self)@.membership.holders.contains(k) || k == id@,
    {
        self.membership.add_reader(id);
    }

    /// Installs an exclusive membership holder and records the activity.
    pub fn set_membership_writer(&mut self, id: TxId)
        ensures
            final(self)@ == old(self)@.written(id@),
            old(self).wf() ==> final(self).wf(),
    {
        if self.membership.lock_type() == LockType::Write && held_by(
            self.membership.holders(),
            &id,
        ) {
            return;
        }
        self.membership.set_writer(id);
        self.advance_membership_generation();
    }

    /// Removes one membership holder and records released write activity.
    pub fn remove_membership_holder(&mut self, id: &TxId) -> (r: bool)
        requires
            old(self).wf(),
        ensures
            final(self).wf(),
            r == old(self)@.membership.holders.contains(id@),
            !r ==> final(self)@ == old(self)@,
            forall|k: Seq<u8>|
                final(self)@.membership.holders.contains(k)
                    <==> old(self)@.membership.holders.contains(k) && k != id@,
            final(self)@.membership.typ == if final(self)@.membership.holders.len() == 0 {
                LockType::NoLock
            } else {
                old(self)@.membership.typ
            },
            final(self)@ == (LocksView {
                membership: final(self)@.membership,
                generation: if r && old(self)@.membership.typ == LockType::Write {
                    old(self)@.generation.wrapping_add(1)
                } else {
                    old(self)@.generation
                },
                ..old(self)@
            }),
    {
        let was_writer: bool = self.membership.lock_type() == LockType::Write
            && self.membership.contains(id);
        let removed: bool = self.membership.remove(id);
        if removed && was_writer {
            self.membership_generation = self.membership_generation.wrapping_add(1);
        }
        removed
    }

    /// Removes the transaction's membership lock. Structural gates have a
    /// separate lifecycle and stay as they are.
    pub fn release_membership(&mut self, id: &TxId) -> (r: bool)
        requires
            old(self).wf(),
        ensures
            final(self).wf(),
            r == old(self)@.membership.holders.contains(id@),
            !r ==> final(self)@ == old(self)@,
            forall|k: Seq<u8>|
                final(self)@.membership.holders.contains(k)
                    <==> old(self)@.membership.holders.contains(k) && k != id@,
            final(self)@.membership.typ == if final(self)@.membership.holders.len() == 0 {
                LockType::NoLock
            } else {
                old(self)@.membership.typ
            },
            final(self)@ == (LocksView {
                membership: final(self)@.membership,
                generation: if r && old(self)@.membership.typ == LockType::Write {
                    old(self)@.generation.wrapping_add(1)
                } else {
                    old(self)@.generation
                },
                ..old(self)@
            }),
    {
        self.remove_membership_holder(id)
    }

    /// Clears transient holders while preserving the membership generation.
    pub(crate) fn clear_holders(&mut self)
        ensures
            final(self)@ == old(self)@.cleared(),
            final(self).wf(),
    {
        self.structure.clear();
        self.membership.clear();
        self.merge_reservation = None;
    }
}

} // verus!
