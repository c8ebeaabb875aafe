//! A B-link tree node: a body plus the bounds and the sibling link that make
//! descent self-correcting.

use vstd::prelude::*;

use crate::bytes;
use crate::error::StorageError;
use crate::ids::{NodeId, StructuralIntentId, TxId};
use crate::leaf::{self, EntryView, LeafBody, LeafEntry};
use crate::lock::{self, ExclusiveGate, LockType, LockView, SharedExclusiveLock};
use crate::node::index::{self, ChildView, IndexNode};
use crate::node::locks::{self, LocksView, NodeLocks};
use crate::node::policy::NodeSizePolicy;
use crate::proto::{self, BodyMessage, NodeMessage};
use crate::sorted;
use crate::wire;

verus! {

/// A node's body.
pub enum BodyView {
    /// A leaf's entries in key order.
    Leaf(Seq<EntryView>),
    /// An index's children in separator order.
    Index(Seq<ChildView>),
}

impl BodyView {
    /// The body is in order and its locks are ones that they can be.
    pub open spec fn valid(self) -> bool {
        match self {
            BodyView::Leaf(entries) => sorted::sorted(entries) && leaf::locks_valid(entries),
            BodyView::Index(children) => sorted::sorted(children),
        }
    }

    /// How many entries or children there are.
    pub open spec fn size(self) -> nat {
        match self {
            BodyView::Leaf(entries) => entries.len(),
            BodyView::Index(children) => children.len(),
        }
    }

    /// An empty body of the same kind.
    pub open spec fn emptied(self) -> BodyView {
        match self {
            BodyView::Leaf(_) => BodyView::Leaf(Seq::empty()),
            BodyView::Index(_) => BodyView::Index(Seq::empty()),
        }
    }

    /// Bodies of the same kind.
    pub open spec fn same_level(self, other: BodyView) -> bool {
        self is Leaf <==> other is Leaf
    }

    /// This body with that of the left sibling in front.
    pub open spec fn joined(self, left: BodyView) -> BodyView {
        match (self, left) {
            (BodyView::Leaf(right), BodyView::Leaf(left)) => BodyView::Leaf(
                sorted::put_all(Seq::empty(), left + right),
            ),
            (BodyView::Index(right), BodyView::Index(left)) => BodyView::Index(
                sorted::put_all(Seq::empty(), left + right),
            ),
            _ => self,
        }
    }

    /// The part from a key on.
    pub open spec fn from_on(self, boundary: Seq<u8>) -> BodyView {
        match self {
            BodyView::Leaf(entries) => BodyView::Leaf(entries.filter(sorted::from_on(boundary))),
            BodyView::Index(children) => BodyView::Index(
                children.filter(sorted::from_on(boundary)),
            ),
        }
    }

    /// The first `n` entries or children.
    pub open spec fn first(self, n: int) -> BodyView {
        match self {
            BodyView::Leaf(entries) => BodyView::Leaf(entries.take(n)),
            BodyView::Index(children) => BodyView::Index(children.take(n)),
        }
    }

    /// What stands behind the first `n` entries or children.
    pub open spec fn behind(self, n: int) -> BodyView {
        match self {
            BodyView::Leaf(entries) => BodyView::Leaf(entries.skip(n)),
            BodyView::Index(children) => BodyView::Index(children.skip(n)),
        }
    }

    /// The key of the entry or the separator of the child at a position.
    pub open spec fn key_at(self, i: int) -> Seq<u8> {
        match self {
            BodyView::Leaf(entries) => entries[i].key,
            BodyView::Index(children) => children[i].separator,
        }
    }
}

/// A tree node.
pub struct NodeView {
    /// Inclusive lower bound of the covered key range.
    pub low_key: Seq<u8>,
    /// Exclusive upper bound of the covered key range; `None` for no bound.
    pub high_key: Option<Seq<u8>>,
    /// Right sibling at the same level.
    pub right_sibling: Option<Seq<u8>>,
    /// The body.
    pub body: BodyView,
    /// The node-level coordination state.
    pub locks: LocksView,
    /// A merge moved the range and the entries into the right sibling.
    pub drained: bool,
}

impl NodeView {
    /// The body and the locks are valid, and identifiers have their size.
    pub open spec fn valid(self) -> bool {
        &&& self.body.valid()
        &&& self.locks.valid()
        &&& self.right_sibling matches Some(id) ==> id.len() == 16
        &&& self.locks.merge_reservation matches Some(id) ==> id.len() == 16
    }

    /// A node that covers the whole key space.
    pub open spec fn whole(body: BodyView) -> NodeView {
        NodeView {
            low_key: Seq::empty(),
            high_key: None,
            right_sibling: None,
            body,
            locks: LocksView::idle(),
            drained: false,
        }
    }

    /// The node is live and the key is below its upper bound.
    pub open spec fn covers(self, key: Seq<u8>) -> bool {
        !self.drained && (self.high_key matches Some(high) ==> bytes::lt(key, high))
    }

    /// The node emptied by a merge into `target`.
    pub open spec fn drained_into(self, target: Seq<u8>) -> NodeView {
        NodeView {
            right_sibling: Some(target),
            body: self.body.emptied(),
            locks: self.locks.cleared(),
            drained: true,
            ..self
        }
    }

    /// The node with the range and the body of its left sibling added, and
    /// reserved for the merge.
    pub open spec fn absorbed(self, left: NodeView, intent: Seq<u8>) -> NodeView {
        let reserved = self.locks.reserved(intent);
        NodeView {
            low_key: left.low_key,
            body: self.body.joined(left.body),
            locks: LocksView {
                generation: if reserved.generation < left.locks.generation {
                    left.locks.generation
                } else {
                    reserved.generation
                },
                ..reserved
            },
            ..self
        }
    }

    /// The node without what a merge had added below `boundary`.
    pub open spec fn restored(self, boundary: Seq<u8>) -> NodeView {
        NodeView {
            low_key: boundary,
            body: self.body.from_on(boundary),
            locks: LocksView { merge_reservation: None, ..self.locks },
            ..self
        }
    }

    /// Where a split divides the body.
    pub open spec fn median(self) -> int {
        self.body.size() as int / 2
    }

    /// The key that a split promotes into the parent.
    pub open spec fn split_key(self) -> Seq<u8> {
        self.body.key_at(self.median())
    }

    /// The part that a split keeps.
    pub open spec fn lower_half(self, right_id: Seq<u8>) -> NodeView {
        NodeView {
            high_key: Some(self.split_key()),
            right_sibling: Some(right_id),
            body: self.body.first(self.median()),
            ..self
        }
    }

    /// The new right sibling that a split creates.
    pub open spec fn upper_half(self) -> NodeView {
        NodeView {
            low_key: self.split_key(),
            body: self.body.behind(self.median()),
            locks: self.locks.cleared(),
            drained: false,
            ..self
        }
    }

    /// The node without transient lock holders.
    pub open spec fn content(self) -> NodeView {
        NodeView { locks: self.locks.cleared(), ..self }
    }
}

/// The fields of a persisted lock.
pub open spec fn lock_fields(lock: LockView) -> Seq<wire::FieldView> {
    wire::nonzero(1, leaf::lock_number(lock)) + wire::repeated(2, lock.holders)
}

/// The field of a lock in its object, left out for one without holders.
pub open spec fn lock_part(tag: nat, lock: LockView) -> Seq<wire::FieldView> {
    if lock.holders.len() == 0 {
        Seq::empty()
    } else {
        seq![wire::bytes_field(tag, wire::message_bytes(lock_fields(lock)))]
    }
}

/// The field of a body in its node.
pub open spec fn body_part(body: BodyView) -> Seq<wire::FieldView> {
    match body {
        BodyView::Leaf(entries) => seq![wire::bytes_field(3, leaf::leaf_bytes(entries))],
        BodyView::Index(children) => seq![wire::bytes_field(4, index::index_bytes(children))],
    }
}

/// A byte string or the empty one.
pub open spec fn or_empty(value: Option<Seq<u8>>) -> Seq<u8> {
    match value {
        Some(value) => value,
        None => Seq::empty(),
    }
}

/// The fields of a persisted node behind its body.
pub open spec fn coordination_fields(node: NodeView) -> Seq<wire::FieldView> {
    lock_part(5, node.locks.structure) + (lock_part(6, node.locks.membership) + (wire::nonzero(
        7,
        node.locks.generation as nat,
    ) + (wire::nonempty(8, or_empty(node.locks.drop_intent)) + (wire::nonzero(
        9,
        if node.drained {
            1
        } else {
            0
        },
    ) + (wire::nonempty(10, or_empty(node.locks.merge_reservation)) + wire::nonempty(
        11,
        node.low_key,
    ))))))
}

/// The fields of a persisted node.
pub open spec fn node_fields(node: NodeView) -> Seq<wire::FieldView> {
    wire::nonempty(1, or_empty(node.high_key)) + (wire::nonempty(2, or_empty(node.right_sibling))
        + (body_part(node.body) + coordination_fields(node)))
}

/// The bytes of a persisted node.
pub open spec fn node_bytes(node: NodeView) -> Seq<u8> {
    wire::message_bytes(node_fields(node))
}

/// The body that a persisted one stands for, or what is wrong with it.
pub open spec fn body_of(message: Option<proto::BodyMessageView>) -> Result<BodyView, Seq<char>> {
    match message {
        None => Ok(BodyView::Leaf(Seq::empty())),
        Some(proto::BodyMessageView::Leaf(list)) => match leaf::leaf_of(list) {
            Ok(entries) => Ok(BodyView::Leaf(entries)),
            Err(text) => Err(text),
        },
        Some(proto::BodyMessageView::Index(list)) => match index::index_of(list) {
            Ok(children) => Ok(BodyView::Index(children)),
            Err(text) => Err(text),
        },
    }
}

/// A persisted lock stands for a structural gate.
pub open spec fn is_gate(message: proto::LockMessageView) -> bool {
    lock::lock_of(message.number, message.holders) matches Some(l) && (l.typ == LockType::NoLock
        || l.typ == LockType::Write)
}

/// A persisted lock stands for a lock that is shared or exclusive.
pub open spec fn is_shared_exclusive(message: proto::LockMessageView) -> bool {
    lock::lock_of(message.number, message.holders) matches Some(l) && (l.typ == LockType::NoLock
        || l.typ == LockType::Read || l.typ == LockType::Write)
}

/// An optional byte string, absent when empty.
pub open spec fn if_nonempty(value: Seq<u8>) -> Option<Seq<u8>> {
    if value.len() == 0 {
        None
    } else {
        Some(value)
    }
}

/// What is wrong with a persisted node other than its body, if anything.
pub open spec fn node_fault(message: proto::NodeMessageView, body: BodyView) -> Option<Seq<char>> {
    if !is_gate(message.structural_gate) {
        Some("node structural gate must be empty or have one write holder"@)
    } else if !is_shared_exclusive(message.membership_lock) {
        Some("node has invalid membership lock"@)
    } else if message.right_sibling.len() != 0 && message.right_sibling.len() != 16 {
        Some("node has an invalid right-sibling ID"@)
    } else if message.merge_reservation.len() != 0 && message.merge_reservation.len() != 16 {
        Some("node has an invalid merge reservation"@)
    } else if message.drained && (body.size() != 0 || message.right_sibling.len() == 0) {
        Some("drained node must have an empty body and a right sibling"@)
    } else {
        None
    }
}

/// The node that a persisted one stands for, or what is wrong with it.
pub open spec fn node_of(message: proto::NodeMessageView) -> Result<NodeView, Seq<char>> {
    match body_of(message.body) {
        Err(text) => Err(text),
        Ok(body) => match node_fault(message, body) {
            Some(text) => Err(text),
            None => Ok(
                NodeView {
                    low_key: message.low_key,
                    high_key: if_nonempty(message.high_key),
                    right_sibling: if_nonempty(message.right_sibling),
                    body,
                    locks: LocksView {
                        structure: lock::lock_of(
                            message.structural_gate.number,
                            message.structural_gate.holders,
                        )->0,
                        membership: lock::lock_of(
                            message.membership_lock.number,
                            message.membership_lock.holders,
                        )->0,
                        generation: message.membership_generation as u64,
                        drop_intent: if_nonempty(message.drop_intent),
                        merge_reservation: if_nonempty(message.merge_reservation),
                    },
                    drained: message.drained,
                },
            ),
        },
    }
}

/// The body of a [`Node`]: either a leaf's per-key entries or an index's
/// separators.
#[derive(Debug, PartialEq, Eq)]
pub enum NodeBody {
    /// A leaf: the coordination entries for the node's key range.
    Leaf(LeafBody),
    /// An index: separator keys mapping ranges to child nodes.
    Index(IndexNode),
}

impl View for NodeBody {
    type V = BodyView;

    open spec fn view(&self) -> BodyView {
        match self {
            NodeBody::Leaf(leaf) => BodyView::Leaf(leaf@),
            NodeBody::Index(index) => BodyView::Index(index@),
        }
    }
}

impl Clone for NodeBody {
    fn clone(&self) -> (r: Self)
        ensures
            r@ == self@,
    {
        match self {
            NodeBody::Leaf(leaf) => NodeBody::Leaf(leaf.clone()),
            NodeBody::Index(index) => NodeBody::Index(index.clone()),
        }
    }
}

/// A B-link tree node: a body plus the bounds and the right-sibling link that
/// make descent self-correcting.
#[derive(Debug, PartialEq, Eq)]
pub struct Node {
    low_key: Vec<u8>,
    high_key: Option<Vec<u8>>,
    right_sibling: Option<NodeId>,
    body: NodeBody,
    locks: NodeLocks,
    drained: bool,
}

/// What an optional byte vector holds.
pub open spec fn bytes_view(value: Option<Vec<u8>>) -> Option<Seq<u8>> {
    match value {
        Some(value) => Some(value@),
        None => None,
    }
}

/// What an optional node identifier is.
pub open spec fn id_view(id: Option<NodeId>) -> Option<Seq<u8>> {
    match id {
        Some(id) => Some(id@),
        None => None,
    }
}

impl View for Node {
    type V = NodeView;

    closed spec fn view(&self) -> NodeView {
        NodeView {
            low_key: self.low_key@,
            high_key: bytes_view(self.high_key),
            right_sibling: id_view(self.right_sibling),
            body: self.body@,
            locks: self.locks@,
            drained: self.drained,
        }
    }
}

/// Copies an optional byte string.
fn copy_optional(value: &Option<Vec<u8>>) -> (r: Option<Vec<u8>>)
    ensures
        bytes_view(r) == bytes_view(*value),
{
    match value {
        Some(value) => Some(bytes::copy(value.as_slice())),
        None => None,
    }
}

impl Clone for Node {
    fn clone(&self) -> (r: Self)
        ensures
            r@ == self@,
    {
        Node {
            low_key: bytes::copy(self.low_key.as_slice()),
            high_key: copy_optional(&self.high_key),
            right_sibling: self.right_sibling,
            body: self.body.clone(),
            locks: self.locks.clone(),
            drained: self.drained,
        }
    }
}

impl Node {
    /// The body and the locks are valid.
    pub open spec fn wf(&self) -> bool {
        self@.body.valid() && self@.locks.valid()
    }

    /// Identifiers always have their size.
    pub proof fn lemma_identifiers(&self)
        ensures
            self.wf() ==> self@.valid(),
    {
        if let Some(id) = self.right_sibling {
            NodeId::lemma_view(id, id);
        }
        self.locks.lemma_identifiers();
    }

    /// Creates a leaf node that covers the whole key space: the shape of a
    /// brand-new root.
    pub fn leaf(leaf: LeafBody) -> (r: Self)
        ensures
            r@ == NodeView::whole(BodyView::Leaf(leaf@)),
            leaf.wf() ==> r.wf(),
    {
        Node {
            low_key: Vec::new(),
            high_key: None,
            right_sibling: None,
            body: NodeBody::Leaf(leaf),
            locks: NodeLocks::default(),
            drained: false,
        }
    }

    /// Creates an index node that covers the whole key space.
    pub fn index(index: IndexNode) -> (r: Self)
        ensures
            r@ == NodeView::whole(BodyView::Index(index@)),
            index.wf() ==> r.wf(),
    {
        Node {
            low_key: Vec::new(),
            high_key: None,
            right_sibling: None,
            body: NodeBody::Index(index),
            locks: NodeLocks::default(),
            drained: false,
        }
    }

    /// Returns the node with the given inclusive lower range bound.
    pub fn with_low_key(self, low_key: Vec<u8>) -> (r: Self)
        ensures
            r@ == (NodeView { low_key: low_key@, ..self@ }),
    {
        let mut node = self;
        node.low_key = low_key;
        node
    }

    /// Returns the node with the given exclusive upper range bound.
    pub fn with_high_key(self, high_key: Option<Vec<u8>>) -> (r: Self)
        ensures
            r@ == (NodeView { high_key: bytes_view(high_key), ..self@ }),
    {
        let mut node = self;
        node.high_key = high_key;
        node
    }

    /// Returns the node with the given right-sibling link.
    pub fn with_right_sibling(self, right_sibling: Option<NodeId>) -> (r: Self)
        ensures
            r@ == (NodeView { right_sibling: id_view(right_sibling), ..self@ }),
    {
        let mut node = self;
        node.right_sibling = right_sibling;
        node
    }

    /// Returns the inclusive lower bound of the covered range; empty for the
    /// first node at its level.
    pub fn low_key(&self) -> (r: &[u8])
        ensures
            r@ == self@.low_key,
    {
        self.low_key.as_slice()
    }

    /// Replaces the inclusive lower range bound. Only a merge changes the low
    /// key of an existing node.
    pub fn set_low_key(&mut self, low_key: Vec<u8>)
        ensures
            final(self)@ == (NodeView { low_key: low_key@, ..old(self)@ }),
    {
        self.low_key = low_key;
    }

    /// Reports whether this copy of the node is older than a merge that moved
    /// `key` into it, because its low key is above `key`.
    pub fn is_below_range(&self, key: &[u8]) -> (r: bool)
        ensures
            r == bytes::lt(key@, self@.low_key),
    {
        bytes::precedes(key, self.low_key.as_slice())
    }

    /// Returns the exclusive upper bound of the covered range, or `None` for
    /// no bound.
    pub fn high_key(&self) -> (r: Option<&[u8]>)
        ensures
            r is Some <==> self@.high_key is Some,
            r matches Some(key) ==> self@.high_key == Some(key@),
    {
        match &self.high_key {
            Some(key) => Some(key.as_slice()),
            None => None,
        }
    }

    /// Returns the right sibling, or `None` if this is the rightmost node at
    /// its level.
    pub fn right_sibling(&self) -> (r: Option<NodeId>)
        ensures
            id_view(r) == self@.right_sibling,
    {
        self.right_sibling
    }

    /// Returns the node body.
    pub fn body(&self) -> (r: &NodeBody)
        ensures
            r@ == self@.body,
    {
        &self.body
    }

    /// Reports whether a merge moved this node's range and entries into its
    /// right sibling.
    pub fn is_drained(&self) -> (r: bool)
        ensures
            r == self@.drained,
    {
        self.drained
    }

    /// Empties the node and links it to the `target` that absorbed its
    /// entries, keeping its level.
    pub fn drain(&mut self, target: NodeId)
        ensures
            final(self)@ == old(self)@.drained_into(target@),
            final(self).wf(),
    {
        let emptied = match &self.body {
            NodeBody::Leaf(_) => NodeBody::Leaf(LeafBody::new()),
            NodeBody::Index(_) => NodeBody::Index(IndexNode::default()),
        };
        self.body = emptied;
        self.right_sibling = Some(target);
        self.locks.clear_holders();
        self.drained = true;
    }

    /// Adds the range and entries of `left`, the gated left sibling, to this
    /// node and reserves this node for the merge of `intent`. Fails if the two
    /// nodes are at different levels.
    pub fn absorb(&mut self, left: &Node, intent: StructuralIntentId) -> (r: Result<
        (),
        StorageError,
    >)
        requires
            old(self).wf(),
            left.wf(),
        ensures
            final(self).wf(),
            r is Ok <==> old(self)@.body.same_level(left@.body),
            r is Ok ==> final(self)@ == old(self)@.absorbed(left@, intent@),
            r matches Err(error) ==> error.says("merge nodes are at different levels"@)
                && final(self)@ == old(self)@,
    {
        let body = match join_bodies(&self.body, &left.body) {
            None => {
                return Err(StorageError::other("merge nodes are at different levels"));
            },
            Some(body) => body,
        };
        self.body = body;
        self.low_key = bytes::copy(left.low_key.as_slice());
        self.locks.set_merge_reservation(intent);
        // An absence read of the left range made while the left node was gated
        // recorded its generation, and stays valid because nothing changed.
        self.locks.raise_generation(left.locks.membership_generation());
        Ok(())
    }

    /// Reverts the absorb of the merge of `intent`, after its drain can no
    /// longer land: restores `boundary` as the low key and removes the entries
    /// below it. Returns `false` and changes nothing if this node does not
    /// hold the merge reservation of `intent`.
    pub fn abandon_merge(&mut self, intent: &StructuralIntentId, boundary: &[u8]) -> (r: bool)
        requires
            old(self).wf(),
        ensures
            final(self).wf(),
            r == (old(self)@.locks.merge_reservation == Some(intent@)),
            final(self)@ == if r {
                old(self)@.restored(boundary@)
            } else {
                old(self)@
            },
    {
        if !self.locks.remove_merge_reservation(intent) {
            return false;
        }
        match &mut self.body {
            NodeBody::Leaf(leaf) => {
                leaf.retain_from(boundary);
            },
            NodeBody::Index(index) => {
                index.retain_from(boundary);
            },
        }
        self.low_key = bytes::copy(boundary);
        true
    }
}

/// Joins two bodies of the same level.
fn join_bodies(right: &NodeBody, left: &NodeBody) -> (r: Option<NodeBody>)
    requires
        right@.valid(),
        left@.valid(),
    ensures
        r is Some <==> right@.same_level(left@),
        r matches Some(body) ==> body@ == right@.joined(left@) && body@.valid(),
{
    match (right, left) {
        (NodeBody::Leaf(right), NodeBody::Leaf(left)) => {
            let mut all = leaf::copy_all(left.entries());
            let mut more = leaf::copy_all(right.entries());
            let ghost a = sorted::models(all@);
            let ghost b = sorted::models(more@);
            all.append(&mut more);
            proof {
                assert(sorted::models(all@) =~= a + b);
                assert forall|i: int| 0 <= i < (a + b).len() implies (#[trigger] (a
                    + b)[i]).lock.valid() by {
                    if i < a.len() {
                        assert((a + b)[i] == left@[i]);
                    } else {
                        assert((a + b)[i] == right@[i - a.len()]);
                    }
                }
            }
            Some(NodeBody::Leaf(LeafBody::from_entries(all)))
        },
        (NodeBody::Index(right), NodeBody::Index(left)) => {
            proof {
                let none = Seq::<ChildView>::empty();
                sorted::lemma_put_all_concat(none, left@, right@);
                assert(none + left@ =~= left@);
                sorted::lemma_put_sorted(none, left@);
            }
            Some(NodeBody::Index(IndexNode::joined(left, right)))
        },
        _ => None,
    }
}

/// The node-content size of a leaf with one entry of `entry_size` bytes.
pub open spec fn single_entry_size(entry_size: nat) -> nat {
    wire::field_size(3, wire::field_size(1, entry_size))
}

/// The size of an index entry with a separator of `separator_len` bytes.
pub open spec fn separator_entry_size(separator_len: nat) -> nat {
    (if separator_len == 0 {
        0
    } else {
        wire::field_size(1, separator_len)
    }) + wire::field_size(2, 16)
}

/// The node-content size of the smallest parent that can contain a separator
/// of `key_len` bytes: with a leftmost child, unless the separator is that of
/// the leftmost child itself.
pub open spec fn parent_size(key_len: nat) -> nat {
    let candidate = wire::field_size(1, separator_entry_size(key_len));
    wire::field_size(
        4,
        if key_len == 0 {
            candidate
        } else {
            wire::field_size(1, separator_entry_size(0)) + candidate
        },
    )
}

/// Returns the fields of a lock.
pub(crate) fn encode_lock(typ: LockType, holders: &Vec<TxId>) -> (r: Vec<u8>)
    ensures
        r@ == wire::message_bytes(
            lock_fields(LockView { typ, holders: crate::ids::tx_views(holders@) }),
        ),
{
    let ghost view = LockView { typ, holders: crate::ids::tx_views(holders@) };
    let mut buf: Vec<u8> = Vec::new();
    wire::put_nonzero(&mut buf, 1, leaf::persisted_number(typ));
    leaf::put_ids(&mut buf, 2, holders);
    proof {
        wire::lemma_message_concat(
            wire::nonzero(1, leaf::lock_number(view)),
            wire::repeated(2, view.holders),
        );
        assert(buf@ =~= wire::message_bytes(lock_fields(view)));
    }
    buf
}

/// Appends a lock, which is left out without holders.
pub(crate) fn put_lock(buf: &mut Vec<u8>, tag: u32, typ: LockType, holders: &Vec<TxId>)
    requires
        tag < 0x2000_0000,
    ensures
        final(buf)@ == old(buf)@ + wire::message_bytes(
            lock_part(
                tag as nat,
                LockView { typ, holders: crate::ids::tx_views(holders@) },
            ),
        ),
{
    let ghost was = buf@;
    let ghost view = LockView { typ, holders: crate::ids::tx_views(holders@) };
    proof {
        wire::lemma_single(
            wire::bytes_field(tag as nat, wire::message_bytes(lock_fields(view))),
        );
    }
    if holders.len() != 0 {
        let payload = encode_lock(typ, holders);
        wire::put_bytes(buf, tag, payload.as_slice());
    }
    proof {
        assert(buf@ =~= was + wire::message_bytes(lock_part(tag as nat, view)));
    }
}

/// Appends an optional transaction identifier.
pub(crate) fn put_tx(buf: &mut Vec<u8>, tag: u32, id: Option<&TxId>)
    requires
        tag < 0x2000_0000,
    ensures
        final(buf)@ == old(buf)@ + wire::message_bytes(
            wire::nonempty(
                tag as nat,
                match id {
                    Some(id) => id@,
                    None => Seq::empty(),
                },
            ),
        ),
{
    match id {
        Some(id) => {
            wire::put_nonempty(buf, tag, id.as_bytes());
        },
        None => {
            proof {
                wire::lemma_single(wire::bytes_field(tag as nat, Seq::empty()));
                assert(buf@ + Seq::<u8>::empty() =~= buf@);
            }
        },
    }
}

impl Node {
    /// Replaces the leaf body while preserving bounds and node coordination.
    pub fn set_leaf(&mut self, leaf: LeafBody) -> (r: Result<(), StorageError>)
        ensures
            r is Ok <==> old(self)@.body is Leaf,
            r is Ok ==> final(self)@ == (NodeView { body: BodyView::Leaf(leaf@), ..old(self)@ }),
            r matches Err(error) ==> error.says("node is not a leaf"@) && final(self)@ == old(
                self,
            )@,
    {
        if matches!(&self.body, NodeBody::Leaf(_)) {
            self.body = NodeBody::Leaf(leaf);
            Ok(())
        } else {
            Err(StorageError::other("node is not a leaf"))
        }
    }

    /// Replaces the index body while preserving bounds and node coordination.
    pub fn set_index(&mut self, index: IndexNode) -> (r: Result<(), StorageError>)
        ensures
            r is Ok <==> old(self)@.body is Index,
            r is Ok ==> final(self)@ == (NodeView { body: BodyView::Index(index@), ..old(self)@ }),
            r matches Err(error) ==> error.says("node is not an index"@) && final(self)@ == old(
                self,
            )@,
    {
        if matches!(&self.body, NodeBody::Index(_)) {
            self.body = NodeBody::Index(index);
            Ok(())
        } else {
            Err(StorageError::other("node is not an index"))
        }
    }

    /// Returns the node's exclusive structural gate.
    pub fn structural_gate(&self) -> (r: &ExclusiveGate)
        ensures
            r@ == self@.locks.structure,
    {
        self.locks.structural_gate()
    }

    /// Returns the transaction preparing a drop of this node's collection.
    pub fn drop_intent(&self) -> (r: Option<&TxId>)
        ensures
            r is Some <==> self@.locks.drop_intent is Some,
            r matches Some(id) ==> self@.locks.drop_intent == Some(id@),
    {
        self.locks.drop_intent()
    }

    /// Installs a drop intent on this node.
    pub fn set_drop_intent(&mut self, id: TxId)
        ensures
            final(self)@ == (NodeView {
                locks: LocksView { drop_intent: Some(id@), ..old(self)@.locks },
                ..old(self)@
            }),
    {
        self.locks.set_drop_intent(id);
    }

    /// Clears a drop intent owned by `id`.
    pub fn remove_drop_intent(&mut self, id: &TxId) -> (r: bool)
        ensures
            r == (old(self)@.locks.drop_intent == Some(id@)),
            final(self)@ == if r {
                NodeView {
                    locks: LocksView { drop_intent: None, ..old(self)@.locks },
                    ..old(self)@
                }
            } else {
                old(self)@
            },
    {
        self.locks.remove_drop_intent(id)
    }

    /// Returns the complete node-level coordination state.
    pub fn locks(&self) -> (r: &NodeLocks)
        ensures
            r@ == self@.locks,
    {
        &self.locks
    }

    /// Returns the node-level coordination state for changing it.
    pub fn locks_mut(&mut self) -> (r: &mut NodeLocks)
        ensures
            r@ == old(self)@.locks,
            final(self)@ == (NodeView { locks: final(r)@, ..old(self)@ }),
    {
        &mut self.locks
    }

    /// Replaces the node-level coordination state.
    pub fn set_locks(&mut self, locks: NodeLocks)
        ensures
            final(self)@ == (NodeView { locks: locks@, ..old(self)@ }),
    {
        self.locks = locks;
    }

    /// Closes the structural gate for one structural operation.
    pub fn set_structural_gate(&mut self, id: TxId)
        ensures
            final(self)@ == (NodeView { locks: old(self)@.locks.gated(id@), ..old(self)@ }),
            old(self).wf() ==> final(self).wf(),
    {
        self.locks.set_structural_gate(id);
    }

    /// Opens the structural gate when held by `id`.
    pub fn remove_structural_gate(&mut self, id: &TxId) -> (r: bool)
        requires
            old(self).wf(),
        ensures
            final(self).wf(),
            r == old(self)@.locks.structure.holders.contains(id@),
            final(self)@ == if r {
                NodeView {
                    locks: LocksView { structure: LockView::unlocked(), ..old(self)@.locks },
                    ..old(self)@
                }
            } else {
                old(self)@
            },
    {
        self.locks.remove_structural_gate(id)
    }

    /// Removes the merge reservation when it names `intent`.
    pub fn remove_merge_reservation(&mut self, intent: &StructuralIntentId) -> (r: bool)
        ensures
            r == (old(self)@.locks.merge_reservation == Some(intent@)),
            final(self)@ == if r {
                NodeView {
                    locks: LocksView { merge_reservation: None, ..old(self)@.locks },
                    ..old(self)@
                }
            } else {
                old(self)@
            },
    {
        self.locks.remove_merge_reservation(intent)
    }

    /// Returns the leaf membership lock.
    pub fn membership_lock(&self) -> (r: &SharedExclusiveLock)
        ensures
            r@ == self@.locks.membership,
    {
        self.locks.membership()
    }

    /// Installs a membership-read holder without recording membership
    /// activity.
    pub fn add_membership_reader(&mut self, id: TxId)
        requires
            old(self).wf(),
        ensures
            final(self).wf(),
            final(self)@ == (NodeView {
                locks: LocksView {
                    membership: final(self)@.locks.membership,
                    ..old(self)@.locks
                },
                ..old(self)@
            }),
            final(self)@.locks.membership.typ == LockType::Read,
            forall|k: Seq<u8>|
                final(self)@.locks.membership.holders.contains(k)
                    <==> old(self)@.locks.membership.holders.contains(k) || k == id@,
    {
        self.locks.add_membership_reader(id);
    }

    /// Installs a membership-write holder and records the membership activity.
    pub fn set_membership_writer(&mut self, id: TxId)
        ensures
            final(self)@ == (NodeView { locks: old(self)@.locks.written(id@), ..old(self)@ }),
            old(self).wf() ==> final(self).wf(),
    {
        self.locks.set_membership_writer(id);
    }

    /// Removes a membership-lock holder and records released write activity.
    pub fn remove_membership_holder(&mut self, id: &TxId) -> (r: bool)
        requires
            old(self).wf(),
        ensures
            final(self).wf(),
            r == old(self)@.locks.membership.holders.contains(id@),
            !r ==> final(self)@ == old(self)@,
            forall|k: Seq<u8>|
                final(self)@.locks.membership.holders.contains(k)
                    <==> old(self)@.locks.membership.holders.contains(k) && k != id@,
            final(self)@.locks.membership.typ == if final(self)@.locks.membership.holders.len()
                == 0 {
                LockType::NoLock
            } else {
                old(self)@.locks.membership.typ
            },
            final(self)@ == (NodeView {
                locks: LocksView {
                    membership: final(self)@.locks.membership,
                    generation: if r && old(self)@.locks.membership.typ == LockType::Write {
                        old(self)@.locks.generation.wrapping_add(1)
                    } else {
                        old(self)@.locks.generation
                    },
                    ..old(self)@.locks
                },
                ..old(self)@
            }),
    {
        self.locks.remove_membership_holder(id)
    }

    /// Returns the leaf membership generation.
    pub fn membership_generation(&self) -> (r: u64)
        ensures
            r == self@.locks.generation,
    {
        self.locks.membership_generation()
    }

    /// Clears node locks before a node that a split created becomes visible.
    pub(crate) fn clear_node_locks(&mut self)
        ensures
            final(self)@ == old(self)@.content(),
            old(self)@.body.valid() ==> final(self).wf(),
    {
        self.locks.clear_holders();
    }

    /// Returns the canonical encoded size without transient node locks.
    pub fn content_encoded_len(&self) -> (r: usize)
        ensures
            r == node_bytes(self@.content()).len(),
    {
        let mut content = self.clone();
        content.clear_node_locks();
        content.encoded_len()
    }

    /// Returns the exact node-content size of a leaf containing only `entry`.
    pub fn leaf_entry_content_encoded_len(entry: &LeafEntry) -> (r: usize)
        requires
            single_entry_size(leaf::entry_bytes(entry@).len()) <= usize::MAX,
        ensures
            r == single_entry_size(leaf::entry_bytes(entry@).len()),
    {
        let leaf_len: usize = wire::length_delimited_field(1, entry.encoded_len());
        wire::length_delimited_field(3, leaf_len)
    }

    /// Returns the node-content size of a leaf containing the largest fixed
    /// coordination shape for a key of `key_len` bytes.
    pub fn worst_case_leaf_entry_len(key_len: usize) -> (r: usize)
        requires
            single_entry_size(leaf::worst_case_entry_size(key_len as nat)) <= usize::MAX,
        ensures
            r == single_entry_size(leaf::worst_case_entry_size(key_len as nat)),
    {
        let entry_len: usize = LeafEntry::worst_case_encoded_len(key_len);
        let leaf_len: usize = wire::length_delimited_field(1, entry_len);
        wire::length_delimited_field(3, leaf_len)
    }

    /// Returns the node-content size of the smallest parent that can contain a
    /// separator of `key_len` bytes.
    pub fn worst_case_parent_separator_len(key_len: usize) -> (r: usize)
        requires
            parent_size(key_len as nat) <= usize::MAX,
        ensures
            r == parent_size(key_len as nat),
    {
        proof {
            lemma_parent_parts(key_len as nat);
        }
        let child_len: usize = wire::length_delimited_field(2, 16);
        let entry_len: usize = wire::nonempty_length_delimited_field(1, key_len) + child_len;
        let candidate_len: usize = wire::length_delimited_field(1, entry_len);
        let index_len: usize = if key_len == 0 {
            // The candidate is itself the leftmost separator.
            candidate_len
        } else {
            wire::length_delimited_field(1, child_len) + candidate_len
        };
        wire::length_delimited_field(4, index_len)
    }

    /// Returns the leaf body, or `None` if this is an index node.
    pub fn as_leaf(&self) -> (r: Option<&LeafBody>)
        ensures
            r is Some <==> self@.body is Leaf,
            r matches Some(leaf) ==> self@.body == BodyView::Leaf(leaf@),
    {
        match &self.body {
            NodeBody::Leaf(leaf) => Some(leaf),
            NodeBody::Index(_) => None,
        }
    }

    /// Returns the index body, or `None` if this is a leaf node.
    pub fn as_index(&self) -> (r: Option<&IndexNode>)
        ensures
            r is Some <==> self@.body is Index,
            r matches Some(index) ==> self@.body == BodyView::Index(index@),
    {
        match &self.body {
            NodeBody::Index(index) => Some(index),
            NodeBody::Leaf(_) => None,
        }
    }

    /// Reports whether the node still covers `key`: the node is live and `key`
    /// is below the high key. A `false` result means a split or a merge has
    /// moved `key` to the right and the descent must follow the right-sibling
    /// link.
    pub fn covers(&self, key: &[u8]) -> (r: bool)
        ensures
            r == self@.covers(key@),
    {
        if self.drained {
            return false;
        }
        match &self.high_key {
            None => true,
            Some(high) => bytes::precedes(key, high.as_slice()),
        }
    }

    /// Reports whether the node is over any of `policy`'s soft caps, making it
    /// a background split candidate. A node with fewer than two entries or
    /// children can never be split, so it is never a candidate.
    pub fn over_soft_cap(&self, policy: &NodeSizePolicy) -> (r: bool)
        ensures
            r == (self@.body.size() >= 2 && (self@.body.size() > (match self@.body {
                BodyView::Leaf(_) => policy@.leaf_max_entries,
                BodyView::Index(_) => policy@.index_max_children,
            }) || node_bytes(self@.content()).len() > policy@.node_soft_max_bytes)),
    {
        match &self.body {
            NodeBody::Leaf(leaf) => leaf.len() >= 2 && (leaf.len() > policy.leaf_max_entries()
                || self.content_encoded_len() > policy.node_soft_max_bytes()),
            NodeBody::Index(index) => index.len() >= 2 && (index.len()
                > policy.index_max_children() || self.content_encoded_len()
                > policy.node_soft_max_bytes()),
        }
    }

    /// Halves the node for a B-link split: keeps the lower half, bounded above
    /// by the split key and linked to `right_id`, and returns the new right
    /// sibling, which inherits the former high key and right sibling, together
    /// with the split key to promote into the parent. Returns `None` when the
    /// node has fewer than two entries or children.
    pub fn split(&mut self, right_id: NodeId) -> (r: Option<(Node, Vec<u8>)>)
        requires
            old(self).wf(),
        ensures
            final(self).wf(),
            r is Some <==> old(self)@.body.size() >= 2,
            r is None ==> final(self)@ == old(self)@,
            r matches Some(made) ==> {
                &&& made.0.wf()
                &&& made.0@ == old(self)@.upper_half()
                &&& made.1@ == old(self)@.split_key()
                &&& final(self)@ == old(self)@.lower_half(right_id@)
            },
    {
        let (right_body, split_key) = match &mut self.body {
            NodeBody::Leaf(leaf) => {
                if leaf.len() < 2 {
                    return None;
                }
                let (upper, key) = leaf.split_off_median();
                (NodeBody::Leaf(upper), key)
            },
            NodeBody::Index(index) => {
                if index.len() < 2 {
                    return None;
                }
                let (upper, key) = index.split_off_median();
                (NodeBody::Index(upper), key)
            },
        };
        let mut locks = self.locks.clone();
        locks.clear_holders();
        // The right sibling takes over the upper range: the old high key and
        // the old right-sibling link now bound and follow it.
        let right = Node {
            low_key: bytes::copy(split_key.as_slice()),
            high_key: copy_optional(&self.high_key),
            right_sibling: self.right_sibling,
            body: right_body,
            locks,
            drained: false,
        };
        self.high_key = Some(bytes::copy(split_key.as_slice()));
        self.right_sibling = Some(right_id);
        Some((right, split_key))
    }

    /// Encodes the node to its canonical body.
    #[verifier::rlimit(40)]
    pub fn encode(&self) -> (r: Vec<u8>)
        ensures
            r@ == node_bytes(self@),
    {
        let mut buf: Vec<u8> = Vec::new();
        let ghost high = or_empty(self@.high_key);
        let ghost right = or_empty(self@.right_sibling);
        match &self.high_key {
            Some(key) => {
                wire::put_nonempty(&mut buf, 1, key.as_slice());
            },
            None => {
                proof {
                    wire::lemma_single(wire::bytes_field(1, Seq::empty()));
                }
            },
        }
        proof {
            assert(buf@ =~= wire::message_bytes(wire::nonempty(1, high)));
        }
        let ghost one = buf@;
        match &self.right_sibling {
            Some(id) => {
                wire::put_nonempty(&mut buf, 2, id.as_bytes());
            },
            None => {
                proof {
                    wire::lemma_single(wire::bytes_field(2, Seq::empty()));
                }
            },
        }
        proof {
            assert(buf@ =~= one + wire::message_bytes(wire::nonempty(2, right)));
        }
        let ghost two = buf@;
        match &self.body {
            NodeBody::Leaf(leaf) => {
                let payload = leaf.encode();
                wire::put_bytes(&mut buf, 3, payload.as_slice());
                proof {
                    wire::lemma_single(wire::bytes_field(3, payload@));
                }
            },
            NodeBody::Index(index) => {
                let payload = index.encode();
                wire::put_bytes(&mut buf, 4, payload.as_slice());
                proof {
                    wire::lemma_single(wire::bytes_field(4, payload@));
                }
            },
        }
        proof {
            assert(buf@ =~= two + wire::message_bytes(body_part(self@.body)));
        }
        let ghost three = buf@;
        self.put_coordination(&mut buf);
        proof {
            let a = wire::nonempty(1, high);
            let b = wire::nonempty(2, right);
            let c = body_part(self@.body);
            let d = coordination_fields(self@);
            wire::lemma_message_concat(a, b + (c + d));
            wire::lemma_message_concat(b, c + d);
            wire::lemma_message_concat(c, d);
            assert(buf@ =~= node_bytes(self@));
        }
        buf
    }

    /// Appends the fields behind the body.
    fn put_coordination(&self, buf: &mut Vec<u8>)
        ensures
            final(buf)@ == old(buf)@ + wire::message_bytes(coordination_fields(self@)),
    {
        let ghost was = buf@;
        let gate = self.locks.structural_gate();
        put_lock(buf, 5, gate.lock_type(), gate.holders());
        let membership = self.locks.membership();
        put_lock(buf, 6, membership.lock_type(), membership.holders());
        wire::put_nonzero(buf, 7, self.locks.membership_generation());
        put_tx(buf, 8, self.locks.drop_intent());
        let drained: u64 = if self.drained {
            1
        } else {
            0
        };
        wire::put_nonzero(buf, 9, drained);
        let ghost before = buf@;
        match self.locks.merge_reservation() {
            Some(intent) => {
                wire::put_nonempty(buf, 10, intent.as_bytes());
            },
            None => {
                proof {
                    wire::lemma_single(wire::bytes_field(10, Seq::empty()));
                }
            },
        }
        proof {
            assert(buf@ =~= before + wire::message_bytes(
                wire::nonempty(10, or_empty(self@.locks.merge_reservation)),
            ));
        }
        wire::put_nonempty(buf, 11, self.low_key.as_slice());
        proof {
            lemma_coordination_bytes(self@, was);
        }
    }

    /// Returns the canonical encoded size.
    pub fn encoded_len(&self) -> (r: usize)
        ensures
            r == node_bytes(self@).len(),
    {
        self.encode().len()
    }

    /// Decodes a node from its body. A message with no body is an empty leaf
    /// spanning the whole key space: the shape of a fresh root.
    pub fn decode(buf: &[u8]) -> (r: Result<Self, StorageError>)
        ensures
            match proto::parse_node(buf@, 0) {
                None => r matches Err(error) && error.wraps("unmarshalling node"@),
                Some(message) => match node_of(message) {
                    Ok(node) => r matches Ok(found) && found@ == node && found.wf(),
                    Err(text) => r matches Err(error) && error.says(text),
                },
            },
    {
        match proto::read_node_bytes(buf, 0) {
            Err(error) => Err(StorageError::with_source("unmarshalling node", error)),
            Ok(message) => Node::from_message(message),
        }
    }

    /// Builds a node from a persisted one.
    pub fn from_message(message: NodeMessage) -> (r: Result<Self, StorageError>)
        ensures
            match node_of(message@) {
                Ok(node) => r matches Ok(found) && found@ == node && found.wf(),
                Err(text) => r matches Err(error) && error.says(text),
            },
    {
        let body = match body_from_message(&message.body) {
            Err(error) => {
                return Err(error);
            },
            Ok(body) => body,
        };
        let structure = match ExclusiveGate::from_wire(
            message.structural_gate.number,
            message.structural_gate.holders,
        ) {
            Err(_) => {
                return Err(
                    StorageError::other(
                        "node structural gate must be empty or have one write holder",
                    ),
                );
            },
            Ok(gate) => gate,
        };
        let membership = match SharedExclusiveLock::from_wire(
            message.membership_lock.number,
            message.membership_lock.holders,
        ) {
            Err(_) => {
                return Err(StorageError::other("node has invalid membership lock"));
            },
            Ok(lock) => lock,
        };
        let right_sibling = if message.right_sibling.len() == 0 {
            None
        } else {
            match NodeId::from_slice(message.right_sibling.as_slice()) {
                None => {
                    return Err(StorageError::other("node has an invalid right-sibling ID"));
                },
                Some(id) => Some(id),
            }
        };
        let merge_reservation = if message.merge_reservation.len() == 0 {
            None
        } else {
            match StructuralIntentId::from_slice(message.merge_reservation.as_slice()) {
                None => {
                    return Err(StorageError::other("node has an invalid merge reservation"));
                },
                Some(id) => Some(id),
            }
        };
        let body_is_empty: bool = match &body {
            NodeBody::Leaf(leaf) => leaf.is_empty(),
            NodeBody::Index(index) => index.is_empty(),
        };
        if message.drained && (!body_is_empty || right_sibling.is_none()) {
            return Err(
                StorageError::other("drained node must have an empty body and a right sibling"),
            );
        }
        let drop_intent = if message.drop_intent.len() == 0 {
            None
        } else {
            Some(TxId::from_bytes(message.drop_intent))
        };
        let high_key = if message.high_key.len() == 0 {
            None
        } else {
            Some(message.high_key)
        };
        Ok(
            Node {
                low_key: message.low_key,
                high_key,
                right_sibling,
                body,
                locks: NodeLocks::from_parts(
                    structure,
                    membership,
                    message.membership_generation,
                    drop_intent,
                    merge_reservation,
                ),
                drained: message.drained,
            },
        )
    }
}

/// The fields behind the body, one after the other.
proof fn lemma_coordination_bytes(n: NodeView, before: Seq<u8>)
    ensures
        before + wire::message_bytes(coordination_fields(n)) == before + wire::message_bytes(
            lock_part(5, n.locks.structure),
        ) + wire::message_bytes(lock_part(6, n.locks.membership)) + wire::message_bytes(
            wire::nonzero(7, n.locks.generation as nat),
        ) + wire::message_bytes(wire::nonempty(8, or_empty(n.locks.drop_intent)))
            + wire::message_bytes(
            wire::nonzero(
                9,
                if n.drained {
                    1
                } else {
                    0
                },
            ),
        ) + wire::message_bytes(wire::nonempty(10, or_empty(n.locks.merge_reservation)))
            + wire::message_bytes(wire::nonempty(11, n.low_key)),
{
    let a = lock_part(5, n.locks.structure);
    let b = lock_part(6, n.locks.membership);
    let c = wire::nonzero(7, n.locks.generation as nat);
    let d = wire::nonempty(8, or_empty(n.locks.drop_intent));
    let e = wire::nonzero(
        9,
        if n.drained {
            1
        } else {
            0
        },
    );
    let f = wire::nonempty(10, or_empty(n.locks.merge_reservation));
    let g = wire::nonempty(11, n.low_key);
    wire::lemma_message_concat(f, g);
    wire::lemma_message_concat(e, f + g);
    wire::lemma_message_concat(d, e + (f + g));
    wire::lemma_message_concat(c, d + (e + (f + g)));
    wire::lemma_message_concat(b, c + (d + (e + (f + g))));
    wire::lemma_message_concat(a, b + (c + (d + (e + (f + g)))));
    lemma_seven(
        before,
        wire::message_bytes(a),
        wire::message_bytes(b),
        wire::message_bytes(c),
        wire::message_bytes(d),
        wire::message_bytes(e),
        wire::message_bytes(f),
        wire::message_bytes(g),
    );
}

/// Concatenation is associative.
proof fn lemma_seven(
    z: Seq<u8>,
    a: Seq<u8>,
    b: Seq<u8>,
    c: Seq<u8>,
    d: Seq<u8>,
    e: Seq<u8>,
    f: Seq<u8>,
    g: Seq<u8>,
)
    ensures
        z + (a + (b + (c + (d + (e + (f + g)))))) == z + a + b + c + d + e + f + g,
{
    assert(z + (a + (b + (c + (d + (e + (f + g)))))) =~= z + a + b + c + d + e + f + g);
}

/// Builds a body from a persisted one.
fn body_from_message(message: &Option<BodyMessage>) -> (r: Result<NodeBody, StorageError>)
    ensures
        match body_of(proto::body_view(*message)) {
            Ok(body) => r matches Ok(found) && found@ == body && body.valid(),
            Err(text) => r matches Err(error) && error.says(text),
        },
{
    match message {
        None => Ok(NodeBody::Leaf(LeafBody::new())),
        Some(BodyMessage::Leaf(list)) => match LeafBody::from_messages(list) {
            Ok(leaf) => Ok(NodeBody::Leaf(leaf)),
            Err(error) => Err(error),
        },
        Some(BodyMessage::Index(list)) => match IndexNode::from_messages(list) {
            Ok(index) => Ok(NodeBody::Index(index)),
            Err(error) => Err(error),
        },
    }
}

/// The sizes of the parts that belong to a parent's leftmost child.
pub proof fn lemma_leftmost_size()
    ensures
        wire::field_size(2, 16) == 18,
        separator_entry_size(0) == 18,
        wire::field_size(1, 18) == 20,
        parent_size(0) == 22,
{
    assert(wire::varint(16).len() == 1);
    assert(wire::varint(18).len() == 1);
    assert(wire::varint(20).len() == 1);
    assert(wire::varint(2nat * 8 + 2).len() == 1);
    assert(wire::varint(1nat * 8 + 2).len() == 1);
    assert(wire::varint(4nat * 8 + 2).len() == 1);
}

/// The parts of a parent's size are no larger than the whole.
proof fn lemma_parent_parts(key_len: nat)
    requires
        parent_size(key_len) <= usize::MAX,
    ensures
        wire::field_size(2, 16) == 18,
        separator_entry_size(0) == 18,
        wire::field_size(1, 18) == 20,
        wire::field_size(1, key_len) <= usize::MAX,
        separator_entry_size(key_len) <= usize::MAX,
        wire::field_size(1, separator_entry_size(key_len)) <= usize::MAX,
        key_len > 0 ==> 20 + wire::field_size(1, separator_entry_size(key_len)) <= usize::MAX,
{
    assert(wire::varint(16).len() == 1);
    assert(wire::varint(18).len() == 1);
    assert(wire::varint(0).len() == 1);
    assert(wire::varint(2nat * 8 + 2).len() == 1);
    assert(wire::varint(1nat * 8 + 2).len() == 1);
}

} // verus!
