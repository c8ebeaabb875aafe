//! The collection root object: the tree's root node plus the directory of
//! child collections.

use vstd::prelude::*;

use crate::bindings::{self, Binding, BindingFault, BindingView, Bindings};
use crate::error::StorageError;
use crate::ids::CollectionId;
use crate::leaf::LeafBody;
use crate::node::laws;
use crate::node::locks::NodeLocks;
use crate::node::tree_node::{self, BodyView, Node, NodeView};
use crate::proto;
use crate::sorted;
use crate::wire;

verus! {

/// A collection root.
pub struct RootView {
    /// The root node of the tree.
    pub node: NodeView,
    /// The directory of child collections.
    pub children: Seq<BindingView>,
}

impl RootView {
    /// The node and the directory are valid.
    pub open spec fn valid(self) -> bool {
        self.node.body.valid() && self.node.locks.valid() && bindings::directory_valid(
            self.children,
        )
    }

    /// The shape a collection is created with.
    pub open spec fn fresh() -> RootView {
        RootView {
            node: NodeView::whole(BodyView::Leaf(Seq::empty())),
            children: Seq::empty(),
        }
    }
}

/// The fields of a persisted root: node in field 1, bindings in field 2.
pub open spec fn root_fields(root: RootView) -> Seq<wire::FieldView> {
    seq![wire::bytes_field(1, tree_node::node_bytes(root.node))] + bindings::bindings_part(
        2,
        root.children,
    )
}

/// The bytes of a persisted root.
pub open spec fn root_bytes(root: RootView) -> Seq<u8> {
    wire::message_bytes(root_fields(root))
}

/// A root as persisted.
pub struct RootMessageView {
    /// The node, if any.
    pub node: Option<proto::NodeMessageView>,
    /// The bindings.
    pub children: Seq<proto::PairMessageView>,
}

/// Reads a root.
pub open spec fn parse_root(b: Seq<u8>) -> Option<RootMessageView> {
    match wire::parse_fields(b, 0) {
        None => None,
        Some(fields) => {
            let children = wire::occurrences(fields, 2);
            if !wire::all_bytes(children) {
                None
            } else {
                match (
                    wire::embedded(fields, 1, 1),
                    proto::pair_messages(wire::byte_strings(children), 1),
                ) {
                    (Some(inner), Some(children)) => match proto::node_message(inner, 1) {
                        Some(node) => Some(
                            RootMessageView {
                                node: if wire::occurrences(fields, 1).len() == 0 {
                                    None
                                } else {
                                    Some(node)
                                },
                                children,
                            },
                        ),
                        None => None,
                    },
                    _ => None,
                }
            }
        },
    }
}

/// What is wrong with a root's binding, in words.
pub open spec fn root_fault(fault: BindingFault) -> Seq<char> {
    match fault {
        BindingFault::Name => "collection root contains an invalid child name"@,
        BindingFault::Id => "collection root contains an invalid child ID"@,
        BindingFault::Reserved => "collection root binds a child to the reserved root ID"@,
        BindingFault::Duplicate => "collection root contains a duplicate child name"@,
    }
}

/// Says what is wrong with a root's binding.
fn root_error(fault: BindingFault) -> (r: StorageError)
    ensures
        r.says(root_fault(fault)),
{
    match fault {
        BindingFault::Name => StorageError::other("collection root contains an invalid child name"),
        BindingFault::Id => StorageError::other("collection root contains an invalid child ID"),
        BindingFault::Reserved => StorageError::other(
            "collection root binds a child to the reserved root ID",
        ),
        BindingFault::Duplicate => StorageError::other(
            "collection root contains a duplicate child name",
        ),
    }
}

/// The root that a persisted one stands for, or what is wrong with it.
pub open spec fn root_of(message: RootMessageView) -> Result<RootView, Seq<char>> {
    match bindings::bindings_of(message.children) {
        Err(fault) => Err(root_fault(fault)),
        Ok(children) => match message.node {
            None => Ok(
                RootView { node: NodeView::whole(BodyView::Leaf(Seq::empty())), children },
            ),
            Some(node) => match tree_node::node_of(node) {
                Ok(node) => Ok(RootView { node, children }),
                Err(text) => Err(text),
            },
        },
    }
}

/// A collection root: the tree's root node plus the directory of child
/// collections.
#[derive(Debug, PartialEq, Eq)]
pub struct CollectionRoot {
    node: Node,
    children: Bindings,
}

impl View for CollectionRoot {
    type V = RootView;

    closed spec fn view(&self) -> RootView {
        RootView { node: self.node@, children: self.children@ }
    }
}

impl Clone for CollectionRoot {
    fn clone(&self) -> (r: Self)
        ensures
            r@ == self@,
    {
        CollectionRoot { node: self.node.clone(), children: self.children.clone() }
    }
}

impl Default for CollectionRoot {
    fn default() -> (r: Self)
        ensures
            r.wf(),
            r@ == RootView::fresh(),
    {
        CollectionRoot::new()
    }
}

impl CollectionRoot {
    /// The node and the directory are valid.
    pub open spec fn wf(&self) -> bool {
        self@.valid()
    }

    /// Creates an empty root: an empty leaf spanning the whole key space and
    /// no child bindings.
    pub fn new() -> (r: Self)
        ensures
            r.wf(),
            r@ == RootView::fresh(),
    {
        CollectionRoot { node: Node::leaf(LeafBody::new()), children: Bindings::default() }
    }

    /// Returns the root node of the tree.
    pub fn node(&self) -> (r: &Node)
        ensures
            r@ == self@.node,
            self.wf() ==> r.wf(),
    {
        &self.node
    }

    /// Returns the lock state of the root node for changing it.
    pub fn node_locks_mut(&mut self) -> (r: &mut NodeLocks)
        ensures
            r@ == old(self)@.node.locks,
            final(self)@ == (RootView {
                node: NodeView { locks: final(r)@, ..old(self)@.node },
                ..old(self)@
            }),
    {
        self.node.locks_mut()
    }

    /// Replaces the root node of the tree.
    pub fn set_node(&mut self, node: Node)
        ensures
            final(self)@ == (RootView { node: node@, ..old(self)@ }),
    {
        self.node = node;
    }

    /// Returns the incarnation bound to direct child `name`.
    pub fn child(&self, name: &[u8]) -> (r: Option<CollectionId>)
        requires
            self.wf(),
        ensures
            match sorted::get(self@.children, name@) {
                Some(binding) => r matches Some(id) && id@ == binding.id,
                None => r is None,
            },
    {
        self.children.child(name)
    }

    /// Adds a valid direct child binding, returning whether the name was
    /// vacant.
    pub fn add_child(&mut self, name: Vec<u8>, id: CollectionId) -> (r: Result<bool, StorageError>)
        requires
            old(self).wf(),
        ensures
            final(self).wf(),
            final(self)@.node == old(self)@.node,
            bindings::added(old(self)@.children, final(self)@.children, name@, id@, r),
    {
        self.children.add_child(name, id)
    }

    /// Removes a direct child binding, returning its former incarnation.
    pub fn remove_child(&mut self, name: &[u8]) -> (r: Option<CollectionId>)
        requires
            old(self).wf(),
        ensures
            final(self).wf(),
            final(self)@ == (RootView {
                children: sorted::drop(old(self)@.children, name@),
                ..old(self)@
            }),
            match sorted::get(old(self)@.children, name@) {
                Some(binding) => r matches Some(id) && id@ == binding.id,
                None => r is None,
            },
    {
        self.children.remove_child(name)
    }

    /// Returns the child bindings in name order.
    pub fn children(&self) -> (r: &Vec<Binding>)
        ensures
            sorted::models(r@) == self@.children,
            r@.len() == self@.children.len(),
    {
        self.children.list()
    }

    /// Encodes the root to its canonical body.
    pub fn encode(&self) -> (r: Vec<u8>)
        ensures
            r@ == root_bytes(self@),
    {
        let mut buf: Vec<u8> = Vec::new();
        let node = self.node.encode();
        wire::put_bytes(&mut buf, 1, node.as_slice());
        self.children.encode_into(&mut buf, 2);
        proof {
            wire::lemma_single(wire::bytes_field(1, node@));
            wire::lemma_message_concat(
                seq![wire::bytes_field(1, node@)],
                bindings::bindings_part(2, self@.children),
            );
            assert(buf@ =~= root_bytes(self@));
        }
        buf
    }

    /// Returns the canonical encoded size.
    pub fn encoded_len(&self) -> (r: usize)
        ensures
            r == root_bytes(self@).len(),
    {
        self.encode().len()
    }

    /// Returns the encoded size without transient node-lock holders.
    pub fn content_encoded_len(&self) -> (r: usize)
        ensures
            r == root_bytes(RootView { node: self@.node.content(), ..self@ }).len(),
    {
        let mut root = self.clone();
        root.node.clear_node_locks();
        root.encoded_len()
    }

    /// Decodes a root from its body. A root with no node is an empty leaf.
    pub fn decode(buf: &[u8]) -> (r: Result<Self, StorageError>)
        ensures
            match parse_root(buf@) {
                None => r matches Err(error) && error.wraps("unmarshalling collection root"@),
                Some(message) => match root_of(message) {
                    Ok(root) => r matches Ok(found) && found@ == root && found.wf(),
                    Err(text) => r matches Err(error) && error.says(text),
                },
            },
    {
        let (message, list) = match read_root(buf) {
            Err(error) => {
                return Err(StorageError::with_source("unmarshalling collection root", error));
            },
            Ok(found) => found,
        };
        let children = match Bindings::from_messages(&list) {
            Err(fault) => {
                return Err(root_error(fault));
            },
            Ok(children) => children,
        };
        match message {
            None => Ok(CollectionRoot { node: Node::leaf(LeafBody::new()), children }),
            Some(message) => match Node::from_message(message) {
                Ok(node) => Ok(CollectionRoot { node, children }),
                Err(error) => Err(error),
            },
        }
    }
}

/// What an optional persisted node is.
pub open spec fn node_message_view(message: Option<proto::NodeMessage>) -> Option<
    proto::NodeMessageView,
> {
    match message {
        Some(message) => Some(message@),
        None => None,
    }
}

/// Reads a root: its node and its bindings.
fn read_root(buf: &[u8]) -> (r: Result<
    (Option<proto::NodeMessage>, Vec<proto::PairMessage>),
    String,
>)
    ensures
        match parse_root(buf@) {
            None => r is Err,
            Some(message) => r matches Ok(found) && node_message_view(found.0) == message.node
                && proto::pair_message_views(found.1@) == message.children,
        },
{
    let fields = match wire::read_fields(buf, 0) {
        Err(error) => {
            return Err(error);
        },
        Ok(fields) => fields,
    };
    let payloads = match wire::pick_bytes(&fields, 2) {
        Err(error) => {
            return Err(error);
        },
        Ok(list) => list,
    };
    let inner = match wire::read_embedded(&fields, 1, 1) {
        Err(error) => {
            return Err(error);
        },
        Ok(inner) => inner,
    };
    let children = match proto::read_pairs(&payloads, 1) {
        Err(error) => {
            return Err(error);
        },
        Ok(children) => children,
    };
    let node = match proto::read_node(&inner, 1) {
        Err(error) => {
            return Err(error);
        },
        Ok(node) => node,
    };
    if wire::occurs(&fields, 1) {
        Ok((Some(node), children))
    } else {
        Ok((None, children))
    }
}

/// Law: a root reads back from its bytes.
pub proof fn law_root_round_trip(root: RootView)
    requires
        laws::canonical(root.node),
        bindings::directory_valid(root.children),
        root_bytes(root).len() <= u64::MAX,
    ensures
        parse_root(root_bytes(root)) matches Some(message) && root_of(message) == Ok::<
            RootView,
            Seq<char>,
        >(root),
{
    let fields = root_fields(root);
    let payload = tree_node::node_bytes(root.node);
    let a = seq![wire::bytes_field(1, payload)];
    let payloads = root.children.map_values(|b: BindingView| bindings::binding_bytes(b));
    let b = bindings::bindings_part(2, root.children);
    wire::lemma_repeated(2, payloads);
    assert(wire::all_writable(a));
    wire::lemma_writable_concat(a, b);
    wire::law_written_message_is_read(fields, 0);
    assert(wire::carries(a, 1, seq![wire::ValueView::Bytes(payload)]));
    wire::lemma_in_front(a, 1, seq![wire::ValueView::Bytes(payload)], b);
    wire::lemma_carries(b, 2, wire::list_values(payloads), 1);
    wire::lemma_carries(b, 2, wire::list_values(payloads), 2);
    assert(wire::occurrences(fields, 1) =~= seq![wire::ValueView::Bytes(payload)]);
    assert(wire::occurrences(fields, 2) =~= wire::list_values(payloads));
    assert(fields[0] == wire::bytes_field(1, payload));
    wire::lemma_part_fits(fields, 0);
    laws::law_node_round_trip(root.node, 1);
    laws::lemma_node_writable(root.node);
    wire::lemma_embedded_once(fields, 1, tree_node::node_fields(root.node), 1);
    wire::law_written_message_is_read(tree_node::node_fields(root.node), 1);
    assert forall|i: int| 0 <= i < root.children.len() implies #[trigger] bindings::binding_bytes(
        root.children[i],
    ).len() <= u64::MAX by {
        assert(fields[i + 1] == wire::bytes_field(2, payloads[i]));
        wire::lemma_part_fits(fields, i + 1);
    }
    bindings::lemma_binding_messages(root.children, 1);
    bindings::lemma_bindings_of(root.children);
}

/// Law: a root that holds no node stands for an empty leaf that covers every key;
/// else its node is the one that it holds. Its children are those that it lists.
pub proof fn law_read_root_is_what_stands_there(message: RootMessageView)
    requires
        root_of(message) is Ok,
    ensures
        ({
            let root = root_of(message)->Ok_0;
            &&& bindings::bindings_of(message.children) == Ok::<
                Seq<bindings::BindingView>,
                BindingFault,
            >(root.children)
            &&& match message.node {
                Some(node) => tree_node::node_of(node) == Ok::<NodeView, Seq<char>>(root.node),
                None => root.node.body == BodyView::Leaf(Seq::empty()) && root.node.low_key.len()
                    == 0 && root.node.high_key is None && root.node.right_sibling is None
                    && !root.node.drained,
            }
        }),
{
}

} // verus!
