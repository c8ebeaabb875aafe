//! Tree descent over the B-link coordination directory.
//!
//! The [`Directory`] resolves a key to the leaf that owns it by descending from
//! the collection root through index nodes, and it enumerates the leaves in key
//! order for listing. Descent is self-correcting: every node carries a high key
//! and a right sibling, so a lookup that lands too far left steps along the
//! right-sibling link instead of restarting from the root.
//!
//! This layer is pure routing. It says which node to load next; the caller
//! loads nodes and hands them back.

use vstd::prelude::*;
use vstd::string::*;

use crate::bytes::{self, Side};
use crate::error::StorageError;
use crate::ids::NodeId;
use crate::leaf::LeafBody;
use crate::node::index;
use crate::node::tree_node::{self, BodyView, Node, NodeView};
use crate::sorted;

verus! {

/// The leaf that owns a key or a range endpoint, with everything needed to read
/// or compare-and-swap it.
#[derive(Debug)]
pub struct LeafLocator {
    /// The object path of the leaf.
    pub path: String,
    /// The decoded node.
    pub node: Node,
    /// The version, or `None` when the root leaf is still to be created.
    pub version: Option<String>,
}

/// A key routed to its owning leaf, with what the caller keeps beside it.
#[derive(Debug)]
pub struct RoutedKey<T> {
    /// The owning leaf.
    pub leaf: LeafLocator,
    /// The key.
    pub key: Vec<u8>,
    /// What the caller keeps beside the key.
    pub payload: T,
}

/// The keys routed to one leaf.
#[derive(Debug)]
pub struct LeafGroup<T> {
    /// The object path of the leaf.
    pub path: String,
    /// The decoded node.
    pub node: Node,
    /// The version, or `None` when the root leaf is still to be created.
    pub version: Option<String>,
    /// The keys that landed in the leaf, in input order.
    pub keys: Vec<(Vec<u8>, T)>,
}

/// Where a descent goes from a node.
pub enum StepView {
    /// The node is the leaf to find.
    Arrived,
    /// The right sibling comes next.
    Right(Seq<u8>),
    /// A child comes next.
    Child(Seq<u8>),
}

/// Where a descent goes from a node.
#[derive(Clone, Copy, Debug)]
pub enum Step {
    /// The node is the leaf to find.
    Arrived,
    /// The right sibling comes next.
    Right(NodeId),
    /// A child comes next.
    Child(NodeId),
}

impl View for Step {
    type V = StepView;

    open spec fn view(&self) -> StepView {
        match self {
            Step::Arrived => StepView::Arrived,
            Step::Right(id) => StepView::Right(id@),
            Step::Child(id) => StepView::Child(id@),
        }
    }
}

/// Where the descent toward a key goes from a node: right past a split or a
/// merge, and else into the routed child. An empty index node leads nowhere.
pub open spec fn step_toward(node: NodeView, key: Seq<u8>) -> Option<StepView> {
    if !node.covers(key) && node.right_sibling is Some {
        Some(StepView::Right(node.right_sibling->Some_0))
    } else {
        match node.body {
            BodyView::Leaf(_) => Some(StepView::Arrived),
            BodyView::Index(children) => match index::routed(children, key) {
                Some(child) => Some(StepView::Child(child)),
                None => None,
            },
        }
    }
}

/// Where the descent toward the leftmost leaf goes from a node.
pub open spec fn step_leftmost(node: NodeView) -> Option<StepView> {
    match node.body {
        BodyView::Leaf(_) => Some(StepView::Arrived),
        BodyView::Index(children) => if children.len() > 0 {
            Some(StepView::Child(children[0].child))
        } else {
            None
        },
    }
}

/// The leaf that a scan goes to after a leaf: its right sibling, unless the scan
/// ends in the leaf.
pub open spec fn scanned_next(leaf: NodeView, end: Option<Seq<u8>>) -> Option<Seq<u8>> {
    if end is Some && leaf.covers(end->Some_0) {
        None
    } else {
        leaf.right_sibling
    }
}

/// A step, or that an index node leads nowhere.
pub open spec fn stepped(step: Option<StepView>, r: Result<Step, StorageError>) -> bool {
    match step {
        Some(step) => r matches Ok(found) && found@ == step,
        None => r matches Err(error) && error.says("descent reached an empty index node"@),
    }
}

/// Descends and scans the B-link coordination directory of a collection.
#[derive(Debug)]
pub struct Directory {
    root_path: String,
}

impl View for Directory {
    type V = Seq<char>;

    closed spec fn view(&self) -> Seq<char> {
        self.root_path@
    }
}

impl Directory {
    /// Creates the directory of the collection whose root node is at
    /// `root_path`.
    pub fn new(root_path: &str) -> (r: Self)
        ensures
            r@ == root_path@,
    {
        Directory { root_path: String::from_str(root_path) }
    }

    /// Returns where a descent starts. When the collection does not exist yet
    /// that is the empty root leaf with no version, so a caller can look a key
    /// up and find it absent, or create the root.
    pub fn root_leaf(&self, root: Option<(Node, String)>) -> (r: LeafLocator)
        requires
            root matches Some((node, _)) ==> node.wf(),
        ensures
            r.path@ == self@,
            r.node.wf(),
            match root {
                Some((node, version)) => r.node == node && r.version == Some(version),
                None => r.node@ == NodeView::whole(BodyView::Leaf(Seq::empty())) && r.version
                    is None,
            },
    {
        match root {
            Some((node, version)) => LeafLocator {
                path: self.root_path.clone(),
                node,
                version: Some(version),
            },
            None => LeafLocator {
                path: self.root_path.clone(),
                node: Node::leaf(LeafBody::new()),
                version: None,
            },
        }
    }

    /// Returns where the descent toward `key` goes from `node`.
    pub fn leaf_for(node: &Node, key: &[u8]) -> (r: Result<Step, StorageError>)
        requires
            node.wf(),
        ensures
            stepped(step_toward(node@, key@), r),
    {
        if !node.covers(key) {
            if let Some(right) = node.right_sibling() {
                return Ok(Step::Right(right));
            }
        }
        match node.as_index() {
            None => Ok(Step::Arrived),
            Some(index) => {
                match index.child_for(key) {
                    Some(child) => Ok(Step::Child(child)),
                    None => Err(StorageError::other("descent reached an empty index node")),
                }
            },
        }
    }

    /// Returns where the descent toward the leftmost leaf goes from `node`.
    pub fn leftmost_leaf(node: &Node) -> (r: Result<Step, StorageError>)
        ensures
            stepped(step_leftmost(node@), r),
    {
        match node.as_index() {
            None => Ok(Step::Arrived),
            Some(index) => {
                let children = index.children();
                if children.len() == 0 {
                    return Err(StorageError::other("descent reached an empty index node"));
                }
                let first = &children[0];
                proof {
                    assert(sorted::models(children@)[0] == first@);
                }
                Ok(Step::Child(first.child))
            },
        }
    }

    /// Returns the leaf after `leaf`, or `None` for the rightmost one.
    pub fn next_leaf(leaf: &Node) -> (r: Option<NodeId>)
        ensures
            tree_node::id_view(r) == scanned_next(leaf@, None),
            tree_node::id_view(r) == leaf@.right_sibling,
    {
        leaf.right_sibling()
    }

    /// Returns the leaf that a scan through the inclusive `end` goes to after
    /// `leaf`; `None` for `end` scans through positive infinity.
    pub fn leaves_through(leaf: &Node, end: Option<&[u8]>) -> (r: Option<NodeId>)
        ensures
            tree_node::id_view(r) == scanned_next(
                leaf@,
                match end {
                    Some(end) => Some(end@),
                    None => None,
                },
            ),
            tree_node::id_view(r) == if end is Some && leaf@.covers(end->Some_0@) {
                None
            } else {
                leaf@.right_sibling
            },
    {
        if let Some(end) = end {
            if leaf.covers(end) {
                return None;
            }
        }
        Self::next_leaf(leaf)
    }

    /// Reports whether a leaf found through cached interior nodes is read again
    /// at the stricter freshness that `same_freshness` denies: only a leaf that
    /// exists can be.
    pub fn reloads(found: &LeafLocator, same_freshness: bool) -> (r: bool)
        ensures
            r == (!same_freshness && found.version is Some),
    {
        !same_freshness && found.version.is_some()
    }
}

/// A descent that remembers the index node it came down from.
#[derive(Debug)]
pub struct Descent {
    /// The node reached.
    pub current: LeafLocator,
    /// The deepest index node left for a child.
    pub parent: Option<LeafLocator>,
}

impl Descent {
    /// Starts at the root.
    pub fn new(root: LeafLocator) -> (r: Self)
        ensures
            r == (Descent { current: root, parent: None }),
    {
        Descent { current: root, parent: None }
    }

    /// Moves on to the node that a step led to.
    pub fn advance(self, step: Step, next: LeafLocator) -> (r: Self)
        ensures
            r.current == next,
            r.parent == match step {
                Step::Child(_) => Some(self.current),
                _ => self.parent,
            },
    {
        match step {
            Step::Child(_) => Descent { current: next, parent: Some(self.current) },
            _ => Descent { current: next, parent: self.parent },
        }
    }

    /// Returns the index node into which a split of the leaf reached publishes
    /// its separator, or `None` while the root is a single leaf.
    pub fn parent_index_for(self) -> (r: Option<LeafLocator>)
        ensures
            r == self.parent,
    {
        self.parent
    }
}

/// Not exceeding is transitive.
proof fn lemma_le_transitive(a: Seq<u8>, b: Seq<u8>, c: Seq<u8>)
    requires
        bytes::le(a, b),
        bytes::le(b, c),
    ensures
        bytes::le(a, c),
{
    if a != b {
        bytes::lemma_lt_le_transitive(a, b, c);
    }
}

/// A node is linked into a tree of nodes. A node whose range ends somewhere has
/// a right sibling that starts no later than there; a drained node's right
/// sibling took its range over. An index routes its whole range, and each child
/// starts no later than its separator.
pub open spec fn linked(tree: Map<Seq<u8>, NodeView>, node: NodeView) -> bool {
    &&& node.drained || node.high_key is Some ==> {
        &&& node.right_sibling matches Some(right)
        &&& tree.contains_key(right)
        &&& if node.drained {
            bytes::le(tree[right].low_key, node.low_key)
        } else {
            bytes::le(tree[right].low_key, node.high_key->Some_0)
        }
    }
    &&& node.body matches BodyView::Index(children) ==> {
        &&& children.len() > 0
        &&& bytes::le(children[0].separator, node.low_key)
        &&& forall|i: int|
            0 <= i < children.len() ==> tree.contains_key((#[trigger] children[i]).child)
                && bytes::le(tree[children[i].child].low_key, children[i].separator)
    }
}

/// Law: a descent never loses the key. From a linked node that starts no later
/// than the key, a step leads to a node of the tree that starts no later than
/// the key either, and a descent arrives only at a leaf that covers the key.
pub proof fn law_descent_keeps_the_key(
    tree: Map<Seq<u8>, NodeView>,
    node: NodeView,
    key: Seq<u8>,
)
    requires
        linked(tree, node),
        bytes::le(node.low_key, key),
    ensures
        match step_toward(node, key) {
            Some(StepView::Arrived) => node.body is Leaf && node.covers(key),
            Some(StepView::Right(id)) => tree.contains_key(id) && bytes::le(
                tree[id].low_key,
                key,
            ),
            Some(StepView::Child(id)) => tree.contains_key(id) && bytes::le(
                tree[id].low_key,
                key,
            ),
            None => false,
        },
{
    if !node.covers(key) {
        let right = node.right_sibling->Some_0;
        if node.drained {
            lemma_le_transitive(tree[right].low_key, node.low_key, key);
        } else {
            bytes::lemma_total(key, node.high_key->Some_0);
            lemma_le_transitive(tree[right].low_key, node.high_key->Some_0, key);
        }
    } else if let BodyView::Index(children) = node.body {
        let some = children.filter(index::up_to(key));
        lemma_le_transitive(children[0].separator, node.low_key, key);
        broadcast use vstd::seq_lib::group_filter_ensures;

        assert(index::up_to(key)(children[0]));
        assert(some.contains(children[0]));
        let last = some.last();
        children.lemma_filter_contains_rev(index::up_to(key), last);
        let i = children.index_of(last);
        assert(children[i] == last);
        lemma_le_transitive(tree[last.child].low_key, last.separator, key);
    }
}

/// Law: a descent goes right exactly when the node does not cover the key and has
/// a right sibling. Else a leaf is where it arrives, and of an index it takes the
/// child whose separator is the closest one that does not exceed the key.
pub proof fn law_descent_takes_the_closest_child(node: NodeView, key: Seq<u8>)
    requires
        node.body.valid(),
    ensures
        step_toward(node, key) == Some(StepView::Arrived) ==> node.body is Leaf,
        match (node.high_key, node.right_sibling) {
            (Some(high), Some(right)) => bytes::le(high, key) ==> step_toward(node, key) == Some(
                StepView::Right(right),
            ),
            _ => true,
        },
        node.drained ==> (node.right_sibling matches Some(right) ==> step_toward(node, key) == Some(
            StepView::Right(right),
        )),
        node.right_sibling is None || (!node.drained && (node.high_key matches Some(high)
            ==> bytes::lt(key, high))) ==> {
            &&& node.body is Leaf ==> step_toward(node, key) == Some(StepView::Arrived)
            &&& node.body matches BodyView::Index(children) ==> {
                &&& forall|i: int|
                    0 <= i < children.len() && bytes::le(
                        (#[trigger] children[i]).separator,
                        key,
                    ) && (i + 1 < children.len() ==> bytes::lt(
                        key,
                        children[i + 1].separator,
                    )) ==> step_toward(node, key) == Some(StepView::Child(children[i].child))
                &&& children.len() == 0 ==> step_toward(node, key) is None
            }
        },
{
    if let Some(high) = node.high_key {
        bytes::lemma_total(key, high);
        if bytes::le(high, key) && bytes::lt(key, high) {
            bytes::lemma_lt_le_transitive(key, high, key);
            bytes::lemma_lt_irreflexive(key);
        }
    }
    if let BodyView::Index(children) = node.body {
        index::law_routed_child_is_the_closest(children, key);
    }
}

/// Law: the descent to the leftmost leaf stays at the left edge. In a linked
/// tree, from a node that starts at the empty key it leads to a node that starts
/// at the empty key; no child has a separator below that of the child it takes;
/// and it arrives only at a leaf.
pub proof fn law_leftmost_descent_stays_at_the_left_edge(
    tree: Map<Seq<u8>, NodeView>,
    node: NodeView,
)
    requires
        linked(tree, node),
        node.body.valid(),
    ensures
        match step_leftmost(node) {
            Some(StepView::Arrived) => node.body is Leaf,
            Some(StepView::Child(id)) => {
                &&& node.body matches BodyView::Index(children)
                &&& exists|i: int|
                    {
                        &&& 0 <= i < children.len()
                        &&& (#[trigger] children[i]).child == id
                        &&& forall|j: int|
                            0 <= j < children.len() ==> bytes::le(
                                children[i].separator,
                                (#[trigger] children[j]).separator,
                            )
                    }
                &&& node.low_key.len() == 0 ==> tree.contains_key(id) && tree[id].low_key.len() == 0
            },
            _ => false,
        },
{
    if let BodyView::Index(children) = node.body {
        let first = children[0];
        assert(first.child == children[0].child);
        assert forall|j: int| 0 <= j < children.len() implies bytes::le(
            first.separator,
            (#[trigger] children[j]).separator,
        ) by {
            if j > 0 {
                assert(bytes::lt(
                    sorted::Keyed::key(&children[0]),
                    sorted::Keyed::key(&children[j]),
                ));
            }
        }
        if node.low_key.len() == 0 {
            lemma_below_empty(first.separator, node.low_key);
            lemma_below_empty(tree[first.child].low_key, first.separator);
        }
    }
}

/// Law: where a node covers the empty key, the descent to the leftmost leaf and
/// the descent toward the empty key take the same step.
pub proof fn law_leftmost_descent_is_toward_the_empty_key(
    tree: Map<Seq<u8>, NodeView>,
    node: NodeView,
)
    requires
        linked(tree, node),
        node.body.valid(),
        node.low_key.len() == 0,
        !node.drained,
        node.high_key matches Some(high) ==> high.len() > 0,
    ensures
        step_leftmost(node) == step_toward(node, Seq::empty()),
{
    let least = Seq::<u8>::empty();
    if let Some(high) = node.high_key {
        bytes::lemma_empty_is_least(high);
    }
    if let BodyView::Index(children) = node.body {
        lemma_below_empty(children[0].separator, node.low_key);
        assert(children[0].separator =~= least);
        if children.len() > 1 {
            assert(bytes::lt(sorted::Keyed::key(&children[0]), sorted::Keyed::key(&children[1])));
        }
        law_descent_takes_the_closest_child(node, least);
        assert(bytes::le(children[0].separator, least));
    }
}

/// Nothing but the empty key does not exceed it.
proof fn lemma_below_empty(a: Seq<u8>, b: Seq<u8>)
    requires
        bytes::le(a, b),
        b.len() == 0,
    ensures
        a.len() == 0,
{
    assert(b =~= Seq::<u8>::empty());
    bytes::lemma_empty_is_least(a);
}

/// Law: the scan of leaves in key order loses no range. The leaf after a leaf
/// that is not drained starts no later than where that leaf ends.
pub proof fn law_scan_leaves_no_gap(tree: Map<Seq<u8>, NodeView>, leaf: NodeView)
    requires
        linked(tree, leaf),
        !leaf.drained,
    ensures
        leaf.high_key matches Some(high) ==> {
            &&& leaf.right_sibling matches Some(right)
            &&& tree.contains_key(right)
            &&& bytes::le(tree[right].low_key, high)
        },
{
}

/// The nodes that a node points at: its index children and its right sibling.
pub open spec fn referenced(node: NodeView) -> Seq<Seq<u8>> {
    let children = match node.body {
        BodyView::Index(children) => children.map_values(|c: index::ChildView| c.child),
        BodyView::Leaf(_) => Seq::empty(),
    };
    match node.right_sibling {
        Some(right) => children.push(right),
        None => children,
    }
}

/// A node points at another one: as a child of the index that it is, or as its
/// right sibling.
pub open spec fn links_to(node: NodeView, id: Seq<u8>) -> bool {
    ||| node.right_sibling == Some(id)
    ||| node.body matches BodyView::Index(children) && exists|i: int|
        0 <= i < children.len() && (#[trigger] children[i]).child == id
}

/// Law: the nodes that a node points at are its children, in separator order,
/// and behind them its right sibling; there are no others.
pub proof fn law_references_are_children_and_sibling(node: NodeView)
    ensures
        node.body matches BodyView::Index(children) ==> forall|i: int|
            0 <= i < children.len() ==> referenced(node)[i] == (#[trigger] children[i]).child,
        node.right_sibling matches Some(right) ==> referenced(node).last() == right,
        referenced(node).len() == (match node.body {
            BodyView::Index(children) => children.len(),
            BodyView::Leaf(_) => 0,
        }) + (if node.right_sibling is Some {
            1nat
        } else {
            0
        }),
        forall|id: Seq<u8>| #[trigger] referenced(node).contains(id) <==> links_to(node, id),
{
    let all = referenced(node);
    assert forall|id: Seq<u8>| #[trigger] all.contains(id) <==> links_to(node, id) by {
        if let BodyView::Index(children) = node.body {
            assert forall|i: int| 0 <= i < children.len() implies all[i] == (
            #[trigger] children[i]).child by {}
            if all.contains(id) {
                let k = all.index_of(id);
                if k < children.len() {
                    assert(children[k].child == id);
                }
            }
            if links_to(node, id) && node.right_sibling != Some(id) {
                let i = choose|i: int|
                    0 <= i < children.len() && (#[trigger] children[i]).child == id;
                assert(all[i] == id);
            }
        }
        if node.right_sibling == Some(id) {
            assert(all[all.len() - 1] == id);
        }
    }
}

/// Returns the nodes that a node points at: its children in separator order, and
/// behind them its right sibling.
pub fn referenced_tokens(node: &Node) -> (r: Vec<NodeId>)
    ensures
        sorted::models(r@) == referenced(node@),
        node@.body matches BodyView::Index(children) ==> children.len() <= r@.len() && forall|
            i: int,
        |
            0 <= i < children.len() ==> r@[i]@ == (#[trigger] children[i]).child,
        node@.right_sibling matches Some(right) ==> r@.len() > 0 && r@.last()@ == right,
        r@.len() == (match node@.body {
            BodyView::Index(children) => children.len(),
            BodyView::Leaf(_) => 0,
        }) + (if node@.right_sibling is Some {
            1nat
        } else {
            0
        }),
{
    let mut tokens: Vec<NodeId> = Vec::new();
    if let Some(index) = node.as_index() {
        let children = index.children();
        let mut i: usize = 0;
        while i < children.len()
            invariant
                i <= children@.len(),
                tokens@.len() == i,
                forall|j: int| 0 <= j < i ==> (#[trigger] tokens@[j])@ == children@[j]@.child,
            decreases children@.len() - i,
        {
            tokens.push(children[i].child);
            i = i + 1;
        }
        proof {
            let views = sorted::models(children@);
            assert(sorted::models(tokens@) =~= views.map_values(|c: index::ChildView| c.child));
        }
    } else {
        proof {
            assert(sorted::models(tokens@) =~= Seq::<Seq<u8>>::empty());
        }
    }
    let ghost before = tokens@;
    if let Some(right) = node.right_sibling() {
        tokens.push(right);
        proof {
            assert(sorted::models(tokens@) =~= sorted::models(before).push(right@));
        }
    }
    proof {
        let all = sorted::models(tokens@);
        law_references_are_children_and_sibling(node@);
        assert(all == referenced(node@));
        assert(forall|i: int| 0 <= i < all.len() ==> #[trigger] all[i] == tokens@[i]@);
    }
    tokens
}

/// The state of a reachability walk.
pub struct ReachView {
    /// The nodes reached, in ascending order.
    pub reached: Seq<Seq<u8>>,
    /// The nodes still to visit, the next one last.
    pub frontier: Seq<Seq<u8>>,
}

impl ReachView {
    /// The walk knows of a node.
    pub open spec fn knows(self, id: Seq<u8>) -> bool {
        sorted::holds_key(self.reached, id) || self.frontier.contains(id)
    }

    /// The walk went on to the node that stood at `n`: those behind it had been
    /// reached before.
    pub open spec fn visited(self, before: Self, n: int) -> bool {
        &&& 0 <= n < before.frontier.len()
        &&& !sorted::holds_key(before.reached, before.frontier[n])
        &&& forall|k: int|
            n < k < before.frontier.len() ==> sorted::holds_key(
                before.reached,
                #[trigger] before.frontier[k],
            )
        &&& self.reached == sorted::put(before.reached, before.frontier[n])
        &&& self.frontier == before.frontier.take(n)
    }

    /// A walk begins at what the root points at.
    pub open spec fn begun(root: Option<NodeView>) -> Self {
        ReachView {
            reached: Seq::empty(),
            frontier: match root {
                Some(root) => referenced(root),
                None => Seq::empty(),
            },
        }
    }

    /// The walk goes on with what a node points at that was loaded.
    pub open spec fn with_loaded(self, node: Option<NodeView>) -> Self {
        match node {
            Some(node) => ReachView { frontier: self.frontier + referenced(node), ..self },
            None => self,
        }
    }

    /// The walk has ended: whatever was left to visit had been reached before.
    pub open spec fn ended_from(self, before: Self) -> bool {
        &&& self.reached == before.reached
        &&& self.frontier == Seq::<Seq<u8>>::empty()
        &&& forall|k: int|
            0 <= k < before.frontier.len() ==> sorted::holds_key(
                before.reached,
                #[trigger] before.frontier[k],
            )
    }
}

/// What an optional node is.
pub open spec fn node_view(node: Option<&Node>) -> Option<NodeView> {
    match node {
        Some(node) => Some(node@),
        None => None,
    }
}

/// A walk over every node that is reachable from a collection root.
#[derive(Debug)]
pub struct Reach {
    reached: Vec<NodeId>,
    frontier: Vec<NodeId>,
}

impl View for Reach {
    type V = ReachView;

    closed spec fn view(&self) -> ReachView {
        ReachView {
            reached: sorted::models(self.reached@),
            frontier: sorted::models(self.frontier@),
        }
    }
}

impl Reach {
    /// The reached nodes are in ascending order.
    pub open spec fn wf(&self) -> bool {
        sorted::sorted(self@.reached)
    }

    /// Starts at the root's direct references; the root itself has no
    /// identifier. There are none when the collection does not exist.
    pub fn new(root: Option<&Node>) -> (r: Self)
        ensures
            r.wf(),
            r@ == ReachView::begun(node_view(root)),
            r@.reached == Seq::<Seq<u8>>::empty(),
            r@.frontier == match root {
                Some(root) => referenced(root@),
                None => Seq::empty(),
            },
    {
        let frontier = match root {
            Some(root) => referenced_tokens(root),
            None => Vec::new(),
        };
        let r = Reach { reached: Vec::new(), frontier };
        proof {
            assert(r@.reached =~= Seq::<Seq<u8>>::empty());
            if root is None {
                assert(r@.frontier =~= Seq::<Seq<u8>>::empty());
            }
        }
        r
    }

    /// Returns the next node to load, which counts as reached from now on, or
    /// `None` when the walk has ended.
    pub fn next_token(&mut self) -> (r: Option<NodeId>)
        requires
            old(self).wf(),
        ensures
            final(self).wf(),
            match r {
                Some(id) => exists|n: int|
                    #[trigger] final(self)@.visited(old(self)@, n) && old(self)@.frontier[n] == id@,
                None => final(self)@.ended_from(old(self)@),
            },
    {
        let ghost before = self@;
        while self.frontier.len() > 0
            invariant
                before == old(self)@,
                self.wf(),
                self@.reached == before.reached,
                self.frontier@.len() <= before.frontier.len(),
                self@.frontier == before.frontier.take(self.frontier@.len() as int),
                forall|k: int|
                    self.frontier@.len() <= k < before.frontier.len() ==> sorted::holds_key(
                        before.reached,
                        #[trigger] before.frontier[k],
                    ),
            decreases self.frontier@.len(),
        {
            let ghost n = self.frontier@.len() - 1;
            let ghost held = self@.frontier;
            proof {
                sorted::lemma_models(self.reached@);
            }
            match self.frontier.pop() {
                Some(id) => {
                    proof {
                        assert(held[n] == id@);
                        assert(before.frontier[n] == id@);
                        assert(self@.frontier =~= before.frontier.take(n));
                    }
                    if !sorted::contains(&self.reached, id.as_bytes()) {
                        sorted::insert(&mut self.reached, id);
                        proof {
                            assert(self@.visited(before, n));
                        }
                        return Some(id);
                    }
                },
                None => {},
            }
        }
        proof {
            assert(self@.frontier =~= Seq::<Seq<u8>>::empty());
        }
        None
    }

    /// Adds the references of a node that was loaded. A missing node has
    /// nothing further to reach.
    pub fn loaded(&mut self, node: Option<&Node>)
        ensures
            final(self)@ == old(self)@.with_loaded(node_view(node)),
            final(self)@.reached == old(self)@.reached,
            final(self)@.frontier == match node {
                Some(node) => old(self)@.frontier + referenced(node@),
                None => old(self)@.frontier,
            },
    {
        if let Some(node) = node {
            let mut tokens = referenced_tokens(node);
            let ghost a = self.frontier@;
            let ghost b = tokens@;
            self.frontier.append(&mut tokens);
            proof {
                assert(sorted::models(a + b) =~= sorted::models(a) + sorted::models(b));
            }
        }
    }

    /// Returns the nodes reached, in ascending order.
    pub fn reachable_tokens(self) -> (r: Vec<NodeId>)
        ensures
            sorted::models(r@) == self@.reached,
    {
        self.reached
    }
}

/// A path goes from one node to another that the first one points at.
pub open spec fn steps_at(tree: Map<Seq<u8>, NodeView>, path: Seq<Seq<u8>>, i: int) -> bool {
    tree.contains_key(path[i - 1]) && links_to(tree[path[i - 1]], path[i])
}

/// A path of references from the root.
pub open spec fn leads_to(
    tree: Map<Seq<u8>, NodeView>,
    root: NodeView,
    path: Seq<Seq<u8>>,
) -> bool {
    &&& path.len() > 0
    &&& links_to(root, path[0])
    &&& forall|i: int| 0 < i < path.len() ==> #[trigger] steps_at(tree, path, i)
}

/// Some path of references leads from the root to a node.
pub open spec fn reachable(tree: Map<Seq<u8>, NodeView>, root: NodeView, id: Seq<u8>) -> bool {
    exists|path: Seq<Seq<u8>>| #[trigger] leads_to(tree, root, path) && path.last() == id
}

/// A walk knows only of nodes that are reachable.
pub open spec fn strays_nowhere(
    tree: Map<Seq<u8>, NodeView>,
    root: NodeView,
    walk: ReachView,
) -> bool {
    forall|id: Seq<u8>| #[trigger] walk.knows(id) ==> reachable(tree, root, id)
}

/// What a reachable node points at is reachable.
proof fn lemma_one_link_further(
    tree: Map<Seq<u8>, NodeView>,
    root: NodeView,
    id: Seq<u8>,
    next: Seq<u8>,
)
    requires
        reachable(tree, root, id),
        tree.contains_key(id),
        links_to(tree[id], next),
    ensures
        reachable(tree, root, next),
{
    let path = choose|path: Seq<Seq<u8>>| #[trigger]
        leads_to(tree, root, path) && path.last() == id;
    let longer = path.push(next);
    assert(longer[0] == path[0]);
    assert forall|i: int| 0 < i < longer.len() implies #[trigger] steps_at(tree, longer, i) by {
        assert(longer[i - 1] == path[i - 1]);
        if i < path.len() {
            assert(steps_at(tree, path, i));
            assert(longer[i] == path[i]);
        } else {
            assert(path[i - 1] == id);
            assert(longer[i] == next);
        }
    }
    assert(leads_to(tree, root, longer) && longer.last() == next);
}

/// A walk knows of every reference of the root and of every node reached,
/// except for one that is still being loaded.
pub open spec fn explored(
    tree: Map<Seq<u8>, NodeView>,
    root: NodeView,
    walk: ReachView,
    loading: Option<Seq<u8>>,
) -> bool {
    &&& forall|id: Seq<u8>| referenced(root).contains(id) ==> #[trigger] walk.knows(id)
    &&& forall|id: Seq<u8>, next: Seq<u8>|
        sorted::holds_key(walk.reached, id) && loading != Some(id) && tree.contains_key(id)
            && #[trigger] referenced(tree[id]).contains(next) ==> walk.knows(next)
}

/// Law: a walk begins with nothing unexplored.
pub proof fn law_walk_begins(tree: Map<Seq<u8>, NodeView>, root: NodeView, walk: ReachView)
    requires
        walk == ReachView::begun(Some(root)),
    ensures
        explored(tree, root, walk, None),
        strays_nowhere(tree, root, walk),
{
    law_references_are_children_and_sibling(root);
    assert forall|id: Seq<u8>| #[trigger] walk.knows(id) implies reachable(tree, root, id) by {
        assert(referenced(root).contains(id));
        let path = seq![id];
        assert(leads_to(tree, root, path) && path.last() == id);
    }
}

/// Law: going on to a node leaves only that node unexplored, and loading it
/// leaves none; neither strays to a node that is not reachable.
pub proof fn law_walk_goes_on(
    tree: Map<Seq<u8>, NodeView>,
    root: NodeView,
    before: ReachView,
    mid: ReachView,
    after: ReachView,
    n: int,
)
    requires
        sorted::sorted(before.reached),
        explored(tree, root, before, None),
        mid.visited(before, n),
        after == mid.with_loaded(
            if tree.contains_key(before.frontier[n]) {
                Some(tree[before.frontier[n]])
            } else {
                None
            },
        ),
    ensures
        explored(tree, root, mid, Some(before.frontier[n])),
        explored(tree, root, after, None),
        strays_nowhere(tree, root, before) ==> strays_nowhere(tree, root, after),
{
    let id = before.frontier[n];
    if strays_nowhere(tree, root, before) {
        sorted::lemma_put(before.reached, id);
        assert(before.frontier.contains(id));
        assert(before.knows(id));
        assert forall|other: Seq<u8>| #[trigger] after.knows(other) implies reachable(
            tree,
            root,
            other,
        ) by {
            if sorted::holds_key(after.reached, other) {
                assert(sorted::Keyed::key(&id) == id);
                assert(before.knows(other));
            } else {
                let k = after.frontier.index_of(other);
                if k < mid.frontier.len() {
                    assert(before.frontier[k] == other);
                    assert(before.knows(other));
                } else {
                    assert(referenced(tree[id])[k - mid.frontier.len()] == other);
                    law_references_are_children_and_sibling(tree[id]);
                    assert(referenced(tree[id]).contains(other));
                    lemma_one_link_further(tree, root, id, other);
                }
            }
        }
    }
    sorted::lemma_put(before.reached, id);
    assert(sorted::Keyed::key(&id) == id);
    assert forall|other: Seq<u8>| before.knows(other) implies mid.knows(other) by {
        if !sorted::holds_key(before.reached, other) {
            let k = before.frontier.index_of(other);
            if k < n {
                assert(mid.frontier[k] == other);
            } else if k > n {
                assert(sorted::holds_key(before.reached, before.frontier[k]));
            }
        }
    }
    assert forall|other: Seq<u8>| mid.knows(other) implies after.knows(other) by {
        if mid.frontier.contains(other) {
            let k = mid.frontier.index_of(other);
            assert(after.frontier[k] == other);
        }
    }
    assert forall|from: Seq<u8>, next: Seq<u8>|
        sorted::holds_key(after.reached, from) && tree.contains_key(from) && #[trigger] referenced(
            tree[from],
        ).contains(next) implies after.knows(next) by {
        if from == id {
            let k = referenced(tree[id]).index_of(next);
            assert(after.frontier[mid.frontier.len() + k] == next);
        } else {
            assert(sorted::holds_key(before.reached, from));
            assert(before.knows(next));
        }
    }
}

/// Law: a walk that has ended reached every node that a path of children and
/// right siblings from the root leads to.
pub proof fn law_walk_reaches_everything(
    tree: Map<Seq<u8>, NodeView>,
    root: NodeView,
    walk: ReachView,
    path: Seq<Seq<u8>>,
)
    requires
        explored(tree, root, walk, None),
        forall|k: int|
            0 <= k < walk.frontier.len() ==> sorted::holds_key(
                walk.reached,
                #[trigger] walk.frontier[k],
            ),
        leads_to(tree, root, path),
    ensures
        sorted::holds_key(walk.reached, path.last()),
    decreases path.len(),
{
    let id = path.last();
    law_references_are_children_and_sibling(root);
    if path.len() > 1 {
        law_references_are_children_and_sibling(tree[path[path.len() - 2]]);
        let front = path.drop_last();
        assert(path[path.len() - 1] == id);
        assert(front[0] == path[0]);
        assert forall|i: int| 0 < i < front.len() implies #[trigger] steps_at(tree, front, i) by {
            assert(steps_at(tree, path, i));
            assert(path[i] == front[i]);
            assert(path[i - 1] == front[i - 1]);
        }
        assert(leads_to(tree, root, front));
        law_walk_reaches_everything(tree, root, walk, front);
        assert(front.last() == path[path.len() - 2]);
        assert(steps_at(tree, path, path.len() - 1));
        assert(referenced(tree[front.last()]).contains(id));
    } else {
        assert(referenced(root).contains(id));
    }
    assert(walk.knows(id));
    if walk.frontier.contains(id) {
        let k = walk.frontier.index_of(id);
        assert(walk.frontier[k] == id);
    }
}

/// Law: when a walk ends, it has reached every node that is reachable from the
/// root; with the laws before, it has reached those and no others.
pub proof fn law_ended_walk_reached_everything(
    tree: Map<Seq<u8>, NodeView>,
    root: NodeView,
    before: ReachView,
    after: ReachView,
    id: Seq<u8>,
)
    requires
        explored(tree, root, before, None),
        after.ended_from(before),
    ensures
        reachable(tree, root, id) ==> sorted::holds_key(after.reached, id),
        strays_nowhere(tree, root, before) && sorted::holds_key(after.reached, id) ==> reachable(
            tree,
            root,
            id,
        ),
{
    if reachable(tree, root, id) {
        let path = choose|path: Seq<Seq<u8>>| #[trigger]
            leads_to(tree, root, path) && path.last() == id;
        law_walk_reaches_everything(tree, root, before, path);
    }
    if sorted::holds_key(before.reached, id) {
        assert(before.knows(id));
    }
}

/// The bytes of a leaf's path, by which groups are ordered.
pub open spec fn path_bytes(path: String) -> Seq<u8> {
    vstd::utf8::encode_utf8(path@)
}

/// Keys routed to one leaf.
pub open spec fn routed_to<T>(path: Seq<u8>) -> spec_fn(RoutedKey<T>) -> bool {
    |item: RoutedKey<T>| path_bytes(item.leaf.path) == path
}

/// The keys among several that were routed to one leaf, in order.
pub open spec fn keys_at<T>(items: Seq<RoutedKey<T>>, path: Seq<u8>) -> Seq<(Vec<u8>, T)> {
    items.filter(routed_to(path)).map_values(|item: RoutedKey<T>| (item.key, item.payload))
}

/// A group is that of its leaf as it was first routed to, with all of its keys
/// in input order.
pub open spec fn group_of<T>(items: Seq<RoutedKey<T>>, group: LeafGroup<T>) -> bool {
    let routed = items.filter(routed_to(path_bytes(group.path)));
    &&& routed.len() > 0
    &&& group.path == routed[0].leaf.path
    &&& group.node == routed[0].leaf.node
    &&& group.version == routed[0].leaf.version
    &&& group.keys@ == keys_at(items, path_bytes(group.path))
}

/// One of several groups is that of a leaf.
pub open spec fn has_group<T>(groups: Seq<LeafGroup<T>>, path: Seq<u8>) -> bool {
    exists|i: int| 0 <= i < groups.len() && path_bytes((#[trigger] groups[i]).path) == path
}

/// Groups stand in the order of their paths, each leaf once.
pub open spec fn in_order<T>(groups: Seq<LeafGroup<T>>) -> bool {
    forall|i: int, j: int|
        0 <= i < j < groups.len() ==> bytes::lt(
            path_bytes((#[trigger] groups[i]).path),
            path_bytes((#[trigger] groups[j]).path),
        )
}

/// Several routed keys, grouped by leaf.
pub open spec fn groups_of<T>(items: Seq<RoutedKey<T>>, groups: Seq<LeafGroup<T>>) -> bool {
    &&& in_order(groups)
    &&& forall|i: int| 0 <= i < groups.len() ==> group_of(items, #[trigger] groups[i])
    &&& forall|n: int|
        0 <= n < items.len() ==> has_group(
            groups,
            path_bytes((#[trigger] items[n]).leaf.path),
        )
}

/// What one more routed key adds to the keys of the leaves.
proof fn lemma_one_more<T>(items: Seq<RoutedKey<T>>, item: RoutedKey<T>, path: Seq<u8>)
    ensures
        items.push(item).filter(routed_to(path)) == if path_bytes(item.leaf.path) == path {
            items.filter(routed_to(path)).push(item)
        } else {
            items.filter(routed_to(path))
        },
        keys_at(items.push(item), path) == if path_bytes(item.leaf.path) == path {
            keys_at(items, path).push((item.key, item.payload))
        } else {
            keys_at(items, path)
        },
{
    let all = items.push(item);
    let keep = routed_to::<T>(path);
    assert(all.drop_last() =~= items);
    assert(all.filter(keep) == if keep(item) {
        items.filter(keep).push(item)
    } else {
        items.filter(keep)
    }) by {
        reveal(Seq::filter);
    }
    assert(keys_at(all, path) =~= if keep(item) {
        keys_at(items, path).push((item.key, item.payload))
    } else {
        keys_at(items, path)
    });
}

/// A leaf that no item was routed to has no keys.
proof fn lemma_no_keys<T>(items: Seq<RoutedKey<T>>, path: Seq<u8>)
    requires
        forall|n: int|
            0 <= n < items.len() ==> path_bytes((#[trigger] items[n]).leaf.path) != path,
    ensures
        items.filter(routed_to(path)).len() == 0,
        keys_at(items, path) == Seq::<(Vec<u8>, T)>::empty(),
{
    let some = items.filter(routed_to(path));
    if some.len() > 0 {
        assert(some.contains(some[0]));
        items.lemma_filter_contains_rev(routed_to(path), some[0]);
        items.lemma_filter_pred(routed_to(path), 0);
        let n = items.index_of(some[0]);
        assert(items[n] == some[0]);
    }
    assert(keys_at(items, path) =~= Seq::<(Vec<u8>, T)>::empty());
}

/// Finds the group of a path, or where it belongs.
fn locate_group<T>(groups: &Vec<LeafGroup<T>>, path: &str) -> (r: Result<usize, usize>)
    requires
        in_order(groups@),
    ensures
        match r {
            Ok(i) => i < groups@.len() && path_bytes(groups@[i as int].path) == path.spec_bytes(),
            Err(i) => {
                &&& i <= groups@.len()
                &&& forall|k: int|
                    0 <= k < i ==> bytes::lt(
                        path_bytes((#[trigger] groups@[k]).path),
                        path.spec_bytes(),
                    )
                &&& forall|k: int|
                    i <= k < groups@.len() ==> bytes::lt(
                        path.spec_bytes(),
                        path_bytes((#[trigger] groups@[k]).path),
                    )
            },
        },
{
    let mut i: usize = 0;
    while i < groups.len()
        invariant
            i <= groups@.len(),
            forall|k: int|
                0 <= k < i ==> bytes::lt(
                    path_bytes((#[trigger] groups@[k]).path),
                    path.spec_bytes(),
                ),
            in_order(groups@),
        decreases groups@.len() - i,
    {
        match bytes::side(groups[i].path.as_str().as_bytes(), path.as_bytes()) {
            Side::Same => {
                return Ok(i);
            },
            Side::After => {
                proof {
                    assert forall|k: int| i <= k < groups@.len() implies bytes::lt(
                        path.spec_bytes(),
                        path_bytes((#[trigger] groups@[k]).path),
                    ) by {
                        if k > i {
                            bytes::lemma_lt_transitive(
                                path.spec_bytes(),
                                path_bytes(groups@[i as int].path),
                                path_bytes(groups@[k].path),
                            );
                        }
                    }
                }
                return Err(i);
            },
            Side::Before => {},
        }
        i = i + 1;
    }
    Err(i)
}

/// The groups once a key was added to the group of its leaf.
proof fn lemma_group_grown<T>(
    before: Seq<RoutedKey<T>>,
    item: RoutedKey<T>,
    was: Seq<LeafGroup<T>>,
    now: Seq<LeafGroup<T>>,
    i: int,
)
    requires
        groups_of(before, was),
        0 <= i < was.len(),
        path_bytes(was[i].path) == path_bytes(item.leaf.path),
        now.len() == was.len(),
        forall|k: int| 0 <= k < was.len() && k != i ==> #[trigger] now[k] == was[k],
        now[i].path == was[i].path,
        now[i].node == was[i].node,
        now[i].version == was[i].version,
        now[i].keys@ == was[i].keys@.push((item.key, item.payload)),
    ensures
        groups_of(before.push(item), now),
{
    let items = before.push(item);
    assert forall|k: int| 0 <= k < now.len() implies group_of(items, #[trigger] now[k]) by {
        assert(group_of(before, was[k]));
        assert(now[k].path == was[k].path);
        lemma_one_more(before, item, path_bytes(was[k].path));
        if k != i {
            bytes::lemma_lt_irreflexive(path_bytes(was[k].path));
        }
    }
    assert forall|a: int, b: int| 0 <= a < b < now.len() implies bytes::lt(
        path_bytes((#[trigger] now[a]).path),
        path_bytes((#[trigger] now[b]).path),
    ) by {
        assert(now[a].path == was[a].path && now[b].path == was[b].path);
    }
    assert forall|n: int| 0 <= n < items.len() implies has_group(
        now,
        path_bytes((#[trigger] items[n]).leaf.path),
    ) by {
        if n < before.len() {
            assert(items[n] == before[n]);
            let at = path_bytes(before[n].leaf.path);
            assert(has_group(was, at));
            let k = choose|k: int|
                0 <= k < was.len() && path_bytes((#[trigger] was[k]).path) == at;
            assert(now[k].path == was[k].path);
        } else {
            assert(now[i].path == was[i].path);
        }
    }
}

/// The groups once the group of a leaf was added with its first key.
proof fn lemma_group_added<T>(
    before: Seq<RoutedKey<T>>,
    item: RoutedKey<T>,
    was: Seq<LeafGroup<T>>,
    group: LeafGroup<T>,
    i: int,
)
    requires
        groups_of(before, was),
        0 <= i <= was.len(),
        forall|k: int|
            0 <= k < i ==> bytes::lt(
                path_bytes((#[trigger] was[k]).path),
                path_bytes(item.leaf.path),
            ),
        forall|k: int|
            i <= k < was.len() ==> bytes::lt(
                path_bytes(item.leaf.path),
                path_bytes((#[trigger] was[k]).path),
            ),
        group.path == item.leaf.path,
        group.node == item.leaf.node,
        group.version == item.leaf.version,
        group.keys@ == seq![(item.key, item.payload)],
    ensures
        groups_of(before.push(item), was.insert(i, group)),
{
    let items = before.push(item);
    let now = was.insert(i, group);
    let path = path_bytes(item.leaf.path);
    bytes::lemma_lt_irreflexive(path);
    assert forall|n: int| 0 <= n < before.len() implies path_bytes(
        (#[trigger] before[n]).leaf.path,
    ) != path by {
        let at = path_bytes(before[n].leaf.path);
        assert(has_group(was, at));
        let k = choose|k: int| 0 <= k < was.len() && path_bytes((#[trigger] was[k]).path) == at;
    }
    lemma_no_keys(before, path);
    lemma_one_more(before, item, path);
    assert forall|k: int| 0 <= k < now.len() implies group_of(items, #[trigger] now[k]) by {
        if k != i {
            let m = if k < i { k } else { k - 1 };
            assert(now[k] == was[m]);
            assert(group_of(before, was[m]));
            lemma_one_more(before, item, path_bytes(was[m].path));
        } else {
            assert(now[k] == group);
            assert(group.keys@ =~= keys_at(items, path));
        }
    }
    assert forall|a: int, b: int| 0 <= a < b < now.len() implies bytes::lt(
        path_bytes((#[trigger] now[a]).path),
        path_bytes((#[trigger] now[b]).path),
    ) by {
        let x = if a < i { a } else { a - 1 };
        let y = if b < i { b } else { b - 1 };
        if a != i {
            assert(now[a] == was[x]);
        }
        if b != i {
            assert(now[b] == was[y]);
        }
    }
    assert forall|n: int| 0 <= n < items.len() implies has_group(
        now,
        path_bytes((#[trigger] items[n]).leaf.path),
    ) by {
        if n < before.len() {
            assert(items[n] == before[n]);
            let at = path_bytes(before[n].leaf.path);
            assert(has_group(was, at));
            let k = choose|k: int|
                0 <= k < was.len() && path_bytes((#[trigger] was[k]).path) == at;
            let m = if k < i { k } else { k + 1 };
            assert(now[m] == was[k]);
        } else {
            assert(now[i] == group);
        }
    }
}

/// Adds a key to the group of its leaf.
fn add_to_groups<T>(
    groups: &mut Vec<LeafGroup<T>>,
    item: RoutedKey<T>,
    Ghost(before): Ghost<Seq<RoutedKey<T>>>,
)
    requires
        groups_of(before, old(groups)@),
    ensures
        groups_of(before.push(item), final(groups)@),
{
    let ghost was = groups@;
    let ghost whole = item;
    match locate_group(groups, item.leaf.path.as_str()) {
        Ok(i) => {
            groups[i].keys.push((item.key, item.payload));
            proof {
                lemma_group_grown(before, whole, was, groups@, i as int);
            }
        },
        Err(i) => {
            let LeafLocator { path, node, version } = item.leaf;
            let mut keys: Vec<(Vec<u8>, T)> = Vec::new();
            keys.push((item.key, item.payload));
            let group = LeafGroup { path, node, version, keys };
            proof {
                assert(group.keys@ =~= seq![(whole.key, whole.payload)]);
                lemma_group_added(before, whole, was, group, i as int);
            }
            groups.insert(i, group);
        },
    }
}

impl Directory {
    /// Groups routed keys by their owning leaves.
    pub fn group_keys_by_leaf<T>(items: Vec<RoutedKey<T>>) -> (r: Vec<LeafGroup<T>>)
        ensures
            groups_of(items@, r@),
    {
        let ghost all = items@;
        let mut items = items;
        let mut rest: Vec<RoutedKey<T>> = Vec::new();
        while items.len() > 0
            invariant
                items@.len() + rest@.len() == all.len(),
                items@ == all.take(items@.len() as int),
                forall|k: int|
                    0 <= k < rest@.len() ==> #[trigger] rest@[k] == all[all.len() - 1 - k],
            decreases items@.len(),
        {
            if let Some(item) = items.pop() {
                rest.push(item);
            }
        }
        let mut groups: Vec<LeafGroup<T>> = Vec::new();
        let ghost mut done = 0int;
        while rest.len() > 0
            invariant
                0 <= done <= all.len(),
                rest@.len() == all.len() - done,
                forall|k: int|
                    0 <= k < rest@.len() ==> #[trigger] rest@[k] == all[all.len() - 1 - k],
                groups_of(all.take(done), groups@),
            decreases rest@.len(),
        {
            if let Some(item) = rest.pop() {
                proof {
                    assert(item == all[done]);
                    assert(all.take(done + 1) =~= all.take(done).push(item));
                }
                add_to_groups(&mut groups, item, Ghost(all.take(done)));
                proof {
                    done = done + 1;
                }
            }
        }
        proof {
            assert(all.take(done) =~= all);
        }
        groups
    }
}

/// Law: every routed key stands in the group of its leaf, with what the caller
/// keeps beside it.
pub proof fn law_every_key_is_grouped<T>(
    items: Seq<RoutedKey<T>>,
    groups: Seq<LeafGroup<T>>,
    n: int,
)
    requires
        groups_of(items, groups),
        0 <= n < items.len(),
    ensures
        exists|i: int|
            {
                &&& 0 <= i < groups.len()
                &&& path_bytes((#[trigger] groups[i]).path) == path_bytes(items[n].leaf.path)
                &&& groups[i].keys@.contains((items[n].key, items[n].payload))
            },
{
    let path = path_bytes(items[n].leaf.path);
    assert(has_group(groups, path));
    let i = choose|i: int| 0 <= i < groups.len() && path_bytes((#[trigger] groups[i]).path) == path;
    assert(group_of(items, groups[i]));
    let keep = routed_to::<T>(path);
    assert(keep(items[n]));
    items.lemma_filter_contains(keep, n);
    let some = items.filter(keep);
    let k = some.index_of(items[n]);
    assert(keys_at(items, path)[k] == (items[n].key, items[n].payload));
}

/// Law: a group holds only keys that were routed to its leaf.
pub proof fn law_groups_hold_only_their_keys<T>(
    items: Seq<RoutedKey<T>>,
    groups: Seq<LeafGroup<T>>,
    i: int,
    k: int,
)
    requires
        groups_of(items, groups),
        0 <= i < groups.len(),
        0 <= k < groups[i].keys@.len(),
    ensures
        exists|n: int|
            {
                &&& 0 <= n < items.len()
                &&& path_bytes((#[trigger] items[n]).leaf.path) == path_bytes(groups[i].path)
                &&& groups[i].keys@[k] == (items[n].key, items[n].payload)
            },
{
    assert(group_of(items, groups[i]));
    let path = path_bytes(groups[i].path);
    let keep = routed_to::<T>(path);
    let some = items.filter(keep);
    let item = some[k];
    assert(some.contains(item));
    items.lemma_filter_contains_rev(keep, item);
    items.lemma_filter_pred(keep, k);
    let n = items.index_of(item);
    assert(items[n] == item);
}

/// Law: a descent that meets a drained node goes on to the node that took its
/// range over, whatever the key.
pub proof fn law_drained_node_forwards(node: NodeView, target: Seq<u8>, key: Seq<u8>)
    ensures
        step_toward(node.drained_into(target), key) == Some(StepView::Right(target)),
{
}

/// Law: a split is found by descent at once, before its parent knows of it: from
/// the lower half, a key of the upper half leads to the upper half.
pub proof fn law_split_is_found_by_descent(node: NodeView, right_id: Seq<u8>, key: Seq<u8>)
    requires
        node.valid(),
        node.body.size() >= 2,
        !node.drained,
        bytes::le(node.upper_half().low_key, key),
    ensures
        step_toward(node.lower_half(right_id), key) == Some(StepView::Right(right_id)),
{
    let lower = node.lower_half(right_id);
    let high = lower.high_key->0;
    if bytes::lt(key, high) {
        bytes::lemma_lt_le_transitive(key, high, key);
        bytes::lemma_lt_irreflexive(key);
    }
}

/// Law: groups stand in the order of their leaves' paths, and no leaf has two.
pub proof fn law_groups_are_in_path_order<T>(
    items: Seq<RoutedKey<T>>,
    groups: Seq<LeafGroup<T>>,
    i: int,
    j: int,
)
    requires
        groups_of(items, groups),
        0 <= i < j < groups.len(),
    ensures
        bytes::lt(
            vstd::utf8::encode_utf8(groups[i].path@),
            vstd::utf8::encode_utf8(groups[j].path@),
        ),
        groups[i].path@ != groups[j].path@,
{
    bytes::lemma_lt_irreflexive(vstd::utf8::encode_utf8(groups[i].path@));
}

/// Law: a scan stops at a leaf only when no key up to its end can lie behind the
/// leaf, or when no leaf is left; else it goes to the right sibling, whose range
/// begins no later than where the leaf's ends.
pub proof fn law_scan_loses_no_key(
    tree: Map<Seq<u8>, NodeView>,
    leaf: NodeView,
    end: Option<Seq<u8>>,
    key: Seq<u8>,
)
    requires
        linked(tree, leaf),
        end matches Some(end) ==> bytes::le(key, end),
    ensures
        match scanned_next(leaf, end) {
            None => leaf.right_sibling is None || (!leaf.drained && (leaf.high_key matches Some(
                high,
            ) ==> bytes::lt(key, high))),
            Some(id) => {
                &&& leaf.right_sibling == Some(id)
                &&& !leaf.drained && leaf.high_key is Some ==> tree.contains_key(id) && bytes::le(
                    tree[id].low_key,
                    leaf.high_key->Some_0,
                )
                &&& end matches Some(end) ==> leaf.drained || (leaf.high_key matches Some(high)
                    && !bytes::lt(end, high))
            },
        },
{
    if let (Some(end), Some(high)) = (end, leaf.high_key) {
        if bytes::lt(end, high) {
            bytes::lemma_le_lt_transitive(key, end, high);
        }
    }
}

/// Law: a group is that of its leaf as it was first routed to.
pub proof fn law_group_is_of_the_leaf_first_routed_to<T>(
    items: Seq<RoutedKey<T>>,
    groups: Seq<LeafGroup<T>>,
    i: int,
    n: int,
)
    requires
        groups_of(items, groups),
        0 <= i < groups.len(),
        0 <= n < items.len(),
        path_bytes(items[n].leaf.path) == path_bytes(groups[i].path),
        forall|m: int|
            0 <= m < n ==> path_bytes((#[trigger] items[m]).leaf.path) != path_bytes(
                groups[i].path,
            ),
    ensures
        groups[i].node == items[n].leaf.node,
        groups[i].version == items[n].leaf.version,
        groups[i].keys@.len() > 0,
        groups[i].keys@[0] == (items[n].key, items[n].payload),
{
    assert(group_of(items, groups[i]));
    let path = path_bytes(groups[i].path);
    let keep = routed_to::<T>(path);
    lemma_first_kept(items, keep, n);
}

/// The first element that a predicate holds of is the first one kept.
proof fn lemma_first_kept<A>(s: Seq<A>, keep: spec_fn(A) -> bool, n: int)
    requires
        0 <= n < s.len(),
        keep(s[n]),
        forall|m: int| 0 <= m < n ==> !keep(#[trigger] s[m]),
    ensures
        s.filter(keep).len() > 0,
        s.filter(keep)[0] == s[n],
    decreases s.len(),
{
    reveal(Seq::filter);
    let rest = s.drop_last();
    if n == s.len() - 1 {
        let some = rest.filter(keep);
        if some.len() > 0 {
            assert(some.contains(some[0]));
            rest.lemma_filter_contains_rev(keep, some[0]);
            rest.lemma_filter_pred(keep, 0);
            let m = rest.index_of(some[0]);
            assert(s[m] == some[0]);
        }
    } else {
        assert(rest[n] == s[n]);
        assert forall|m: int| 0 <= m < n implies !keep(#[trigger] rest[m]) by {
            assert(rest[m] == s[m]);
        }
        lemma_first_kept(rest, keep, n);
    }
}

/// Law: keys stand in their group in the order in which they were routed: one more
/// key goes behind the others of its leaf, and changes no other leaf's.
pub proof fn law_keys_stay_in_input_order<T>(
    items: Seq<RoutedKey<T>>,
    item: RoutedKey<T>,
    path: Seq<u8>,
)
    ensures
        keys_at(items.push(item), path) == if vstd::utf8::encode_utf8(item.leaf.path@) == path {
            keys_at(items, path).push((item.key, item.payload))
        } else {
            keys_at(items, path)
        },
{
    lemma_one_more(items, item, path);
}

} // verus!
