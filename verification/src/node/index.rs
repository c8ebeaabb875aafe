//! Index bodies: separators that route ranges of keys to child nodes.

use vstd::prelude::*;

use crate::bytes;
use crate::error::StorageError;
use crate::ids::NodeId;
use crate::node::tree_node::Node;
use crate::proto::{self, PairMessage};
use crate::sorted::{self, Keyed, Stored};
use crate::wire;

verus! {

/// A separator and the child it routes to.
#[verifier::ext_equal]
pub struct ChildView {
    /// Inclusive lower bound of the child's range.
    pub separator: Seq<u8>,
    /// The child node.
    pub child: Seq<u8>,
}

impl Keyed for ChildView {
    open spec fn key(&self) -> Seq<u8> {
        self.separator
    }
}

/// A separator and the child it routes to.
#[derive(Debug, PartialEq, Eq)]
pub struct IndexChild {
    /// Inclusive lower bound of the child's range.
    pub separator: Vec<u8>,
    /// The child node.
    pub child: NodeId,
}

impl View for IndexChild {
    type V = ChildView;

    open spec fn view(&self) -> ChildView {
        ChildView { separator: self.separator@, child: self.child@ }
    }
}

impl Clone for IndexChild {
    fn clone(&self) -> (r: Self)
        ensures
            r@ == self@,
    {
        IndexChild { separator: bytes::copy(self.separator.as_slice()), child: self.child }
    }
}

impl Keyed for IndexChild {
    open spec fn key(&self) -> Seq<u8> {
        self.separator@
    }
}

impl Stored for IndexChild {
    type Model = ChildView;

    open spec fn model(&self) -> ChildView {
        self@
    }

    proof fn lemma_model(&self) {
    }

    fn key_bytes(&self) -> (r: &[u8]) {
        self.separator.as_slice()
    }
}

/// Children whose separators do not exceed a key.
pub open spec fn up_to(key: Seq<u8>) -> spec_fn(ChildView) -> bool {
    |c: ChildView| bytes::le(c.separator, key)
}

/// The child of the last of some children, or else the leftmost of all.
pub open spec fn last_or_leftmost(
    some: Seq<ChildView>,
    all: Seq<ChildView>,
) -> Option<Seq<u8>> {
    if some.len() > 0 {
        Some(some.last().child)
    } else if all.len() > 0 {
        Some(all[0].child)
    } else {
        None
    }
}

/// The child routed for a key: that of the greatest separator not exceeding
/// it, or the leftmost child when the key precedes every separator.
pub open spec fn routed(children: Seq<ChildView>, key: Seq<u8>) -> Option<Seq<u8>> {
    last_or_leftmost(children.filter(up_to(key)), children)
}

/// The child routed for keys just below a key: that of the greatest separator
/// below it, or the leftmost child.
pub open spec fn routed_below(children: Seq<ChildView>, key: Seq<u8>) -> Option<Seq<u8>> {
    last_or_leftmost(children.filter(sorted::before(key)), children)
}

/// Law: the child routed for a key is the one whose separator is the closest that
/// does not exceed the key; a key before every separator goes to the leftmost
/// child.
pub proof fn law_routed_child_is_the_closest(children: Seq<ChildView>, key: Seq<u8>)
    requires
        sorted::sorted(children),
    ensures
        routed(children, key) is Some <==> children.len() > 0,
        forall|i: int|
            0 <= i < children.len() && bytes::le((#[trigger] children[i]).separator, key) && (i + 1
                < children.len() ==> bytes::lt(key, children[i + 1].separator)) ==> routed(
                children,
                key,
            ) == Some(children[i].child),
        children.len() > 0 && bytes::lt(key, children[0].separator) ==> routed(children, key)
            == Some(children[0].child),
{
    assert forall|i: int|
        0 <= i < children.len() && bytes::le((#[trigger] children[i]).separator, key) && (i + 1
            < children.len() ==> bytes::lt(key, children[i + 1].separator)) implies routed(
        children,
        key,
    ) == Some(children[i].child) by {
        assert forall|k: int| 0 <= k < children.len() implies (up_to(key)(#[trigger] children[k])
            <==> k < i + 1) by {
            if k < i {
                assert(bytes::lt(children[k].key(), children[i].key()));
                bytes::lemma_lt_le_transitive(
                    children[k].separator,
                    children[i].separator,
                    key,
                );
            } else if k > i {
                if k > i + 1 {
                    assert(bytes::lt(children[i + 1].key(), children[k].key()));
                    bytes::lemma_lt_transitive(
                        key,
                        children[i + 1].separator,
                        children[k].separator,
                    );
                }
                bytes::lemma_lt_asymmetric(key, children[k].separator);
                bytes::lemma_lt_irreflexive(key);
            }
        }
        sorted::lemma_filter_prefix(children, up_to(key), i + 1);
        assert(children.take(i + 1).last() == children[i]);
    }
    if children.len() > 0 && bytes::lt(key, children[0].separator) {
        assert forall|k: int| 0 <= k < children.len() implies (up_to(key)(#[trigger] children[k])
            <==> k < 0) by {
            if k > 0 {
                assert(bytes::lt(children[0].key(), children[k].key()));
                bytes::lemma_lt_transitive(key, children[0].separator, children[k].separator);
            }
            bytes::lemma_lt_asymmetric(key, children[k].separator);
            bytes::lemma_lt_irreflexive(key);
        }
        sorted::lemma_filter_prefix(children, up_to(key), 0);
    }
}

/// Law: the child routed for keys just below a key is the one whose separator is
/// the closest below the key; when there is none, it is the leftmost child.
pub proof fn law_child_below_is_the_closest(children: Seq<ChildView>, key: Seq<u8>)
    requires
        sorted::sorted(children),
    ensures
        routed_below(children, key) is Some <==> children.len() > 0,
        forall|i: int|
            0 <= i < children.len() && bytes::lt((#[trigger] children[i]).separator, key) && (i + 1
                < children.len() ==> bytes::le(key, children[i + 1].separator)) ==> routed_below(
                children,
                key,
            ) == Some(children[i].child),
        children.len() > 0 && bytes::le(key, children[0].separator) ==> routed_below(children, key)
            == Some(children[0].child),
{
    assert forall|i: int|
        0 <= i < children.len() && bytes::lt((#[trigger] children[i]).separator, key) && (i + 1
            < children.len() ==> bytes::le(key, children[i + 1].separator)) implies routed_below(
        children,
        key,
    ) == Some(children[i].child) by {
        assert forall|k: int| 0 <= k < children.len() implies (sorted::before(key)(
            #[trigger] children[k],
        ) <==> k < i + 1) by {
            if k < i {
                assert(bytes::lt(children[k].key(), children[i].key()));
                bytes::lemma_lt_transitive(children[k].separator, children[i].separator, key);
            } else if k > i {
                if k > i + 1 {
                    assert(bytes::lt(children[i + 1].key(), children[k].key()));
                    bytes::lemma_le_lt_transitive(
                        key,
                        children[i + 1].separator,
                        children[k].separator,
                    );
                }
                if key != children[k].separator {
                    bytes::lemma_lt_asymmetric(key, children[k].separator);
                }
                bytes::lemma_lt_irreflexive(key);
            }
        }
        sorted::lemma_filter_prefix(children, sorted::before(key), i + 1);
        assert(children.take(i + 1).last() == children[i]);
    }
    if children.len() > 0 && bytes::le(key, children[0].separator) {
        assert forall|k: int| 0 <= k < children.len() implies (sorted::before(key)(
            #[trigger] children[k],
        ) <==> k < 0) by {
            if k > 0 {
                assert(bytes::lt(children[0].key(), children[k].key()));
                bytes::lemma_le_lt_transitive(key, children[0].separator, children[k].separator);
            }
            if key != children[k].separator {
                bytes::lemma_lt_asymmetric(key, children[k].separator);
            }
            bytes::lemma_lt_irreflexive(key);
        }
        sorted::lemma_filter_prefix(children, sorted::before(key), 0);
    }
}

/// What several separator and child pairs are.
pub open spec fn pair_views(pairs: Seq<(Vec<u8>, NodeId)>) -> Seq<ChildView> {
    pairs.map_values(|p: (Vec<u8>, NodeId)| ChildView { separator: p.0@, child: p.1@ })
}

/// The fields of a persisted index entry.
pub open spec fn child_fields(child: ChildView) -> Seq<wire::FieldView> {
    wire::nonempty(1, child.separator) + wire::nonempty(2, child.child)
}

/// The bytes of a persisted index entry.
pub open spec fn child_bytes(child: ChildView) -> Seq<u8> {
    wire::message_bytes(child_fields(child))
}

/// The fields of a persisted index.
pub open spec fn index_fields(children: Seq<ChildView>) -> Seq<wire::FieldView> {
    wire::repeated(1, children.map_values(|c: ChildView| child_bytes(c)))
}

/// The bytes of a persisted index.
pub open spec fn index_bytes(children: Seq<ChildView>) -> Seq<u8> {
    wire::message_bytes(index_fields(children))
}

/// The index that persisted entries stand for, or what is wrong with the first
/// bad one. Of entries with the same separator the last one counts.
pub open spec fn index_of(messages: Seq<proto::PairMessageView>) -> Result<
    Seq<ChildView>,
    Seq<char>,
>
    decreases messages.len(),
{
    if messages.len() == 0 {
        Ok(Seq::empty())
    } else {
        match index_of(messages.drop_last()) {
            Err(text) => Err(text),
            Ok(children) => if messages.last().id.len() == 16 {
                Ok(
                    sorted::put(
                        children,
                        ChildView { separator: messages.last().key, child: messages.last().id },
                    ),
                )
            } else {
                Err("index node has an invalid child ID"@)
            },
        }
    }
}

/// The separator keys of an index node, each mapping the inclusive lower bound
/// of a key range to its routed child node.
#[derive(Debug, PartialEq, Eq)]
pub struct IndexNode {
    children: Vec<IndexChild>,
}

impl View for IndexNode {
    type V = Seq<ChildView>;

    closed spec fn view(&self) -> Seq<ChildView> {
        sorted::models(self.children@)
    }
}

/// Copies a range of children.
fn copy_children(children: &Vec<IndexChild>, from: usize, to: usize) -> (r: Vec<IndexChild>)
    requires
        from <= to <= children@.len(),
    ensures
        sorted::models(r@) == sorted::models(children@.subrange(from as int, to as int)),
        r@.len() == to - from,
{
    let mut out: Vec<IndexChild> = Vec::new();
    let mut i: usize = from;
    while i < to
        invariant
            from <= i <= to <= children@.len(),
            out@.len() == i - from,
            forall|k: int| 0 <= k < out@.len() ==> (#[trigger] out@[k])@ == children@[from + k]@,
        decreases to - i,
    {
        out.push(children[i].clone());
        i = i + 1;
    }
    proof {
        assert(sorted::models(out@) =~= sorted::models(
            children@.subrange(from as int, to as int),
        ));
    }
    out
}

impl Clone for IndexNode {
    fn clone(&self) -> (r: Self)
        ensures
            r@ == self@,
    {
        let children = copy_children(&self.children, 0, self.children.len());
        proof {
            assert(self.children@.subrange(0, self.children@.len() as int) =~= self.children@);
        }
        IndexNode { children }
    }
}

impl Default for IndexNode {
    fn default() -> (r: Self)
        ensures
            r.wf(),
            r@ == Seq::<ChildView>::empty(),
    {
        let r = IndexNode { children: Vec::new() };
        proof {
            assert(r@ =~= Seq::<ChildView>::empty());
        }
        r
    }
}

/// Where the children up to a key end.
proof fn lemma_up_to(children: Seq<ChildView>, key: Seq<u8>, i: int, j: int)
    requires
        sorted::stands_at(children, key, i, j),
    ensures
        children.filter(up_to(key)) == children.take(j),
{
    assert forall|k: int| 0 <= k < children.len() implies (up_to(key)(#[trigger] children[k])
        <==> k < j) by {
        if k < i {
            assert(bytes::lt(children[k].key(), key));
        } else if k >= j {
            assert(bytes::lt(key, children[k].key()));
            bytes::lemma_lt_asymmetric(key, children[k].key());
        }
    }
    sorted::lemma_filter_prefix(children, up_to(key), j);
}

/// Both parts of a sorted index are sorted.
proof fn lemma_halves(children: Seq<ChildView>, mid: int)
    requires
        sorted::sorted(children),
        0 <= mid <= children.len(),
    ensures
        sorted::sorted(children.take(mid)),
        sorted::sorted(children.skip(mid)),
{
    let b = children.skip(mid);
    assert forall|i: int, j: int| 0 <= i < j < b.len() implies bytes::lt(
        b[i].key(),
        b[j].key(),
    ) by {
        assert(bytes::lt(children[i + mid].key(), children[j + mid].key()));
    }
}

impl IndexNode {
    /// Separators increase strictly.
    pub open spec fn wf(&self) -> bool {
        sorted::sorted(self@)
    }

    /// Builds an index node from `(separator, child)` pairs. The separator is
    /// the inclusive lower bound of the child's range; the leftmost child
    /// usually carries the empty separator. Of pairs with the same separator
    /// the last one counts.
    pub fn from_children(children: Vec<(Vec<u8>, NodeId)>) -> (r: Self)
        ensures
            r.wf(),
            r@ == sorted::put_all(Seq::empty(), pair_views(children@)),
    {
        let mut index = IndexNode::default();
        let mut i: usize = 0;
        let ghost all = pair_views(children@);
        proof {
            assert(all.take(0) =~= Seq::<ChildView>::empty());
            sorted::lemma_put_all_step(Seq::empty(), all.take(0));
        }
        while i < children.len()
            invariant
                i <= children@.len(),
                all == pair_views(children@),
                index.wf(),
                index@ == sorted::put_all(Seq::empty(), all.take(i as int)),
            decreases children@.len() - i,
        {
            proof {
                sorted::lemma_put_all_step(Seq::empty(), all.take(i + 1));
                assert(all.take(i + 1).drop_last() =~= all.take(i as int));
            }
            let separator = bytes::copy(children[i].0.as_slice());
            let child = children[i].1;
            index.insert_child(separator, child);
            i = i + 1;
        }
        proof {
            assert(all.take(i as int) =~= all);
        }
        index
    }

    /// Returns the child routed for `key`: the one whose separator is the
    /// greatest not exceeding `key`. Falls back to the leftmost child when
    /// `key` precedes every separator.
    pub fn child_for(&self, key: &[u8]) -> (r: Option<NodeId>)
        requires
            self.wf(),
        ensures
            match routed(self@, key@) {
                Some(id) => r matches Some(child) && child@ == id,
                None => r is None,
            },
    {
        proof {
            sorted::lemma_models(self.children@);
        }
        let end: usize = match sorted::locate(&self.children, key) {
            Ok(i) => {
                proof {
                    sorted::lemma_models_place(self.children@, key@, i as int, i + 1);
                    lemma_up_to(self@, key@, i as int, i + 1);
                    assert(i < self.children.len());
                }
                i + 1
            },
            Err(i) => {
                proof {
                    sorted::lemma_models_place(self.children@, key@, i as int, i as int);
                    lemma_up_to(self@, key@, i as int, i as int);
                }
                i
            },
        };
        self.last_before(end)
    }

    /// Returns the child routed for keys just below `key`: the one whose
    /// separator is the greatest below `key`. Falls back to the leftmost child.
    pub fn child_before(&self, key: &[u8]) -> (r: Option<NodeId>)
        requires
            self.wf(),
        ensures
            match routed_below(self@, key@) {
                Some(id) => r matches Some(child) && child@ == id,
                None => r is None,
            },
    {
        proof {
            sorted::lemma_models(self.children@);
        }
        let end: usize = match sorted::locate(&self.children, key) {
            Ok(i) => {
                proof {
                    sorted::lemma_models_place(self.children@, key@, i as int, i + 1);
                    sorted::lemma_stands_at(self@, key@, i as int, i + 1);
                }
                i
            },
            Err(i) => {
                proof {
                    sorted::lemma_models_place(self.children@, key@, i as int, i as int);
                    sorted::lemma_stands_at(self@, key@, i as int, i as int);
                }
                i
            },
        };
        self.last_before(end)
    }

    /// Returns the last child before a position, or else the leftmost one.
    fn last_before(&self, end: usize) -> (r: Option<NodeId>)
        requires
            end <= self@.len(),
        ensures
            match last_or_leftmost(self@.take(end as int), self@) {
                Some(id) => r matches Some(child) && child@ == id,
                None => r is None,
            },
    {
        if end > 0 {
            proof {
                assert(self@.take(end as int).last() == self.children@[end - 1]@);
            }
            Some(self.children[end - 1].child)
        } else if self.children.len() > 0 {
            proof {
                assert(self@[0] == self.children@[0]@);
            }
            Some(self.children[0].child)
        } else {
            None
        }
    }

    /// Returns the `(separator, child)` pairs in separator order.
    pub fn children(&self) -> (r: &Vec<IndexChild>)
        ensures
            sorted::models(r@) == self@,
            r@.len() == self@.len(),
    {
        &self.children
    }

    /// Returns the number of children.
    pub fn len(&self) -> (r: usize)
        ensures
            r == self@.len(),
    {
        self.children.len()
    }

    /// Reports whether the node has no children.
    pub fn is_empty(&self) -> (r: bool)
        ensures
            r == (self@.len() == 0),
    {
        self.children.len() == 0
    }

    /// Inserts a `(separator, child)` pair, the parent-side effect of a child
    /// split. A separator already present is overwritten, so a repeated insert
    /// changes nothing.
    pub fn insert_child(&mut self, separator: Vec<u8>, child: NodeId)
        requires
            old(self).wf(),
        ensures
            final(self).wf(),
            final(self)@ == sorted::put(
                old(self)@,
                ChildView { separator: separator@, child: child@ },
            ),
    {
        proof {
            sorted::lemma_models(self.children@);
        }
        sorted::insert(&mut self.children, IndexChild { separator, child });
    }

    /// Splits the index at its median separator: keeps the lower children and
    /// returns the upper ones with the separator that bounds them.
    pub fn split_off_median(&mut self) -> (r: (IndexNode, Vec<u8>))
        requires
            old(self).wf(),
            old(self)@.len() >= 2,
        ensures
            final(self).wf(),
            r.0.wf(),
            final(self)@ == old(self)@.take(old(self)@.len() as int / 2),
            r.0@ == old(self)@.skip(old(self)@.len() as int / 2),
            r.1@ == old(self)@[old(self)@.len() as int / 2].separator,
    {
        let n: usize = self.children.len();
        let mid: usize = n / 2;
        let separator = bytes::copy(self.children[mid].separator.as_slice());
        let ghost all = self.children@;
        let upper = copy_children(&self.children, mid, n);
        self.children.truncate(mid);
        let r = IndexNode { children: upper };
        proof {
            assert(self@ =~= sorted::models(all).take(mid as int));
            assert(sorted::models(all.subrange(mid as int, n as int)) =~= sorted::models(
                all,
            ).skip(mid as int));
            lemma_halves(sorted::models(all), mid as int);
            assert(sorted::models(all)[mid as int] == all[mid as int]@);
        }
        (r, separator)
    }

    /// Keeps the children with separators from `boundary` on.
    pub fn retain_from(&mut self, boundary: &[u8])
        requires
            old(self).wf(),
        ensures
            final(self).wf(),
            final(self)@ == old(self)@.filter(sorted::from_on(boundary@)),
    {
        proof {
            sorted::lemma_models(self.children@);
        }
        let n: usize = self.children.len();
        let place: usize = match sorted::locate(&self.children, boundary) {
            Ok(i) => {
                proof {
                    sorted::lemma_models_place(self.children@, boundary@, i as int, i + 1);
                    sorted::lemma_stands_at(self@, boundary@, i as int, i + 1);
                }
                i
            },
            Err(i) => {
                proof {
                    sorted::lemma_models_place(self.children@, boundary@, i as int, i as int);
                    sorted::lemma_stands_at(self@, boundary@, i as int, i as int);
                }
                i
            },
        };
        let ghost all = self.children@;
        self.children = copy_children(&self.children, place, n);
        proof {
            assert(sorted::models(all.subrange(place as int, n as int)) =~= sorted::models(
                all,
            ).skip(place as int));
            lemma_halves(sorted::models(all), place as int);
        }
    }

    /// Joins the children of two indexes. Of children with the same separator
    /// that of `right` counts.
    pub(super) fn joined(left: &IndexNode, right: &IndexNode) -> (r: Self)
        requires
            left.wf(),
        ensures
            r.wf(),
            r@ == sorted::put_all(left@, right@),
    {
        let mut index = left.clone();
        let mut i: usize = 0;
        let ghost all = right@;
        proof {
            assert(all.take(0) =~= Seq::<ChildView>::empty());
            sorted::lemma_put_all_step(left@, all.take(0));
        }
        while i < right.children.len()
            invariant
                i <= right.children@.len(),
                all == right@,
                index.wf(),
                index@ == sorted::put_all(left@, all.take(i as int)),
            decreases right.children@.len() - i,
        {
            proof {
                sorted::lemma_put_all_step(left@, all.take(i + 1));
                assert(all.take(i + 1).drop_last() =~= all.take(i as int));
                assert(all.take(i + 1).last() == right.children@[i as int]@);
            }
            let child = right.children[i].clone();
            index.insert_child(child.separator, child.child);
            i = i + 1;
        }
        proof {
            assert(all.take(i as int) =~= all);
        }
        index
    }

    /// Encodes the index.
    pub fn encode(&self) -> (r: Vec<u8>)
        ensures
            r@ == index_bytes(self@),
    {
        let mut buf: Vec<u8> = Vec::new();
        let ghost all = index_fields(self@);
        let mut i: usize = 0;
        proof {
            assert(all.take(0) =~= Seq::<wire::FieldView>::empty());
        }
        while i < self.children.len()
            invariant
                i <= self.children@.len(),
                all == index_fields(self@),
                buf@ == wire::message_bytes(all.take(i as int)),
            decreases self.children@.len() - i,
        {
            let child = encode_child(&self.children[i]);
            wire::put_bytes(&mut buf, 1, child.as_slice());
            proof {
                let now = all.take(i + 1);
                assert(now.drop_last() =~= all.take(i as int));
                assert(now.last() == wire::bytes_field(1, child@));
            }
            i = i + 1;
        }
        proof {
            assert(all.take(i as int) =~= all);
        }
        buf
    }

    /// Builds an index from persisted entries.
    pub fn from_messages(messages: &Vec<PairMessage>) -> (r: Result<Self, StorageError>)
        ensures
            match index_of(proto::pair_message_views(messages@)) {
                Ok(children) => r matches Ok(index) && index@ == children && index.wf(),
                Err(text) => r matches Err(error) && error.says(text),
            },
    {
        let mut index = IndexNode::default();
        let mut i: usize = 0;
        let ghost all = proto::pair_message_views(messages@);
        proof {
            assert(all.take(0) =~= Seq::<proto::PairMessageView>::empty());
        }
        while i < messages.len()
            invariant
                i <= messages@.len(),
                all == proto::pair_message_views(messages@),
                index.wf(),
                index_of(all.take(i as int)) == Ok::<Seq<ChildView>, Seq<char>>(index@),
            decreases messages@.len() - i,
        {
            proof {
                assert(all.take(i + 1).drop_last() =~= all.take(i as int));
                assert(all.take(i + 1).last() == messages@[i as int]@);
            }
            match NodeId::from_slice(messages[i].id.as_slice()) {
                None => {
                    proof {
                        lemma_index_fails(all, i + 1);
                    }
                    return Err(StorageError::other("index node has an invalid child ID"));
                },
                Some(child) => {
                    index.insert_child(bytes::copy(messages[i].key.as_slice()), child);
                },
            }
            i = i + 1;
        }
        proof {
            assert(all.take(i as int) =~= all);
        }
        Ok(index)
    }
}

/// The first bad entry decides.
proof fn lemma_index_fails(messages: Seq<proto::PairMessageView>, n: int)
    requires
        0 <= n <= messages.len(),
        index_of(messages.take(n)) is Err,
    ensures
        index_of(messages) == index_of(messages.take(n)),
    decreases messages.len(),
{
    if n == messages.len() {
        assert(messages.take(n) =~= messages);
    } else {
        assert(messages.drop_last().take(n) =~= messages.take(n));
        lemma_index_fails(messages.drop_last(), n);
    }
}

/// Encodes an index entry.
fn encode_child(child: &IndexChild) -> (r: Vec<u8>)
    ensures
        r@ == child_bytes(child@),
{
    let mut buf: Vec<u8> = Vec::new();
    wire::put_nonempty(&mut buf, 1, child.separator.as_slice());
    wire::put_nonempty(&mut buf, 2, child.child.as_bytes());
    proof {
        wire::lemma_message_concat(
            wire::nonempty(1, child@.separator),
            wire::nonempty(2, child@.child),
        );
        assert(buf@ =~= child_bytes(child@));
    }
    buf
}

/// One child on a right-link path.
pub struct StepView {
    /// The child.
    pub id: Seq<u8>,
    /// Its exclusive upper bound.
    pub high_key: Option<Seq<u8>>,
    /// A merge emptied it.
    pub drained: bool,
}

/// What a right-link path of children is.
pub open spec fn path_view(path: Seq<(NodeId, &Node)>) -> Seq<StepView> {
    path.map_values(
        |step: (NodeId, &Node)|
            StepView { id: step.0@, high_key: step.1@.high_key, drained: step.1@.drained },
    )
}

/// The children with one child replaced by another.
pub open spec fn replaced(children: Seq<ChildView>, from: Seq<u8>, to: Seq<u8>) -> Seq<ChildView> {
    children.map_values(
        |c: ChildView|
            if c.child == from {
                ChildView { child: to, ..c }
            } else {
                c
            },
    )
}

/// The first live child of a path from a position on.
pub open spec fn next_live(path: Seq<StepView>, i: int) -> Option<Seq<u8>>
    decreases path.len() - i,
{
    if i < 0 || i >= path.len() {
        None
    } else if !path[i].drained {
        Some(path[i].id)
    } else {
        next_live(path, i + 1)
    }
}

/// The last live child of a path before a position.
pub open spec fn previous_live(path: Seq<StepView>, i: int) -> Option<StepView>
    decreases i,
{
    if i <= 0 || i > path.len() {
        None
    } else if !path[i - 1].drained {
        Some(path[i - 1])
    } else {
        previous_live(path, i - 1)
    }
}

/// The children with each drained one among the first `n` of the path replaced
/// by the live child that follows it.
pub open spec fn redirected(children: Seq<ChildView>, path: Seq<StepView>, n: int) -> Seq<ChildView>
    decreases n,
{
    if n <= 0 {
        children
    } else {
        let before = redirected(children, path, n - 1);
        if path[n - 1].drained {
            match next_live(path, n) {
                Some(target) => replaced(before, path[n - 1].id, target),
                None => before,
            }
        } else {
            before
        }
    }
}

/// The children with a separator for a child, unless the separator is there.
pub open spec fn with_separator(
    children: Seq<ChildView>,
    separator: Option<Seq<u8>>,
    child: Seq<u8>,
) -> Seq<ChildView> {
    match separator {
        Some(separator) => if sorted::holds_key(children, separator) {
            children
        } else {
            sorted::put(children, ChildView { separator, child })
        },
        None => children,
    }
}

/// The children with separators for the live ones among the first `n` of the
/// path: each starts where the live one before it ends.
pub open spec fn linked(children: Seq<ChildView>, path: Seq<StepView>, n: int) -> Seq<ChildView>
    decreases n,
{
    if n <= 0 {
        children
    } else {
        let before = linked(children, path, n - 1);
        if path[n - 1].drained {
            before
        } else {
            match previous_live(path, n - 1) {
                Some(previous) => with_separator(before, previous.high_key, path[n - 1].id),
                None => before,
            }
        }
    }
}

/// The children without those that repeat the child just before them.
pub open spec fn collapsed(children: Seq<ChildView>) -> Seq<ChildView>
    decreases children.len(),
{
    if children.len() == 0 {
        children
    } else {
        let before = collapsed(children.drop_last());
        if children.len() >= 2 && children[children.len() - 2].child == children.last().child {
            before
        } else {
            before.push(children.last())
        }
    }
}

/// The children made to agree with a right-link path.
pub open spec fn reconciled(children: Seq<ChildView>, path: Seq<StepView>) -> Seq<ChildView> {
    collapsed(linked(redirected(children, path, path.len() as int), path, path.len() as int))
}

/// Replacing a child keeps the separators.
pub proof fn lemma_replaced(children: Seq<ChildView>, from: Seq<u8>, to: Seq<u8>)
    requires
        sorted::sorted(children),
    ensures
        sorted::sorted(replaced(children, from, to)),
{
    let r = replaced(children, from, to);
    assert forall|i: int, j: int| 0 <= i < j < r.len() implies bytes::lt(
        r[i].key(),
        r[j].key(),
    ) by {
        assert(bytes::lt(children[i].key(), children[j].key()));
    }
}

/// Collapsing keeps the order; what is last or first stays last or first.
pub proof fn lemma_collapsed(children: Seq<ChildView>)
    requires
        sorted::sorted(children),
    ensures
        sorted::sorted(collapsed(children)),
        forall|i: int|
            0 <= i < collapsed(children).len() ==> children.contains(
                #[trigger] collapsed(children)[i],
            ),
        children.len() > 0 ==> collapsed(children).len() > 0 && collapsed(children)[0]
            == children[0] && collapsed(children).last().child == children.last().child,
    decreases children.len(),
{
    if children.len() > 0 {
        let rest = children.drop_last();
        let last = children.last();
        let before = collapsed(rest);
        let r = collapsed(children);
        assert forall|i: int, j: int| 0 <= i < j < rest.len() implies bytes::lt(
            rest[i].key(),
            rest[j].key(),
        ) by {
            assert(bytes::lt(children[i].key(), children[j].key()));
        }
        lemma_collapsed(rest);
        assert forall|i: int| 0 <= i < before.len() implies children.contains(
            #[trigger] before[i],
        ) by {
            assert(rest.contains(before[i]));
            let k = rest.index_of(before[i]);
            assert(children[k] == before[i]);
        }
        assert(children[children.len() - 1] == last);
        assert forall|i: int| 0 <= i < r.len() implies children.contains(#[trigger] r[i]) by {
            if i < before.len() {
                assert(r[i] == before[i]);
            }
        }
        assert forall|i: int, j: int| 0 <= i < j < r.len() implies bytes::lt(
            r[i].key(),
            r[j].key(),
        ) by {
            if j < before.len() {
                assert(r[i] == before[i] && r[j] == before[j]);
            } else {
                assert(r[i] == before[i]);
                assert(rest.contains(before[i]));
                let k = rest.index_of(before[i]);
                assert(bytes::lt(children[k].key(), children[children.len() - 1].key()));
            }
        }
        if rest.len() > 0 {
            assert(rest.last() == children[children.len() - 2]);
            assert(r[0] == before[0]);
        }
    }
}

/// Redirecting and linking keep the order.
pub proof fn lemma_steps_sorted(children: Seq<ChildView>, path: Seq<StepView>, n: int)
    requires
        sorted::sorted(children),
    ensures
        sorted::sorted(redirected(children, path, n)),
        sorted::sorted(linked(children, path, n)),
    decreases n,
{
    if n > 0 {
        lemma_steps_sorted(children, path, n - 1);
        let before = redirected(children, path, n - 1);
        if let Some(target) = next_live(path, n) {
            lemma_replaced(before, path[n - 1].id, target);
        }
        let before = linked(children, path, n - 1);
        if let Some(previous) = previous_live(path, n - 1) {
            if let Some(separator) = previous.high_key {
                sorted::lemma_put(before, ChildView { separator, child: path[n - 1].id });
            }
        }
    }
}

impl IndexNode {
    /// Makes the separators of one right-link path of children agree with that
    /// path. `path` lists the children in link order, from the child routed for
    /// keys just below a key through the child that covers the key.
    pub fn reconcile(&mut self, path: &[(NodeId, &Node)])
        requires
            old(self).wf(),
        ensures
            final(self).wf(),
            final(self)@ == reconciled(old(self)@, path_view(path@)),
    {
        let ghost steps = path_view(path@);
        let ghost before = self@;
        self.redirect_drained(path);
        let ghost redirected_children = self@;
        proof {
            lemma_steps_sorted(before, steps, steps.len() as int);
            lemma_steps_sorted(redirected_children, steps, steps.len() as int);
        }
        self.link_live(path);
        self.collapse();
    }

    /// Routes the ranges of drained children to the live children behind them.
    fn redirect_drained(&mut self, path: &[(NodeId, &Node)])
        requires
            old(self).wf(),
        ensures
            final(self).wf(),
            final(self)@ == redirected(old(self)@, path_view(path@), path@.len() as int),
    {
        let ghost steps = path_view(path@);
        let ghost before = self@;
        let mut i: usize = 0;
        while i < path.len()
            invariant
                i <= path@.len(),
                steps == path_view(path@),
                self.wf(),
                self@ == redirected(before, steps, i as int),
            decreases path@.len() - i,
        {
            if path[i].1.is_drained() {
                match first_live(path, i + 1) {
                    Some(target) => {
                        self.replace_child(path[i].0, target);
                    },
                    None => {},
                }
            }
            i = i + 1;
        }
    }

    /// Replaces one child by another.
    fn replace_child(&mut self, from: NodeId, to: NodeId)
        requires
            old(self).wf(),
        ensures
            final(self).wf(),
            final(self)@ == replaced(old(self)@, from@, to@),
    {
        let ghost before = self@;
        let ghost all = self.children@;
        let mut i: usize = 0;
        while i < self.children.len()
            invariant
                i <= self.children@.len(),
                self.children@.len() == all.len(),
                before == sorted::models(all),
                forall|k: int|
                    0 <= k < i ==> (#[trigger] self.children@[k])@ == replaced(
                        before,
                        from@,
                        to@,
                    )[k],
                forall|k: int| i <= k < all.len() ==> #[trigger] self.children@[k] == all[k],
            decreases self.children@.len() - i,
        {
            if self.children[i].child.same(&from) {
                let separator = bytes::copy(self.children[i].separator.as_slice());
                self.children.set(i, IndexChild { separator, child: to });
            }
            proof {
                assert(before[i as int] == all[i as int]@);
            }
            i = i + 1;
        }
        proof {
            assert(self@ =~= replaced(before, from@, to@));
            lemma_replaced(before, from@, to@);
        }
    }

    /// Adds the separators of the live children of a path.
    fn link_live(&mut self, path: &[(NodeId, &Node)])
        requires
            old(self).wf(),
        ensures
            final(self).wf(),
            final(self)@ == linked(old(self)@, path_view(path@), path@.len() as int),
    {
        let ghost steps = path_view(path@);
        let ghost before = self@;
        let mut previous: Option<usize> = None;
        let mut i: usize = 0;
        while i < path.len()
            invariant
                i <= path@.len(),
                steps == path_view(path@),
                self.wf(),
                self@ == linked(before, steps, i as int),
                match previous {
                    Some(p) => p < i && previous_live(steps, i as int) == Some(steps[p as int]),
                    None => previous_live(steps, i as int) is None,
                },
            decreases path@.len() - i,
        {
            if !path[i].1.is_drained() {
                match previous {
                    Some(p) => match path[p].1.high_key() {
                        Some(separator) => {
                            self.add_separator(separator, path[i].0);
                        },
                        None => {},
                    },
                    None => {},
                }
                previous = Some(i);
            }
            i = i + 1;
        }
    }

    /// Adds a separator for a child, unless the separator is there.
    fn add_separator(&mut self, separator: &[u8], child: NodeId)
        requires
            old(self).wf(),
        ensures
            final(self).wf(),
            final(self)@ == with_separator(old(self)@, Some(separator@), child@),
    {
        proof {
            sorted::lemma_models(self.children@);
        }
        if !sorted::contains(&self.children, separator) {
            self.insert_child(bytes::copy(separator), child);
        }
    }

    /// Drops the children that repeat the child just before them: two adjacent
    /// entries that name the same child route like the first one.
    fn collapse(&mut self)
        requires
            old(self).wf(),
        ensures
            final(self).wf(),
            final(self)@ == collapsed(old(self)@),
    {
        let ghost before = self@;
        let mut kept: Vec<IndexChild> = Vec::new();
        let mut i: usize = 0;
        proof {
            assert(before.take(0) =~= Seq::<ChildView>::empty());
            assert(sorted::models(kept@) =~= Seq::<ChildView>::empty());
        }
        while i < self.children.len()
            invariant
                i <= self.children@.len(),
                before == sorted::models(self.children@),
                sorted::models(kept@) == collapsed(before.take(i as int)),
            decreases self.children@.len() - i,
        {
            let ghost was = kept@;
            proof {
                let now = before.take(i + 1);
                assert(now.drop_last() =~= before.take(i as int));
                assert(now.last() == self.children@[i as int]@);
                if i >= 1 {
                    assert(now[now.len() - 2] == self.children@[i - 1]@);
                }
            }
            let repeats: bool = i >= 1 && self.children[i - 1].child.same(&self.children[i].child);
            if !repeats {
                kept.push(self.children[i].clone());
                proof {
                    assert(sorted::models(kept@) =~= sorted::models(was).push(
                        self.children@[i as int]@,
                    ));
                }
            }
            i = i + 1;
        }
        proof {
            assert(before.take(i as int) =~= before);
            lemma_collapsed(before);
        }
        self.children = kept;
    }
}

/// Returns the first live child of a path from a position on.
fn first_live(path: &[(NodeId, &Node)], from: usize) -> (r: Option<NodeId>)
    requires
        from <= path@.len(),
    ensures
        match next_live(path_view(path@), from as int) {
            Some(id) => r matches Some(found) && found@ == id,
            None => r is None,
        },
{
    let ghost steps = path_view(path@);
    let mut i: usize = from;
    while i < path.len()
        invariant
            from <= i <= path@.len(),
            steps == path_view(path@),
            next_live(steps, from as int) == next_live(steps, i as int),
        decreases path@.len() - i,
    {
        if !path[i].1.is_drained() {
            return Some(path[i].0);
        }
        i = i + 1;
    }
    None
}

} // verus!
