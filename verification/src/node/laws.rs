//! Laws of tree nodes and their encoding.

use vstd::prelude::*;

use crate::bytes;
use crate::leaf::{self, EntryView};
use crate::lock::{self, LockView};
use crate::node::index::{self, ChildView};
use crate::node::locks::LocksView;
use crate::node::tree_node::{self, BodyView, NodeView};
use crate::proto;
use crate::sorted::{self, Keyed};
use crate::wire;

verus! {

/// An index entry as persisted.
pub open spec fn child_to_message(child: ChildView) -> proto::PairMessageView {
    proto::PairMessageView { key: child.separator, id: child.child }
}

/// Every child identifier has its size.
pub open spec fn children_valid(children: Seq<ChildView>) -> bool {
    forall|i: int| 0 <= i < children.len() ==> (#[trigger] children[i]).child.len() == 16
}

/// An index entry reads back.
proof fn lemma_child_message(child: ChildView, depth: nat)
    requires
        index::child_bytes(child).len() <= u64::MAX,
    ensures
        wire::parse_fields(index::child_bytes(child), depth) == Some(index::child_fields(child)),
        proto::pair_message(index::child_fields(child)) == Some(child_to_message(child)),
{
    let fields = index::child_fields(child);
    let a = wire::nonempty(1, child.separator);
    let b = wire::nonempty(2, child.child);
    wire::lemma_nonempty(1, child.separator);
    wire::lemma_nonempty(2, child.child);
    wire::lemma_writable_concat(a, b);
    wire::law_written_message_is_read(fields, depth);
    wire::lemma_in_front(a, 1, wire::bytes_values(child.separator), b);
    wire::lemma_carries(b, 2, wire::bytes_values(child.child), 1);
    wire::lemma_carries(b, 2, wire::bytes_values(child.child), 2);
    assert(wire::occurrences(fields, 1) =~= wire::bytes_values(child.separator));
    assert(wire::occurrences(fields, 2) =~= wire::bytes_values(child.child));
}

/// Index entries read back one after the other.
proof fn lemma_child_messages(children: Seq<ChildView>, depth: nat)
    requires
        forall|i: int| 0 <= i < children.len() ==> #[trigger] index::child_bytes(
            children[i],
        ).len() <= u64::MAX,
    ensures
        proto::pair_messages(children.map_values(|c: ChildView| index::child_bytes(c)), depth) == Some(
            children.map_values(|c: ChildView| child_to_message(c)),
        ),
    decreases children.len(),
{
    let payloads = children.map_values(|c: ChildView| index::child_bytes(c));
    let messages = children.map_values(|c: ChildView| child_to_message(c));
    if children.len() == 0 {
        assert(messages =~= Seq::<proto::PairMessageView>::empty());
    } else {
        let rest = children.drop_last();
        let last = children.last();
        assert forall|i: int| 0 <= i < rest.len() implies #[trigger] index::child_bytes(
            rest[i],
        ).len() <= u64::MAX by {
            assert(index::child_bytes(children[i]).len() <= u64::MAX);
        }
        lemma_child_messages(rest, depth);
        assert(payloads.drop_last() =~= rest.map_values(|c: ChildView| index::child_bytes(c)));
        assert(index::child_bytes(children[children.len() - 1]).len() <= u64::MAX);
        lemma_child_message(last, depth);
        assert(payloads.last() == index::child_bytes(last));
        assert(messages =~= rest.map_values(|c: ChildView| child_to_message(c)).push(
            child_to_message(last),
        ));
    }
}

/// What sorted children are persisted as stands for them.
proof fn lemma_index_of(children: Seq<ChildView>)
    requires
        sorted::sorted(children),
        children_valid(children),
    ensures
        index::index_of(children.map_values(|c: ChildView| child_to_message(c))) == Ok::<
            Seq<ChildView>,
            Seq<char>,
        >(children),
    decreases children.len(),
{
    let messages = children.map_values(|c: ChildView| child_to_message(c));
    if children.len() == 0 {
        assert(children =~= Seq::<ChildView>::empty());
    } else {
        let rest = children.drop_last();
        let last = children.last();
        assert forall|i: int, j: int| 0 <= i < j < rest.len() implies bytes::lt(
            rest[i].key(),
            rest[j].key(),
        ) by {
            assert(bytes::lt(children[i].key(), children[j].key()));
        }
        assert forall|i: int| 0 <= i < rest.len() implies (#[trigger] rest[i]).child.len()
            == 16 by {
            assert(children[i].child.len() == 16);
        }
        lemma_index_of(rest);
        assert(messages.drop_last() =~= rest.map_values(|c: ChildView| child_to_message(c)));
        assert(children[children.len() - 1].child.len() == 16);
        assert(messages.last() == child_to_message(last));
        assert(children =~= rest + seq![last]);
        sorted::lemma_put_sorted(rest, seq![last]);
        sorted::lemma_put_all_step(rest, seq![last]);
        sorted::lemma_put_all_step(rest, Seq::<ChildView>::empty());
        assert(seq![last].drop_last() =~= Seq::<ChildView>::empty());
    }
}

/// Law: an index reads back from its bytes.
pub proof fn law_index_round_trip(children: Seq<ChildView>, depth: nat)
    requires
        sorted::sorted(children),
        children_valid(children),
        index::index_bytes(children).len() <= u64::MAX,
    ensures
        proto::index_message(index::index_bytes(children), depth) == Some(
            children.map_values(|c: ChildView| child_to_message(c)),
        ),
        index::index_of(children.map_values(|c: ChildView| child_to_message(c))) == Ok::<
            Seq<ChildView>,
            Seq<char>,
        >(children),
{
    let payloads = children.map_values(|c: ChildView| index::child_bytes(c));
    let fields = index::index_fields(children);
    wire::lemma_repeated(1, payloads);
    wire::law_written_message_is_read(fields, depth);
    wire::lemma_carries(fields, 1, wire::list_values(payloads), 1);
    assert forall|i: int| 0 <= i < children.len() implies #[trigger] index::child_bytes(
        children[i],
    ).len() <= u64::MAX by {
        assert(fields[i] == wire::bytes_field(1, payloads[i]));
        wire::lemma_part_fits(fields, i);
    }
    lemma_child_messages(children, depth + 1);
    lemma_index_of(children);
}

/// A lock as persisted; one without holders is left out.
pub open spec fn lock_to_message(lock: LockView) -> proto::LockMessageView {
    proto::LockMessageView {
        number: if lock.holders.len() == 0 {
            0
        } else {
            leaf::lock_number(lock) as i32
        },
        holders: lock.holders,
    }
}

/// A lock reads back.
pub proof fn lemma_lock_message(lock: LockView)
    requires
        lock.holders.len() > 0,
    ensures
        wire::all_writable(tree_node::lock_fields(lock)),
        proto::lock_message(tree_node::lock_fields(lock)) == Some(lock_to_message(lock)),
{
    let n = leaf::lock_number(lock);
    let a = wire::nonzero(1, n);
    let b = wire::repeated(2, lock.holders);
    wire::lemma_nonzero(1, n);
    wire::lemma_repeated(2, lock.holders);
    wire::lemma_writable_concat(a, b);
    wire::lemma_in_front(a, 1, wire::number_values(n), b);
    wire::lemma_carries(b, 2, wire::list_values(lock.holders), 1);
    wire::lemma_carries(b, 2, wire::list_values(lock.holders), 2);
    let fields = tree_node::lock_fields(lock);
    assert(wire::occurrences(fields, 1) =~= wire::number_values(n));
    assert(wire::occurrences(fields, 2) =~= wire::list_values(lock.holders));
}

/// What a lock is persisted as stands for the lock.
pub proof fn lemma_lock_of(lock: LockView)
    requires
        lock.valid(),
    ensures
        lock::lock_of(lock_to_message(lock).number, lock_to_message(lock).holders) == Some(lock),
{
    lock::lemma_arranged(lock.holders);
    lock::lemma_ascending(lock.holders);
}

/// What a lock's field carries.
pub open spec fn lock_values(lock: LockView) -> Seq<wire::ValueView> {
    if lock.holders.len() == 0 {
        Seq::empty()
    } else {
        seq![wire::ValueView::Bytes(wire::message_bytes(tree_node::lock_fields(lock)))]
    }
}

/// An embedded lock reads back.
pub proof fn lemma_embedded_lock(fields: Seq<wire::FieldView>, tag: nat, lock: LockView, depth: nat)
    requires
        lock.valid(),
        wire::occurrences(fields, tag) == lock_values(lock),
        wire::message_bytes(tree_node::lock_fields(lock)).len() <= u64::MAX,
    ensures
        proto::embedded_lock(fields, tag, depth) matches Some(message) && lock::lock_of(
            message.number,
            message.holders,
        ) == Some(lock),
{
    lemma_lock_of(lock);
    if lock.holders.len() == 0 {
        wire::lemma_embedded_absent(fields, tag, depth);
        let none = Seq::<wire::FieldView>::empty();
        assert(wire::occurrences(none, 1) =~= Seq::<wire::ValueView>::empty());
        assert(wire::occurrences(none, 2) =~= Seq::<wire::ValueView>::empty());
        let message = proto::lock_message(none)->0;
        assert(message.holders =~= Seq::<Seq<u8>>::empty());
        assert(lock.holders =~= Seq::<Seq<u8>>::empty());
        assert(message.number == 0);
        assert(lock::arranged(message.holders) =~= lock.holders);
    } else {
        lemma_lock_message(lock);
        wire::lemma_embedded_once(fields, tag, tree_node::lock_fields(lock), depth);
    }
}

/// A node whose encoding tells everything about it. An empty upper bound, an
/// empty drop intent, or a drained node with entries or without a sibling is
/// not told apart from others, or does not read back.
pub open spec fn canonical(node: NodeView) -> bool {
    &&& node.valid()
    &&& node.body matches BodyView::Index(children) ==> children_valid(children)
    &&& node.high_key matches Some(key) ==> key.len() > 0
    &&& node.locks.drop_intent matches Some(id) ==> id.len() > 0
    &&& node.drained ==> node.body.size() == 0 && node.right_sibling is Some
}

/// What the body's field carries.
spec fn body_payload(body: BodyView) -> Seq<u8> {
    match body {
        BodyView::Leaf(entries) => leaf::leaf_bytes(entries),
        BodyView::Index(children) => index::index_bytes(children),
    }
}

/// The number of the body's field.
spec fn body_tag(body: BodyView) -> nat {
    match body {
        BodyView::Leaf(_) => 3,
        BodyView::Index(_) => 4,
    }
}

/// The fields of a node and where they occur.
#[verifier::rlimit(60)]
proof fn lemma_node_occurrences(node: NodeView)
    requires
        node.valid(),
    ensures
        ({
            let fields = tree_node::node_fields(node);
            &&& wire::all_writable(fields)
            &&& wire::occurrences(fields, 1) == wire::bytes_values(
                tree_node::or_empty(node.high_key),
            )
            &&& wire::occurrences(fields, 2) == wire::bytes_values(
                tree_node::or_empty(node.right_sibling),
            )
            &&& wire::occurrences(fields, 5) == lock_values(node.locks.structure)
            &&& wire::occurrences(fields, 6) == lock_values(node.locks.membership)
            &&& wire::occurrences(fields, 7) == wire::number_values(node.locks.generation as nat)
            &&& wire::occurrences(fields, 8) == wire::bytes_values(
                tree_node::or_empty(node.locks.drop_intent),
            )
            &&& wire::occurrences(fields, 9) == wire::number_values(
                if node.drained {
                    1
                } else {
                    0
                },
            )
            &&& wire::occurrences(fields, 10) == wire::bytes_values(
                tree_node::or_empty(node.locks.merge_reservation),
            )
            &&& wire::occurrences(fields, 11) == wire::bytes_values(node.low_key)
        }),
{
    let none = Seq::<wire::ValueView>::empty();
    let drained: nat = if node.drained {
        1
    } else {
        0
    };
    let p1 = wire::nonempty(1, tree_node::or_empty(node.high_key));
    let p2 = wire::nonempty(2, tree_node::or_empty(node.right_sibling));
    let p3 = tree_node::body_part(node.body);
    let p5 = tree_node::lock_part(5, node.locks.structure);
    let p6 = tree_node::lock_part(6, node.locks.membership);
    let p7 = wire::nonzero(7, node.locks.generation as nat);
    let p8 = wire::nonempty(8, tree_node::or_empty(node.locks.drop_intent));
    let p9 = wire::nonzero(9, drained);
    let p10 = wire::nonempty(10, tree_node::or_empty(node.locks.merge_reservation));
    let p11 = wire::nonempty(11, node.low_key);
    let v3 = seq![wire::ValueView::Bytes(body_payload(node.body))];
    wire::lemma_nonempty(1, tree_node::or_empty(node.high_key));
    wire::lemma_nonempty(2, tree_node::or_empty(node.right_sibling));
    wire::lemma_nonzero(7, node.locks.generation as nat);
    wire::lemma_nonempty(8, tree_node::or_empty(node.locks.drop_intent));
    wire::lemma_nonzero(9, drained);
    wire::lemma_nonempty(10, tree_node::or_empty(node.locks.merge_reservation));
    wire::lemma_nonempty(11, node.low_key);
    assert(wire::carries(p3, body_tag(node.body), v3));
    assert(wire::carries(p5, 5, lock_values(node.locks.structure)));
    assert(wire::carries(p6, 6, lock_values(node.locks.membership)));
    let t10 = p10 + p11;
    let t9 = p9 + t10;
    let t8 = p8 + t9;
    let t7 = p7 + t8;
    let t6 = p6 + t7;
    let t5 = p5 + t6;
    let t3 = p3 + t5;
    let t2 = p2 + t3;
    let t1 = p1 + t2;
    wire::lemma_writable_concat(p10, p11);
    wire::lemma_writable_concat(p9, t10);
    wire::lemma_writable_concat(p8, t9);
    wire::lemma_writable_concat(p7, t8);
    wire::lemma_writable_concat(p6, t7);
    wire::lemma_writable_concat(p5, t6);
    wire::lemma_writable_concat(p3, t5);
    wire::lemma_writable_concat(p2, t3);
    wire::lemma_writable_concat(p1, t2);
    assert forall|t: nat| #[trigger]
        wire::occurrences(t1, t) == (if t == 1 {
            wire::bytes_values(tree_node::or_empty(node.high_key))
        } else {
            none
        }) + ((if t == 2 {
            wire::bytes_values(tree_node::or_empty(node.right_sibling))
        } else {
            none
        }) + ((if t == body_tag(node.body) {
            v3
        } else {
            none
        }) + wire::occurrences(t5, t))) by {
        lemma_front(p1, 1, wire::bytes_values(tree_node::or_empty(node.high_key)), t2, t);
        lemma_front(p2, 2, wire::bytes_values(tree_node::or_empty(node.right_sibling)), t3, t);
        lemma_front(p3, body_tag(node.body), v3, t5, t);
    }
    assert forall|t: nat| #[trigger]
        wire::occurrences(t5, t) == (if t == 5 {
            lock_values(node.locks.structure)
        } else {
            none
        }) + ((if t == 6 {
            lock_values(node.locks.membership)
        } else {
            none
        }) + ((if t == 7 {
            wire::number_values(node.locks.generation as nat)
        } else {
            none
        }) + wire::occurrences(t8, t))) by {
        lemma_front(p5, 5, lock_values(node.locks.structure), t6, t);
        lemma_front(p6, 6, lock_values(node.locks.membership), t7, t);
        lemma_front(p7, 7, wire::number_values(node.locks.generation as nat), t8, t);
    }
    assert forall|t: nat| #[trigger]
        wire::occurrences(t8, t) == (if t == 8 {
            wire::bytes_values(tree_node::or_empty(node.locks.drop_intent))
        } else {
            none
        }) + ((if t == 9 {
            wire::number_values(drained)
        } else {
            none
        }) + ((if t == 10 {
            wire::bytes_values(tree_node::or_empty(node.locks.merge_reservation))
        } else {
            none
        }) + (if t == 11 {
            wire::bytes_values(node.low_key)
        } else {
            none
        }))) by {
        lemma_front(p8, 8, wire::bytes_values(tree_node::or_empty(node.locks.drop_intent)), t9, t);
        lemma_front(p9, 9, wire::number_values(drained), t10, t);
        lemma_front(
            p10,
            10,
            wire::bytes_values(tree_node::or_empty(node.locks.merge_reservation)),
            p11,
            t,
        );
        wire::lemma_carries(p11, 11, wire::bytes_values(node.low_key), t);
    }
    assert(t1 == tree_node::node_fields(node));
    assert(wire::occurrences(t1, 1) =~= wire::bytes_values(tree_node::or_empty(node.high_key)));
    assert(wire::occurrences(t1, 2) =~= wire::bytes_values(
        tree_node::or_empty(node.right_sibling),
    ));
    assert(wire::occurrences(t1, 5) =~= lock_values(node.locks.structure));
    assert(wire::occurrences(t1, 6) =~= lock_values(node.locks.membership));
    assert(wire::occurrences(t1, 7) =~= wire::number_values(node.locks.generation as nat));
    assert(wire::occurrences(t1, 8) =~= wire::bytes_values(
        tree_node::or_empty(node.locks.drop_intent),
    ));
    assert(wire::occurrences(t1, 9) =~= wire::number_values(drained));
    assert(wire::occurrences(t1, 10) =~= wire::bytes_values(
        tree_node::or_empty(node.locks.merge_reservation),
    ));
    assert(wire::occurrences(t1, 11) =~= wire::bytes_values(node.low_key));
}

/// The fields of a node can be written.
pub proof fn lemma_node_writable(node: NodeView)
    requires
        node.valid(),
    ensures
        wire::all_writable(tree_node::node_fields(node)),
{
    lemma_node_occurrences(node);
}

/// Occurrences of one number when fields with one number stand in front.
proof fn lemma_front(
    fields: Seq<wire::FieldView>,
    tag: nat,
    values: Seq<wire::ValueView>,
    rest: Seq<wire::FieldView>,
    t: nat,
)
    requires
        wire::carries(fields, tag, values),
    ensures
        wire::occurrences(fields + rest, t) == (if t == tag {
            values
        } else {
            Seq::empty()
        }) + wire::occurrences(rest, t),
{
    wire::lemma_occurrences_concat(fields, rest, t);
    wire::lemma_carries(fields, tag, values, t);
}

/// Fields that belong to no body.
spec fn no_body(fields: Seq<wire::FieldView>) -> bool {
    forall|i: int|
        0 <= i < fields.len() ==> (#[trigger] fields[i]).tag != 3 && fields[i].tag != 4
}

/// Fields that belong to no body do not change the body read before them.
proof fn lemma_no_body(before: Seq<wire::FieldView>, fields: Seq<wire::FieldView>, depth: nat)
    requires
        no_body(fields),
    ensures
        proto::body_message(before + fields, depth) == proto::body_message(before, depth),
    decreases fields.len(),
{
    if fields.len() == 0 {
        assert(before + fields =~= before);
    } else {
        let rest = fields.drop_last();
        assert forall|i: int| 0 <= i < rest.len() implies (#[trigger] rest[i]).tag != 3
            && rest[i].tag != 4 by {
            assert(rest[i] == fields[i]);
        }
        lemma_no_body(before, rest, depth);
        assert((before + fields).drop_last() =~= before + rest);
        assert((before + fields).last() == fields[fields.len() - 1]);
    }
}

proof fn lemma_no_body_concat(a: Seq<wire::FieldView>, b: Seq<wire::FieldView>)
    requires
        no_body(a),
        no_body(b),
    ensures
        no_body(a + b),
{
    assert forall|i: int| 0 <= i < (a + b).len() implies (#[trigger] (a + b)[i]).tag != 3 && (a
        + b)[i].tag != 4 by {
        if i < a.len() {
            assert((a + b)[i] == a[i]);
        } else {
            assert((a + b)[i] == b[i - a.len()]);
        }
    }
}

/// The body reads back.
proof fn lemma_body_message(node: NodeView, depth: nat)
    requires
        node.valid(),
        node.body matches BodyView::Index(children) ==> children_valid(children),
        body_payload(node.body).len() <= u64::MAX,
    ensures
        proto::body_message(tree_node::node_fields(node), depth) matches Some(message)
            && tree_node::body_of(message) == Ok::<BodyView, Seq<char>>(node.body),
{
    let p1 = wire::nonempty(1, tree_node::or_empty(node.high_key));
    let p2 = wire::nonempty(2, tree_node::or_empty(node.right_sibling));
    let p3 = tree_node::body_part(node.body);
    let tail = tree_node::coordination_fields(node);
    let none = Seq::<wire::FieldView>::empty();
    assert(no_body(p1));
    assert(no_body(p2));
    lemma_no_body_concat(p1, p2);
    assert(none + (p1 + p2) =~= p1 + p2);
    lemma_no_body(none, p1 + p2, depth);
    assert(proto::body_message(p1 + p2, depth) == Some(None::<proto::BodyMessageView>));
    lemma_tail_no_body(node);
    let head = (p1 + p2) + p3;
    lemma_no_body(head, tail, depth);
    assert(tree_node::node_fields(node) =~= head + tail);
    assert(head.drop_last() =~= p1 + p2);
    assert(head.last() == p3[0]);
    match node.body {
        BodyView::Leaf(entries) => {
            leaf::law_leaf_round_trip(entries, depth + 1);
        },
        BodyView::Index(children) => {
            law_index_round_trip(children, depth + 1);
        },
    }
}

proof fn lemma_tail_no_body(node: NodeView)
    ensures
        no_body(tree_node::coordination_fields(node)),
{
    let drained: nat = if node.drained {
        1
    } else {
        0
    };
    let p5 = tree_node::lock_part(5, node.locks.structure);
    let p6 = tree_node::lock_part(6, node.locks.membership);
    let p7 = wire::nonzero(7, node.locks.generation as nat);
    let p8 = wire::nonempty(8, tree_node::or_empty(node.locks.drop_intent));
    let p9 = wire::nonzero(9, drained);
    let p10 = wire::nonempty(10, tree_node::or_empty(node.locks.merge_reservation));
    let p11 = wire::nonempty(11, node.low_key);
    assert(no_body(p5) && no_body(p6) && no_body(p7) && no_body(p8) && no_body(p9) && no_body(p10)
        && no_body(p11));
    lemma_no_body_concat(p10, p11);
    lemma_no_body_concat(p9, p10 + p11);
    lemma_no_body_concat(p8, p9 + (p10 + p11));
    lemma_no_body_concat(p7, p8 + (p9 + (p10 + p11)));
    lemma_no_body_concat(p6, p7 + (p8 + (p9 + (p10 + p11))));
    lemma_no_body_concat(p5, p6 + (p7 + (p8 + (p9 + (p10 + p11)))));
}

/// A field that occurs carries no more bytes than its message has.
proof fn lemma_occurrence_fits(fields: Seq<wire::FieldView>, tag: nat, payload: Seq<u8>)
    requires
        wire::all_writable(fields),
        wire::message_bytes(fields).len() <= u64::MAX,
        wire::occurrences(fields, tag).contains(wire::ValueView::Bytes(payload)),
    ensures
        payload.len() <= u64::MAX,
    decreases fields.len(),
{
    if fields.len() > 0 {
        let last = fields.len() - 1;
        if fields[last].tag == tag && fields[last].value == wire::ValueView::Bytes(payload) {
            wire::lemma_part_fits(fields, last);
        } else {
            let rest = fields.drop_last();
            let found = wire::occurrences(fields, tag);
            let before = wire::occurrences(rest, tag);
            let k = found.index_of(wire::ValueView::Bytes(payload));
            assert(before[k] == wire::ValueView::Bytes(payload));
            assert(wire::all_writable(rest)) by {
                assert forall|i: int| 0 <= i < rest.len() implies wire::writable(
                    #[trigger] rest[i],
                ) by {
                    assert(rest[i] == fields[i]);
                }
            }
            lemma_occurrence_fits(rest, tag, payload);
        }
    }
}

/// Law: a node reads back from its bytes.
pub proof fn law_node_round_trip(node: NodeView, depth: nat)
    requires
        canonical(node),
        tree_node::node_bytes(node).len() <= u64::MAX,
    ensures
        proto::parse_node(tree_node::node_bytes(node), depth) matches Some(message)
            && tree_node::node_of(message) == Ok::<NodeView, Seq<char>>(node),
{
    let fields = tree_node::node_fields(node);
    lemma_node_occurrences(node);
    wire::law_written_message_is_read(fields, depth);
    assert(body_payload(node.body).len() <= u64::MAX) by {
        let p1 = wire::nonempty(1, tree_node::or_empty(node.high_key));
        let p2 = wire::nonempty(2, tree_node::or_empty(node.right_sibling));
        let i = (p1.len() + p2.len()) as int;
        assert(fields[i] == tree_node::body_part(node.body)[0]);
        wire::lemma_part_fits(fields, i);
    }
    lemma_body_message(node, depth);
    let structure = node.locks.structure;
    let membership = node.locks.membership;
    lemma_lock_fits(fields, 5, structure);
    lemma_lock_fits(fields, 6, membership);
    lemma_embedded_lock(fields, 5, structure, depth + 1);
    lemma_embedded_lock(fields, 6, membership, depth + 1);
    wire::lemma_nonempty(1, tree_node::or_empty(node.high_key));
    wire::lemma_nonempty(2, tree_node::or_empty(node.right_sibling));
    wire::lemma_nonzero(7, node.locks.generation as nat);
    wire::lemma_nonempty(8, tree_node::or_empty(node.locks.drop_intent));
    wire::lemma_nonzero(
        9,
        if node.drained {
            1
        } else {
            0
        },
    );
    wire::lemma_nonempty(10, tree_node::or_empty(node.locks.merge_reservation));
    wire::lemma_nonempty(11, node.low_key);
    let message = proto::node_message(fields, depth)->0;
    assert(proto::node_message(fields, depth) is Some);
    assert(tree_node::if_nonempty(message.high_key) == node.high_key);
    assert(tree_node::if_nonempty(message.right_sibling) == node.right_sibling);
    assert(tree_node::if_nonempty(message.drop_intent) == node.locks.drop_intent);
    assert(tree_node::if_nonempty(message.merge_reservation) == node.locks.merge_reservation);
    assert(message.low_key == node.low_key);
}

/// A lock's field carries no more bytes than its message has.
pub proof fn lemma_lock_fits(fields: Seq<wire::FieldView>, tag: nat, lock: LockView)
    requires
        lock.valid(),
        wire::all_writable(fields),
        wire::message_bytes(fields).len() <= u64::MAX,
        wire::occurrences(fields, tag) == lock_values(lock),
    ensures
        wire::message_bytes(tree_node::lock_fields(lock)).len() <= u64::MAX,
{
    let payload = wire::message_bytes(tree_node::lock_fields(lock));
    if lock.holders.len() == 0 {
        assert(tree_node::lock_fields(lock) =~= seq![wire::number_field(1, 1)]);
        wire::lemma_single(wire::number_field(1, 1));
        assert(wire::varint(8).len() == 1);
        assert(wire::varint(1).len() == 1);
        assert(wire::field_bytes(wire::number_field(1, 1)).len() == 2);
    } else {
        assert(lock_values(lock)[0] == wire::ValueView::Bytes(payload));
        lemma_occurrence_fits(fields, tag, payload);
    }
}

/// Law: different nodes have different bytes.
pub proof fn law_node_encoding_is_canonical(a: NodeView, b: NodeView)
    requires
        canonical(a),
        canonical(b),
        tree_node::node_bytes(a).len() <= u64::MAX,
        tree_node::node_bytes(a) == tree_node::node_bytes(b),
    ensures
        a == b,
{
    law_node_round_trip(a, 0);
    law_node_round_trip(b, 0);
}

/// Law: opening a gate that was closed does not bring back the encoding from
/// before, because the generation has advanced.
pub proof fn law_released_gate_leaves_a_trace(node: NodeView, id: Seq<u8>)
    requires
        canonical(node),
        node.locks.structure == LockView::unlocked(),
        tree_node::node_bytes(node).len() <= u64::MAX,
    ensures
        ({
            let gated = node.locks.gated(id);
            let released = NodeView {
                locks: LocksView { structure: LockView::unlocked(), ..gated },
                ..node
            };
            &&& released == (NodeView { locks: node.locks.advanced(), ..node })
            &&& tree_node::node_bytes(released) != tree_node::node_bytes(node)
        }),
{
    let gated = node.locks.gated(id);
    let released = NodeView {
        locks: LocksView { structure: LockView::unlocked(), ..gated },
        ..node
    };
    assert(node.locks.structure.holders.len() == 0);
    assert(seq![id].len() == 1);
    assert(released.locks.generation != node.locks.generation);
    if tree_node::node_bytes(released) == tree_node::node_bytes(node) {
        law_node_encoding_is_canonical(node, released);
    }
}

/// Law: removing a reservation does not bring back the encoding from before,
/// because the generation has advanced.
pub proof fn law_released_reservation_leaves_a_trace(node: NodeView, intent: Seq<u8>)
    requires
        canonical(node),
        node.locks.merge_reservation is None,
        tree_node::node_bytes(node).len() <= u64::MAX,
    ensures
        ({
            let reserved = node.locks.reserved(intent);
            let released = NodeView {
                locks: LocksView { merge_reservation: None, ..reserved },
                ..node
            };
            &&& released == (NodeView { locks: node.locks.advanced(), ..node })
            &&& tree_node::node_bytes(released) != tree_node::node_bytes(node)
        }),
{
    let reserved = node.locks.reserved(intent);
    let released = NodeView { locks: LocksView { merge_reservation: None, ..reserved }, ..node };
    assert(released.locks.generation != node.locks.generation);
    if tree_node::node_bytes(released) == tree_node::node_bytes(node) {
        law_node_encoding_is_canonical(node, released);
    }
}

/// The keys of a body are below a key.
pub open spec fn body_below(body: BodyView, key: Seq<u8>) -> bool {
    forall|i: int| 0 <= i < body.size() ==> bytes::lt(#[trigger] body.key_at(i), key)
}

/// The keys of a body are not below a key.
pub open spec fn body_from(body: BodyView, key: Seq<u8>) -> bool {
    forall|i: int| 0 <= i < body.size() ==> bytes::le(key, #[trigger] body.key_at(i))
}

/// Sorted parts around a key, put together, stay one behind the other.
#[verifier::spinoff_prover]
#[verifier::rlimit(50)]
pub proof fn lemma_joined<T: Keyed>(left: Seq<T>, right: Seq<T>, boundary: Seq<u8>)
    requires
        sorted::sorted(left),
        sorted::sorted(right),
        forall|i: int| 0 <= i < left.len() ==> bytes::lt((#[trigger] left[i]).key(), boundary),
        forall|i: int| 0 <= i < right.len() ==> bytes::le(boundary, (#[trigger] right[i]).key()),
    ensures
        sorted::put_all(Seq::empty(), left + right) == left + right,
        sorted::sorted(left + right),
        (left + right).filter(sorted::from_on(boundary)) == right,
{
    let all = left + right;
    assert forall|i: int, j: int| 0 <= i < j < all.len() implies bytes::lt(
        all[i].key(),
        all[j].key(),
    ) by {
        if j < left.len() {
        } else if i < left.len() {
            assert(all[j] == right[j - left.len()]);
            bytes::lemma_lt_le_transitive(left[i].key(), boundary, right[j - left.len()].key());
        } else {
            assert(all[i] == right[i - left.len()] && all[j] == right[j - left.len()]);
        }
    }
    assert(Seq::<T>::empty() + all =~= all);
    sorted::lemma_put_sorted(Seq::<T>::empty(), all);
    assert forall|i: int| 0 <= i < all.len() implies (sorted::from_on::<T>(boundary)(
        #[trigger] all[i],
    ) <==> i >= left.len()) by {
        if i < left.len() {
            bytes::lemma_lt_asymmetric(left[i].key(), boundary);
        } else {
            assert(all[i] == right[i - left.len()]);
        }
    }
    sorted::lemma_filter_suffix(all, sorted::from_on(boundary), left.len() as int);
    assert(all.skip(left.len() as int) =~= right);
}

/// Bodies around a key, put together, stay one behind the other.
proof fn lemma_joined_bodies(left: BodyView, right: BodyView, boundary: Seq<u8>)
    requires
        left.valid(),
        right.valid(),
        right.same_level(left),
        body_below(left, boundary),
        body_from(right, boundary),
    ensures
        right.joined(left).from_on(boundary) == right,
        right.joined(left).size() == left.size() + right.size(),
        right.joined(left).valid(),
{
    match (left, right) {
        (BodyView::Leaf(l), BodyView::Leaf(r)) => {
            assert forall|i: int| 0 <= i < l.len() implies bytes::lt(
                (#[trigger] l[i]).key(),
                boundary,
            ) by {
                assert(bytes::lt(left.key_at(i), boundary));
            }
            assert forall|i: int| 0 <= i < r.len() implies bytes::le(
                boundary,
                (#[trigger] r[i]).key(),
            ) by {
                assert(bytes::le(boundary, right.key_at(i)));
            }
            lemma_joined(l, r, boundary);
            let all = l + r;
            assert forall|i: int| 0 <= i < all.len() implies (#[trigger] all[i]).lock.valid() by {
                if i < l.len() {
                    assert(all[i] == l[i]);
                } else {
                    assert(all[i] == r[i - l.len()]);
                }
            }
        },
        (BodyView::Index(l), BodyView::Index(r)) => {
            assert forall|i: int| 0 <= i < l.len() implies bytes::lt(
                (#[trigger] l[i]).key(),
                boundary,
            ) by {
                assert(bytes::lt(left.key_at(i), boundary));
            }
            assert forall|i: int| 0 <= i < r.len() implies bytes::le(
                boundary,
                (#[trigger] r[i]).key(),
            ) by {
                assert(bytes::le(boundary, right.key_at(i)));
            }
            lemma_joined(l, r, boundary);
        },
        _ => {},
    }
}

/// Law: abandoning a merge undoes its absorb. What stays of it is the
/// generation, which only grows or starts anew.
pub proof fn law_abandon_undoes_absorb(right: NodeView, left: NodeView, intent: Seq<u8>)
    requires
        right.valid(),
        left.valid(),
        right.body.same_level(left.body),
        body_below(left.body, right.low_key),
        body_from(right.body, right.low_key),
        right.locks.merge_reservation is None,
    ensures
        ({
            let absorbed = right.absorbed(left, intent);
            let restored = absorbed.restored(right.low_key);
            &&& absorbed.locks.merge_reservation == Some(intent)
            &&& restored == (NodeView {
                locks: LocksView { generation: absorbed.locks.generation, ..right.locks },
                ..right
            })
        }),
{
    lemma_joined_bodies(left.body, right.body, right.low_key);
}

/// Law: absorbing the lower half of a split gives back the range and the body
/// that were split.
pub proof fn law_absorb_undoes_split(node: NodeView, right_id: Seq<u8>, intent: Seq<u8>)
    requires
        node.valid(),
        node.body.size() >= 2,
    ensures
        ({
            let merged = node.upper_half().absorbed(node.lower_half(right_id), intent);
            &&& merged.body == node.body
            &&& merged.low_key == node.low_key
            &&& merged.high_key == node.high_key
            &&& merged.right_sibling == node.right_sibling
        }),
{
    let n = node.median();
    match node.body {
        BodyView::Leaf(all) => {
            lemma_rejoined(all, n);
        },
        BodyView::Index(all) => {
            lemma_rejoined(all, n);
        },
    }
}

/// Sorted elements put together from two parts.
proof fn lemma_rejoined<T: Keyed>(all: Seq<T>, n: int)
    requires
        sorted::sorted(all),
        0 <= n <= all.len(),
    ensures
        sorted::put_all(Seq::empty(), all.take(n) + all.skip(n)) == all,
{
    assert(all.take(n) + all.skip(n) =~= all);
    assert(Seq::<T>::empty() + all =~= all);
    sorted::lemma_put_sorted(Seq::<T>::empty(), all);
}

/// Both parts of sorted elements around a position.
proof fn lemma_halves_around<T: Keyed>(all: Seq<T>, n: int)
    requires
        sorted::sorted(all),
        0 <= n < all.len(),
    ensures
        sorted::sorted(all.take(n)),
        sorted::sorted(all.skip(n)),
        forall|i: int| 0 <= i < n ==> bytes::lt((#[trigger] all.take(n)[i]).key(), all[n].key()),
        forall|i: int|
            0 <= i < all.len() - n ==> bytes::le(all[n].key(), (#[trigger] all.skip(n)[i]).key()),
{
    let a = all.take(n);
    let b = all.skip(n);
    assert forall|i: int| 0 <= i < n implies bytes::lt((#[trigger] a[i]).key(), all[n].key()) by {
        assert(bytes::lt(all[i].key(), all[n].key()));
    }
    assert forall|i: int| 0 <= i < b.len() implies bytes::le(
        all[n].key(),
        (#[trigger] b[i]).key(),
    ) by {
        if i > 0 {
            assert(bytes::lt(all[n].key(), all[n + i].key()));
        }
    }
    assert forall|i: int, j: int| 0 <= i < j < b.len() implies bytes::lt(
        b[i].key(),
        b[j].key(),
    ) by {
        assert(bytes::lt(all[i + n].key(), all[j + n].key()));
    }
}

/// Law: both halves of a split are bounded by the promoted key, and every key
/// that the node covered is covered by exactly one of them.
pub proof fn law_split_divides_the_range(node: NodeView, right_id: Seq<u8>, key: Seq<u8>)
    requires
        node.valid(),
        node.body.size() >= 2,
        node.covers(key),
    ensures
        ({
            let lower = node.lower_half(right_id);
            let upper = node.upper_half();
            &&& lower.covers(key) <==> bytes::lt(key, node.split_key())
            &&& upper.covers(key)
            &&& bytes::lt(key, upper.low_key) <==> lower.covers(key)
            &&& body_below(lower.body, node.split_key())
            &&& body_from(upper.body, node.split_key())
            &&& lower.body.size() >= 1
            &&& upper.body.size() >= 1
        }),
{
    let n = node.median();
    match node.body {
        BodyView::Leaf(all) => {
            lemma_halves_around(all, n);
            assert forall|i: int| 0 <= i < n implies bytes::lt(
                #[trigger] node.lower_half(right_id).body.key_at(i),
                node.split_key(),
            ) by {
                assert(bytes::lt(all.take(n)[i].key(), all[n].key()));
            }
            assert forall|i: int| 0 <= i < all.len() - n implies bytes::le(
                node.split_key(),
                #[trigger] node.upper_half().body.key_at(i),
            ) by {
                assert(bytes::le(all[n].key(), all.skip(n)[i].key()));
            }
        },
        BodyView::Index(all) => {
            lemma_halves_around(all, n);
            assert forall|i: int| 0 <= i < n implies bytes::lt(
                #[trigger] node.lower_half(right_id).body.key_at(i),
                node.split_key(),
            ) by {
                assert(bytes::lt(all.take(n)[i].key(), all[n].key()));
            }
            assert forall|i: int| 0 <= i < all.len() - n implies bytes::le(
                node.split_key(),
                #[trigger] node.upper_half().body.key_at(i),
            ) by {
                assert(bytes::le(all[n].key(), all.skip(n)[i].key()));
            }
        },
    }
}

/// Adding a child behind the key does not change its route.
proof fn lemma_route_push(children: Seq<ChildView>, last: ChildView, key: Seq<u8>)
    requires
        children.len() > 0,
        !bytes::le(last.separator, key),
    ensures
        index::routed(children.push(last), key) == index::routed(children, key),
{
    reveal(Seq::filter);
    let all = children.push(last);
    assert(all.drop_last() =~= children);
    assert(all.filter(index::up_to(key)) == children.filter(index::up_to(key)));
    assert(all[0] == children[0]);
}

/// When the last separator does not exceed the key, the last child is routed.
proof fn lemma_route_last(children: Seq<ChildView>, key: Seq<u8>)
    requires
        sorted::sorted(children),
        children.len() > 0,
        bytes::le(children.last().separator, key),
    ensures
        index::routed(children, key) == Some(children.last().child),
{
    let n = children.len() as int;
    assert forall|i: int| 0 <= i < n implies index::up_to(key)(#[trigger] children[i]) by {
        if i < n - 1 {
            assert(bytes::lt(children[i].key(), children[n - 1].key()));
            bytes::lemma_lt_le_transitive(children[i].key(), children[n - 1].key(), key);
        }
    }
    sorted::lemma_filter_prefix(children, index::up_to(key), n);
    assert(children.take(n) =~= children);
}

/// Law: dropping a child that repeats the child just before it changes no
/// key's route.
pub proof fn law_collapse_keeps_routes(children: Seq<ChildView>, key: Seq<u8>)
    requires
        sorted::sorted(children),
    ensures
        index::routed(index::collapsed(children), key) == index::routed(children, key),
    decreases children.len(),
{
    if children.len() > 0 {
        let rest = children.drop_last();
        let last = children.last();
        let before = index::collapsed(rest);
        let r = index::collapsed(children);
        assert forall|i: int, j: int| 0 <= i < j < rest.len() implies bytes::lt(
            rest[i].key(),
            rest[j].key(),
        ) by {
            assert(bytes::lt(children[i].key(), children[j].key()));
        }
        index::lemma_collapsed(children);
        if bytes::le(last.separator, key) {
            lemma_route_last(children, key);
            assert(bytes::le(r.last().separator, key)) by {
                assert(children.contains(r[r.len() - 1]));
                let k = children.index_of(r.last());
                if k < children.len() - 1 {
                    assert(bytes::lt(children[k].key(), children[children.len() - 1].key()));
                    bytes::lemma_lt_le_transitive(children[k].key(), last.key(), key);
                }
            }
            lemma_route_last(r, key);
        } else if rest.len() > 0 {
            index::lemma_collapsed(rest);
            law_collapse_keeps_routes(rest, key);
            assert(children =~= rest.push(last));
            lemma_route_push(rest, last, key);
            lemma_route_push(before, last, key);
        } else {
            assert(before =~= Seq::<ChildView>::empty());
            assert(r =~= children);
        }
    }
}

/// Inserting a child that repeats the child just before it does not show after
/// collapsing.
proof fn lemma_insert_repeat(children: Seq<ChildView>, i: int, child: ChildView)
    requires
        1 <= i <= children.len(),
        children[i - 1].child == child.child,
    ensures
        index::collapsed(children.insert(i, child)) == index::collapsed(children),
    decreases children.len(),
{
    let all = children.insert(i, child);
    let n = children.len() as int;
    if i == n {
        assert(all.drop_last() =~= children);
        assert(all.last() == child);
        assert(all[n - 1] == children[n - 1]);
    } else {
        let rest = children.drop_last();
        assert(all.drop_last() =~= rest.insert(i, child));
        assert(all.last() == children.last());
        lemma_insert_repeat(rest, i, child);
        if i == n - 1 {
            assert(all[n - 1] == child);
            assert(children[n - 2].child == child.child);
        } else {
            assert(all[n - 1] == children[n - 2]);
        }
    }
}

/// A separator that starts where the live child before a position of the path
/// ends.
pub open spec fn link_at(path: Seq<index::StepView>, i: int) -> Option<ChildView> {
    if 0 <= i < path.len() && !path[i].drained {
        match index::previous_live(path, i) {
            Some(previous) => match previous.high_key {
                Some(separator) => Some(ChildView { separator, child: path[i].id }),
                None => None,
            },
            None => None,
        }
    } else {
        None
    }
}

/// No drained child of the path is also a live one.
pub open spec fn path_consistent(path: Seq<index::StepView>) -> bool {
    forall|i: int, j: int|
        0 <= i < path.len() && 0 <= j < path.len() && (#[trigger] path[i]).drained && !(
        #[trigger] path[j]).drained ==> path[i].id != path[j].id
}

/// No child is a drained one of the first `n` of the path that a live one
/// follows.
spec fn no_drained(children: Seq<ChildView>, path: Seq<index::StepView>, n: int) -> bool {
    forall|i: int, k: int|
        0 <= i < n && 0 <= k < children.len() && (#[trigger] path[i]).drained && index::next_live(
            path,
            i + 1,
        ) is Some ==> (#[trigger] children[k]).child != path[i].id
}

/// A live child that follows is a child of the path.
proof fn lemma_next_live(path: Seq<index::StepView>, i: int)
    ensures
        index::next_live(path, i) matches Some(id) ==> exists|j: int|
            0 <= j < path.len() && !(#[trigger] path[j]).drained && path[j].id == id,
    decreases path.len() - i,
{
    if 0 <= i < path.len() && path[i].drained {
        lemma_next_live(path, i + 1);
    } else if 0 <= i < path.len() {
        assert(!path[i].drained);
    }
}

/// Redirecting leaves no drained child that a live one follows.
proof fn lemma_redirected(children: Seq<ChildView>, path: Seq<index::StepView>, n: int)
    requires
        path_consistent(path),
        0 <= n <= path.len(),
    ensures
        no_drained(index::redirected(children, path, n), path, n),
    decreases n,
{
    if n > 0 {
        lemma_redirected(children, path, n - 1);
        let before = index::redirected(children, path, n - 1);
        let after = index::redirected(children, path, n);
        lemma_next_live(path, n);
        assert forall|i: int, k: int|
            0 <= i < n && 0 <= k < after.len() && (#[trigger] path[i]).drained
                && index::next_live(path, i + 1) is Some implies (#[trigger] after[k]).child
            != path[i].id by {
            if path[n - 1].drained && index::next_live(path, n) is Some {
                let target = index::next_live(path, n)->0;
                let j = choose|j: int|
                    0 <= j < path.len() && !(#[trigger] path[j]).drained && path[j].id == target;
                assert(path[i].id != path[j].id);
                if before[k].child == path[n - 1].id {
                    assert(after[k].child == target);
                } else {
                    assert(after[k] == before[k]);
                    if i < n - 1 {
                        assert(before[k].child != path[i].id);
                    }
                }
            } else {
                assert(after == before);
                assert(i < n - 1);
                assert(before[k].child != path[i].id);
            }
        }
    }
}

/// Children without drained ones are not redirected.
proof fn lemma_redirect_nothing(
    children: Seq<ChildView>,
    path: Seq<index::StepView>,
    n: int,
    all: int,
)
    requires
        0 <= n <= all,
        no_drained(children, path, all),
    ensures
        index::redirected(children, path, n) == children,
    decreases n,
{
    if n > 0 {
        lemma_redirect_nothing(children, path, n - 1, all);
        if path[n - 1].drained && index::next_live(path, n) is Some {
            let target = index::next_live(path, n)->0;
            let r = index::replaced(children, path[n - 1].id, target);
            assert forall|k: int| 0 <= k < children.len() implies r[k] == children[k] by {
                assert(children[k].child != path[n - 1].id);
            }
            assert(r =~= children);
        }
    }
}

/// Linking adds live children only.
proof fn lemma_link_live(children: Seq<ChildView>, path: Seq<index::StepView>, n: int, all: int)
    requires
        sorted::sorted(children),
        path_consistent(path),
        0 <= n <= path.len(),
        0 <= all <= path.len(),
        no_drained(children, path, all),
    ensures
        sorted::sorted(index::linked(children, path, n)),
        no_drained(index::linked(children, path, n), path, all),
    decreases n,
{
    if n > 0 {
        lemma_link_live(children, path, n - 1, all);
        let before = index::linked(children, path, n - 1);
        let after = index::linked(children, path, n);
        if let Some(link) = link_at(path, n - 1) {
            if !sorted::holds_key(before, link.separator) {
                let (a, b) = sorted::lemma_place(before, link.separator);
                sorted::lemma_stands_at(before, link.separator, a, b);
                sorted::lemma_put(before, link);
                assert(after == sorted::put(before, link));
                assert forall|i: int, k: int|
                    0 <= i < all && 0 <= k < after.len() && (#[trigger] path[i]).drained
                        && index::next_live(path, i + 1) is Some implies (
                #[trigger] after[k]).child != path[i].id by {
                    if k < a {
                        assert(after[k] == before[k]);
                    } else if k > a {
                        assert(after[k] == before[k - 1 - a + b]);
                    } else {
                        assert(after[k] == link);
                        assert(!path[n - 1].drained);
                        assert(path[i].id != path[n - 1].id);
                    }
                }
            }
        }
    }
}

/// Every child in the first stays in the second.
spec fn keeps(some: Seq<ChildView>, all: Seq<ChildView>) -> bool {
    forall|i: int| 0 <= i < some.len() ==> sorted::holds_key(
        all,
        (#[trigger] some[i]).separator,
    )
}

/// Linking again adds only children that repeat the child just before them.
proof fn lemma_link_again(
    children: Seq<ChildView>,
    path: Seq<index::StepView>,
    target: Seq<ChildView>,
    n: int,
)
    requires
        sorted::sorted(children),
        sorted::sorted(target),
        0 <= n <= path.len(),
        children == index::collapsed(target),
        forall|i: int|
            0 <= i < path.len() ==> (#[trigger] link_at(path, i) matches Some(link)
                ==> sorted::get(target, link.separator) == Some(link) || sorted::holds_key(
                children,
                link.separator,
            )),
    ensures
        index::collapsed(index::linked(children, path, n)) == children,
        sorted::sorted(index::linked(children, path, n)),
        keeps(children, index::linked(children, path, n)),
    decreases n,
{
    if n == 0 {
        lemma_collapse_twice(target);
        assert forall|i: int| 0 <= i < children.len() implies sorted::holds_key(
            children,
            (#[trigger] children[i]).separator,
        ) by {
            assert(children[i].key() == children[i].separator);
        }
    } else {
        lemma_link_again(children, path, target, n - 1);
        let before = index::linked(children, path, n - 1);
        if let Some(link) = link_at(path, n - 1) {
            if !sorted::holds_key(before, link.separator) {
                lemma_link_repeats(children, target, before, link);
            }
        }
    }
}

/// Putting back a separator that collapsing dropped does not show.
proof fn lemma_link_repeats(
    children: Seq<ChildView>,
    target: Seq<ChildView>,
    before: Seq<ChildView>,
    link: ChildView,
)
    requires
        sorted::sorted(children),
        sorted::sorted(target),
        sorted::sorted(before),
        children == index::collapsed(target),
        index::collapsed(before) == children,
        keeps(children, before),
        !sorted::holds_key(before, link.separator),
        sorted::get(target, link.separator) == Some(link) || sorted::holds_key(
            children,
            link.separator,
        ),
    ensures
        index::collapsed(sorted::put(before, link)) == children,
        sorted::sorted(sorted::put(before, link)),
        keeps(children, sorted::put(before, link)),
{
    let key = link.separator;
    if sorted::holds_key(children, key) {
        let i = choose|i: int| 0 <= i < children.len() && (#[trigger] children[i]).key() == key;
        assert(sorted::holds_key(before, children[i].separator));
        assert(false);
    }
    assert(sorted::get(target, key) == Some(link));
    // The link's child is routed for its separator.
    let (a, b) = sorted::lemma_place(target, key);
    sorted::lemma_stands_at(target, key, a, b);
    assert(a < b && target[a] == link);
    lemma_route_at(target, key, a, b);
    law_collapse_keeps_routes(target, key);
    law_collapse_keeps_routes(before, key);
    assert(index::routed(before, key) == Some(link.child));
    // Something precedes it.
    let (i, j) = sorted::lemma_place(before, key);
    sorted::lemma_stands_at(before, key, i, j);
    assert(i == j);
    index::lemma_collapsed(target);
    assert(children[0] == target[0]);
    if a == 0 {
        assert(children[0].key() == key);
        assert(sorted::holds_key(children, key));
        assert(false);
    }
    assert(bytes::lt(target[0].key(), key));
    assert(sorted::holds_key(before, children[0].separator));
    let m = choose|m: int|
        0 <= m < before.len() && (#[trigger] before[m]).key() == children[0].separator;
    assert(before[m].key() == target[0].key());
    if i == 0 {
        assert(bytes::lt(key, before[m].key()));
        bytes::lemma_lt_asymmetric(key, before[m].key());
        assert(false);
    }
    lemma_route_at(before, key, i, j);
    assert(before[i - 1].child == link.child);
    let put = sorted::put(before, link);
    assert(put =~= before.insert(i, link));
    lemma_insert_repeat(before, i, link);
    sorted::lemma_put(before, link);
    assert forall|k: int| 0 <= k < children.len() implies sorted::holds_key(
        put,
        (#[trigger] children[k]).separator,
    ) by {
        assert(sorted::holds_key(before, children[k].separator));
    }
}

/// The route of a key, by its place.
proof fn lemma_route_at(children: Seq<ChildView>, key: Seq<u8>, i: int, j: int)
    requires
        sorted::stands_at(children, key, i, j),
        j > 0,
    ensures
        index::routed(children, key) == Some(children[j - 1].child),
{
    assert forall|k: int| 0 <= k < children.len() implies (index::up_to(key)(
        #[trigger] children[k],
    ) <==> k < j) by {
        if k < i {
            assert(bytes::lt(children[k].key(), key));
        } else if k >= j {
            assert(bytes::lt(key, children[k].key()));
            bytes::lemma_lt_asymmetric(key, children[k].key());
        }
    }
    sorted::lemma_filter_prefix(children, index::up_to(key), j);
    assert(children.take(j).last() == children[j - 1]);
}

/// Collapsing twice is collapsing once.
proof fn lemma_collapse_twice(children: Seq<ChildView>)
    requires
        sorted::sorted(children),
    ensures
        index::collapsed(index::collapsed(children)) == index::collapsed(children),
    decreases children.len(),
{
    if children.len() > 0 {
        let rest = children.drop_last();
        let before = index::collapsed(rest);
        assert forall|i: int, j: int| 0 <= i < j < rest.len() implies bytes::lt(
            rest[i].key(),
            rest[j].key(),
        ) by {
            assert(bytes::lt(children[i].key(), children[j].key()));
        }
        lemma_collapse_twice(rest);
        index::lemma_collapsed(rest);
        let r = index::collapsed(children);
        if r != before {
            assert(r.drop_last() =~= before);
            if before.len() > 0 {
                assert(rest.len() > 0);
                assert(rest.last() == children[children.len() - 2]);
                assert(r[r.len() - 2] == before.last());
            }
        }
    }
}

/// Law: reconciling again with the same path changes nothing. This is so
/// unless the index had named one child twice in a row, the second time at a
/// separator of the path that belongs to another child.
pub proof fn law_reconcile_is_idempotent(children: Seq<ChildView>, path: Seq<index::StepView>)
    requires
        sorted::sorted(children),
        path_consistent(path),
        forall|i: int|
            0 <= i < path.len() ==> (#[trigger] link_at(path, i) matches Some(link)
                ==> sorted::get(
                index::linked(
                    index::redirected(children, path, path.len() as int),
                    path,
                    path.len() as int,
                ),
                link.separator,
            ) == Some(link) || sorted::holds_key(
                index::reconciled(children, path),
                link.separator,
            )),
    ensures
        index::reconciled(index::reconciled(children, path), path) == index::reconciled(
            children,
            path,
        ),
{
    let n = path.len() as int;
    let redirected = index::redirected(children, path, n);
    let target = index::linked(redirected, path, n);
    let r = index::reconciled(children, path);
    lemma_redirected(children, path, n);
    index::lemma_steps_sorted(children, path, n);
    lemma_link_live(redirected, path, n, n);
    index::lemma_collapsed(target);
    assert forall|i: int, k: int|
        0 <= i < n && 0 <= k < r.len() && (#[trigger] path[i]).drained && index::next_live(
            path,
            i + 1,
        ) is Some implies (#[trigger] r[k]).child != path[i].id by {
        assert(target.contains(r[k]));
        let m = target.index_of(r[k]);
        assert(target[m].child != path[i].id);
    }
    lemma_redirect_nothing(r, path, n, n);
    lemma_link_again(r, path, target, n);
}

/// Law: after a reconciliation no separator routes to a drained child that a
/// live child of the path follows.
pub proof fn law_reconcile_routes_to_live(
    children: Seq<ChildView>,
    path: Seq<index::StepView>,
    i: int,
    k: int,
)
    requires
        sorted::sorted(children),
        path_consistent(path),
        0 <= i < path.len(),
        path[i].drained,
        index::next_live(path, i + 1) is Some,
        0 <= k < index::reconciled(children, path).len(),
    ensures
        index::reconciled(children, path)[k].child != path[i].id,
{
    let n = path.len() as int;
    let redirected = index::redirected(children, path, n);
    let target = index::linked(redirected, path, n);
    let r = index::reconciled(children, path);
    lemma_redirected(children, path, n);
    index::lemma_steps_sorted(children, path, n);
    lemma_link_live(redirected, path, n, n);
    index::lemma_collapsed(target);
    assert(target.contains(r[k]));
    let m = target.index_of(r[k]);
    assert(target[m].child != path[i].id);
}

/// Law: the predicted size of a leaf with one entry is the size of that leaf.
pub proof fn law_single_entry_size(entry: EntryView)
    ensures
        tree_node::node_bytes(NodeView::whole(BodyView::Leaf(seq![entry]))).len()
            == tree_node::single_entry_size(leaf::entry_bytes(entry).len()),
{
    let entries = seq![entry];
    let payloads = entries.map_values(|e: EntryView| leaf::entry_bytes(e));
    let inner = wire::bytes_field(1, leaf::entry_bytes(entry));
    assert(leaf::leaf_fields(entries) =~= seq![inner]);
    wire::lemma_single(inner);
    let payload = leaf::leaf_bytes(entries);
    lemma_whole_fields(BodyView::Leaf(entries));
    wire::lemma_single(wire::bytes_field(3, payload));
    wire::lemma_field_size(1, leaf::entry_bytes(entry));
    wire::lemma_field_size(3, payload);
}

/// A node that covers the whole key space has no field but its body.
proof fn lemma_whole_fields(body: BodyView)
    ensures
        tree_node::node_fields(NodeView::whole(body)) == tree_node::body_part(body),
{
    let node = NodeView::whole(body);
    assert(tree_node::node_fields(node) =~= tree_node::body_part(body));
}

/// The children of the smallest parent that can contain a separator.
pub open spec fn smallest_parent(separator: Seq<u8>, left: Seq<u8>, child: Seq<u8>) -> Seq<
    ChildView,
> {
    if separator.len() == 0 {
        seq![ChildView { separator, child }]
    } else {
        seq![
            ChildView { separator: Seq::empty(), child: left },
            ChildView { separator, child },
        ]
    }
}

/// The size of an index entry.
proof fn lemma_child_size(child: ChildView)
    requires
        child.child.len() == 16,
    ensures
        index::child_bytes(child).len() == tree_node::separator_entry_size(child.separator.len()),
{
    let a = wire::nonempty(1, child.separator);
    let b = wire::nonempty(2, child.child);
    wire::lemma_message_concat(a, b);
    wire::lemma_single(wire::bytes_field(1, child.separator));
    wire::lemma_single(wire::bytes_field(2, child.child));
    wire::lemma_field_size(1, child.separator);
    wire::lemma_field_size(2, child.child);
}

/// Law: the predicted size of a parent is that of the smallest parent that can
/// contain the separator.
pub proof fn law_parent_size(separator: Seq<u8>, left: Seq<u8>, child: Seq<u8>)
    requires
        left.len() == 16,
        child.len() == 16,
    ensures
        tree_node::node_bytes(
            NodeView::whole(BodyView::Index(smallest_parent(separator, left, child))),
        ).len() == tree_node::parent_size(separator.len()),
{
    let children = smallest_parent(separator, left, child);
    let candidate = ChildView { separator, child };
    let first = ChildView { separator: Seq::empty(), child: left };
    lemma_child_size(candidate);
    lemma_child_size(first);
    let p = wire::bytes_field(1, index::child_bytes(first));
    let q = wire::bytes_field(1, index::child_bytes(candidate));
    wire::lemma_single(p);
    wire::lemma_single(q);
    wire::lemma_field_size(1, index::child_bytes(first));
    wire::lemma_field_size(1, index::child_bytes(candidate));
    let fields = index::index_fields(children);
    if separator.len() == 0 {
        assert(fields =~= seq![q]);
    } else {
        assert(fields =~= seq![p] + seq![q]);
        wire::lemma_message_concat(seq![p], seq![q]);
    }
    let payload = index::index_bytes(children);
    lemma_whole_fields(BodyView::Index(children));
    wire::lemma_single(wire::bytes_field(4, payload));
    wire::lemma_field_size(4, payload);
}

} // verus!
