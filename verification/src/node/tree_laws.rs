//! What splits, merges, locks and reconciliation do to a tree.

use vstd::prelude::*;

use crate::bytes;
use crate::lock::{self, LockType};
use crate::node::index::{self, ChildView, StepView};
use crate::node::laws;
use crate::node::locks::LocksView;
use crate::node::tree_node::{self, BodyView, NodeView};
use crate::proto;
use crate::sorted::{self, Keyed};

verus! {

/// Law: a split loses nothing and moves nothing out of order. The lower half keeps
/// the first half of the body, rounded down, and the new right sibling gets the
/// rest.
pub proof fn law_split_shares_the_body(node: NodeView, right_id: Seq<u8>)
    requires
        node.body.size() >= 2,
    ensures
        ({
            let lower = node.lower_half(right_id).body;
            let upper = node.upper_half().body;
            &&& match (node.body, lower, upper) {
                (BodyView::Leaf(all), BodyView::Leaf(low), BodyView::Leaf(high)) => low + high
                    == all && high.len() - low.len() <= 1 && low.len() <= high.len(),
                (BodyView::Index(all), BodyView::Index(low), BodyView::Index(high)) => low + high
                    == all && high.len() - low.len() <= 1 && low.len() <= high.len(),
                _ => false,
            }
        }),
{
    let lower = node.lower_half(right_id).body;
    let upper = node.upper_half().body;
    match (node.body, lower, upper) {
        (BodyView::Leaf(all), BodyView::Leaf(low), BodyView::Leaf(high)) => {
            assert(low + high =~= all);
        },
        (BodyView::Index(all), BodyView::Index(low), BodyView::Index(high)) => {
            assert(low + high =~= all);
        },
        _ => {},
    }
}

/// Law: a split links its halves. The lower half ends at the key that the upper
/// one starts with, which is the first key of the upper body, and points at the
/// upper one; the upper one ends and points where the node did.
pub proof fn law_split_links_the_halves(node: NodeView, right_id: Seq<u8>)
    requires
        node.body.size() >= 2,
    ensures
        ({
            let lower = node.lower_half(right_id);
            let upper = node.upper_half();
            &&& lower.low_key == node.low_key
            &&& lower.high_key == Some(upper.low_key)
            &&& lower.right_sibling == Some(right_id)
            &&& lower.locks == node.locks
            &&& lower.drained == node.drained
            &&& match upper.body {
                BodyView::Leaf(entries) => upper.low_key == entries[0].key,
                BodyView::Index(children) => upper.low_key == children[0].separator,
            }
            &&& node.split_key() == upper.low_key
            &&& upper.high_key == node.high_key
            &&& upper.right_sibling == node.right_sibling
            &&& !upper.drained
            &&& upper.locks.structure.holders.len() == 0
            &&& upper.locks.membership.holders.len() == 0
            &&& upper.locks.merge_reservation is None
            &&& upper.locks.generation == node.locks.generation
            &&& upper.locks.drop_intent == node.locks.drop_intent
        }),
{
}

/// Law: a node that absorbs its left sibling takes over its range and puts its
/// body in front, keeps its own end, sibling and holders, and is reserved for the
/// merge. Its membership generation falls behind neither's, and advances unless it
/// was reserved for this merge before.
pub proof fn law_absorb_takes_the_left_sibling_over(
    right: NodeView,
    left: NodeView,
    intent: Seq<u8>,
)
    requires
        right.valid(),
        left.valid(),
        right.body.same_level(left.body),
        laws::body_below(left.body, right.low_key),
        laws::body_from(right.body, right.low_key),
        right.locks.generation < u64::MAX,
    ensures
        ({
            let merged = right.absorbed(left, intent);
            &&& merged.low_key == left.low_key
            &&& merged.high_key == right.high_key
            &&& merged.right_sibling == right.right_sibling
            &&& merged.drained == right.drained
            &&& match (left.body, right.body, merged.body) {
                (BodyView::Leaf(l), BodyView::Leaf(r), BodyView::Leaf(all)) => all == l + r,
                (BodyView::Index(l), BodyView::Index(r), BodyView::Index(all)) => all == l + r,
                _ => false,
            }
            &&& merged.locks.merge_reservation == Some(intent)
            &&& merged.locks.structure == right.locks.structure
            &&& merged.locks.membership == right.locks.membership
            &&& merged.locks.drop_intent == right.locks.drop_intent
            &&& merged.locks.generation >= left.locks.generation
            &&& merged.locks.generation >= right.locks.generation
            &&& right.locks.merge_reservation != Some(intent) ==> merged.locks.generation
                > right.locks.generation
        }),
{
    match (left.body, right.body) {
        (BodyView::Leaf(l), BodyView::Leaf(r)) => {
            assert forall|i: int| 0 <= i < l.len() implies bytes::lt(
                (#[trigger] l[i]).key(),
                right.low_key,
            ) by {
                assert(bytes::lt(left.body.key_at(i), right.low_key));
            }
            assert forall|i: int| 0 <= i < r.len() implies bytes::le(
                right.low_key,
                (#[trigger] r[i]).key(),
            ) by {
                assert(bytes::le(right.low_key, right.body.key_at(i)));
            }
            laws::lemma_joined(l, r, right.low_key);
        },
        (BodyView::Index(l), BodyView::Index(r)) => {
            assert forall|i: int| 0 <= i < l.len() implies bytes::lt(
                (#[trigger] l[i]).key(),
                right.low_key,
            ) by {
                assert(bytes::lt(left.body.key_at(i), right.low_key));
            }
            assert forall|i: int| 0 <= i < r.len() implies bytes::le(
                right.low_key,
                (#[trigger] r[i]).key(),
            ) by {
                assert(bytes::le(right.low_key, right.body.key_at(i)));
            }
            laws::lemma_joined(l, r, right.low_key);
        },
        _ => {},
    }
}

/// Law: a drained node has nothing left and covers no key; it points at the node
/// that took its range over, and keeps the range that it had.
pub proof fn law_drained_node_is_empty(node: NodeView, target: Seq<u8>, key: Seq<u8>)
    ensures
        ({
            let drained = node.drained_into(target);
            &&& drained.drained
            &&& !drained.covers(key)
            &&& drained.right_sibling == Some(target)
            &&& match drained.body {
                BodyView::Leaf(entries) => node.body is Leaf && entries.len() == 0,
                BodyView::Index(children) => node.body is Index && children.len() == 0,
            }
            &&& drained.low_key == node.low_key
            &&& drained.high_key == node.high_key
            &&& drained.locks.structure.holders.len() == 0
            &&& drained.locks.membership.holders.len() == 0
            &&& drained.locks.merge_reservation is None
            &&& drained.locks.generation == node.locks.generation
            &&& drained.locks.drop_intent == node.locks.drop_intent
        }),
{
}

/// Law: a node covers just the keys below its end, unless it is drained.
pub proof fn law_node_covers_keys_below_its_end(node: NodeView, key: Seq<u8>)
    ensures
        node.drained ==> !node.covers(key),
        !node.drained && node.high_key is None ==> node.covers(key),
        node.high_key matches Some(high) ==> {
            &&& bytes::le(high, key) ==> !node.covers(key)
            &&& !node.drained && bytes::lt(key, high) ==> node.covers(key)
        },
{
    if let Some(high) = node.high_key {
        if bytes::le(high, key) && bytes::lt(key, high) {
            bytes::lemma_lt_le_transitive(key, high, key);
            bytes::lemma_lt_irreflexive(key);
        }
    }
}

/// Law: whoever takes a gate, a membership lock as a writer or a reservation holds
/// it alone, whoever held it before; everything else stays, and the membership
/// generation advances just when the holder is a new one.
pub proof fn law_new_holders_advance_the_generation(locks: LocksView, id: Seq<u8>)
    requires
        locks.valid(),
        locks.generation < u64::MAX,
    ensures
        ({
            let gated = locks.gated(id);
            &&& gated.structure.typ == LockType::Write
            &&& gated.structure.holders == seq![id]
            &&& gated.generation == locks.generation + if locks.structure.holders == seq![id] {
                0int
            } else {
                1
            }
            &&& gated.membership == locks.membership
            &&& gated.drop_intent == locks.drop_intent
            &&& gated.merge_reservation == locks.merge_reservation
        }),
        ({
            let written = locks.written(id);
            &&& written.membership.typ == LockType::Write
            &&& written.membership.holders == seq![id]
            &&& written.generation == locks.generation + if locks.membership.typ
                == LockType::Write && locks.membership.holders == seq![id] {
                0int
            } else {
                1
            }
            &&& written.structure == locks.structure
            &&& written.drop_intent == locks.drop_intent
            &&& written.merge_reservation == locks.merge_reservation
        }),
        ({
            let reserved = locks.reserved(id);
            &&& reserved.merge_reservation == Some(id)
            &&& reserved.generation == locks.generation + if locks.merge_reservation == Some(id) {
                0int
            } else {
                1
            }
            &&& reserved.structure == locks.structure
            &&& reserved.membership == locks.membership
            &&& reserved.drop_intent == locks.drop_intent
        }),
{
}

/// Law: clearing leaves no holder and no reservation, and what is to last stays:
/// the membership generation and the drop intent.
pub proof fn law_cleared_locks_keep_what_lasts(locks: LocksView)
    ensures
        ({
            let cleared = locks.cleared();
            &&& cleared.structure.holders.len() == 0
            &&& cleared.structure.typ == LockType::NoLock
            &&& cleared.membership.holders.len() == 0
            &&& cleared.membership.typ == LockType::NoLock
            &&& cleared.merge_reservation is None
            &&& cleared.generation == locks.generation
            &&& cleared.drop_intent == locks.drop_intent
        }),
{
}

/// On a path of siblings, the live node at `j` is the next one behind `i`: those
/// in between are drained.
pub open spec fn follows(path: Seq<StepView>, i: int, j: int) -> bool {
    &&& 0 <= i < j < path.len()
    &&& !path[j].drained
    &&& forall|k: int| i < k < j ==> (#[trigger] path[k]).drained
}

proof fn lemma_next_live_at(path: Seq<StepView>, m: int, j: int)
    requires
        0 <= m <= j < path.len(),
        !path[j].drained,
        forall|k: int| m <= k < j ==> (#[trigger] path[k]).drained,
    ensures
        index::next_live(path, m) == Some(path[j].id),
    decreases j - m,
{
    if m < j {
        lemma_next_live_at(path, m + 1, j);
    }
}

proof fn lemma_previous_live_at(path: Seq<StepView>, i: int, m: int)
    requires
        0 <= i < m <= path.len(),
        !path[i].drained,
        forall|k: int| i < k < m ==> (#[trigger] path[k]).drained,
    ensures
        index::previous_live(path, m) == Some(path[i]),
    decreases m - i,
{
    if m > i + 1 {
        lemma_previous_live_at(path, i, m - 1);
    }
}

proof fn lemma_previous_live_is_before(path: Seq<StepView>, m: int)
    ensures
        index::previous_live(path, m) matches Some(step) ==> exists|k: int|
            0 <= k < m && k < path.len() && !(#[trigger] path[k]).drained && path[k] == step,
    decreases m,
{
    if 0 < m <= path.len() {
        if !path[m - 1].drained {
            assert(path[m - 1] == path[m - 1]);
        } else {
            lemma_previous_live_is_before(path, m - 1);
        }
    }
}

/// The route of a separator that is held is its child.
proof fn lemma_routed_at_separator(children: Seq<ChildView>, separator: Seq<u8>)
    requires
        sorted::sorted(children),
        sorted::holds_key(children, separator),
    ensures
        sorted::get(children, separator) is Some,
        index::routed(children, separator) == Some(sorted::get(children, separator)->0.child),
{
    let (i, j) = sorted::lemma_place(children, separator);
    sorted::lemma_stands_at(children, separator, i, j);
    if i + 1 < children.len() {
        assert(bytes::lt(separator, children[i + 1].key()));
    }
    assert(bytes::le(children[i].separator, separator));
    index::law_routed_child_is_the_closest(children, separator);
}

/// Redirecting keeps the separators; a child is replaced only where a drained node
/// of the path stands.
proof fn lemma_redirected_child(children: Seq<ChildView>, path: Seq<StepView>, n: int, k: int)
    requires
        0 <= n <= path.len(),
        0 <= k < children.len(),
    ensures
        index::redirected(children, path, n).len() == children.len(),
        index::redirected(children, path, n)[k].separator == children[k].separator,
        (forall|i: int|
            0 <= i < n && (#[trigger] path[i]).drained ==> path[i].id != children[k].child)
            ==> index::redirected(children, path, n)[k].child == children[k].child,
    decreases n,
{
    if n > 0 {
        lemma_redirected_child(children, path, n - 1, k);
    }
}

/// Linking keeps what a held separator leads to.
proof fn lemma_linked_keeps(
    children: Seq<ChildView>,
    path: Seq<StepView>,
    n: int,
    m: int,
    separator: Seq<u8>,
)
    requires
        sorted::sorted(children),
        0 <= n <= m,
        sorted::holds_key(index::linked(children, path, n), separator),
    ensures
        sorted::holds_key(index::linked(children, path, m), separator),
        sorted::get(index::linked(children, path, m), separator) == sorted::get(
            index::linked(children, path, n),
            separator,
        ),
    decreases m,
{
    if n < m {
        lemma_linked_keeps(children, path, n, m - 1, separator);
        index::lemma_steps_sorted(children, path, m - 1);
        let before = index::linked(children, path, m - 1);
        if let Some(previous) = index::previous_live(path, m - 1) {
            if let Some(other) = previous.high_key {
                let link = ChildView { separator: other, child: path[m - 1].id };
                sorted::lemma_put(before, link);
                assert(link.key() == other);
            }
        }
    }
}

/// A separator that no node before `i` ends at is not added before the node behind
/// `i` is linked.
proof fn lemma_linked_lacks(
    children: Seq<ChildView>,
    path: Seq<StepView>,
    i: int,
    j: int,
    n: int,
    separator: Seq<u8>,
)
    requires
        sorted::sorted(children),
        !sorted::holds_key(children, separator),
        follows(path, i, j),
        0 <= n <= j,
        forall|k: int|
            0 <= k < i && !(#[trigger] path[k]).drained ==> path[k].high_key != Some(separator),
    ensures
        !sorted::holds_key(index::linked(children, path, n), separator),
    decreases n,
{
    if n > 0 {
        lemma_linked_lacks(children, path, i, j, n - 1, separator);
        index::lemma_steps_sorted(children, path, n - 1);
        let before = index::linked(children, path, n - 1);
        lemma_previous_live_is_before(path, n - 1);
        if !path[n - 1].drained {
            assert(n - 1 <= i);
            if let Some(previous) = index::previous_live(path, n - 1) {
                let k = choose|k: int|
                    0 <= k < n - 1 && k < path.len() && !(#[trigger] path[k]).drained && path[k]
                        == previous;
                assert(path[k].high_key != Some(separator));
                if let Some(other) = previous.high_key {
                    let link = ChildView { separator: other, child: path[n - 1].id };
                    sorted::lemma_put(before, link);
                    assert(link.key() == other);
                }
            }
        }
    }
}

/// Law: reconciling an index publishes the splits of its children. Where a live
/// node of the path ends at a key that the index has no separator for, the key is
/// then routed to the live node behind it.
pub proof fn law_reconcile_publishes_splits(
    children: Seq<ChildView>,
    path: Seq<StepView>,
    i: int,
    j: int,
    separator: Seq<u8>,
)
    requires
        sorted::sorted(children),
        follows(path, i, j),
        !path[i].drained,
        path[i].high_key == Some(separator),
        !sorted::holds_key(children, separator),
        forall|k: int|
            0 <= k < i && !(#[trigger] path[k]).drained ==> path[k].high_key != Some(separator),
    ensures
        index::routed(index::reconciled(children, path), separator) == Some(path[j].id),
{
    let n = path.len() as int;
    let moved = index::redirected(children, path, n);
    index::lemma_steps_sorted(children, path, n);
    assert(!sorted::holds_key(moved, separator)) by {
        if sorted::holds_key(moved, separator) {
            let k = choose|k: int| 0 <= k < moved.len() && (#[trigger] moved[k]).key() == separator;
            if children.len() > 0 {
                lemma_redirected_child(children, path, n, 0);
                lemma_redirected_child(children, path, n, k);
                assert(children[k].key() == separator);
            } else {
                lemma_redirected_len(children, path, n);
            }
        }
    }
    lemma_linked_lacks(moved, path, i, j, j, separator);
    lemma_previous_live_at(path, i, j);
    index::lemma_steps_sorted(moved, path, j);
    index::lemma_steps_sorted(moved, path, n);
    let link = ChildView { separator, child: path[j].id };
    sorted::lemma_put(index::linked(moved, path, j), link);
    assert(link.key() == separator);
    assert(index::linked(moved, path, j + 1) == sorted::put(index::linked(moved, path, j), link));
    lemma_linked_keeps(moved, path, j + 1, n, separator);
    let all = index::linked(moved, path, n);
    lemma_routed_at_separator(all, separator);
    laws::law_collapse_keeps_routes(all, separator);
}

proof fn lemma_redirected_len(children: Seq<ChildView>, path: Seq<StepView>, n: int)
    ensures
        index::redirected(children, path, n).len() == children.len(),
    decreases n,
{
    if n > 0 {
        lemma_redirected_len(children, path, n - 1);
    }
}

/// Law: reconciling changes no route but those to drained nodes. A separator of
/// the index leads to the same child afterwards, unless that child is drained.
pub proof fn law_reconcile_keeps_other_routes(
    children: Seq<ChildView>,
    path: Seq<StepView>,
    k: int,
)
    requires
        sorted::sorted(children),
        0 <= k < children.len(),
        forall|i: int|
            0 <= i < path.len() && (#[trigger] path[i]).drained ==> path[i].id
                != children[k].child,
    ensures
        index::routed(index::reconciled(children, path), children[k].separator) == Some(
            children[k].child,
        ),
{
    let n = path.len() as int;
    lemma_redirected_child(children, path, n, k);
    lemma_route_after(children, path, k);
}

/// Where a separator leads after reconciling.
proof fn lemma_route_after(children: Seq<ChildView>, path: Seq<StepView>, k: int)
    requires
        sorted::sorted(children),
        0 <= k < children.len(),
    ensures
        index::routed(index::reconciled(children, path), children[k].separator) == Some(
            index::redirected(children, path, path.len() as int)[k].child,
        ),
{
    let n = path.len() as int;
    let separator = children[k].separator;
    let moved = index::redirected(children, path, n);
    index::lemma_steps_sorted(children, path, n);
    lemma_redirected_child(children, path, n, k);
    assert(moved[k].key() == separator);
    assert(sorted::holds_key(moved, separator));
    let (a, b) = sorted::lemma_place(moved, separator);
    sorted::lemma_stands_at(moved, separator, a, b);
    assert(a == k) by {
        if a < k {
            assert(bytes::lt(moved[a].key(), moved[k].key()));
            bytes::lemma_lt_irreflexive(separator);
        } else if a > k {
            assert(bytes::lt(moved[k].key(), separator));
            bytes::lemma_lt_irreflexive(separator);
        }
    }
    assert(index::linked(moved, path, 0) == moved);
    lemma_linked_keeps(moved, path, 0, n, separator);
    index::lemma_steps_sorted(moved, path, n);
    let all = index::linked(moved, path, n);
    lemma_routed_at_separator(all, separator);
    laws::law_collapse_keeps_routes(all, separator);
}

/// Law: reconciling routes around drained nodes. A separator that led to a drained
/// node of the path leads to the next live node behind it.
pub proof fn law_reconcile_routes_around_drained(
    children: Seq<ChildView>,
    path: Seq<StepView>,
    k: int,
    i: int,
    j: int,
)
    requires
        sorted::sorted(children),
        0 <= k < children.len(),
        follows(path, i, j),
        path[i].drained,
        children[k].child == path[i].id,
        laws::path_consistent(path),
        forall|a: int, b: int|
            0 <= a < b < path.len() ==> (#[trigger] path[a]).id != (#[trigger] path[b]).id,
    ensures
        index::routed(index::reconciled(children, path), children[k].separator) == Some(
            path[j].id,
        ),
{
    lemma_redirected_around(children, path, k, i, j, path.len() as int);
    lemma_route_after(children, path, k);
}

proof fn lemma_redirected_around(
    children: Seq<ChildView>,
    path: Seq<StepView>,
    k: int,
    i: int,
    j: int,
    n: int,
)
    requires
        0 <= k < children.len(),
        follows(path, i, j),
        path[i].drained,
        children[k].child == path[i].id,
        laws::path_consistent(path),
        forall|a: int, b: int|
            0 <= a < b < path.len() ==> (#[trigger] path[a]).id != (#[trigger] path[b]).id,
        0 <= n <= path.len(),
    ensures
        index::redirected(children, path, n).len() == children.len(),
        index::redirected(children, path, n)[k].child == if n <= i {
            path[i].id
        } else {
            path[j].id
        },
    decreases n,
{
    if n > 0 {
        lemma_redirected_around(children, path, k, i, j, n - 1);
        if n - 1 == i {
            lemma_next_live_at(path, i + 1, j);
        } else if n - 1 < i {
            assert(path[n - 1].id != path[i].id);
        } else if path[n - 1].drained {
            assert(path[n - 1].id != path[j].id);
        }
    }
}

/// Law: reconciling invents no separator: each one stood in the index before, or
/// is where a live node of the path ends.
pub proof fn law_reconcile_invents_no_separator(
    children: Seq<ChildView>,
    path: Seq<StepView>,
    separator: Seq<u8>,
)
    requires
        sorted::sorted(children),
        sorted::holds_key(index::reconciled(children, path), separator),
    ensures
        sorted::holds_key(children, separator) || exists|k: int|
            0 <= k < path.len() && !(#[trigger] path[k]).drained && path[k].high_key == Some(
                separator,
            ),
{
    let n = path.len() as int;
    let moved = index::redirected(children, path, n);
    index::lemma_steps_sorted(children, path, n);
    index::lemma_steps_sorted(moved, path, n);
    let all = index::linked(moved, path, n);
    index::lemma_collapsed(all);
    let r = index::reconciled(children, path);
    let a = choose|a: int| 0 <= a < r.len() && (#[trigger] r[a]).key() == separator;
    assert(all.contains(r[a]));
    let b = all.index_of(r[a]);
    assert(all[b].key() == separator);
    assert(sorted::holds_key(all, separator));
    lemma_linked_from(moved, path, n, separator);
    if sorted::holds_key(moved, separator) {
        let c = choose|c: int| 0 <= c < moved.len() && (#[trigger] moved[c]).key() == separator;
        lemma_redirected_len(children, path, n);
        lemma_redirected_child(children, path, n, c);
        assert(children[c].key() == separator);
    }
}

proof fn lemma_linked_from(
    children: Seq<ChildView>,
    path: Seq<StepView>,
    n: int,
    separator: Seq<u8>,
)
    requires
        sorted::sorted(children),
        0 <= n <= path.len(),
        sorted::holds_key(index::linked(children, path, n), separator),
    ensures
        sorted::holds_key(children, separator) || exists|k: int|
            0 <= k < path.len() && !(#[trigger] path[k]).drained && path[k].high_key == Some(
                separator,
            ),
    decreases n,
{
    if n > 0 {
        index::lemma_steps_sorted(children, path, n - 1);
        let before = index::linked(children, path, n - 1);
        if sorted::holds_key(before, separator) {
            lemma_linked_from(children, path, n - 1, separator);
        } else {
            lemma_previous_live_is_before(path, n - 1);
            let previous = index::previous_live(path, n - 1)->0;
            let other = previous.high_key->0;
            let link = ChildView { separator: other, child: path[n - 1].id };
            sorted::lemma_put(before, link);
            assert(link.key() == other);
            let k = choose|k: int|
                0 <= k < n - 1 && k < path.len() && !(#[trigger] path[k]).drained && path[k]
                    == previous;
            assert(path[k].high_key == Some(separator));
        }
    }
}

/// Law: a new node covers every key, has no sibling, and nobody holds it.
pub proof fn law_whole_node_covers_everything(body: BodyView, key: Seq<u8>)
    ensures
        ({
            let node = NodeView::whole(body);
            &&& node.covers(key)
            &&& node.low_key.len() == 0
            &&& node.right_sibling is None
            &&& node.body == body
            &&& node.locks.structure.holders.len() == 0
            &&& node.locks.membership.holders.len() == 0
            &&& node.locks.generation == 0
            &&& node.locks.drop_intent is None
            &&& node.locks.merge_reservation is None
        }),
{
}

/// Law: what is read is a node that can be: its locks are held as their types
/// allow, its identifiers have their size, and a drained one is empty and points
/// at the node that took its range over.
pub proof fn law_read_nodes_are_sound(message: proto::NodeMessageView)
    requires
        tree_node::node_of(message) is Ok,
    ensures
        ({
            let node = tree_node::node_of(message)->Ok_0;
            &&& node.low_key == message.low_key
            &&& node.high_key == if message.high_key.len() == 0 {
                None
            } else {
                Some(message.high_key)
            }
            &&& node.right_sibling == if message.right_sibling.len() == 0 {
                None
            } else {
                Some(message.right_sibling)
            }
            &&& node.right_sibling matches Some(id) ==> id.len() == 16
            &&& node.locks.merge_reservation matches Some(id) ==> id.len() == 16
            &&& node.locks.merge_reservation == if message.merge_reservation.len() == 0 {
                None
            } else {
                Some(message.merge_reservation)
            }
            &&& node.locks.drop_intent == if message.drop_intent.len() == 0 {
                None
            } else {
                Some(message.drop_intent)
            }
            &&& node.locks.structure.typ == LockType::NoLock || node.locks.structure.typ
                == LockType::Write
            &&& node.locks.structure.holders.len() <= 1
            &&& node.locks.membership.typ != LockType::Create
            &&& node.locks.membership.typ == LockType::NoLock
                <==> node.locks.membership.holders.len() == 0
            &&& node.locks.generation == message.membership_generation as u64
            &&& node.drained == message.drained
            &&& node.drained ==> node.right_sibling is Some && (match node.body {
                BodyView::Leaf(entries) => entries.len() == 0,
                BodyView::Index(children) => children.len() == 0,
            })
        }),
{
    lemma_arranged_len(message.structural_gate.holders);
    lemma_arranged_len(message.membership_lock.holders);
}

/// Arranging holders loses none.
proof fn lemma_arranged_len(holders: Seq<Seq<u8>>)
    ensures
        holders.no_duplicates() ==> lock::arranged(holders).len() == holders.len(),
{
    if holders.no_duplicates() {
        let all = lock::arranged(holders);
        lock::lemma_arranged(holders);
        lock::lemma_ascending(all);
        holders.unique_seq_to_set();
        all.unique_seq_to_set();
        assert(all.to_set() =~= holders.to_set()) by {
            assert forall|k: Seq<u8>| all.to_set().contains(k) <==> holders.to_set().contains(
                k,
            ) by {
                assert(all.contains(k) <==> holders.contains(k));
            }
        }
    }
}

} // verus!
