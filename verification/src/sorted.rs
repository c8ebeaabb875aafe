//! Vectors kept in the order of their elements' keys, without repeated keys.

use vstd::prelude::*;

use crate::bytes::{self, Side};

verus! {

/// Implemented by elements that are ordered by a byte-string key.
pub trait Keyed: Sized {
    /// The key.
    spec fn key(&self) -> Seq<u8>;
}

impl Keyed for Seq<u8> {
    open spec fn key(&self) -> Seq<u8> {
        *self
    }
}

/// Implemented by executable elements; each stands for an abstract one.
pub trait Stored: Keyed {
    /// The abstract elements.
    type Model: Keyed;

    /// The abstract element that this one stands for.
    spec fn model(&self) -> Self::Model;

    /// An element and its abstract one have the same key.
    proof fn lemma_model(&self)
        ensures
            self.model().key() == self.key(),
    ;

    /// Returns the key.
    fn key_bytes(&self) -> (r: &[u8])
        ensures
            r@ == self.key(),
    ;
}

/// Keys increase strictly.
pub open spec fn sorted<T: Keyed>(s: Seq<T>) -> bool {
    forall|i: int, j: int| 0 <= i < j < s.len() ==> bytes::lt(s[i].key(), s[j].key())
}

/// Elements with keys before `key`.
pub open spec fn before<T: Keyed>(key: Seq<u8>) -> spec_fn(T) -> bool {
    |t: T| bytes::lt(t.key(), key)
}

/// Elements with keys behind `key`.
pub open spec fn behind<T: Keyed>(key: Seq<u8>) -> spec_fn(T) -> bool {
    |t: T| bytes::lt(key, t.key())
}

/// Elements with keys from `key` on.
pub open spec fn from_on<T: Keyed>(key: Seq<u8>) -> spec_fn(T) -> bool {
    |t: T| bytes::le(key, t.key())
}

/// Elements with other keys than `key`.
pub open spec fn other_than<T: Keyed>(key: Seq<u8>) -> spec_fn(T) -> bool {
    |t: T| t.key() != key
}

/// Some element has the key.
pub open spec fn holds_key<T: Keyed>(s: Seq<T>, key: Seq<u8>) -> bool {
    exists|i: int| 0 <= i < s.len() && (#[trigger] s[i]).key() == key
}

/// The element with the key.
pub open spec fn get<T: Keyed>(s: Seq<T>, key: Seq<u8>) -> Option<T> {
    if holds_key(s, key) {
        Some(s[choose|i: int| 0 <= i < s.len() && (#[trigger] s[i]).key() == key])
    } else {
        None
    }
}

/// The elements with `t` in its place; an element with the same key leaves.
pub open spec fn put<T: Keyed>(s: Seq<T>, t: T) -> Seq<T> {
    s.filter(before(t.key())) + seq![t] + s.filter(behind(t.key()))
}

/// The elements without the one with the key.
pub open spec fn drop<T: Keyed>(s: Seq<T>, key: Seq<u8>) -> Seq<T> {
    s.filter(other_than(key))
}

/// The elements of `more`, put into `s` one after the other.
#[verifier::opaque]
pub open spec fn put_all<T: Keyed>(s: Seq<T>, more: Seq<T>) -> Seq<T>
    decreases more.len(),
{
    if more.len() == 0 {
        s
    } else {
        put(put_all(s, more.drop_last()), more.last())
    }
}

/// Filtering by a predicate that holds of a prefix and of nothing behind it.
pub proof fn lemma_filter_prefix<A>(s: Seq<A>, keep: spec_fn(A) -> bool, n: int)
    requires
        0 <= n <= s.len(),
        forall|i: int| 0 <= i < n ==> keep(#[trigger] s[i]),
        forall|i: int| n <= i < s.len() ==> !keep(#[trigger] s[i]),
    ensures
        s.filter(keep) == s.take(n),
    decreases s.len(),
{
    reveal(Seq::filter);
    if s.len() > 0 {
        let rest = s.drop_last();
        assert(forall|i: int| 0 <= i < rest.len() ==> rest[i] == s[i]);
        if n == s.len() {
            lemma_filter_prefix(rest, keep, n - 1);
            assert(rest.take(n - 1).push(s.last()) =~= s.take(n));
            assert(keep(s[n - 1]));
        } else {
            lemma_filter_prefix(rest, keep, n);
            assert(rest.take(n) =~= s.take(n));
            assert(!keep(s[s.len() - 1]));
        }
    } else {
        assert(s.filter(keep) =~= s.take(n));
    }
}

/// Filtering by a predicate that holds of a suffix and of nothing before it.
pub proof fn lemma_filter_suffix<A>(s: Seq<A>, keep: spec_fn(A) -> bool, n: int)
    requires
        0 <= n <= s.len(),
        forall|i: int| 0 <= i < n ==> !keep(#[trigger] s[i]),
        forall|i: int| n <= i < s.len() ==> keep(#[trigger] s[i]),
    ensures
        s.filter(keep) == s.skip(n),
    decreases s.len(),
{
    reveal(Seq::filter);
    if s.len() > 0 {
        let rest = s.drop_last();
        assert(forall|i: int| 0 <= i < rest.len() ==> rest[i] == s[i]);
        if n == s.len() {
            lemma_filter_suffix(rest, keep, n - 1);
            assert(rest.skip(n - 1) =~= s.skip(n));
            assert(!keep(s[n - 1]));
        } else {
            lemma_filter_suffix(rest, keep, n);
            assert(rest.skip(n).push(s.last()) =~= s.skip(n));
            assert(keep(s[s.len() - 1]));
        }
    } else {
        assert(s.filter(keep) =~= s.skip(n));
    }
}

/// Where a key stands among sorted elements: those before `i` have smaller
/// keys, those from `j` on greater ones, and in between stands the key itself.
pub open spec fn stands_at<T: Keyed>(s: Seq<T>, key: Seq<u8>, i: int, j: int) -> bool {
    &&& 0 <= i <= j <= i + 1
    &&& j <= s.len()
    &&& forall|k: int| 0 <= k < i ==> bytes::lt((#[trigger] s[k]).key(), key)
    &&& forall|k: int| j <= k < s.len() ==> bytes::lt(key, (#[trigger] s[k]).key())
    &&& i < j ==> s[i].key() == key
}

/// What the parts of sorted elements around a key are.
pub proof fn lemma_stands_at<T: Keyed>(s: Seq<T>, key: Seq<u8>, i: int, j: int)
    requires
        stands_at(s, key, i, j),
    ensures
        s.filter(before(key)) == s.take(i),
        s.filter(behind(key)) == s.skip(j),
        s.filter(from_on(key)) == s.skip(i),
        drop(s, key) == s.take(i) + s.skip(j),
        holds_key(s, key) <==> i < j,
        get(s, key) == if i < j {
            Some(s[i])
        } else {
            None
        },
{
    assert forall|k: int| 0 <= k < s.len() implies {
        &&& (bytes::lt(#[trigger] s[k].key(), key) <==> k < i)
        &&& (bytes::lt(key, s[k].key()) <==> k >= j)
        &&& (s[k].key() == key <==> i <= k < j)
    } by {
        if k < i {
            bytes::lemma_lt_asymmetric(s[k].key(), key);
        } else if k >= j {
            bytes::lemma_lt_asymmetric(key, s[k].key());
        } else {
            bytes::lemma_lt_irreflexive(key);
        }
    }
    assert forall|k: int| 0 <= k < s.len() implies (before::<T>(key)(#[trigger] s[k]) <==> k < i) by {
        assert(bytes::lt(s[k].key(), key) <==> k < i);
    }
    assert forall|k: int| 0 <= k < s.len() implies (behind::<T>(key)(#[trigger] s[k]) <==> k >= j) by {
        assert(bytes::lt(s[k].key(), key) <==> k < i);
    }
    assert forall|k: int| 0 <= k < s.len() implies (from_on::<T>(key)(#[trigger] s[k]) <==> k >= i) by {
        assert(bytes::lt(s[k].key(), key) <==> k < i);
    }
    lemma_filter_prefix(s, before(key), i);
    lemma_filter_suffix(s, behind(key), j);
    lemma_filter_suffix(s, from_on(key), i);
    let keep = other_than::<T>(key);
    assert forall|k: int| 0 <= k < s.len() implies (keep(#[trigger] s[k]) <==> k < i || k >= j) by {
        assert(bytes::lt(s[k].key(), key) <==> k < i);
    }
    if i == j {
        lemma_filter_prefix(s, keep, s.len() as int);
        assert(s.take(s.len() as int) =~= s.take(i) + s.skip(j));
    } else {
        lemma_filter_gap(s, keep, i);
        assert(s.remove(i) =~= s.take(i) + s.skip(j));
    }
    if i < j {
        assert(s[i].key() == key);
        let c = choose|c: int| 0 <= c < s.len() && (#[trigger] s[c]).key() == key;
        assert(s[c].key() == key);
        assert(bytes::lt(s[c].key(), key) <==> c < i);
        assert(c == i);
    } else if holds_key(s, key) {
        let c = choose|c: int| 0 <= c < s.len() && (#[trigger] s[c]).key() == key;
        assert(bytes::lt(s[c].key(), key) <==> c < i);
    }
}

/// Filtering by a predicate that only one element misses.
proof fn lemma_filter_gap<A>(s: Seq<A>, keep: spec_fn(A) -> bool, n: int)
    requires
        0 <= n < s.len(),
        forall|i: int| 0 <= i < s.len() ==> (keep(#[trigger] s[i]) <==> i != n),
    ensures
        s.filter(keep) == s.remove(n),
    decreases s.len(),
{
    reveal(Seq::filter);
    let rest = s.drop_last();
    assert(forall|i: int| 0 <= i < rest.len() ==> rest[i] == s[i]);
    if n == s.len() - 1 {
        lemma_filter_prefix(rest, keep, rest.len() as int);
        assert(rest.take(rest.len() as int) =~= s.remove(n));
        assert(!keep(s[n]));
    } else {
        lemma_filter_gap(rest, keep, n);
        assert(rest.remove(n).push(s.last()) =~= s.remove(n));
        assert(keep(s[s.len() - 1]));
    }
}

/// Every key has its place among sorted elements.
pub proof fn lemma_place<T: Keyed>(s: Seq<T>, key: Seq<u8>) -> (r: (int, int))
    requires
        sorted(s),
    ensures
        stands_at(s, key, r.0, r.1),
    decreases s.len(),
{
    if s.len() == 0 {
        (0, 0)
    } else {
        let rest = s.drop_last();
        let n = rest.len() as int;
        let last = s[n].key();
        assert forall|i: int, j: int| 0 <= i < j < rest.len() implies bytes::lt(
            rest[i].key(),
            rest[j].key(),
        ) by {
            assert(rest[i] == s[i] && rest[j] == s[j]);
        }
        let (i, j) = lemma_place(rest, key);
        assert(forall|k: int| 0 <= k < rest.len() ==> rest[k] == s[k]);
        bytes::lemma_total(last, key);
        if bytes::lt(key, last) {
            (i, j)
        } else {
            assert forall|k: int| 0 <= k < n implies bytes::lt((#[trigger] s[k]).key(), key) by {
                assert(bytes::lt(s[k].key(), last));
                bytes::lemma_lt_le_transitive(s[k].key(), last, key);
            }
            if last == key {
                (n, n + 1)
            } else {
                (n + 1, n + 1)
            }
        }
    }
}

/// Putting an element keeps the order, and the key then has that element.
pub proof fn lemma_put<T: Keyed>(s: Seq<T>, t: T)
    requires
        sorted(s),
    ensures
        sorted(put(s, t)),
        get(put(s, t), t.key()) == Some(t),
        forall|key: Seq<u8>| key != t.key() ==> #[trigger] get(put(s, t), key) == get(s, key),
        forall|key: Seq<u8>| key != t.key() ==> (#[trigger] holds_key(put(s, t), key) <==> holds_key(s, key)),
        holds_key(put(s, t), t.key()),
{
    let (i, j) = lemma_place(s, t.key());
    lemma_stands_at(s, t.key(), i, j);
    let r = put(s, t);
    assert(r =~= s.take(i) + seq![t] + s.skip(j));
    assert forall|a: int, b: int| 0 <= a < b < r.len() implies bytes::lt(
        r[a].key(),
        r[b].key(),
    ) by {
        let x = if a < i { a } else { a - 1 - i + j };
        let y = if b < i { b } else { b - 1 - i + j };
        if a < i && b < i {
        } else if a < i && b > i {
            assert(r[b] == s[y]);
            bytes::lemma_lt_transitive(s[a].key(), t.key(), s[y].key());
        } else if a == i {
            assert(r[b] == s[y]);
        } else if a > i {
            assert(r[a] == s[x] && r[b] == s[y]);
        }
    }
    assert(stands_at(r, t.key(), i, i + 1)) by {
        assert forall|k: int| i + 1 <= k < r.len() implies bytes::lt(
            t.key(),
            (#[trigger] r[k]).key(),
        ) by {
            assert(r[k] == s[k - 1 - i + j]);
        }
    }
    lemma_stands_at(r, t.key(), i, i + 1);
    assert forall|key: Seq<u8>| key != t.key() implies #[trigger] get(r, key) == get(s, key)
        && (holds_key(r, key) <==> holds_key(s, key)) by {
        lemma_get_same(s, r, key, i, j);
    }
    assert forall|key: Seq<u8>| key != t.key() implies (#[trigger] holds_key(r, key) <==> holds_key(s, key)) by {
        lemma_get_same(s, r, key, i, j);
    }
}

/// Another key has the same element before and after.
proof fn lemma_get_same<T: Keyed>(s: Seq<T>, r: Seq<T>, key: Seq<u8>, i: int, j: int)
    requires
        sorted(s),
        sorted(r),
        0 <= i <= j <= s.len(),
        r.len() == s.len() - (j - i) + 1,
        forall|k: int| 0 <= k < i ==> r[k] == s[k],
        forall|k: int| i < k < r.len() ==> #[trigger] r[k] == s[k - 1 - i + j],
        r[i].key() != key,
        i < j ==> s[i].key() != key,
        j <= i + 1,
    ensures
        get(r, key) == get(s, key),
        holds_key(r, key) <==> holds_key(s, key),
{
    let (a, b) = lemma_place(s, key);
    lemma_stands_at(s, key, a, b);
    let (c, d) = lemma_place(r, key);
    lemma_stands_at(r, key, c, d);
    if a < b {
        let k = if a < i { a } else { a - j + i + 1 };
        assert(r[k] == s[a]);
        assert(holds_key(r, key));
        lemma_unique(r, key, k, c);
    } else if c < d {
        let k = if c < i { c } else { c - 1 - i + j };
        assert(r[c] == s[k]);
        assert(holds_key(s, key));
    }
}

/// Sorted elements have one position per key.
proof fn lemma_unique<T: Keyed>(s: Seq<T>, key: Seq<u8>, a: int, b: int)
    requires
        sorted(s),
        0 <= a < s.len(),
        0 <= b < s.len(),
        s[a].key() == key,
        s[b].key() == key,
    ensures
        a == b,
{
    if a < b {
        assert(bytes::lt(s[a].key(), s[b].key()));
        bytes::lemma_lt_irreflexive(key);
    } else if b < a {
        assert(bytes::lt(s[b].key(), s[a].key()));
        bytes::lemma_lt_irreflexive(key);
    }
}

/// Dropping a key keeps the order, and leaves other keys alone.
pub proof fn lemma_drop<T: Keyed>(s: Seq<T>, key: Seq<u8>)
    requires
        sorted(s),
    ensures
        sorted(drop(s, key)),
        !holds_key(drop(s, key), key),
        forall|other: Seq<u8>|
            other != key ==> #[trigger] get(drop(s, key), other) == get(s, other),
        forall|other: Seq<u8>|
            other != key ==> (#[trigger] holds_key(drop(s, key), other) <==> holds_key(s, other)),
{
    let (i, j) = lemma_place(s, key);
    lemma_stands_at(s, key, i, j);
    let r = drop(s, key);
    assert(r =~= s.take(i) + s.skip(j));
    assert forall|a: int, b: int| 0 <= a < b < r.len() implies bytes::lt(
        r[a].key(),
        r[b].key(),
    ) by {
        let x = if a < i { a } else { a - i + j };
        let y = if b < i { b } else { b - i + j };
        assert(r[a] == s[x] && r[b] == s[y]);
    }
    assert(stands_at(r, key, i, i)) by {
        assert forall|k: int| i <= k < r.len() implies bytes::lt(key, (#[trigger] r[k]).key()) by {
            assert(r[k] == s[k - i + j]);
        }
    }
    lemma_stands_at(r, key, i, i);
    assert forall|other: Seq<u8>| other != key implies #[trigger] get(r, other) == get(s, other)
        && (holds_key(r, other) <==> holds_key(s, other)) by {
        lemma_get_dropped(s, r, other, i, j);
    }
    assert forall|other: Seq<u8>| other != key implies (#[trigger] holds_key(r, other) <==> holds_key(
        s,
        other,
    )) by {
        lemma_get_dropped(s, r, other, i, j);
    }
}

/// Another key has the same element before and after a removal.
proof fn lemma_get_dropped<T: Keyed>(s: Seq<T>, r: Seq<T>, key: Seq<u8>, i: int, j: int)
    requires
        sorted(s),
        sorted(r),
        0 <= i <= j <= s.len(),
        j <= i + 1,
        r == s.take(i) + s.skip(j),
        i < j ==> s[i].key() != key,
    ensures
        get(r, key) == get(s, key),
        holds_key(r, key) <==> holds_key(s, key),
{
    let (a, b) = lemma_place(s, key);
    lemma_stands_at(s, key, a, b);
    let (c, d) = lemma_place(r, key);
    lemma_stands_at(r, key, c, d);
    if a < b {
        let k = if a < i { a } else { a - j + i };
        assert(r[k] == s[a]);
        assert(holds_key(r, key));
        lemma_unique(r, key, k, c);
    } else if c < d {
        let k = if c < i { c } else { c - i + j };
        assert(r[c] == s[k]);
        assert(holds_key(s, key));
    }
}

/// Putting nothing changes nothing, and the last element is put last.
pub proof fn lemma_put_all_step<T: Keyed>(s: Seq<T>, more: Seq<T>)
    ensures
        more.len() == 0 ==> put_all(s, more) == s,
        more.len() > 0 ==> put_all(s, more) == put(put_all(s, more.drop_last()), more.last()),
{
    reveal_with_fuel(put_all, 2);
}

/// Putting elements one after the other keeps the order.
pub proof fn lemma_put_all<T: Keyed>(s: Seq<T>, more: Seq<T>)
    requires
        sorted(s),
    ensures
        sorted(put_all(s, more)),
    decreases more.len(),
{
    reveal_with_fuel(put_all, 2);
    if more.len() > 0 {
        lemma_put_all(s, more.drop_last());
        lemma_put(put_all(s, more.drop_last()), more.last());
    }
}

/// Putting sorted elements behind smaller ones appends them.
pub proof fn lemma_put_sorted<T: Keyed>(s: Seq<T>, more: Seq<T>)
    requires
        sorted(s + more),
    ensures
        put_all(s, more) == s + more,
    decreases more.len(),
{
    reveal_with_fuel(put_all, 2);
    if more.len() == 0 {
        assert(s + more =~= s);
    } else {
        let all = s + more;
        let head = more.drop_last();
        let t = more.last();
        assert(all.drop_last() =~= s + head);
        assert forall|i: int, j: int| 0 <= i < j < (s + head).len() implies bytes::lt(
            (s + head)[i].key(),
            (s + head)[j].key(),
        ) by {
            assert((s + head)[i] == all[i] && (s + head)[j] == all[j]);
        }
        lemma_put_sorted(s, head);
        let n = (s + head).len() as int;
        assert(stands_at(s + head, t.key(), n, n)) by {
            assert forall|k: int| 0 <= k < n implies bytes::lt(
                (#[trigger] (s + head)[k]).key(),
                t.key(),
            ) by {
                assert((s + head)[k] == all[k]);
                assert(all[n] == t);
            }
        }
        lemma_stands_at(s + head, t.key(), n, n);
        assert(put(s + head, t) =~= s + more);
    }
}

/// The abstract elements that executable ones stand for.
pub open spec fn models<T: Stored>(s: Seq<T>) -> Seq<T::Model> {
    s.map_values(|t: T| t.model())
}

/// Elements and their abstract ones are ordered alike.
pub proof fn lemma_models<T: Stored>(s: Seq<T>)
    ensures
        models(s).len() == s.len(),
        forall|i: int| 0 <= i < s.len() ==> (#[trigger] models(s)[i]).key() == s[i].key(),
        sorted(s) <==> sorted(models(s)),
        forall|key: Seq<u8>| #[trigger] holds_key(models(s), key) <==> holds_key(s, key),
{
    let m = models(s);
    assert forall|i: int| 0 <= i < s.len() implies (#[trigger] m[i]).key() == s[i].key() by {
        s[i].lemma_model();
    }
    if sorted(s) {
        assert forall|i: int, j: int| 0 <= i < j < m.len() implies bytes::lt(
            m[i].key(),
            m[j].key(),
        ) by {
            assert(bytes::lt(s[i].key(), s[j].key()));
        }
    }
    if sorted(m) {
        assert forall|i: int, j: int| 0 <= i < j < s.len() implies bytes::lt(
            s[i].key(),
            s[j].key(),
        ) by {
            assert(bytes::lt(m[i].key(), m[j].key()));
        }
    }
    assert forall|key: Seq<u8>| #[trigger] holds_key(m, key) <==> holds_key(s, key) by {
        if holds_key(m, key) {
            let i = choose|i: int| 0 <= i < m.len() && (#[trigger] m[i]).key() == key;
            assert(s[i].key() == key);
        }
        if holds_key(s, key) {
            let i = choose|i: int| 0 <= i < s.len() && (#[trigger] s[i]).key() == key;
            assert(m[i].key() == key);
        }
    }
}

/// A key stands at the same place among abstract elements.
pub proof fn lemma_models_place<T: Stored>(s: Seq<T>, key: Seq<u8>, i: int, j: int)
    requires
        stands_at(s, key, i, j),
    ensures
        stands_at(models(s), key, i, j),
        models(s).take(i) == models(s.take(i)),
        models(s).skip(j) == models(s.skip(j)),
        models(s).skip(i) == models(s.skip(i)),
{
    lemma_models(s);
    let m = models(s);
    assert forall|k: int| 0 <= k < i implies bytes::lt((#[trigger] m[k]).key(), key) by {
        assert(bytes::lt(s[k].key(), key));
    }
    assert forall|k: int| j <= k < m.len() implies bytes::lt(key, (#[trigger] m[k]).key()) by {
        assert(bytes::lt(key, s[k].key()));
    }
    assert(m.take(i) =~= models(s.take(i)));
    assert(m.skip(j) =~= models(s.skip(j)));
    assert(m.skip(i) =~= models(s.skip(i)));
}

/// Putting an element puts its abstract one.
pub proof fn lemma_models_put<T: Stored>(s: Seq<T>, t: T)
    requires
        sorted(s),
    ensures
        models(put(s, t)) == put(models(s), t.model()),
        sorted(models(put(s, t))),
{
    let (i, j) = lemma_place(s, t.key());
    lemma_stands_at(s, t.key(), i, j);
    lemma_models_place(s, t.key(), i, j);
    lemma_stands_at(models(s), t.key(), i, j);
    t.lemma_model();
    assert(models(put(s, t)) =~= put(models(s), t.model()));
    lemma_models(s);
    lemma_put(models(s), t.model());
}

/// Dropping a key drops it among the abstract elements.
pub proof fn lemma_models_drop<T: Stored>(s: Seq<T>, key: Seq<u8>)
    requires
        sorted(s),
    ensures
        models(drop(s, key)) == drop(models(s), key),
        sorted(models(drop(s, key))),
        get(models(s), key) == match get(s, key) {
            Some(t) => Some(t.model()),
            None => None,
        },
{
    let (i, j) = lemma_place(s, key);
    lemma_stands_at(s, key, i, j);
    lemma_models_place(s, key, i, j);
    lemma_stands_at(models(s), key, i, j);
    assert(models(drop(s, key)) =~= drop(models(s), key));
    lemma_models(s);
    lemma_drop(models(s), key);
}

/// Finds the place of a key: its position, or the position it would take.
pub fn locate<T: Stored>(v: &Vec<T>, key: &[u8]) -> (r: Result<usize, usize>)
    requires
        sorted(v@),
    ensures
        r matches Ok(i) ==> stands_at(v@, key@, i as int, i + 1),
        r matches Err(i) ==> stands_at(v@, key@, i as int, i as int),
{
    let mut low: usize = 0;
    let mut high: usize = v.len();
    while low < high
        invariant
            sorted(v@),
            low <= high <= v@.len(),
            forall|k: int| 0 <= k < low ==> bytes::lt((#[trigger] v@[k]).key(), key@),
            forall|k: int| high <= k < v@.len() ==> bytes::lt(key@, (#[trigger] v@[k]).key()),
        decreases high - low,
    {
        let mid: usize = low + (high - low) / 2;
        match bytes::side(v[mid].key_bytes(), key) {
            Side::Before => {
                proof {
                    assert forall|k: int| 0 <= k < mid + 1 implies bytes::lt(
                        (#[trigger] v@[k]).key(),
                        key@,
                    ) by {
                        if k < mid {
                            bytes::lemma_lt_transitive(v@[k].key(), v@[mid as int].key(), key@);
                        }
                    }
                }
                low = mid + 1;
            },
            Side::Same => {
                proof {
                    assert(forall|k: int|
                        0 <= k < mid ==> bytes::lt((#[trigger] v@[k]).key(), v@[mid as int].key()));
                    assert(forall|k: int|
                        mid < k < v@.len() ==> bytes::lt(
                            v@[mid as int].key(),
                            (#[trigger] v@[k]).key(),
                        ));
                }
                return Ok(mid);
            },
            Side::After => {
                proof {
                    assert forall|k: int| mid <= k < v@.len() implies bytes::lt(
                        key@,
                        (#[trigger] v@[k]).key(),
                    ) by {
                        if k > mid {
                            bytes::lemma_lt_transitive(key@, v@[mid as int].key(), v@[k].key());
                        }
                    }
                }
                high = mid;
            },
        }
    }
    Err(low)
}

/// Puts an element in its place; an element with the same key leaves.
pub fn insert<T: Stored>(v: &mut Vec<T>, t: T)
    requires
        sorted(old(v)@),
    ensures
        sorted(final(v)@),
        final(v)@ == put(old(v)@, t),
        models(final(v)@) == put(models(old(v)@), t.model()),
        sorted(models(final(v)@)),
{
    let ghost s = v@;
    let place = {
        let key = t.key_bytes();
        locate(v, key)
    };
    match place {
        Ok(i) => {
            v[i] = t;
            proof {
                lemma_stands_at(s, t.key(), i as int, i + 1);
                assert(v@ =~= put(s, t));
            }
        },
        Err(i) => {
            v.insert(i, t);
            proof {
                lemma_stands_at(s, t.key(), i as int, i as int);
                assert(v@ =~= put(s, t));
            }
        },
    }
    proof {
        lemma_put(s, t);
        lemma_models_put(s, t);
    }
}

/// Takes the element with the key out.
pub fn remove<T: Stored>(v: &mut Vec<T>, key: &[u8]) -> (r: Option<T>)
    requires
        sorted(old(v)@),
    ensures
        sorted(final(v)@),
        final(v)@ == drop(old(v)@, key@),
        r == get(old(v)@, key@),
{
    let ghost s = v@;
    let place = locate(v, key);
    match place {
        Ok(i) => {
            let t = v.remove(i);
            proof {
                lemma_removed(s, key@, i as int, i + 1);
                assert(v@ =~= s.take(i as int) + s.skip(i + 1));
            }
            Some(t)
        },
        Err(i) => {
            proof {
                lemma_removed(s, key@, i as int, i as int);
                assert(s =~= s.take(i as int) + s.skip(i as int));
            }
            None
        },
    }
}

/// What is left and what leaves when a key is taken out of its place.
proof fn lemma_removed<T: Keyed>(s: Seq<T>, key: Seq<u8>, i: int, j: int)
    requires
        sorted(s),
        stands_at(s, key, i, j),
    ensures
        drop(s, key) == s.take(i) + s.skip(j),
        sorted(drop(s, key)),
        get(s, key) == if i < j {
            Some(s[i])
        } else {
            None
        },
{
    lemma_stands_at(s, key, i, j);
    lemma_drop(s, key);
}

/// Reports whether some element has the key.
pub fn contains<T: Stored>(v: &Vec<T>, key: &[u8]) -> (r: bool)
    requires
        sorted(v@),
    ensures
        r == holds_key(v@, key@),
        r == holds_key(models(v@), key@),
{
    proof {
        lemma_models(v@);
    }
    match locate(v, key) {
        Ok(i) => {
            proof {
                lemma_stands_at(v@, key@, i as int, i + 1);
            }
            true
        },
        Err(i) => {
            proof {
                lemma_stands_at(v@, key@, i as int, i as int);
            }
            false
        },
    }
}

/// Putting elements in two steps.
pub proof fn lemma_put_all_concat<T: Keyed>(s: Seq<T>, a: Seq<T>, b: Seq<T>)
    ensures
        put_all(s, a + b) == put_all(put_all(s, a), b),
    decreases b.len(),
{
    reveal_with_fuel(put_all, 2);
    if b.len() == 0 {
        assert(a + b =~= a);
    } else {
        assert((a + b).drop_last() =~= a + b.drop_last());
        assert((a + b).last() == b.last());
        lemma_put_all_concat(s, a, b.drop_last());
    }
}

/// Elements with different keys.
pub open spec fn distinct_keys<T: Keyed>(s: Seq<T>) -> bool {
    forall|i: int, j: int| 0 <= i < j < s.len() ==> (#[trigger] s[i]).key() != (#[trigger] s[j]).key()
}

/// Sorted elements are determined by which elements there are.
pub proof fn lemma_same_members<T: Keyed>(s: Seq<T>, t: Seq<T>)
    requires
        sorted(s),
        sorted(t),
        forall|x: T| s.contains(x) <==> t.contains(x),
    ensures
        s == t,
    decreases s.len(),
{
    if s.len() == 0 {
        if t.len() > 0 {
            assert(t.contains(t[0]));
            assert(s.contains(t[0]));
        }
        assert(s =~= t);
    } else {
        assert(s.contains(s[s.len() - 1]));
        let x = s.last();
        assert(t.contains(x));
        let k = t.index_of(x);
        let y = t.last();
        assert(t.contains(t[t.len() - 1]));
        assert(s.contains(y));
        let m = s.index_of(y);
        if x != y {
            assert(m < s.len() - 1);
            assert(bytes::lt(s[m].key(), s[s.len() - 1].key()));
            assert(k < t.len() - 1);
            assert(bytes::lt(t[k].key(), t[t.len() - 1].key()));
            bytes::lemma_lt_asymmetric(x.key(), y.key());
            assert(false);
        }
        let p = s.drop_last();
        let q = t.drop_last();
        lemma_sorted_head(s);
        lemma_sorted_head(t);
        assert forall|z: T| p.contains(z) <==> q.contains(z) by {
            if p.contains(z) {
                let i = p.index_of(z);
                assert(s[i] == z);
                assert(s.contains(z));
                let j = t.index_of(z);
                assert(bytes::lt(s[i].key(), s[s.len() - 1].key()));
                bytes::lemma_lt_irreflexive(x.key());
                assert(z != x);
                assert(q[j] == z);
            }
            if q.contains(z) {
                let i = q.index_of(z);
                assert(t[i] == z);
                assert(t.contains(z));
                let j = s.index_of(z);
                assert(bytes::lt(t[i].key(), t[t.len() - 1].key()));
                bytes::lemma_lt_irreflexive(y.key());
                assert(z != y);
                assert(p[j] == z);
            }
        }
        lemma_same_members(p, q);
        assert(s =~= p.push(x));
        assert(t =~= q.push(y));
    }
}

proof fn lemma_sorted_head<T: Keyed>(s: Seq<T>)
    requires
        sorted(s),
        s.len() > 0,
    ensures
        sorted(s.drop_last()),
{
    let p = s.drop_last();
    assert forall|i: int, j: int| 0 <= i < j < p.len() implies bytes::lt(p[i].key(), p[j].key()) by {
        assert(bytes::lt(s[i].key(), s[j].key()));
    }
}

/// Putting elements with different keys keeps all of them.
proof fn lemma_put_all_members<T: Keyed>(list: Seq<T>)
    requires
        distinct_keys(list),
    ensures
        forall|x: T| #[trigger] put_all(Seq::empty(), list).contains(x) <==> list.contains(x),
    decreases list.len(),
{
    let none = Seq::<T>::empty();
    lemma_put_all_step(none, list);
    if list.len() > 0 {
        let head = list.drop_last();
        let last = list.last();
        assert forall|i: int, j: int| 0 <= i < j < head.len() implies (#[trigger] head[i]).key()
            != (#[trigger] head[j]).key() by {
            assert(list[i].key() != list[j].key());
        }
        lemma_put_all_members(head);
        lemma_put_all(none, head);
        let before = put_all(none, head);
        let (a, b) = lemma_place(before, last.key());
        lemma_stands_at(before, last.key(), a, b);
        if a < b {
            assert(before.contains(before[a]));
            assert(head.contains(before[a]));
            let i = head.index_of(before[a]);
            assert(list[i].key() != list[list.len() - 1].key());
        }
        let after = put_all(none, list);
        assert(after =~= before.insert(a, last));
        assert forall|x: T| #[trigger] after.contains(x) <==> list.contains(x) by {
            if after.contains(x) {
                let i = after.index_of(x);
                if i < a {
                    assert(before.contains(before[i]));
                } else if i > a {
                    assert(before.contains(before[i - 1]));
                }
                if x != last {
                    assert(head.contains(x));
                    let j = head.index_of(x);
                    assert(list[j] == x);
                } else {
                    assert(list[list.len() - 1] == x);
                }
            }
            if list.contains(x) {
                let j = list.index_of(x);
                if j < list.len() - 1 {
                    assert(head[j] == x);
                    assert(head.contains(x));
                    assert(before.contains(x));
                    let i = before.index_of(x);
                    if i < a {
                        assert(after[i] == x);
                    } else {
                        assert(after[i + 1] == x);
                    }
                } else {
                    assert(after[a] == x);
                }
            }
        }
    } else {
        assert(put_all(none, list) =~= list);
    }
}

/// Law: the order in which elements with different keys are put does not
/// matter.
pub proof fn law_put_order_does_not_matter<T: Keyed>(a: Seq<T>, b: Seq<T>)
    requires
        distinct_keys(a),
        distinct_keys(b),
        forall|x: T| a.contains(x) <==> b.contains(x),
    ensures
        put_all(Seq::empty(), a) == put_all(Seq::empty(), b),
{
    let none = Seq::<T>::empty();
    lemma_put_all(none, a);
    lemma_put_all(none, b);
    lemma_put_all_members(a);
    lemma_put_all_members(b);
    assert forall|x: T| put_all(none, a).contains(x) <==> put_all(none, b).contains(x) by {
        assert(put_all(none, a).contains(x) <==> a.contains(x));
        assert(put_all(none, b).contains(x) <==> b.contains(x));
    }
    lemma_same_members(put_all(none, a), put_all(none, b));
}

} // verus!
