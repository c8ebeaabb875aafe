//! A byte-weighted cache that evicts its least recently used entries.
//!
//! The cache is partitioned into shards, each with its own byte budget, so that
//! callers can guard the shards independently.

use hashlink::LinkedHashMap;
use vstd::prelude::*;
use vstd::string::*;

verus! {

/// `hashlink::LinkedHashMap`, a hash map that keeps its entries in a linked list.
#[verifier::external_type_specification]
#[verifier::external_body]
#[verifier::reject_recursive_types(K)]
#[verifier::reject_recursive_types(V)]
#[verifier::reject_recursive_types(S)]
pub struct ExLinkedHashMap<K, V, S>(LinkedHashMap<K, V, S>);

/// `hashlink::DefaultHashBuilder`, the hasher of a linked map that names none.
#[verifier::external_type_specification]
#[verifier::external_body]
pub struct ExDefaultHashBuilder(hashlink::DefaultHashBuilder);

/// The keys of a linked map with their slots, from front to back.
pub uninterp spec fn order(map: LinkedHashMap<String, usize>) -> Seq<(Seq<char>, usize)>;

/// The entries of other keys.
pub open spec fn other_than<T>(key: Seq<char>) -> spec_fn((Seq<char>, T)) -> bool {
    |entry: (Seq<char>, T)| entry.0 != key
}

/// The entries whose key is not `key`, in order.
pub open spec fn without<T>(entries: Seq<(Seq<char>, T)>, key: Seq<char>) -> Seq<(Seq<char>, T)> {
    entries.filter(other_than(key))
}

/// The first value under `key`.
pub open spec fn lookup<T>(entries: Seq<(Seq<char>, T)>, key: Seq<char>) -> Option<T>
    decreases entries.len(),
{
    if entries.len() == 0 {
        None
    } else if entries.first().0 == key {
        Some(entries.first().1)
    } else {
        lookup(entries.drop_first(), key)
    }
}

/// Calls `LinkedHashMap::new`, which makes an empty map.
#[verifier::external_body]
fn order_new() -> (r: LinkedHashMap<String, usize>)
    ensures
        order(r) == Seq::<(Seq<char>, usize)>::empty(),
{
    LinkedHashMap::new()
}

/// Calls `LinkedHashMap::get`, which finds the value under a key and leaves the
/// order alone.
#[verifier::external_body]
fn order_get(map: &LinkedHashMap<String, usize>, key: &str) -> (r: Option<usize>)
    ensures
        r == lookup(order(*map), key@),
{
    map.get(key).copied()
}

/// Calls `LinkedHashMap::len`, which counts the entries.
#[verifier::external_body]
fn order_len(map: &LinkedHashMap<String, usize>) -> (r: usize)
    ensures
        r == order(*map).len(),
{
    map.len()
}

/// Calls `LinkedHashMap::values`, which walks the values from front to back.
#[verifier::external_body]
fn order_slots(map: &LinkedHashMap<String, usize>) -> (r: Vec<usize>)
    ensures
        r@ == order(*map).map_values(|entry: (Seq<char>, usize)| entry.1),
{
    map.values().copied().collect()
}

/// Calls `LinkedHashMap::remove`, which takes the entry of a key out and leaves
/// the order of the others alone.
#[verifier::external_body]
fn order_remove(map: &mut LinkedHashMap<String, usize>, key: &str) -> (r: Option<usize>)
    ensures
        r == lookup(order(*old(map)), key@),
        order(*final(map)) == without(order(*old(map)), key@),
{
    map.remove(key)
}

/// Calls `LinkedHashMap::insert`, which puts an entry at the back, in place of
/// the one that the key had anywhere in the list.
#[verifier::external_body]
fn order_insert(map: &mut LinkedHashMap<String, usize>, key: String, slot: usize)
    ensures
        order(*final(map)) == without(order(*old(map)), key@).push((key@, slot)),
{
    map.insert(key, slot);
}

/// Calls `LinkedHashMap::pop_front`, which takes the front entry out.
#[verifier::external_body]
fn order_pop_front(map: &mut LinkedHashMap<String, usize>) -> (r: Option<(String, usize)>)
    ensures
        r is None <==> order(*old(map)).len() == 0,
        r matches Some((key, slot)) ==> {
            &&& order(*old(map)).first() == (key@, slot)
            &&& order(*final(map)) == order(*old(map)).drop_first()
        },
        r is None ==> order(*final(map)) == order(*old(map)),
{
    map.pop_front()
}

/// Calls `LinkedHashMap::to_back`, which moves the entry of a key to the back,
/// if there is one.
#[verifier::external_body]
fn order_to_back(map: &mut LinkedHashMap<String, usize>, key: &str) -> (r: Option<usize>)
    ensures
        r == lookup(order(*old(map)), key@),
        order(*final(map)) == match r {
            Some(slot) => without(order(*old(map)), key@).push((key@, slot)),
            None => order(*old(map)),
        },
{
    map.to_back(key).copied()
}

/// Implemented by cached values to report their size in bytes.
pub trait Weighable {
    /// The size of the value.
    spec fn weight(&self) -> usize;

    /// Returns the size of the value.
    fn size(&self) -> (r: usize)
        ensures
            r == self.weight(),
    ;
}

/// Size of all entries together.
pub open spec fn total_weight<V: Weighable>(entries: Seq<(Seq<char>, V)>) -> int
    decreases entries.len(),
{
    if entries.len() == 0 {
        0
    } else {
        total_weight(entries.drop_last()) + entries.last().1.weight()
    }
}

/// What is left of the entries once the oldest ones have made room: the entry
/// at the back always stays, and no more leave than the budget asks for.
pub open spec fn trimmed<V: Weighable>(entries: Seq<(Seq<char>, V)>, max_size: int) -> Seq<
    (Seq<char>, V),
>
    decreases entries.len(),
{
    if entries.len() <= 1 || total_weight(entries) <= max_size {
        entries
    } else {
        trimmed(entries.drop_first(), max_size)
    }
}

/// The accounted size after one weight was replaced by another.
pub struct WeightReplacement {
    /// The new size, or the greatest one when it does not fit.
    pub size: usize,
    /// Whether the new size does not fit.
    pub overflowed: bool,
}

/// Replaces `old_size` by `new_size` in the accounted size.
pub fn replace_weight(curr_size: usize, old_size: usize, new_size: usize) -> (r: WeightReplacement)
    requires
        old_size <= curr_size,
    ensures
        r.overflowed == (curr_size - old_size + new_size > usize::MAX),
        r.size == if r.overflowed {
            usize::MAX as int
        } else {
            curr_size - old_size + new_size
        },
{
    let remaining: usize = curr_size - old_size;
    match remaining.checked_add(new_size) {
        Some(size) => WeightReplacement { size, overflowed: false },
        None => WeightReplacement { size: usize::MAX, overflowed: true },
    }
}

/// Total weight of a concatenation.
proof fn lemma_total_first<V: Weighable>(entries: Seq<(Seq<char>, V)>)
    requires
        entries.len() > 0,
    ensures
        total_weight(entries) == entries.first().1.weight() + total_weight(entries.drop_first()),
    decreases entries.len(),
{
    if entries.len() == 1 {
        assert(entries.drop_first() =~= Seq::empty());
        assert(entries.drop_last() =~= Seq::empty());
    } else {
        lemma_total_first(entries.drop_last());
        assert(entries.drop_last().drop_first() =~= entries.drop_first().drop_last());
        assert(entries.drop_last().first() == entries.first());
        assert(entries.drop_first().last() == entries.last());
    }
}

/// Total weights are not negative.
proof fn lemma_total_nonnegative<V: Weighable>(entries: Seq<(Seq<char>, V)>)
    ensures
        total_weight(entries) >= 0,
    decreases entries.len(),
{
    if entries.len() > 0 {
        lemma_total_nonnegative(entries.drop_last());
    }
}

/// Distinct keys.
pub open spec fn distinct_keys<T>(entries: Seq<(Seq<char>, T)>) -> bool {
    forall|i: int, j: int|
        0 <= i < entries.len() && 0 <= j < entries.len() && i != j ==> entries[i].0 != entries[j].0
}

/// The index of a key among distinct keys, and what removing it leaves.
proof fn lemma_without<T>(entries: Seq<(Seq<char>, T)>, key: Seq<char>) -> (k: int)
    requires
        distinct_keys(entries),
    ensures
        lookup(entries, key) is Some <==> 0 <= k < entries.len(),
        0 <= k < entries.len() ==> {
            &&& entries[k].0 == key
            &&& lookup(entries, key) == Some(entries[k].1)
            &&& without(entries, key) == entries.remove(k)
        },
        !(0 <= k < entries.len()) ==> {
            &&& without(entries, key) == entries
            &&& forall|i: int| 0 <= i < entries.len() ==> entries[i].0 != key
        },
    decreases entries.len(),
{
    let keep = other_than::<T>(key);
    if entries.len() == 0 {
        reveal(Seq::filter);
        assert(without(entries, key) =~= entries);
        -1
    } else {
        let rest = entries.drop_first();
        assert forall|i: int, j: int|
            0 <= i < rest.len() && 0 <= j < rest.len() && i != j implies rest[i].0 != rest[j].0 by {
            assert(rest[i] == entries[i + 1]);
            assert(rest[j] == entries[j + 1]);
        }
        let k = lemma_without(rest, key);
        lemma_filter_first(entries, keep);
        if entries.first().0 == key {
            if 0 <= k < rest.len() {
                assert(rest[k] == entries[k + 1]);
                assert(entries[k + 1].0 != entries[0].0);
            }
            assert(without(entries, key) =~= rest);
            assert(entries.remove(0) =~= rest);
            0
        } else if 0 <= k < rest.len() {
            assert(rest[k] == entries[k + 1]);
            assert(entries.remove(k + 1) =~= seq![entries.first()] + rest.remove(k));
            k + 1
        } else {
            assert(entries =~= seq![entries.first()] + rest);
            assert forall|i: int| 0 <= i < entries.len() implies entries[i].0 != key by {
                if i > 0 {
                    assert(entries[i] == rest[i - 1]);
                }
            }
            -1
        }
    }
}

/// Filtering front to back.
proof fn lemma_filter_first<A>(s: Seq<A>, keep: spec_fn(A) -> bool)
    requires
        s.len() > 0,
    ensures
        s.filter(keep) == (if keep(s.first()) {
            seq![s.first()]
        } else {
            Seq::empty()
        }) + s.drop_first().filter(keep),
    decreases s.len(),
{
    reveal(Seq::filter);
    if s.len() == 1 {
        assert(s.drop_first() =~= Seq::empty());
        assert(s.drop_last() =~= Seq::empty());
        assert(s.drop_last().filter(keep) =~= Seq::empty());
        assert(s.drop_first().filter(keep) =~= Seq::empty());
        assert(s.filter(keep) =~= (if keep(s.first()) {
            seq![s.first()]
        } else {
            Seq::empty()
        }) + s.drop_first().filter(keep));
    } else {
        lemma_filter_first(s.drop_last(), keep);
        assert(s.drop_last().drop_first() =~= s.drop_first().drop_last());
        assert(s.drop_last().first() == s.first());
        assert(s.drop_first().last() == s.last());
        assert(s.filter(keep) =~= (if keep(s.first()) {
            seq![s.first()]
        } else {
            Seq::empty()
        }) + s.drop_first().filter(keep));
    }
}

/// One independent partition of the cache.
pub struct CacheShard<V> {
    max_size: usize,
    curr_size: usize,
    order: LinkedHashMap<String, usize>,
    slots: Vec<Option<V>>,
    free: Vec<usize>,
}

/// `copy` is a clone of what the key had, if it had anything.
pub open spec fn clone_of<V: Clone>(value: Option<V>, copy: Option<V>) -> bool {
    match (value, copy) {
        (Some(v), Some(c)) => cloned::<V>(v, c),
        (None, None) => true,
        _ => false,
    }
}

/// The entries after `key` got a new value, or lost the one it had.
pub open spec fn updated<V: Weighable>(
    entries: Seq<(Seq<char>, V)>,
    max_size: usize,
    key: Seq<char>,
    new: Option<V>,
) -> Seq<(Seq<char>, V)> {
    match new {
        Some(value) => trimmed(without(entries, key).push((key, value)), max_size as int),
        None => without(entries, key),
    }
}

impl<V: Weighable + Clone> CacheShard<V> {
    /// The entries, from the least to the most recently used one.
    pub closed spec fn entries(&self) -> Seq<(Seq<char>, V)> {
        Seq::new(
            order(self.order).len(),
            |i: int| (order(self.order)[i].0, self.slots@[order(self.order)[i].1 as int]->Some_0),
        )
    }

    /// The byte budget.
    pub closed spec fn budget(&self) -> usize {
        self.max_size
    }

    /// Each entry has a slot of its own.
    closed spec fn linked(&self) -> bool {
        let o = order(self.order);
        &&& distinct_keys(o)
        &&& forall|i: int|
            0 <= i < o.len() ==> (#[trigger] o[i]).1 < self.slots@.len()
                && self.slots@[o[i].1 as int] is Some
        &&& forall|i: int, j: int|
            0 <= i < o.len() && 0 <= j < o.len() && i != j ==> (#[trigger] o[i]).1 != (
            #[trigger] o[j]).1
        &&& forall|i: int|
            0 <= i < self.free@.len() ==> (#[trigger] self.free@[i]) < self.slots@.len()
                && self.slots@[self.free@[i] as int] is None
        &&& self.free@.no_duplicates()
    }

    /// Each entry has a slot of its own, the size is accounted for, and only a
    /// sole entry may exceed the budget.
    pub closed spec fn wf(&self) -> bool {
        &&& self.linked()
        &&& self.curr_size == total_weight(self.entries())
        &&& self.curr_size <= self.max_size || self.entries().len() <= 1
    }

    /// Law: a shard holds each key once, and no more bytes than its budget, but
    /// for a single entry that is larger than that.
    pub proof fn law_within_budget(&self)
        requires
            self.wf(),
        ensures
            distinct_keys(self.entries()),
            total_weight(self.entries()) <= usize::MAX,
            total_weight(self.entries()) <= self.budget() || self.entries().len() <= 1,
    {
    }

    /// Creates a cache shard with the given maximum size in bytes.
    pub fn new(max_size: usize) -> (r: Self)
        ensures
            r.wf(),
            r.budget() == max_size,
            r.entries() == Seq::<(Seq<char>, V)>::empty(),
    {
        let r = CacheShard {
            max_size,
            curr_size: 0,
            order: order_new(),
            slots: Vec::new(),
            free: Vec::new(),
        };
        proof {
            assert(r.entries() =~= Seq::<(Seq<char>, V)>::empty());
        }
        r
    }

    /// Returns the accounted size.
    pub fn size(&self) -> (r: usize)
        requires
            self.wf(),
        ensures
            r == total_weight(self.entries()),
    {
        self.curr_size
    }

    /// Keys and slots line up between the order and the entries.
    proof fn lemma_entries(&self, key: Seq<char>)
        requires
            self.linked(),
        ensures
            distinct_keys(self.entries()),
            lookup(order(self.order), key) is Some <==> lookup(self.entries(), key) is Some,
            lookup(order(self.order), key) matches Some(slot) ==> {
                &&& slot < self.slots@.len()
                &&& self.slots@[slot as int] is Some
                &&& lookup(self.entries(), key) == Some(self.slots@[slot as int]->Some_0)
            },
    {
        let k = lemma_without(order(self.order), key);
        let l = lemma_without(self.entries(), key);
        if 0 <= k < order(self.order).len() {
            assert(self.entries()[k].0 == key);
            if 0 <= l < self.entries().len() && l != k {
                assert(self.entries()[l].0 != self.entries()[k].0);
            }
        } else if 0 <= l < self.entries().len() {
            assert(order(self.order)[l].0 == key);
        }
    }

    /// Returns the value for `key`, which becomes the most recently used entry.
    pub fn get(&mut self, key: &str) -> (r: Option<V>)
        requires
            old(self).wf(),
        ensures
            final(self).wf(),
            final(self).budget() == old(self).budget(),
            clone_of(lookup(old(self).entries(), key@), r),
            final(self).entries() == match lookup(old(self).entries(), key@) {
                Some(value) => without(old(self).entries(), key@).push((key@, value)),
                None => old(self).entries(),
            },
    {
        let ghost before = self.entries();
        let ghost o = order(self.order);
        proof {
            self.lemma_entries(key@);
        }
        match order_to_back(&mut self.order, key) {
            Some(slot) => {
                proof {
                    let k = lemma_without(o, key@);
                    let l = lemma_without(before, key@);
                    assert(before[k].0 == key@);
                    if l != k {
                        assert(before[l].0 != before[k].0);
                    }
                    lemma_remove_push(o, k, key@, slot);
                    let after = self.entries();
                    let value = self.slots@[slot as int]->Some_0;
                    assert(after =~= before.remove(k).push((key@, value)));
                    lemma_total_moved(before, k);
                }
                match &self.slots[slot] {
                    Some(value) => Some(value.clone()),
                    None => None,
                }
            },
            None => {
                proof {
                    assert(self.entries() =~= before);
                }
                None
            },
        }
    }

    /// Takes the entry of `key` out and returns its slot.
    fn unlink(&mut self, key: &str) -> (r: bool)
        requires
            old(self).linked(),
            old(self).curr_size == total_weight(old(self).entries()),
        ensures
            final(self).linked(),
            final(self).budget() == old(self).budget(),
            final(self).entries() == without(old(self).entries(), key@),
            final(self).curr_size == total_weight(final(self).entries()),
            r == (lookup(old(self).entries(), key@) is Some),
    {
        let ghost before = self.entries();
        let ghost o = order(self.order);
        proof {
            self.lemma_entries(key@);
        }
        let slot: usize = match order_get(&self.order, key) {
            Some(slot) => slot,
            None => {
                proof {
                    let l = lemma_without(before, key@);
                }
                return false;
            },
        };
        let old_size: usize = match &self.slots[slot] {
            Some(value) => value.size(),
            None => 0,
        };
        proof {
            let k = lemma_without(o, key@);
            let l = lemma_without(before, key@);
            assert(before[k].0 == key@);
            if l != k {
                assert(before[l].0 != before[k].0);
            }
            lemma_total_removed(before, k);
            lemma_total_nonnegative(before.remove(k));
        }
        self.curr_size = replace_weight(self.curr_size, old_size, 0).size;
        let _ = order_remove(&mut self.order, key);
        self.slots[slot] = None;
        self.free.push(slot);
        proof {
            let k = lemma_without(o, key@);
            let now = order(self.order);
            assert(now == o.remove(k));
            assert forall|i: int| 0 <= i < now.len() implies (#[trigger] now[i]).1 < self.slots@.len()
                && self.slots@[now[i].1 as int] is Some by {
                let j = if i < k { i } else { i + 1 };
                assert(now[i] == o[j]);
                assert(o[j].1 != o[k].1);
            }
            assert forall|i: int, j: int|
                0 <= i < now.len() && 0 <= j < now.len() && i != j implies (#[trigger] now[i]).1
                != (#[trigger] now[j]).1 by {
                let a = if i < k { i } else { i + 1 };
                let b = if j < k { j } else { j + 1 };
                assert(now[i] == o[a] && now[j] == o[b]);
            }
            assert(distinct_keys(now)) by {
                assert forall|i: int, j: int|
                    0 <= i < now.len() && 0 <= j < now.len() && i != j implies now[i].0
                    != now[j].0 by {
                    let a = if i < k { i } else { i + 1 };
                    let b = if j < k { j } else { j + 1 };
                    assert(now[i] == o[a] && now[j] == o[b]);
                }
            }
            assert(self.entries() =~= before.remove(k)) by {
                assert forall|i: int| 0 <= i < now.len() implies self.entries()[i]
                    == before.remove(k)[i] by {
                    let j = if i < k { i } else { i + 1 };
                    assert(now[i] == o[j]);
                    assert(o[j].1 != o[k].1);
                }
            }
        }
        true
    }

    /// Removes the entry for `key`.
    pub fn delete(&mut self, key: &str)
        requires
            old(self).wf(),
        ensures
            final(self).wf(),
            final(self).budget() == old(self).budget(),
            final(self).entries() == without(old(self).entries(), key@),
    {
        let ghost before = self.entries();
        let _ = self.unlink(key);
        proof {
            self.lemma_shrunk(before, key@);
        }
    }

    /// Removing an entry keeps the size within the budget.
    proof fn lemma_shrunk(&self, before: Seq<(Seq<char>, V)>, key: Seq<char>)
        requires
            self.linked(),
            self.curr_size == total_weight(self.entries()),
            distinct_keys(before),
            self.entries() == without(before, key),
            total_weight(before) <= self.max_size || before.len() <= 1,
        ensures
            self.wf(),
    {
        let k = lemma_without(before, key);
        if 0 <= k < before.len() {
            lemma_total_removed(before, k);
        }
    }
}

/// Removing an entry of a map and putting it at the back.
proof fn lemma_remove_push<T>(o: Seq<(Seq<char>, T)>, k: int, key: Seq<char>, value: T)
    requires
        distinct_keys(o),
        0 <= k < o.len(),
        o[k] == (key, value),
    ensures
        distinct_keys(o.remove(k).push((key, value))),
        forall|i: int|
            0 <= i < o.len() ==> #[trigger] o.remove(k).push((key, value))[i] == o[if i < k {
                i
            } else if i < o.len() - 1 {
                i + 1
            } else {
                k
            }],
{
}

/// Removing an entry takes its weight out of the total.
proof fn lemma_total_removed<V: Weighable>(entries: Seq<(Seq<char>, V)>, k: int)
    requires
        0 <= k < entries.len(),
    ensures
        total_weight(entries) == total_weight(entries.remove(k)) + entries[k].1.weight(),
    decreases entries.len(),
{
    if k == entries.len() - 1 {
        assert(entries.remove(k) =~= entries.drop_last());
    } else {
        lemma_total_removed(entries.drop_last(), k);
        assert(entries.remove(k).drop_last() =~= entries.drop_last().remove(k));
        assert(entries.remove(k).last() == entries.last());
    }
}

/// Appending an entry adds its weight to the total.
proof fn lemma_total_pushed<V: Weighable>(entries: Seq<(Seq<char>, V)>, entry: (Seq<char>, V))
    ensures
        total_weight(entries.push(entry)) == total_weight(entries) + entry.1.weight(),
{
    assert(entries.push(entry).drop_last() =~= entries);
}

/// Moving an entry to the back keeps the total.
proof fn lemma_total_moved<V: Weighable>(entries: Seq<(Seq<char>, V)>, k: int)
    requires
        0 <= k < entries.len(),
    ensures
        total_weight(entries.remove(k).push(entries[k])) == total_weight(entries),
{
    lemma_total_removed(entries, k);
    lemma_total_pushed(entries.remove(k), entries[k]);
}

impl<V: Weighable + Clone> CacheShard<V> {
    /// Adds the weights up again; reports whether the total does not fit.
    fn recompute_weight(&mut self) -> (overflowed: bool)
        requires
            old(self).linked(),
        ensures
            final(self).linked(),
            final(self).budget() == old(self).budget(),
            final(self).entries() == old(self).entries(),
            overflowed == (total_weight(old(self).entries()) > usize::MAX),
            final(self).curr_size == if overflowed {
                usize::MAX as int
            } else {
                total_weight(old(self).entries())
            },
    {
        let slots: Vec<usize> = order_slots(&self.order);
        let ghost entries = self.entries();
        let mut curr_size: usize = 0;
        let mut overflowed: bool = false;
        let mut i: usize = 0;
        while i < slots.len() && !overflowed
            invariant
                i <= slots@.len(),
                self.linked(),
                *self == *old(self),
                entries == self.entries(),
                slots@ == order(self.order).map_values(|entry: (Seq<char>, usize)| entry.1),
                !overflowed ==> curr_size == total_weight(entries.take(i as int)),
                overflowed ==> curr_size == usize::MAX && total_weight(entries.take(i as int))
                    > usize::MAX,
            decreases slots@.len() - i,
        {
            let slot: usize = slots[i];
            proof {
                assert(slot == order(self.order)[i as int].1);
                assert(entries.take(i + 1).drop_last() =~= entries.take(i as int));
                assert(entries.take(i + 1).last() == entries[i as int]);
            }
            let weight: usize = match &self.slots[slot] {
                Some(value) => value.size(),
                None => 0,
            };
            let replacement = replace_weight(curr_size, 0, weight);
            curr_size = replacement.size;
            overflowed = replacement.overflowed;
            i = i + 1;
        }
        self.curr_size = curr_size;
        proof {
            assert(self.entries() =~= entries);
            lemma_total_take(entries, i as int);
            assert(entries.take(entries.len() as int) =~= entries);
        }
        overflowed
    }

    /// Evicts the oldest entries until the rest fits the budget or one entry is
    /// left. A saturated total is not exact, so it is added up again after each
    /// eviction rather than reduced.
    fn remove_oldest(&mut self, overflowed: bool)
        requires
            old(self).linked(),
            overflowed == (total_weight(old(self).entries()) > usize::MAX),
            !overflowed ==> old(self).curr_size == total_weight(old(self).entries()),
        ensures
            final(self).wf(),
            final(self).budget() == old(self).budget(),
            final(self).entries() == trimmed(
                old(self).entries(),
                old(self).budget() as int,
            ),
    {
        let mut overflowed: bool = overflowed;
        let ghost all = self.entries();
        let ghost max = self.max_size as int;
        while overflowed || self.curr_size > self.max_size
            invariant
                self.linked(),
                self.max_size == max,
                self.max_size == old(self).max_size,
                overflowed == (total_weight(self.entries()) > usize::MAX),
                !overflowed ==> self.curr_size == total_weight(self.entries()),
                trimmed(self.entries(), max) == trimmed(all, max),
            ensures
                self.wf(),
                self.max_size == old(self).max_size,
                self.entries() == trimmed(all, max),
            decreases self.entries().len(),
        {
            if order_len(&self.order) <= 1 {
                // One weight always fits, so the total of a sole entry is exact.
                proof {
                    let e = self.entries();
                    if e.len() == 1 {
                        assert(e.drop_last() =~= Seq::<(Seq<char>, V)>::empty());
                        assert(total_weight(e.drop_last()) == 0);
                    }
                    assert(total_weight(e) <= usize::MAX);
                }
                break ;
            }
            let ghost before = self.entries();
            let ghost o = order(self.order);
            match order_pop_front(&mut self.order) {
                Some((_, slot)) => {
                    let weight: usize = match &self.slots[slot] {
                        Some(value) => value.size(),
                        None => 0,
                    };
                    self.slots[slot] = None;
                    self.free.push(slot);
                    proof {
                        let now = order(self.order);
                        assert(forall|i: int| 0 <= i < now.len() ==> now[i] == o[i + 1]);
                        assert(o[0].1 == slot);
                        assert forall|i: int| 0 <= i < now.len() implies (#[trigger] now[i]).1
                            < self.slots@.len() && self.slots@[now[i].1 as int] is Some by {
                            assert(now[i] == o[i + 1]);
                            assert(o[i + 1].1 != o[0].1);
                        }
                        assert forall|i: int, j: int|
                            0 <= i < now.len() && 0 <= j < now.len() && i != j implies (
                        #[trigger] now[i]).1 != (#[trigger] now[j]).1 by {
                            assert(now[i] == o[i + 1] && now[j] == o[j + 1]);
                        }
                        assert(distinct_keys(now)) by {
                            assert forall|i: int, j: int|
                                0 <= i < now.len() && 0 <= j < now.len() && i != j implies now[i].0
                                != now[j].0 by {
                                assert(now[i] == o[i + 1] && now[j] == o[j + 1]);
                            }
                        }
                        assert(self.entries() =~= before.drop_first()) by {
                            assert forall|i: int| 0 <= i < now.len() implies self.entries()[i]
                                == before.drop_first()[i] by {
                                assert(now[i] == o[i + 1]);
                                assert(o[i + 1].1 != o[0].1);
                            }
                        }
                        lemma_total_first(before);
                        lemma_total_nonnegative(before.drop_first());
                    }
                    if overflowed {
                        overflowed = self.recompute_weight();
                    } else {
                        let replacement = replace_weight(self.curr_size, weight, 0);
                        self.curr_size = replacement.size;
                        overflowed = replacement.overflowed;
                        proof {
                            assert(self.entries() =~= before.drop_first());
                        }
                    }
                },
                None => {
                    break ;
                },
            }
        }
    }

    /// Puts an entry at the back, in place of the one that its key had.
    fn link(&mut self, key: &str, value: V) -> (overflowed: bool)
        requires
            old(self).linked(),
            old(self).curr_size == total_weight(old(self).entries()),
            lookup(old(self).entries(), key@) is None,
        ensures
            final(self).linked(),
            final(self).budget() == old(self).budget(),
            final(self).entries() == old(self).entries().push((key@, value)),
            overflowed == (total_weight(final(self).entries()) > usize::MAX),
            !overflowed ==> final(self).curr_size == total_weight(final(self).entries()),
    {
        let ghost before = self.entries();
        let ghost o = order(self.order);
        proof {
            self.lemma_entries(key@);
            lemma_total_pushed(before, (key@, value));
        }
        let replacement = replace_weight(self.curr_size, 0, value.size());
        self.curr_size = replacement.size;
        let slot: usize = match self.free.pop() {
            Some(slot) => {
                self.slots[slot] = Some(value);
                slot
            },
            None => {
                self.slots.push(Some(value));
                self.slots.len() - 1
            },
        };
        order_insert(&mut self.order, String::from_str(key), slot);
        proof {
            let k = lemma_without(o, key@);
            let now = order(self.order);
            assert(now == o.push((key@, slot)));
            assert forall|i: int| 0 <= i < o.len() implies (#[trigger] o[i]).1 != slot by {
                assert(old(self).slots@[o[i].1 as int] is Some);
            }
            assert(forall|i: int| 0 <= i < o.len() ==> now[i] == o[i]);
            assert(self.entries() =~= before.push((key@, value)));
        }
        replacement.overflowed
    }

    /// Clones the value under `key`.
    fn peek(&self, key: &str) -> (r: Option<V>)
        requires
            self.linked(),
        ensures
            clone_of(lookup(self.entries(), key@), r),
    {
        proof {
            self.lemma_entries(key@);
        }
        match order_get(&self.order, key) {
            Some(slot) => match &self.slots[slot] {
                Some(value) => Some(value.clone()),
                None => None,
            },
            None => None,
        }
    }

    /// Gives `key` a new value, or takes the one it had.
    fn replace(&mut self, key: &str, new: Option<V>)
        requires
            old(self).wf(),
        ensures
            final(self).wf(),
            final(self).budget() == old(self).budget(),
            final(self).entries() == updated(old(self).entries(), old(self).budget(), key@, new),
    {
        let ghost before = self.entries();
        let _ = self.unlink(key);
        match new {
            None => {
                proof {
                    self.lemma_shrunk(before, key@);
                }
            },
            Some(value) => {
                proof {
                    let k = lemma_without(before, key@);
                    if 0 <= k < before.len() {
                        assert forall|i: int| 0 <= i < self.entries().len() implies
                            self.entries()[i].0 != key@ by {
                            let j = if i < k { i } else { i + 1 };
                            assert(self.entries()[i] == before[j]);
                        }
                    }
                    self.lemma_entries(key@);
                    let l = lemma_without(self.entries(), key@);
                }
                let overflowed: bool = self.link(key, value);
                self.remove_oldest(overflowed);
            },
        }
    }

    /// Updates the value under `key`. The closure receives a clone of the old
    /// value and returns the new one, or `None` to remove the entry, together
    /// with a result for the caller.
    pub fn update_with_result<F, R>(&mut self, key: &str, f: F) -> (r: R)
        where F: FnOnce(Option<V>) -> (Option<V>, R)
        requires
            old(self).wf(),
            forall|copy: Option<V>|
                clone_of(lookup(old(self).entries(), key@), copy) ==> call_requires(f, (copy,)),
        ensures
            final(self).wf(),
            final(self).budget() == old(self).budget(),
            exists|copy: Option<V>, new: Option<V>|
                {
                    &&& #[trigger] clone_of(lookup(old(self).entries(), key@), copy)
                    &&& #[trigger] call_ensures(f, (copy,), (new, r))
                    &&& final(self).entries() == updated(
                        old(self).entries(),
                        old(self).budget(),
                        key@,
                        new,
                    )
                },
    {
        let copy: Option<V> = self.peek(key);
        let ghost given = copy;
        let (new, result) = f(copy);
        let ghost got = new;
        self.replace(key, new);
        proof {
            assert(clone_of(lookup(old(self).entries(), key@), given));
            assert(call_ensures(f, (given,), (got, result)));
        }
        result
    }

    /// Updates the value under `key`; returning `None` removes the entry.
    pub fn update<F>(&mut self, key: &str, f: F) where F: FnOnce(Option<V>) -> Option<V>
        requires
            old(self).wf(),
            forall|copy: Option<V>|
                clone_of(lookup(old(self).entries(), key@), copy) ==> call_requires(f, (copy,)),
        ensures
            final(self).wf(),
            final(self).budget() == old(self).budget(),
            exists|copy: Option<V>, new: Option<V>|
                {
                    &&& #[trigger] clone_of(lookup(old(self).entries(), key@), copy)
                    &&& #[trigger] call_ensures(f, (copy,), new)
                    &&& final(self).entries() == updated(
                        old(self).entries(),
                        old(self).budget(),
                        key@,
                        new,
                    )
                },
    {
        let copy: Option<V> = self.peek(key);
        let ghost given = copy;
        let new: Option<V> = f(copy);
        let ghost got = new;
        self.replace(key, new);
        proof {
            assert(clone_of(lookup(old(self).entries(), key@), given));
            assert(call_ensures(f, (given,), got));
        }
    }

    /// Stores `val` under `key`.
    pub fn set(&mut self, key: &str, val: V)
        requires
            old(self).wf(),
        ensures
            final(self).wf(),
            final(self).budget() == old(self).budget(),
            final(self).entries() == updated(
                old(self).entries(),
                old(self).budget(),
                key@,
                Some(val),
            ),
    {
        self.replace(key, Some(val));
    }
}

/// A prefix weighs no more than the whole.
proof fn lemma_total_take<V: Weighable>(entries: Seq<(Seq<char>, V)>, n: int)
    requires
        0 <= n <= entries.len(),
    ensures
        total_weight(entries.take(n)) <= total_weight(entries),
    decreases entries.len() - n,
{
    if n < entries.len() {
        lemma_total_take(entries, n + 1);
        assert(entries.take(n + 1).drop_last() =~= entries.take(n));
    } else {
        assert(entries.take(n) =~= entries);
    }
}

/// Law: trimming keeps the most recent entry, removes only the oldest ones, and
/// leaves more than the budget only in a sole entry.
pub proof fn law_trimmed<V: Weighable>(entries: Seq<(Seq<char>, V)>, max_size: int)
    ensures
        ({
            let kept = trimmed(entries, max_size);
            &&& kept.len() <= entries.len()
            &&& kept == entries.skip(entries.len() - kept.len())
            &&& entries.len() > 0 ==> kept.len() > 0 && kept.last() == entries.last()
            &&& total_weight(kept) <= max_size || kept.len() <= 1
        }),
    decreases entries.len(),
{
    if entries.len() <= 1 || total_weight(entries) <= max_size {
        assert(entries.skip(0) =~= entries);
    } else {
        let rest = entries.drop_first();
        law_trimmed(rest, max_size);
        let kept = trimmed(rest, max_size);
        assert(rest.skip(rest.len() - kept.len()) =~= entries.skip(entries.len() - kept.len()));
    }
}

/// Law: a value just written is found under its key, whatever its size.
pub proof fn law_written_value_is_found<V: Weighable>(
    entries: Seq<(Seq<char>, V)>,
    max_size: usize,
    key: Seq<char>,
    value: V,
)
    requires
        distinct_keys(entries),
    ensures
        lookup(updated(entries, max_size, key, Some(value)), key) == Some(value),
{
    let base = without(entries, key);
    let k = lemma_without(entries, key);
    let all = base.push((key, value));
    assert forall|i: int| 0 <= i < base.len() implies base[i].0 != key by {
        if 0 <= k < entries.len() {
            let j = if i < k { i } else { i + 1 };
            assert(base[i] == entries[j]);
        }
    }
    assert forall|i: int, j: int|
        0 <= i < base.len() && 0 <= j < base.len() && i != j implies base[i].0 != base[j].0 by {
        if 0 <= k < entries.len() {
            let a = if i < k { i } else { i + 1 };
            let b = if j < k { j } else { j + 1 };
            assert(base[i] == entries[a] && base[j] == entries[b]);
        }
    }
    law_trimmed(all, max_size as int);
    let kept = trimmed(all, max_size as int);
    let skipped = all.len() - kept.len();
    assert(distinct_keys(kept)) by {
        assert forall|i: int, j: int|
            0 <= i < kept.len() && 0 <= j < kept.len() && i != j implies kept[i].0 != kept[j].0 by {
            assert(kept[i] == all[i + skipped] && kept[j] == all[j + skipped]);
        }
    }
    let l = lemma_without(kept, key);
    assert(kept[kept.len() - 1].0 == key);
    if 0 <= l < kept.len() && l != kept.len() - 1 {
        assert(kept[l].0 != kept[kept.len() - 1].0);
    }
}

/// Shards of a cache.
pub const SHARD_COUNT: usize = 16;

/// The 64-bit FNV-1a hash of a byte string.
pub open spec fn key_hash(key: Seq<u8>) -> u64
    decreases key.len(),
{
    if key.len() == 0 {
        0xcbf2_9ce4_8422_2325
    } else {
        (key_hash(key.drop_last()) ^ (key.last() as u64)).wrapping_mul(0x100_0000_01b3)
    }
}

/// Returns the shard of a key among `n` shards.
pub fn shard_index(key: &[u8], n: usize) -> (r: usize)
    requires
        n > 0,
    ensures
        r == key_hash(key@) as int % n as int,
        r < n,
{
    let mut hash: u64 = 0xcbf2_9ce4_8422_2325;
    let mut i: usize = 0;
    while i < key.len()
        invariant
            i <= key@.len(),
            hash == key_hash(key@.take(i as int)),
        decreases key@.len() - i,
    {
        proof {
            assert(key@.take(i + 1).drop_last() =~= key@.take(i as int));
            assert(key@.take(i + 1).last() == key@[i as int]);
        }
        hash = (hash ^ (key[i] as u64)).wrapping_mul(0x100_0000_01b3);
        i = i + 1;
    }
    proof {
        assert(key@.take(i as int) =~= key@);
    }
    (hash % n as u64) as usize
}

/// A cache that evicts the least recently used entries of a shard once that
/// shard exceeds its part of the budget.
pub struct Cache<V> {
    shards: Vec<CacheShard<V>>,
}

/// Total weight of the first `n` shards.
pub open spec fn shards_weight<V: Weighable + Clone>(shards: Seq<CacheShard<V>>) -> int
    decreases shards.len(),
{
    if shards.len() == 0 {
        0
    } else {
        shards_weight(shards.drop_last()) + total_weight(shards.last().entries())
    }
}

impl<V: Weighable + Clone> Cache<V> {
    /// The shards.
    pub closed spec fn shards(&self) -> Seq<CacheShard<V>> {
        self.shards@
    }

    /// Every shard is well formed.
    pub open spec fn wf(&self) -> bool {
        &&& self.shards().len() == SHARD_COUNT
        &&& forall|i: int| 0 <= i < SHARD_COUNT ==> (#[trigger] self.shards()[i]).wf()
    }

    /// The shard of a key.
    pub open spec fn shard_of(key: &str) -> int {
        key_hash(key.spec_bytes()) as int % SHARD_COUNT as int
    }

    /// Everything but one shard is as before.
    pub open spec fn same_but(&self, before: &Self, i: int) -> bool {
        &&& self.shards().len() == before.shards().len()
        &&& forall|j: int|
            0 <= j < before.shards().len() && j != i ==> #[trigger] self.shards()[j]
                == before.shards()[j]
        &&& self.shards()[i].budget() == before.shards()[i].budget()
    }

    /// The value under a key.
    pub open spec fn entry(&self, key: &str) -> Option<V> {
        lookup(self.shards()[Self::shard_of(key)].entries(), key@)
    }

    /// Reading a key made it the most recently used entry of its shard.
    pub open spec fn touched(&self, before: &Self, key: &str) -> bool {
        let old_entries = before.shards()[Self::shard_of(key)].entries();
        &&& self.same_but(before, Self::shard_of(key))
        &&& self.shards()[Self::shard_of(key)].entries() == match lookup(old_entries, key@) {
            Some(value) => without(old_entries, key@).push((key@, value)),
            None => old_entries,
        }
    }

    /// A key got a new value, or lost the one it had.
    pub open spec fn wrote(&self, before: &Self, key: &str, new: Option<V>) -> bool {
        let old_shard = before.shards()[Self::shard_of(key)];
        &&& self.same_but(before, Self::shard_of(key))
        &&& self.shards()[Self::shard_of(key)].entries() == updated(
            old_shard.entries(),
            old_shard.budget(),
            key@,
            new,
        )
    }

    /// The size of all entries of the first `n` shards together.
    pub open spec fn held(&self, n: int) -> int
        decreases n,
    {
        if n <= 0 {
            0
        } else {
            self.held(n - 1) + total_weight(self.shards()[n - 1].entries())
        }
    }

    /// The first shards hold no more than their budgets.
    proof fn lemma_held(&self, budget: int, n: int)
        requires
            self.wf(),
            0 <= n <= SHARD_COUNT,
            forall|i: int|
                0 <= i < SHARD_COUNT ==> (#[trigger] self.shards()[i]).budget() == budget && (
                self.shards()[i].entries().len() == 1 ==> total_weight(
                    self.shards()[i].entries(),
                ) <= budget),
        ensures
            self.held(n) <= budget * n,
        decreases n,
    {
        if n > 0 {
            self.lemma_held(budget, n - 1);
            let shard = self.shards()[n - 1];
            shard.law_within_budget();
            assert(budget >= 0);
            assert(budget * n == budget * (n - 1) + budget) by (nonlinear_arith);
        } else {
            assert(budget * n == 0) by (nonlinear_arith)
                requires
                    n == 0,
            ;
        }
    }

    /// Law: a cache of `max_size` bytes never holds more, but for entries that
    /// are larger than a shard's part and alone in their shard.
    pub proof fn law_cache_within_budget(&self, max_size: usize)
        requires
            self.wf(),
            forall|i: int|
                0 <= i < SHARD_COUNT ==> (#[trigger] self.shards()[i]).budget() == max_size
                    / SHARD_COUNT && (self.shards()[i].entries().len() == 1 ==> total_weight(
                    self.shards()[i].entries(),
                ) <= max_size / SHARD_COUNT),
        ensures
            self.held(SHARD_COUNT as int) <= max_size,
    {
        self.lemma_held((max_size / SHARD_COUNT) as int, SHARD_COUNT as int);
    }

    /// Creates a cache with the given maximum size in bytes, split evenly across
    /// the shards.
    pub fn new(max_size: usize) -> (r: Self)
        ensures
            r.wf(),
            forall|i: int|
                0 <= i < SHARD_COUNT ==> (#[trigger] r.shards()[i]).budget() == max_size
                    / SHARD_COUNT && r.shards()[i].entries() == Seq::<(Seq<char>, V)>::empty(),
    {
        let mut shards: Vec<CacheShard<V>> = Vec::new();
        let mut i: usize = 0;
        while i < SHARD_COUNT
            invariant
                i <= SHARD_COUNT,
                shards@.len() == i,
                forall|j: int|
                    0 <= j < i ==> (#[trigger] shards@[j]).wf() && shards@[j].budget() == max_size
                        / SHARD_COUNT && shards@[j].entries() == Seq::<(Seq<char>, V)>::empty(),
            decreases SHARD_COUNT - i,
        {
            shards.push(CacheShard::new(max_size / SHARD_COUNT));
            i = i + 1;
        }
        Cache { shards }
    }

    /// Returns the value for `key`, which becomes the most recently used entry of
    /// its shard.
    pub fn get(&mut self, key: &str) -> (r: Option<V>)
        requires
            old(self).wf(),
        ensures
            final(self).wf(),
            final(self).same_but(old(self), Self::shard_of(key)),
            ({
                let before = old(self).shards()[Self::shard_of(key)].entries();
                let after = final(self).shards()[Self::shard_of(key)].entries();
                &&& clone_of(lookup(before, key@), r)
                &&& after == match lookup(before, key@) {
                    Some(value) => without(before, key@).push((key@, value)),
                    None => before,
                }
            }),
    {
        let i: usize = shard_index(key.as_bytes(), SHARD_COUNT);
        self.shards[i].get(key)
    }

    /// Stores `val` under `key`.
    pub fn set(&mut self, key: &str, val: V)
        requires
            old(self).wf(),
        ensures
            final(self).wf(),
            final(self).same_but(old(self), Self::shard_of(key)),
            ({
                let before = old(self).shards()[Self::shard_of(key)];
                let after = final(self).shards()[Self::shard_of(key)];
                after.entries() == updated(before.entries(), before.budget(), key@, Some(val))
            }),
    {
        let i: usize = shard_index(key.as_bytes(), SHARD_COUNT);
        self.shards[i].set(key, val);
    }

    /// Updates the value under `key`; returning `None` removes the entry.
    pub fn update<F>(&mut self, key: &str, f: F) where F: FnOnce(Option<V>) -> Option<V>
        requires
            old(self).wf(),
            forall|copy: Option<V>|
                clone_of(
                    lookup(old(self).shards()[Self::shard_of(key)].entries(), key@),
                    copy,
                ) ==> call_requires(f, (copy,)),
        ensures
            final(self).wf(),
            final(self).same_but(old(self), Self::shard_of(key)),
            ({
                let before = old(self).shards()[Self::shard_of(key)];
                let after = final(self).shards()[Self::shard_of(key)];
                exists|copy: Option<V>, new: Option<V>|
                    {
                        &&& #[trigger] clone_of(lookup(before.entries(), key@), copy)
                        &&& #[trigger] call_ensures(f, (copy,), new)
                        &&& after.entries() == updated(
                            before.entries(),
                            before.budget(),
                            key@,
                            new,
                        )
                    }
            }),
    {
        let i: usize = shard_index(key.as_bytes(), SHARD_COUNT);
        self.shards[i].update(key, f);
    }

    /// Updates `key` and returns an auxiliary result of the closure.
    pub fn update_with_result<F, R>(&mut self, key: &str, f: F) -> (r: R)
        where F: FnOnce(Option<V>) -> (Option<V>, R)
        requires
            old(self).wf(),
            forall|copy: Option<V>|
                clone_of(
                    lookup(old(self).shards()[Self::shard_of(key)].entries(), key@),
                    copy,
                ) ==> call_requires(f, (copy,)),
        ensures
            final(self).wf(),
            final(self).same_but(old(self), Self::shard_of(key)),
            ({
                let before = old(self).shards()[Self::shard_of(key)];
                let after = final(self).shards()[Self::shard_of(key)];
                exists|copy: Option<V>, new: Option<V>|
                    {
                        &&& #[trigger] clone_of(lookup(before.entries(), key@), copy)
                        &&& #[trigger] call_ensures(f, (copy,), (new, r))
                        &&& after.entries() == updated(
                            before.entries(),
                            before.budget(),
                            key@,
                            new,
                        )
                    }
            }),
    {
        let i: usize = shard_index(key.as_bytes(), SHARD_COUNT);
        self.shards[i].update_with_result(key, f)
    }

    /// Removes the entry for `key`.
    pub fn delete(&mut self, key: &str)
        requires
            old(self).wf(),
        ensures
            final(self).wf(),
            final(self).same_but(old(self), Self::shard_of(key)),
            final(self).shards()[Self::shard_of(key)].entries() == without(
                old(self).shards()[Self::shard_of(key)].entries(),
                key@,
            ),
    {
        let i: usize = shard_index(key.as_bytes(), SHARD_COUNT);
        self.shards[i].delete(key);
    }

    /// Returns the total size of the cache in bytes across all shards.
    pub fn size(&self) -> (r: usize)
        requires
            self.wf(),
            shards_weight(self.shards()) <= usize::MAX,
        ensures
            r == shards_weight(self.shards()),
    {
        let mut total: usize = 0;
        let mut i: usize = 0;
        while i < self.shards.len()
            invariant
                self.wf(),
                i <= self.shards@.len(),
                self.shards@ == self.shards(),
                shards_weight(self.shards()) <= usize::MAX,
                total == shards_weight(self.shards().take(i as int)),
            decreases self.shards@.len() - i,
        {
            proof {
                assert(self.shards().take(i + 1).drop_last() =~= self.shards().take(i as int));
                assert(self.shards().take(i + 1).last() == self.shards()[i as int]);
                lemma_shards_take(self.shards(), i + 1);
                assert(self.shards()[i as int].wf());
            }
            total = total + self.shards[i].size();
            i = i + 1;
        }
        proof {
            assert(self.shards().take(i as int) =~= self.shards());
        }
        total
    }
}

/// The first shards weigh no more than all of them.
proof fn lemma_shards_take<V: Weighable + Clone>(shards: Seq<CacheShard<V>>, n: int)
    requires
        0 <= n <= shards.len(),
    ensures
        shards_weight(shards.take(n)) <= shards_weight(shards),
    decreases shards.len() - n,
{
    if n < shards.len() {
        lemma_shards_take(shards, n + 1);
        assert(shards.take(n + 1).drop_last() =~= shards.take(n));
        lemma_total_nonnegative(shards[n].entries());
    } else {
        assert(shards.take(n) =~= shards);
    }
}

/// Leaving a key out twice is leaving it out once, also when it was added
/// behind in between.
pub proof fn lemma_without_again<T>(entries: Seq<(Seq<char>, T)>, key: Seq<char>, value: T)
    ensures
        without(without(entries, key).push((key, value)), key) == without(entries, key),
        without(without(entries, key), key) == without(entries, key),
{
    let keep = other_than::<T>(key);
    let rest = without(entries, key);
    broadcast use vstd::seq_lib::group_filter_ensures;

    assert(rest.filter(keep) == rest) by {
        crate::sorted::lemma_filter_prefix(rest, keep, rest.len() as int);
        assert(rest.take(rest.len() as int) =~= rest);
    }
    let all = rest.push((key, value));
    assert(all.filter(keep) == rest.filter(keep)) by {
        reveal(Seq::filter);
        assert(all.drop_last() =~= rest);
        assert(!keep(all.last()));
    }
}

impl<V: Weighable + Clone> Cache<V> {
    /// Reading a key and then writing it is writing it.
    pub proof fn lemma_touch_then_write(
        before: &Self,
        mid: &Self,
        after: &Self,
        key: &str,
        new: Option<V>,
    )
        requires
            mid.touched(before, key),
            after.wrote(mid, key, new),
        ensures
            after.wrote(before, key, new),
    {
        let i = Self::shard_of(key);
        let entries = before.shards()[i].entries();
        match lookup(entries, key@) {
            Some(value) => {
                lemma_without_again(entries, key@, value);
            },
            None => {},
        }
    }

    /// Reading a key twice is reading it once.
    pub proof fn lemma_touch_again(before: &Self, mid: &Self, after: &Self, key: &str)
        requires
            mid.touched(before, key),
            after.touched(mid, key),
        ensures
            after.touched(before, key),
    {
        Self::lemma_touch_keeps(before, mid, key);
        let i = Self::shard_of(key);
        let entries = before.shards()[i].entries();
        match lookup(entries, key@) {
            Some(value) => {
                lemma_without_again(entries, key@, value);
            },
            None => {},
        }
    }

    /// A value just written is found.
    pub proof fn lemma_written_is_found(before: &Self, after: &Self, key: &str, new: Option<V>)
        requires
            before.wf(),
            after.wrote(before, key, new),
        ensures
            after.entry(key) == new,
    {
        let i = Self::shard_of(key);
        assert(before.shards()[i].wf());
        let entries = before.shards()[i].entries();
        match new {
            Some(value) => {
                law_written_value_is_found(entries, before.shards()[i].budget(), key@, value);
            },
            None => {
                lemma_without_is_missing(entries, key@);
            },
        }
    }

    /// Reading changes no value.
    pub proof fn lemma_touch_keeps(before: &Self, after: &Self, key: &str)
        requires
            after.touched(before, key),
        ensures
            after.entry(key) == before.entry(key),
    {
        let i = Self::shard_of(key);
        let entries = before.shards()[i].entries();
        if let Some(value) = lookup(entries, key@) {
            lemma_lookup_pushed(without(entries, key@), key@, value);
            lemma_without_is_missing(entries, key@);
        }
    }
}

/// A key that was left out is not found.
pub proof fn lemma_without_is_missing<T>(entries: Seq<(Seq<char>, T)>, key: Seq<char>)
    ensures
        lookup(without(entries, key), key) is None,
{
    let rest = without(entries, key);
    broadcast use vstd::seq_lib::group_filter_ensures;

    lemma_lookup_missing(rest, key);
}

/// A key that no entry has is not found.
proof fn lemma_lookup_missing<T>(entries: Seq<(Seq<char>, T)>, key: Seq<char>)
    requires
        forall|i: int| 0 <= i < entries.len() ==> other_than::<T>(key)(#[trigger] entries[i]),
    ensures
        lookup(entries, key) is None,
    decreases entries.len(),
{
    if entries.len() > 0 {
        let rest = entries.drop_first();
        assert(other_than::<T>(key)(entries[0]));
        assert forall|i: int| 0 <= i < rest.len() implies other_than::<T>(key)(
            #[trigger] rest[i],
        ) by {
            assert(rest[i] == entries[i + 1]);
        }
        lemma_lookup_missing(rest, key);
    }
}

/// A key added behind entries that do not have it is found.
proof fn lemma_lookup_pushed<T>(entries: Seq<(Seq<char>, T)>, key: Seq<char>, value: T)
    ensures
        lookup(entries, key) is None ==> lookup(entries.push((key, value)), key) == Some(value),
    decreases entries.len(),
{
    let all = entries.push((key, value));
    if entries.len() > 0 {
        assert(all.drop_first() =~= entries.drop_first().push((key, value)));
        assert(all.first() == entries.first());
        lemma_lookup_pushed(entries.drop_first(), key, value);
    } else {
        assert(all.first() == (key, value));
    }
}

/// What stays when a key is left out was there before.
proof fn lemma_without_member<T>(entries: Seq<(Seq<char>, T)>, key: Seq<char>, i: int)
    requires
        0 <= i < without(entries, key).len(),
    ensures
        entries.contains(without(entries, key)[i]),
    decreases entries.len(),
{
    reveal(Seq::filter);
    if entries.len() > 0 {
        let rest = entries.drop_last();
        let before = without(rest, key);
        if i < before.len() {
            lemma_without_member(rest, key, i);
            let k = rest.index_of(before[i]);
            assert(entries[k] == before[i]);
        } else {
            assert(entries[entries.len() - 1] == without(entries, key)[i]);
        }
    }
}

/// What stands after a write stood before or was written.
pub proof fn lemma_updated_members<V: Weighable>(
    entries: Seq<(Seq<char>, V)>,
    max_size: usize,
    key: Seq<char>,
    new: Option<V>,
    i: int,
)
    requires
        0 <= i < updated(entries, max_size, key, new).len(),
    ensures
        ({
            let entry = updated(entries, max_size, key, new)[i];
            entries.contains(entry) || (new matches Some(value) && entry == (key, value))
        }),
{
    let rest = without(entries, key);
    match new {
        Some(value) => {
            let all = rest.push((key, value));
            lemma_trimmed_members(all, max_size as int, i);
            let k = all.index_of(trimmed(all, max_size as int)[i]);
            if k < rest.len() {
                lemma_without_member(entries, key, k);
            }
        },
        None => {
            lemma_without_member(entries, key, i);
        },
    }
}

/// What stays when entries are trimmed was there before.
proof fn lemma_trimmed_members<V: Weighable>(
    entries: Seq<(Seq<char>, V)>,
    max_size: int,
    i: int,
)
    requires
        0 <= i < trimmed(entries, max_size).len(),
    ensures
        entries.contains(trimmed(entries, max_size)[i]),
    decreases entries.len(),
{
    if entries.len() <= 1 || total_weight(entries) <= max_size {
        assert(entries[i] == trimmed(entries, max_size)[i]);
    } else {
        let rest = entries.drop_first();
        lemma_trimmed_members(rest, max_size, i);
        let k = rest.index_of(trimmed(rest, max_size)[i]);
        assert(entries[k + 1] == rest[k]);
    }
}

impl<V: Weighable + Clone> Cache<V> {
    /// A predicate holds of every key with its cached value.
    pub open spec fn all_entries(&self, holds: spec_fn((Seq<char>, V)) -> bool) -> bool {
        forall|i: int, j: int|
            0 <= i < self.shards().len() && 0 <= j < self.shards()[i].entries().len() ==> holds(
                #[trigger] self.shards()[i].entries()[j],
            )
    }

    /// A predicate that holds of every entry still does after a write of an
    /// entry that it holds of.
    pub proof fn lemma_all_after_write(
        before: &Self,
        after: &Self,
        key: &str,
        new: Option<V>,
        holds: spec_fn((Seq<char>, V)) -> bool,
    )
        requires
            before.wf(),
            after.wrote(before, key, new),
            before.all_entries(holds),
            new matches Some(value) ==> holds((key@, value)),
        ensures
            after.all_entries(holds),
    {
        let s = Self::shard_of(key);
        assert forall|i: int, j: int|
            0 <= i < after.shards().len() && 0 <= j
                < after.shards()[i].entries().len() implies holds(
            #[trigger] after.shards()[i].entries()[j],
        ) by {
            if i == s {
                let entries = before.shards()[s].entries();
                lemma_updated_members(entries, before.shards()[s].budget(), key@, new, j);
                let entry = after.shards()[s].entries()[j];
                if entries.contains(entry) {
                    let k = entries.index_of(entry);
                    assert(holds(before.shards()[s].entries()[k]));
                }
            } else {
                assert(holds(before.shards()[i].entries()[j]));
            }
        }
    }

    /// A predicate that holds of every entry holds of the one that is found.
    pub proof fn lemma_all_of_found(&self, key: &str, holds: spec_fn((Seq<char>, V)) -> bool)
        requires
            self.wf(),
            self.all_entries(holds),
        ensures
            self.entry(key) matches Some(value) ==> holds((key@, value)),
    {
        let s = Self::shard_of(key);
        let entries = self.shards()[s].entries();
        if let Some(value) = lookup(entries, key@) {
            lemma_lookup_member(entries, key@);
            let k = entries.index_of((key@, value));
            assert(holds(self.shards()[s].entries()[k]));
        }
    }

    /// A predicate that holds of every entry still does after a read.
    pub proof fn lemma_all_after_touch(
        before: &Self,
        after: &Self,
        key: &str,
        holds: spec_fn((Seq<char>, V)) -> bool,
    )
        requires
            before.wf(),
            after.touched(before, key),
            before.all_entries(holds),
        ensures
            after.all_entries(holds),
            before.entry(key) matches Some(value) ==> holds((key@, value)),
    {
        let s = Self::shard_of(key);
        let entries = before.shards()[s].entries();
        before.lemma_all_of_found(key, holds);
        assert forall|i: int, j: int|
            0 <= i < after.shards().len() && 0 <= j
                < after.shards()[i].entries().len() implies holds(
            #[trigger] after.shards()[i].entries()[j],
        ) by {
            if i == s {
                let rest = without(entries, key@);
                let entry = after.shards()[s].entries()[j];
                if lookup(entries, key@) is Some {
                    if j < rest.len() {
                        assert(entry == rest[j]);
                        lemma_without_member(entries, key@, j);
                        let k = entries.index_of(entry);
                        assert(holds(before.shards()[s].entries()[k]));
                    }
                } else {
                    assert(holds(before.shards()[s].entries()[j]));
                }
            } else {
                assert(holds(before.shards()[i].entries()[j]));
            }
        }
    }
}

/// A value that is found is among the entries.
proof fn lemma_lookup_member<T>(entries: Seq<(Seq<char>, T)>, key: Seq<char>)
    ensures
        lookup(entries, key) matches Some(value) ==> entries.contains((key, value)),
    decreases entries.len(),
{
    if entries.len() > 0 {
        if entries.first().0 == key {
            assert(entries[0] == (key, entries.first().1));
        } else {
            let rest = entries.drop_first();
            lemma_lookup_member(rest, key);
            if let Some(value) = lookup(rest, key) {
                let k = rest.index_of((key, value));
                assert(entries[k + 1] == (key, value));
            }
        }
    }
}

/// Law: trimming takes the least recently used entries, and no more than the
/// budget asks for: with the last one that was taken, the rest would exceed it.
pub proof fn law_trimming_takes_no_more_than_needed<V: Weighable>(
    entries: Seq<(Seq<char>, V)>,
    max_size: int,
)
    ensures
        ({
            let kept = trimmed(entries, max_size);
            &&& kept.len() <= entries.len()
            &&& forall|i: int|
                0 <= i < kept.len() ==> #[trigger] kept[i] == entries[entries.len() - kept.len()
                    + i]
            &&& kept.len() < entries.len() ==> total_weight(
                entries.skip(entries.len() - kept.len() - 1),
            ) > max_size
        }),
    decreases entries.len(),
{
    if !(entries.len() <= 1 || total_weight(entries) <= max_size) {
        let rest = entries.drop_first();
        law_trimming_takes_no_more_than_needed(rest, max_size);
        let kept = trimmed(rest, max_size);
        if kept.len() < rest.len() {
            assert(entries.skip(entries.len() - kept.len() - 1) =~= rest.skip(
                rest.len() - kept.len() - 1,
            ));
        } else {
            assert(entries.skip(0) =~= entries);
        }
        assert forall|i: int| 0 <= i < kept.len() implies #[trigger] kept[i]
            == entries[entries.len() - kept.len() + i] by {
            assert(kept[i] == rest[rest.len() - kept.len() + i]);
        }
    }
}

/// Law: the size of entries is that of each of them, added up.
pub proof fn law_weights_add_up<V: Weighable>(
    entries: Seq<(Seq<char>, V)>,
    more: Seq<(Seq<char>, V)>,
    entry: (Seq<char>, V),
)
    ensures
        total_weight(entries + more) == total_weight(entries) + total_weight(more),
        total_weight(seq![entry]) == entry.1.weight(),
        total_weight(Seq::<(Seq<char>, V)>::empty()) == 0,
    decreases more.len(),
{
    assert(seq![entry].drop_last() =~= Seq::<(Seq<char>, V)>::empty());
    assert(total_weight(seq![entry].drop_last()) == 0);
    if more.len() > 0 {
        law_weights_add_up(entries, more.drop_last(), entry);
        assert((entries + more).drop_last() =~= entries + more.drop_last());
        assert((entries + more).last() == more.last());
    } else {
        assert(entries + more =~= entries);
    }
}

/// Law: a key leads to the value that stands under it, and a key that stands
/// nowhere to none.
pub proof fn law_lookup_finds_what_stands_there<T>(
    entries: Seq<(Seq<char>, T)>,
    key: Seq<char>,
    i: int,
)
    requires
        distinct_keys(entries),
        0 <= i < entries.len(),
    ensures
        entries[i].0 == key ==> lookup(entries, key) == Some(entries[i].1),
        lookup(entries, key) is None ==> entries[i].0 != key,
    decreases entries.len(),
{
    if entries.first().0 == key {
        if i > 0 {
            assert(entries[0].0 != entries[i].0);
        }
    } else if i > 0 {
        let rest = entries.drop_first();
        assert forall|a: int, b: int|
            0 <= a < rest.len() && 0 <= b < rest.len() && a != b implies rest[a].0
            != rest[b].0 by {
            assert(entries[a + 1].0 != entries[b + 1].0);
        }
        law_lookup_finds_what_stands_there(rest, key, i - 1);
    }
}

/// Law: a write makes its key the most recently used one. Every other key keeps
/// its value and its place among the others, or is evicted before those that were
/// used later.
pub proof fn law_write_makes_its_key_most_recent<V: Weighable>(
    entries: Seq<(Seq<char>, V)>,
    max_size: usize,
    key: Seq<char>,
    value: V,
)
    ensures
        ({
            let after = updated(entries, max_size, key, Some(value));
            let others = entries.filter(|entry: (Seq<char>, V)| entry.0 != key);
            &&& after.len() > 0
            &&& after.last() == (key, value)
            &&& after.len() <= others.len() + 1
            &&& forall|i: int|
                0 <= i < after.len() - 1 ==> #[trigger] after[i] == others[others.len()
                    - (after.len() - 1) + i]
        }),
{
    let all = without(entries, key).push((key, value));
    let others = entries.filter(|entry: (Seq<char>, V)| entry.0 != key);
    lemma_filter_same(entries, other_than(key), |entry: (Seq<char>, V)| entry.0 != key);
    law_trimmed(all, max_size as int);
    law_trimming_takes_no_more_than_needed(all, max_size as int);
}

/// Predicates that agree filter alike.
proof fn lemma_filter_same<A>(s: Seq<A>, p: spec_fn(A) -> bool, q: spec_fn(A) -> bool)
    requires
        forall|a: A| #[trigger] p(a) == q(a),
    ensures
        s.filter(p) == s.filter(q),
    decreases s.len(),
{
    reveal(Seq::filter);
    if s.len() > 0 {
        lemma_filter_same(s.drop_last(), p, q);
    }
}

/// Law: a deletion takes its key out, and nothing else.
pub proof fn law_deletion_takes_only_its_key<V: Weighable>(
    entries: Seq<(Seq<char>, V)>,
    max_size: usize,
    key: Seq<char>,
)
    ensures
        updated(entries, max_size, key, None) == entries.filter(
            |entry: (Seq<char>, V)| entry.0 != key,
        ),
{
    lemma_filter_same(entries, other_than(key), |entry: (Seq<char>, V)| entry.0 != key);
}

/// Law: a read makes its key the most recently used one, with the value that it
/// had, and touches no other.
pub proof fn law_read_makes_its_key_most_recent<V: Weighable + Clone>(
    before: &Cache<V>,
    after: &Cache<V>,
    key: &str,
)
    requires
        after.touched(before, key),
    ensures
        ({
            let i = Cache::<V>::shard_of(key);
            let was = before.shards()[i].entries();
            let now = after.shards()[i].entries();
            match before.entry(key) {
                Some(value) => now.len() > 0 && now.last() == (key@, value) && now.drop_last()
                    == was.filter(|entry: (Seq<char>, V)| entry.0 != key@),
                None => now == was,
            }
        }),
        forall|j: int|
            0 <= j < before.shards().len() && j != Cache::<V>::shard_of(key)
                ==> #[trigger] after.shards()[j] == before.shards()[j],
{
    let i = Cache::<V>::shard_of(key);
    let was = before.shards()[i].entries();
    let now = after.shards()[i].entries();
    lemma_filter_same(was, other_than(key@), |entry: (Seq<char>, V)| entry.0 != key@);
    if before.entry(key) is Some {
        assert(now.drop_last() =~= without(was, key@));
    }
}

} // verus!
