//! Persistent-cache admission and pressure bookkeeping.

use vstd::prelude::*;
use vstd::string::*;

use crate::bytes;

verus! {

/// Memory of the hit filter, independent of the configured cache capacity.
pub const FILTER_BYTES: usize = 4_194_304;

/// Counters of the hit filter, four to a byte.
pub const FILTER_COUNTERS: usize = 16_777_216;

/// Hits after which the filter forgets, so that stale popularity fades.
pub const FILTER_HIT_EPOCH: u64 = 1_048_576;

/// Counter value of a position that was hit once.
pub const SEEN_ONCE: u8 = 1;

/// Counter value of a position that was hit more often.
pub const SEEN_AT_LEAST_TWICE: u8 = 2;

/// Increment of SplitMix64, which separates the second counter from the first.
pub const SECOND_COUNTER_SALT: u64 = 0x9e37_79b9_7f4a_7c15;

/// First multiplier of SplitMix64.
pub const SPLITMIX64_MULTIPLIER_1: u64 = 0xbf58_476d_1ce4_e5b9;

/// Second multiplier of SplitMix64.
pub const SPLITMIX64_MULTIPLIER_2: u64 = 0x94d0_49bb_1331_11eb;

/// Queued lookups and promotions at most.
pub const OPTIONAL_QUEUE_ITEMS: usize = 3072;

/// Queued record bytes at most.
pub const MAX_QUEUED_PAYLOAD_BYTES: u64 = 67_108_864;

/// SplitMix64's output permutation.
pub open spec fn mixed(value: u64) -> u64 {
    let a = value ^ (value >> 30);
    let b = a.wrapping_mul(SPLITMIX64_MULTIPLIER_1);
    let c = b ^ (b >> 27);
    let d = c.wrapping_mul(SPLITMIX64_MULTIPLIER_2);
    d ^ (d >> 31)
}

/// The inverse of SplitMix64's first multiplier.
pub const SPLITMIX64_INVERSE_1: u64 = 0x96de_1b17_3f11_9089;

/// The inverse of SplitMix64's second multiplier.
pub const SPLITMIX64_INVERSE_2: u64 = 0x3196_42b2_d24d_8ec3;

/// The value that SplitMix64's output permutation takes to the given one.
pub open spec fn unmixed(value: u64) -> u64 {
    let d = value ^ (value >> 31) ^ (value >> 62);
    let c = d.wrapping_mul(SPLITMIX64_INVERSE_2);
    let b = c ^ (c >> 27) ^ (c >> 54);
    let a = b.wrapping_mul(SPLITMIX64_INVERSE_1);
    a ^ (a >> 30) ^ (a >> 60)
}

/// Two factors whose product is one modulo the range undo each other.
proof fn lemma_factors(x: u64, m: u64, n: u64, k: int)
    requires
        m * n == 1 + k * 0x1_0000_0000_0000_0000,
    ensures
        x.wrapping_mul(m).wrapping_mul(n) == x,
{
    let range = 0x1_0000_0000_0000_0000int;
    let once = (x * m) % range;
    vstd::arithmetic::div_mod::lemma_mul_mod_noop_left(x * m, n as int, range);
    assert((x * m) * n == x + (x * k) * range) by (nonlinear_arith)
        requires
            m * n == 1 + k * range,
    ;
    vstd::arithmetic::div_mod::lemma_mod_multiples_vanish(x * k, x as int, range);
    vstd::arithmetic::div_mod::lemma_small_mod(x as nat, range as nat);
    assert((once * n) % range == x);
}

/// Folding a value's upper bits into the lower ones can be undone.
proof fn lemma_folds(x: u64)
    ensures
        ({
            let y = x ^ (x >> 30);
            y ^ (y >> 30) ^ (y >> 60) == x
        }),
        ({
            let y = x ^ (x >> 30) ^ (x >> 60);
            y ^ (y >> 30) == x
        }),
        ({
            let y = x ^ (x >> 27);
            y ^ (y >> 27) ^ (y >> 54) == x
        }),
        ({
            let y = x ^ (x >> 27) ^ (x >> 54);
            y ^ (y >> 27) == x
        }),
        ({
            let y = x ^ (x >> 31);
            y ^ (y >> 31) ^ (y >> 62) == x
        }),
        ({
            let y = x ^ (x >> 31) ^ (x >> 62);
            y ^ (y >> 31) == x
        }),
{
    assert({
        let y = x ^ (x >> 30);
        let z = x ^ (x >> 30) ^ (x >> 60);
        y ^ (y >> 30) ^ (y >> 60) == x && z ^ (z >> 30) == x
    }) by (bit_vector);
    assert({
        let y = x ^ (x >> 27);
        let z = x ^ (x >> 27) ^ (x >> 54);
        y ^ (y >> 27) ^ (y >> 54) == x && z ^ (z >> 27) == x
    }) by (bit_vector);
    assert({
        let y = x ^ (x >> 31);
        let z = x ^ (x >> 31) ^ (x >> 62);
        y ^ (y >> 31) ^ (y >> 62) == x && z ^ (z >> 31) == x
    }) by (bit_vector);
}

/// Multiplying by SplitMix64's multipliers can be undone.
proof fn lemma_multipliers(x: u64)
    ensures
        x.wrapping_mul(SPLITMIX64_MULTIPLIER_1).wrapping_mul(SPLITMIX64_INVERSE_1) == x,
        x.wrapping_mul(SPLITMIX64_INVERSE_1).wrapping_mul(SPLITMIX64_MULTIPLIER_1) == x,
        x.wrapping_mul(SPLITMIX64_MULTIPLIER_2).wrapping_mul(SPLITMIX64_INVERSE_2) == x,
        x.wrapping_mul(SPLITMIX64_INVERSE_2).wrapping_mul(SPLITMIX64_MULTIPLIER_2) == x,
{
    lemma_factors(x, SPLITMIX64_MULTIPLIER_1, SPLITMIX64_INVERSE_1, 8125545580553827436);
    lemma_factors(x, SPLITMIX64_INVERSE_1, SPLITMIX64_MULTIPLIER_1, 8125545580553827436);
    lemma_factors(x, SPLITMIX64_MULTIPLIER_2, SPLITMIX64_INVERSE_2, 2077064247507883091);
    lemma_factors(x, SPLITMIX64_INVERSE_2, SPLITMIX64_MULTIPLIER_2, 2077064247507883091);
}

/// Law: the mixing of fingerprints is a permutation: different values are mixed
/// to different ones, and every value is what some value is mixed to.
pub proof fn law_mixing_is_a_permutation(value: u64)
    ensures
        unmixed(mixed(value)) == value,
        mixed(unmixed(value)) == value,
{
    let a = value ^ (value >> 30);
    let b = a.wrapping_mul(SPLITMIX64_MULTIPLIER_1);
    let c = b ^ (b >> 27);
    let d = c.wrapping_mul(SPLITMIX64_MULTIPLIER_2);
    lemma_folds(value);
    lemma_multipliers(a);
    lemma_folds(b);
    lemma_multipliers(c);
    lemma_folds(d);
    let e = value ^ (value >> 31) ^ (value >> 62);
    let f = e.wrapping_mul(SPLITMIX64_INVERSE_2);
    let g = f ^ (f >> 27) ^ (f >> 54);
    let h = g.wrapping_mul(SPLITMIX64_INVERSE_1);
    lemma_multipliers(e);
    lemma_folds(f);
    lemma_multipliers(g);
    lemma_folds(h);
}

/// Produces a stable, well-dispersed permutation of a 64-bit value.
pub fn splitmix64_mix(value: u64) -> (r: u64)
    ensures
        r == mixed(value),
{
    let a: u64 = value ^ (value >> 30);
    let b: u64 = a.wrapping_mul(SPLITMIX64_MULTIPLIER_1);
    let c: u64 = b ^ (b >> 27);
    let d: u64 = c.wrapping_mul(SPLITMIX64_MULTIPLIER_2);
    d ^ (d >> 31)
}

/// The counter at one of the four positions of a cell.
pub open spec fn packed(cell: int, position: int) -> int {
    if position == 0 {
        cell % 4
    } else if position == 1 {
        cell / 4 % 4
    } else if position == 2 {
        cell / 16 % 4
    } else {
        cell / 64 % 4
    }
}

/// What one step of the counter at a position adds to the cell.
pub open spec fn unit(position: int) -> int {
    if position == 0 {
        1
    } else if position == 1 {
        4
    } else if position == 2 {
        16
    } else {
        64
    }
}

/// Four digits and the cell that they make up.
proof fn lemma_digits(cell: int, a: int, b: int, c: int, d: int)
    requires
        cell == a + 4 * b + 16 * c + 64 * d,
        0 <= a < 4,
        0 <= b < 4,
        0 <= c < 4,
        0 <= d < 4,
    ensures
        0 <= cell < 256,
        packed(cell, 0) == a,
        packed(cell, 1) == b,
        packed(cell, 2) == c,
        packed(cell, 3) == d,
{
    assert(cell / 4 == b + 4 * c + 16 * d);
    assert(cell / 16 == c + 4 * d);
    assert(cell / 64 == d);
}

/// Adding `delta` units at a position moves that counter alone.
proof fn lemma_step(cell: int, position: int, delta: int)
    requires
        0 <= cell < 256,
        0 <= position < 4,
        0 <= packed(cell, position) + delta < 4,
    ensures
        0 <= cell + delta * unit(position) < 256,
        forall|p: int|
            0 <= p < 4 ==> #[trigger] packed(cell + delta * unit(position), p) == packed(cell, p)
                + if p == position {
                delta
            } else {
                0
            },
{
    let a = cell % 4;
    let b = cell / 4 % 4;
    let c = cell / 16 % 4;
    let d = cell / 64 % 4;
    assert(cell == a + 4 * b + 16 * c + 64 * d) by {
        assert(cell / 16 == cell / 4 / 4);
        assert(cell / 64 == cell / 16 / 4);
        assert(cell / 64 < 4);
    }
    if position == 0 {
        assert(delta * unit(position) == delta);
        lemma_digits(cell + delta, a + delta, b, c, d);
    } else if position == 1 {
        assert(delta * unit(position) == 4 * delta);
        lemma_digits(cell + 4 * delta, a, b + delta, c, d);
    } else if position == 2 {
        assert(delta * unit(position) == 16 * delta);
        lemma_digits(cell + 16 * delta, a, b, c + delta, d);
    } else {
        assert(delta * unit(position) == 64 * delta);
        lemma_digits(cell + 64 * delta, a, b, c, d + delta);
    }
    let next = cell + delta * unit(position);
    assert forall|p: int| 0 <= p < 4 implies #[trigger] packed(next, p) == packed(cell, p) + if p
        == position {
        delta
    } else {
        0
    } by {
        if p == 0 {
        } else if p == 1 {
        } else if p == 2 {
        } else {
        }
    }
}

/// First counter of a fingerprint.
pub open spec fn first_counter(fingerprint: u64) -> int {
    fingerprint as int % FILTER_COUNTERS as int
}

/// Second counter of a fingerprint.
pub open spec fn second_counter(fingerprint: u64) -> int {
    mixed(fingerprint ^ SECOND_COUNTER_SALT) as int % FILTER_COUNTERS as int
}

/// A counter after one more hit.
pub open spec fn bumped(count: int) -> int {
    if count >= SEEN_AT_LEAST_TWICE {
        SEEN_AT_LEAST_TWICE as int
    } else {
        count + 1
    }
}

/// The counters after one hit of a fingerprint.
pub open spec fn counters_after_hit(counters: Seq<int>, fingerprint: u64) -> Seq<int> {
    let first = first_counter(fingerprint);
    let second = second_counter(fingerprint);
    let once = counters.update(first, bumped(counters[first]));
    if first == second {
        once
    } else {
        once.update(second, bumped(counters[second]))
    }
}

/// The hit that makes a path worth promoting: the second one of both counters.
pub open spec fn is_second_hit(counters: Seq<int>, fingerprint: u64) -> bool {
    let first = counters[first_counter(fingerprint)];
    let second = counters[second_counter(fingerprint)];
    (if first <= second {
        first
    } else {
        second
    }) == SEEN_ONCE
}

/// Counters of a filter that has seen nothing.
pub open spec fn no_hits() -> Seq<int> {
    Seq::new(FILTER_COUNTERS as nat, |c: int| 0)
}

/// Counts recent hits of paths, in two small counters per path.
pub struct HitFilter {
    cells: Vec<u8>,
    hits: u64,
    segment_reinitializations: usize,
}

impl HitFilter {
    /// The counters.
    pub closed spec fn counters(&self) -> Seq<int> {
        Seq::new(
            FILTER_COUNTERS as nat,
            |c: int| packed(self.cells@[c / 4] as int, c % 4),
        )
    }

    /// Hits since the last reset.
    pub closed spec fn hit_count(&self) -> u64 {
        self.hits
    }

    /// Segments initialized since the last reset.
    pub closed spec fn segment_count(&self) -> usize {
        self.segment_reinitializations
    }

    /// The filter has its fixed size and is short of its epoch.
    pub closed spec fn wf(&self) -> bool {
        &&& self.cells@.len() == FILTER_BYTES
        &&& self.hits < FILTER_HIT_EPOCH
    }

    /// The filter has seen nothing since its last reset.
    pub open spec fn is_fresh(&self) -> bool {
        &&& self.counters() == no_hits()
        &&& self.hit_count() == 0
        &&& self.segment_count() == 0
    }

    /// Creates a filter that has seen nothing.
    pub fn new() -> (r: Self)
        ensures
            r.wf(),
            r.is_fresh(),
    {
        let r = HitFilter {
            cells: vec![0u8; FILTER_BYTES],
            hits: 0,
            segment_reinitializations: 0,
        };
        proof {
            assert(r.counters() =~= no_hits());
        }
        r
    }

    /// The filter after one more of the segments was reinitialized.
    pub open spec fn aged_from(&self, before: &HitFilter, segment_count: usize) -> bool {
        let count = before.segment_count() + 1;
        let threshold = (segment_count + 1) / 2;
        if count >= threshold || count > usize::MAX {
            self.is_fresh()
        } else {
            &&& self.counters() == before.counters()
            &&& self.hit_count() == before.hit_count()
            &&& self.segment_count() == count
        }
    }

    /// Notes that a segment was reinitialized, and forgets all hits once half of
    /// the segments were.
    pub fn note_segment_reinitialized(&mut self, segment_count: usize)
        requires
            old(self).wf(),
        ensures
            final(self).wf(),
            final(self).aged_from(old(self), segment_count),
    {
        let threshold: usize = segment_count / 2 + segment_count % 2;
        let exhausted: bool = self.segment_reinitializations == usize::MAX;
        if exhausted || self.segment_reinitializations + 1 >= threshold {
            self.reset();
        } else {
            self.segment_reinitializations = self.segment_reinitializations + 1;
            proof {
                assert(self.counters() =~= old(self).counters());
            }
        }
    }

    /// The filter after one more hit of a fingerprint.
    pub open spec fn hit_from(&self, before: &HitFilter, fingerprint: u64) -> bool {
        if before.hit_count() + 1 >= FILTER_HIT_EPOCH {
            self.is_fresh()
        } else {
            &&& self.counters() == counters_after_hit(before.counters(), fingerprint)
            &&& self.hit_count() == before.hit_count() + 1
            &&& self.segment_count() == before.segment_count()
        }
    }

    /// Counts one hit and reports whether it is the one that makes the path
    /// worth promoting.
    pub fn observe(&mut self, fingerprint: u64) -> (r: bool)
        requires
            old(self).wf(),
        ensures
            final(self).wf(),
            r == is_second_hit(old(self).counters(), fingerprint),
            final(self).hit_from(old(self), fingerprint),
    {
        let first: usize = (fingerprint % FILTER_COUNTERS as u64) as usize;
        let second: usize = (splitmix64_mix(fingerprint ^ SECOND_COUNTER_SALT)
            % FILTER_COUNTERS as u64) as usize;
        let first_before: u8 = self.increment(first);
        let second_before: u8 = if first == second {
            first_before
        } else {
            self.increment(second)
        };
        // Both counters must have a prior hit, so that a path is not admitted
        // because one of its positions collided with another path.
        let before: u8 = if first_before <= second_before {
            first_before
        } else {
            second_before
        };
        self.hits = self.hits + 1;
        proof {
            assert(self.counters() =~= counters_after_hit(old(self).counters(), fingerprint));
        }
        if self.hits >= FILTER_HIT_EPOCH {
            self.reset();
        }
        before == SEEN_ONCE
    }

    fn increment(&mut self, counter: usize) -> (before: u8)
        requires
            old(self).wf(),
            counter < FILTER_COUNTERS,
        ensures
            final(self).wf(),
            before == old(self).counters()[counter as int],
            final(self).counters() == old(self).counters().update(
                counter as int,
                bumped(old(self).counters()[counter as int]),
            ),
            final(self).hits == old(self).hits,
            final(self).segment_reinitializations == old(self).segment_reinitializations,
    {
        let cell_index: usize = counter / 4;
        let position: usize = counter % 4;
        let step: u8 = if position == 0 {
            1
        } else if position == 1 {
            4
        } else if position == 2 {
            16
        } else {
            64
        };
        let cell: u8 = self.cells[cell_index];
        let before: u8 = cell / step % 4;
        proof {
            assert(before == packed(cell as int, position as int));
            assert(step == unit(position as int));
            assert(1 * unit(position as int) == step);
            assert(-1 * unit(position as int) == -step);
        }
        if before < SEEN_AT_LEAST_TWICE {
            proof {
                lemma_step(cell as int, position as int, 1);
            }
            self.cells[cell_index] = cell + step;
        } else if before > SEEN_AT_LEAST_TWICE {
            proof {
                lemma_step(cell as int, position as int, -1);
            }
            self.cells[cell_index] = cell - step;
        }
        proof {
            let after = self.counters();
            let expected = old(self).counters().update(
                counter as int,
                bumped(old(self).counters()[counter as int]),
            );
            assert forall|c: int| 0 <= c < FILTER_COUNTERS implies after[c] == expected[c] by {
                assert(c == 4 * (c / 4) + c % 4);
                assert(counter == 4 * cell_index + position);
                if c / 4 == cell_index {
                    let p = c % 4;
                    assert(packed(self.cells@[cell_index as int] as int, p) == packed(
                        self.cells@[cell_index as int] as int,
                        p,
                    ));
                }
            }
            assert(after =~= expected);
        }
        before
    }

    /// Forgets all hits.
    fn reset(&mut self)
        requires
            old(self).cells@.len() == FILTER_BYTES,
        ensures
            final(self).wf(),
            final(self).is_fresh(),
    {
        let mut i: usize = 0;
        while i < self.cells.len()
            invariant
                i <= self.cells@.len(),
                self.cells@.len() == FILTER_BYTES,
                forall|j: int| 0 <= j < i ==> self.cells@[j] == 0,
            decreases self.cells@.len() - i,
        {
            self.cells[i] = 0;
            i = i + 1;
        }
        self.hits = 0;
        self.segment_reinitializations = 0;
        proof {
            assert(self.counters() =~= no_hits());
        }
    }
}

/// Law: a path whose counters are untouched is reported on its second hit, and
/// neither on the first nor on the third.
pub proof fn law_only_the_second_hit_counts(counters: Seq<int>, fingerprint: u64)
    requires
        counters.len() == FILTER_COUNTERS,
        counters[first_counter(fingerprint)] == 0,
        counters[second_counter(fingerprint)] == 0,
    ensures
        !is_second_hit(counters, fingerprint),
        is_second_hit(counters_after_hit(counters, fingerprint), fingerprint),
        !is_second_hit(
            counters_after_hit(counters_after_hit(counters, fingerprint), fingerprint),
            fingerprint,
        ),
{
}

/// Bounds the work queued for the cache worker.
pub struct Admission {
    promotions: Vec<Vec<u8>>,
    queued_payload_bytes: u64,
    optional_queued: usize,
}

impl Admission {
    /// Paths with a queued promotion.
    pub closed spec fn promoting(&self) -> Seq<Seq<u8>> {
        self.promotions@.map_values(|path: Vec<u8>| path@)
    }

    /// Queued record bytes.
    pub closed spec fn payload(&self) -> u64 {
        self.queued_payload_bytes
    }

    /// Queued optional work.
    pub closed spec fn optional(&self) -> usize {
        self.optional_queued
    }

    /// No limit is exceeded and no path is queued twice.
    pub open spec fn wf(&self) -> bool {
        &&& self.promoting().no_duplicates()
        &&& self.promoting().len() <= OPTIONAL_QUEUE_ITEMS
        &&& self.payload() <= MAX_QUEUED_PAYLOAD_BYTES
        &&& self.optional() <= OPTIONAL_QUEUE_ITEMS
    }

    /// Creates the bookkeeping of an empty queue.
    pub fn new() -> (r: Self)
        ensures
            r.wf(),
            r.promoting() == Seq::<Seq<u8>>::empty(),
            r.payload() == 0,
            r.optional() == 0,
    {
        let r = Admission {
            promotions: Vec::new(),
            queued_payload_bytes: 0,
            optional_queued: 0,
        };
        proof {
            assert(r.promoting() =~= Seq::<Seq<u8>>::empty());
        }
        r
    }

    /// Reserves `bytes` of queued payload, unless the bound is exceeded.
    pub fn reserve_payload(&mut self, bytes: u64) -> (r: bool)
        requires
            old(self).wf(),
        ensures
            final(self).wf(),
            r == (old(self).payload() + bytes <= MAX_QUEUED_PAYLOAD_BYTES),
            final(self).payload() == if r {
                old(self).payload() + bytes
            } else {
                old(self).payload() as int
            },
            final(self).promoting() == old(self).promoting(),
            final(self).optional() == old(self).optional(),
    {
        match self.queued_payload_bytes.checked_add(bytes) {
            Some(next) => {
                if next <= MAX_QUEUED_PAYLOAD_BYTES {
                    self.queued_payload_bytes = next;
                    true
                } else {
                    false
                }
            },
            None => false,
        }
    }

    /// Returns reserved payload.
    pub fn release_payload(&mut self, bytes: u64)
        requires
            old(self).wf(),
            bytes <= old(self).payload(),
        ensures
            final(self).wf(),
            final(self).payload() == old(self).payload() - bytes,
            final(self).promoting() == old(self).promoting(),
            final(self).optional() == old(self).optional(),
    {
        self.queued_payload_bytes = self.queued_payload_bytes - bytes;
    }

    fn position(&self, path: &[u8]) -> (r: Option<usize>)
        ensures
            r is None <==> !self.promoting().contains(path@),
            r matches Some(i) ==> i < self.promoting().len() && self.promoting()[i as int] == path@,
    {
        let mut i: usize = 0;
        while i < self.promotions.len()
            invariant
                i <= self.promotions@.len(),
                forall|j: int| 0 <= j < i ==> self.promoting()[j] != path@,
            decreases self.promotions@.len() - i,
        {
            if bytes::same(self.promotions[i].as_slice(), path) {
                assert(self.promoting()[i as int] == path@);
                return Some(i);
            }
            i = i + 1;
        }
        None
    }

    /// Reserves the one promotion of `path`, unless it is queued already or too
    /// many are.
    pub fn reserve_promotion(&mut self, path: &str) -> (r: bool)
        requires
            old(self).wf(),
        ensures
            final(self).wf(),
            r == (!old(self).promoting().contains(path.spec_bytes()) && old(self).promoting().len()
                < OPTIONAL_QUEUE_ITEMS),
            final(self).promoting() == if r {
                old(self).promoting().push(path.spec_bytes())
            } else {
                old(self).promoting()
            },
            final(self).payload() == old(self).payload(),
            final(self).optional() == old(self).optional(),
    {
        let name: &[u8] = path.as_bytes();
        if self.position(name).is_some() || self.promotions.len() >= OPTIONAL_QUEUE_ITEMS {
            return false;
        }
        self.promotions.push(bytes::copy(name));
        proof {
            assert(self.promoting() =~= old(self).promoting().push(path.spec_bytes()));
        }
        true
    }

    /// Forgets the promotion of `path`.
    pub fn remove_promotion(&mut self, path: &str)
        requires
            old(self).wf(),
        ensures
            final(self).wf(),
            !final(self).promoting().contains(path.spec_bytes()),
            forall|other: Seq<u8>|
                other != path.spec_bytes() ==> (final(self).promoting().contains(other)
                    <==> old(self).promoting().contains(other)),
            final(self).payload() == old(self).payload(),
            final(self).optional() == old(self).optional(),
    {
        if let Some(i) = self.position(path.as_bytes()) {
            let _ = self.promotions.remove(i);
            proof {
                let before = old(self).promoting();
                assert(self.promoting() =~= before.remove(i as int));
                assert forall|other: Seq<u8>| other != path.spec_bytes() implies (
                self.promoting().contains(other) <==> before.contains(other)) by {
                    if before.contains(other) {
                        let k = before.index_of(other);
                        if k < i {
                            assert(self.promoting()[k] == other);
                        } else {
                            assert(self.promoting()[k - 1] == other);
                        }
                    }
                }
            }
        }
    }

    /// Reserves room for one piece of optional work.
    pub fn reserve_optional(&mut self) -> (r: bool)
        requires
            old(self).wf(),
        ensures
            final(self).wf(),
            r == (old(self).optional() < OPTIONAL_QUEUE_ITEMS),
            final(self).optional() == if r {
                old(self).optional() + 1
            } else {
                old(self).optional() as int
            },
            final(self).promoting() == old(self).promoting(),
            final(self).payload() == old(self).payload(),
    {
        if self.optional_queued < OPTIONAL_QUEUE_ITEMS {
            self.optional_queued = self.optional_queued + 1;
            true
        } else {
            false
        }
    }

    /// Returns the room of one piece of optional work.
    pub fn release_optional(&mut self)
        requires
            old(self).wf(),
            old(self).optional() > 0,
        ensures
            final(self).wf(),
            final(self).optional() == old(self).optional() - 1,
            final(self).promoting() == old(self).promoting(),
            final(self).payload() == old(self).payload(),
    {
        self.optional_queued = self.optional_queued - 1;
    }
}

} // verus!
