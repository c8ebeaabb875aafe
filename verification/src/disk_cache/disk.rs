//! Persistent-cache index, segment ring and recovery decisions.

use vstd::prelude::*;
use vstd::string::*;

use super::format::{
    CacheFormat, FormatError, Record, Slot, RECORD_ALIGNMENT, SLOT_BYTES,
};
use crate::bytes;
use crate::timeline::SequencePoint;

verus! {

/// Unsynchronized bytes after which a sync is due.
pub const SYNC_BYTES: u64 = 67_108_864;

/// The container's format together with the generation of each segment; zero
/// marks a segment that was never initialized.
pub struct Disk {
    /// Format context of the container.
    pub format: CacheFormat,
    /// Generation of each segment.
    pub segment_generations: Vec<u64>,
}

/// What became of reading the record behind one slot.
pub enum RecordVerdict {
    /// The record is intact and belongs to the path.
    Found(Record),
    /// The slot's segment has been reused since.
    Stale,
    /// The record is damaged, or belongs to another path.
    Corrupt,
}

/// Which slots of a bucket a publication rewrites.
pub struct PublishPlan {
    /// Slots of the same fingerprint, zeroed first.
    pub cleared: Vec<usize>,
    /// Slot that receives the new pointer.
    pub index: usize,
}

/// Slots in one index bucket.
pub open spec fn bucket_len(bucket: Seq<u8>) -> int {
    bucket.len() as int / SLOT_BYTES as int
}

/// The slots of one index bucket.
pub open spec fn bucket_slots(bucket: Seq<u8>) -> Seq<Slot> {
    Seq::new(
        bucket_len(bucket) as nat,
        |i: int|
            super::format::decoded_slot(
                bucket.subrange(i * SLOT_BYTES as int, i * SLOT_BYTES as int + SLOT_BYTES as int),
            ),
    )
}

/// The slot is in use and carries the fingerprint.
pub open spec fn carries(slot: Slot, fingerprint: u64) -> bool {
    slot.generation != 0 && slot.fingerprint == fingerprint
}

/// Decodes slot `i` of a bucket.
fn slot_in_bucket(format: &CacheFormat, bucket: &[u8], i: usize) -> (r: Slot)
    requires
        i < bucket_len(bucket@),
    ensures
        r == bucket_slots(bucket@)[i as int],
{
    let len: usize = bucket.len();
    assert(i * 40 + 40 <= len);
    let start: usize = i * 40;
    format.decode_slot(vstd::slice::slice_subrange(bucket, start, start + 40))
}

impl Disk {
    /// Every segment has a generation.
    pub open spec fn wf(&self) -> bool {
        &&& self.format.wf()
        &&& self.segment_generations@.len() == self.format.spec_layout().segment_count
    }

    /// The slot points at a record inside segment `s`, and the segment still has
    /// the slot's generation.
    pub open spec fn points_into(&self, slot: Slot, s: int) -> bool {
        &&& 0 <= s < self.segment_generations@.len()
        &&& slot.generation != 0
        &&& self.segment_generations@[s] == slot.generation
        &&& slot.current_after@ != 0
        &&& slot.record_offset % RECORD_ALIGNMENT == 0
        &&& slot.record_bytes % RECORD_ALIGNMENT == 0
        &&& slot.record_bytes >= self.format.spec_geometry().minimum_record_bytes
        &&& slot.record_offset >= self.format.segment_offset(s)
            + self.format.spec_geometry().block_bytes
        &&& slot.record_offset + slot.record_bytes <= self.format.segment_offset(s)
            + self.format.spec_geometry().segment_bytes
    }

    /// The slot points at a record that may still be read.
    pub open spec fn live(&self, slot: Slot) -> bool {
        exists|s: int| self.points_into(slot, s)
    }

    /// Returns the segment that a slot points into, unless the slot is stale or
    /// malformed.
    pub fn slot_range(&self, slot: Slot) -> (r: Option<usize>)
        requires
            self.wf(),
        ensures
            r is Some <==> self.live(slot),
            r matches Some(s) ==> self.points_into(slot, s as int),
    {
        proof {
            self.format.lemma_layout();
            self.lemma_segment_of(slot);
        }
        if slot.current_after.raw() == 0 || slot.record_offset % RECORD_ALIGNMENT != 0
            || slot.record_bytes < self.format.minimum_record_bytes()
            || slot.record_bytes % RECORD_ALIGNMENT != 0
            || slot.record_bytes > self.format.maximum_record_bytes()
            || slot.record_offset < self.format.data_offset() {
            return None;
        }
        let relative: u64 = slot.record_offset - self.format.data_offset();
        let segment: u64 = relative / self.format.segment_bytes();
        if segment >= self.format.segment_count() as u64 {
            return None;
        }
        let segment: usize = segment as usize;
        proof {
            self.format.lemma_segment(segment as int);
        }
        let start: u64 = self.format.segment_start(segment);
        let content_start: u64 = start + self.format.block_bytes();
        let end: u64 = match slot.record_offset.checked_add(slot.record_bytes) {
            Some(end) => end,
            None => return None,
        };
        let segment_end: u64 = start + self.format.segment_bytes();
        if slot.record_offset < content_start || end > segment_end {
            return None;
        }
        let generation: u64 = self.segment_generations[segment];
        if generation == slot.generation && generation != 0 {
            proof {
                assert(self.points_into(slot, segment as int));
            }
            Some(segment)
        } else {
            None
        }
    }

    /// A slot can only point into the segment that its offset falls in.
    proof fn lemma_segment_of(&self, slot: Slot)
        requires
            self.wf(),
        ensures
            forall|s: int| #[trigger]
                self.points_into(slot, s) ==> {
                    &&& slot.record_offset >= self.format.spec_layout().data_offset
                    &&& s == (slot.record_offset - self.format.spec_layout().data_offset)
                        / self.format.spec_geometry().segment_bytes as int
                    &&& slot.record_bytes <= self.format.spec_geometry().segment_bytes
                        - self.format.spec_geometry().block_bytes
                },
    {
        self.format.lemma_layout();
        assert forall|s: int| #[trigger] self.points_into(slot, s) implies {
            &&& slot.record_offset >= self.format.spec_layout().data_offset
            &&& s == (slot.record_offset - self.format.spec_layout().data_offset)
                / self.format.spec_geometry().segment_bytes as int
            &&& slot.record_bytes <= self.format.spec_geometry().segment_bytes
                - self.format.spec_geometry().block_bytes
        } by {
            self.format.lemma_segment(s);
            let seg = self.format.spec_geometry().segment_bytes as int;
            let relative = slot.record_offset - self.format.spec_layout().data_offset;
            assert(s * seg <= relative < s * seg + seg);
            vstd::arithmetic::div_mod::lemma_fundamental_div_mod_converse(
                relative,
                seg,
                s,
                relative - s * seg,
            );
        }
    }
}

/// Generations never increase along the slots.
pub open spec fn newest_first(slots: Seq<Slot>) -> bool {
    forall|i: int, j: int|
        0 <= i <= j < slots.len() ==> slots[i].generation >= slots[j].generation
}

/// Inserts a slot behind those of its own or a newer generation.
fn insert_newest_first(slots: &mut Vec<Slot>, slot: Slot)
    requires
        newest_first(old(slots)@),
    ensures
        newest_first(final(slots)@),
        final(slots)@.to_multiset() == old(slots)@.to_multiset().insert(slot),
        final(slots)@.len() == old(slots)@.len() + 1,
{
    let mut at: usize = slots.len();
    while at > 0 && slots[at - 1].generation < slot.generation
        invariant
            at <= slots@.len(),
            slots@ == old(slots)@,
            newest_first(slots@),
            forall|j: int| at <= j < slots@.len() ==> slots@[j].generation < slot.generation,
        decreases at,
    {
        at = at - 1;
    }
    let ghost before = slots@;
    slots.insert(at, slot);
    proof {
        before.to_multiset_ensures();
        assert(slots@ =~= before.insert(at as int, slot));
        vstd::seq_lib::to_multiset_insert(before, at as int, slot);
    }
}

/// The slots of a bucket that may hold a record for the fingerprint.
pub open spec fn candidates(disk: &Disk, bucket: Seq<u8>, fingerprint: u64) -> Seq<Slot> {
    bucket_slots(bucket).filter(|slot: Slot| carries(slot, fingerprint) && disk.live(slot))
}

impl Disk {
    /// Returns the slots of a bucket to be tried for a path with `fingerprint`,
    /// newest first.
    pub fn matching_slots(&self, bucket: &[u8], fingerprint: u64) -> (r: Vec<Slot>)
        requires
            self.wf(),
        ensures
            r@.to_multiset() == candidates(self, bucket@, fingerprint).to_multiset(),
            newest_first(r@),
    {
        let count: usize = bucket.len() / 40;
        let mut slots: Vec<Slot> = Vec::new();
        let mut i: usize = 0;
        let ghost keep = |slot: Slot| carries(slot, fingerprint) && self.live(slot);
        let ghost all = bucket_slots(bucket@);
        proof {
            assert(all.take(0).filter(keep) =~= Seq::<Slot>::empty()) by {
                reveal(Seq::filter);
            }
            assert(slots@ =~= all.take(0).filter(keep));
        }
        while i < count
            invariant
                self.wf(),
                i <= count,
                count == bucket_len(bucket@),
                all == bucket_slots(bucket@),
                keep == (|slot: Slot| carries(slot, fingerprint) && self.live(slot)),
                newest_first(slots@),
                slots@.to_multiset() == all.take(i as int).filter(keep).to_multiset(),
            decreases count - i,
        {
            let slot = slot_in_bucket(&self.format, bucket, i);
            proof {
                let head = all.take(i as int);
                assert(all.take(i + 1) =~= head.push(slot));
                assert(all.take(i + 1).drop_last() =~= head);
                reveal(Seq::filter);
                head.filter(keep).to_multiset_ensures();
            }
            if slot.generation != 0 && slot.fingerprint == fingerprint && self.slot_range(
                slot,
            ).is_some() {
                insert_newest_first(&mut slots, slot);
            }
            i = i + 1;
        }
        proof {
            assert(all.take(i as int) =~= all);
        }
        slots
    }

    /// Judges the bytes read behind a slot for `path`.
    pub fn judge_record(&self, path: &str, slot: Slot, raw: &[u8]) -> (r: RecordVerdict)
        requires
            self.wf(),
        ensures
            r is Stale <==> !self.live(slot),
            r is Found <==> self.live(slot) && self.format.record_intact(path.spec_bytes(), raw@)
                && bytes::le64_value(raw@.subrange(8, 16)) == slot.current_after@,
            r matches RecordVerdict::Found(record) ==> {
                &&& record.revision@ == CacheFormat::stored_revision(raw@)
                &&& record.body@ == CacheFormat::stored_body(raw@)
                &&& record.current_after == slot.current_after
            },
    {
        if self.slot_range(slot).is_none() {
            return RecordVerdict::Stale;
        }
        match self.format.decode_record(path, raw) {
            Ok(record) => {
                if record.current_after.raw() == slot.current_after.raw() {
                    RecordVerdict::Found(record)
                } else {
                    RecordVerdict::Corrupt
                }
            },
            Err(_) => RecordVerdict::Corrupt,
        }
    }
}

/// Indices of the slots that carry the fingerprint, in order.
pub open spec fn carriers(slots: Seq<Slot>, fingerprint: u64, r: Seq<usize>) -> bool {
    &&& forall|i: int, j: int| 0 <= i < j < r.len() ==> r[i] < r[j]
    &&& forall|i: int| 0 <= i < r.len() ==> r[i] < slots.len() && carries(slots[r[i] as int], fingerprint)
    &&& forall|k: int|
        0 <= k < slots.len() && #[trigger] carries(slots[k], fingerprint) ==> exists|i: int|
            0 <= i < r.len() && r[i] == k
}

/// Returns the slots that an invalidation of `fingerprint` zeroes.
pub fn slots_to_clear(format: &CacheFormat, bucket: &[u8], fingerprint: u64) -> (r: Vec<usize>)
    ensures
        carriers(bucket_slots(bucket@), fingerprint, r@),
{
    let count: usize = bucket.len() / 40;
    let mut found: Vec<usize> = Vec::new();
    let mut i: usize = 0;
    let ghost slots = bucket_slots(bucket@);
    while i < count
        invariant
            i <= count,
            count == slots.len(),
            slots == bucket_slots(bucket@),
            count == bucket_len(bucket@),
            forall|a: int, b: int| 0 <= a < b < found@.len() ==> found@[a] < found@[b],
            forall|a: int|
                0 <= a < found@.len() ==> found@[a] < i && carries(
                    slots[found@[a] as int],
                    fingerprint,
                ),
            forall|k: int|
                0 <= k < i && #[trigger] carries(slots[k], fingerprint) ==> exists|a: int|
                    0 <= a < found@.len() && found@[a] == k,
        decreases count - i,
    {
        let slot = slot_in_bucket(format, bucket, i);
        let ghost before = found@;
        if slot.generation != 0 && slot.fingerprint == fingerprint {
            found.push(i);
        }
        proof {
            assert forall|k: int|
                0 <= k < i + 1 && #[trigger] carries(slots[k], fingerprint) implies exists|a: int|
                0 <= a < found@.len() && found@[a] == k by {
                if k < i {
                    let a = choose|a: int| 0 <= a < before.len() && before[a] == k;
                    assert(found@[a] == k);
                } else {
                    assert(found@[found@.len() - 1] == k);
                }
            }
        }
        i = i + 1;
    }
    found
}

/// The slot is empty once the pointers of `fingerprint` are cleared.
pub open spec fn vacant(slot: Slot, fingerprint: u64) -> bool {
    slot.generation == 0 || carries(slot, fingerprint)
}

/// `t` is the slot that a new pointer for `fingerprint` goes to: the first
/// vacant slot, else the first stale one, else the first of the oldest
/// generation.
pub open spec fn is_target(disk: &Disk, slots: Seq<Slot>, fingerprint: u64, t: int) -> bool {
    &&& 0 <= t < slots.len()
    &&& if exists|i: int| 0 <= i < slots.len() && vacant(#[trigger] slots[i], fingerprint) {
        &&& vacant(slots[t], fingerprint)
        &&& forall|j: int| 0 <= j < t ==> !vacant(#[trigger] slots[j], fingerprint)
    } else if exists|i: int| 0 <= i < slots.len() && !disk.live(#[trigger] slots[i]) {
        &&& !disk.live(slots[t])
        &&& forall|j: int| 0 <= j < t ==> disk.live(#[trigger] slots[j])
    } else {
        &&& forall|j: int|
            0 <= j < slots.len() ==> slots[t].generation <= (#[trigger] slots[j]).generation
        &&& forall|j: int|
            0 <= j < t ==> slots[t].generation < (#[trigger] slots[j]).generation
    }
}

/// A zeroed slot.
pub open spec fn empty_slot() -> Slot {
    Slot {
        fingerprint: 0,
        generation: 0,
        record_offset: 0,
        record_bytes: 0,
        current_after: SequencePoint { raw: 0 },
    }
}

/// The bucket after the pointers of `fingerprint` were zeroed.
pub open spec fn after_invalidate(slots: Seq<Slot>, fingerprint: u64) -> Seq<Slot> {
    slots.map_values(
        |slot: Slot|
            if carries(slot, fingerprint) {
                empty_slot()
            } else {
                slot
            },
    )
}

/// The bucket after a pointer was published at `t`.
pub open spec fn after_publish(slots: Seq<Slot>, slot: Slot, t: int) -> Seq<Slot> {
    after_invalidate(slots, slot.fingerprint).update(t, slot)
}

impl Disk {
    /// Plans the publication of `slot` in its bucket.
    pub fn plan_publish(&self, bucket: &[u8], slot: Slot) -> (r: PublishPlan)
        requires
            self.wf(),
            bucket_len(bucket@) >= 1,
        ensures
            carriers(bucket_slots(bucket@), slot.fingerprint, r.cleared@),
            is_target(self, bucket_slots(bucket@), slot.fingerprint, r.index as int),
    {
        let cleared = slots_to_clear(&self.format, bucket, slot.fingerprint);
        let count: usize = bucket.len() / 40;
        let ghost slots = bucket_slots(bucket@);
        let ghost fp = slot.fingerprint;
        let mut empty: Option<usize> = None;
        let mut stale: Option<usize> = None;
        let mut oldest: Option<(usize, u64)> = None;
        let mut i: usize = 0;
        while i < count
            invariant
                self.wf(),
                i <= count,
                count == bucket_len(bucket@),
                slots == bucket_slots(bucket@),
                slots.len() == count,
                fp == slot.fingerprint,
                empty is None ==> forall|j: int| 0 <= j < i ==> !vacant(#[trigger] slots[j], fp),
                empty matches Some(e) ==> {
                    &&& e < i
                    &&& vacant(slots[e as int], fp)
                    &&& forall|j: int| 0 <= j < e ==> !vacant(#[trigger] slots[j], fp)
                },
                stale is None ==> forall|j: int|
                    0 <= j < i ==> vacant(#[trigger] slots[j], fp) || self.live(slots[j]),
                stale matches Some(e) ==> {
                    &&& e < i
                    &&& !vacant(slots[e as int], fp)
                    &&& !self.live(slots[e as int])
                    &&& forall|j: int|
                        0 <= j < e ==> vacant(#[trigger] slots[j], fp) || self.live(slots[j])
                },
                oldest is None ==> forall|j: int|
                    0 <= j < i ==> vacant(#[trigger] slots[j], fp) || !self.live(slots[j]),
                oldest matches Some((e, generation)) ==> {
                    &&& e < i
                    &&& generation == slots[e as int].generation
                    &&& !vacant(slots[e as int], fp)
                    &&& forall|j: int|
                        0 <= j < i ==> vacant(#[trigger] slots[j], fp) || !self.live(slots[j])
                            || generation <= slots[j].generation
                    &&& forall|j: int|
                        0 <= j < e ==> vacant(#[trigger] slots[j], fp) || !self.live(slots[j])
                            || generation < slots[j].generation
                },
            decreases count - i,
        {
            let candidate = slot_in_bucket(&self.format, bucket, i);
            if candidate.generation == 0 || candidate.fingerprint == slot.fingerprint {
                if empty.is_none() {
                    empty = Some(i);
                }
            } else if self.slot_range(candidate).is_none() {
                if stale.is_none() {
                    stale = Some(i);
                }
            } else {
                match oldest {
                    None => {
                        oldest = Some((i, candidate.generation));
                    },
                    Some((_, generation)) => {
                        if candidate.generation < generation {
                            oldest = Some((i, candidate.generation));
                        }
                    },
                }
            }
            i = i + 1;
        }
        let index: usize = match (empty, stale, oldest) {
            (Some(index), _, _) => index,
            (None, Some(index), _) => index,
            (None, None, Some((index, _))) => index,
            (None, None, None) => {
                proof {
                    assert(!vacant(slots[0], fp));
                    assert(self.live(slots[0]));
                }
                0
            },
        };
        PublishPlan { cleared, index }
    }
}

/// Law: after a publication exactly one pointer of the bucket carries the
/// published fingerprint, the published one.
pub proof fn law_publish_leaves_one_pointer(slots: Seq<Slot>, slot: Slot, t: int)
    requires
        0 <= t < slots.len(),
        slot.generation != 0,
    ensures
        after_publish(slots, slot, t)[t] == slot,
        forall|i: int|
            0 <= i < slots.len() ==> (carries(
                #[trigger] after_publish(slots, slot, t)[i],
                slot.fingerprint,
            ) <==> i == t),
{
}

/// Law: a publication changes no pointer of another fingerprint but the one it
/// takes the place of.
pub proof fn law_publish_keeps_other_pointers(slots: Seq<Slot>, slot: Slot, t: int, i: int)
    requires
        0 <= t < slots.len(),
        0 <= i < slots.len(),
        i != t,
        !carries(slots[i], slot.fingerprint),
    ensures
        after_publish(slots, slot, t)[i] == slots[i],
{
}

/// Law: a live pointer of another fingerprint gives way only when every slot
/// of the bucket is live, and then only to the oldest generation.
pub proof fn law_publish_evicts_the_oldest(disk: &Disk, slots: Seq<Slot>, fingerprint: u64, t: int)
    requires
        is_target(disk, slots, fingerprint, t),
        !vacant(slots[t], fingerprint),
        disk.live(slots[t]),
    ensures
        forall|i: int|
            0 <= i < slots.len() ==> disk.live(#[trigger] slots[i]) && slots[t].generation
                <= slots[i].generation,
{
    assert forall|i: int| 0 <= i < slots.len() implies disk.live(#[trigger] slots[i])
        && slots[t].generation <= slots[i].generation by {
        if vacant(slots[i], fingerprint) {
        }
    }
}

/// Law: after an invalidation no pointer of the bucket carries the fingerprint.
pub proof fn law_invalidate_removes_every_pointer(slots: Seq<Slot>, fingerprint: u64)
    ensures
        forall|i: int|
            0 <= i < slots.len() ==> !carries(
                #[trigger] after_invalidate(slots, fingerprint)[i],
                fingerprint,
            ),
{
}

/// A bucket after `raw` was written over slot `i`.
pub open spec fn with_slot_written(bucket: Seq<u8>, i: int, raw: Seq<u8>) -> Seq<u8> {
    bucket.subrange(0, i * 40) + raw + bucket.subrange(i * 40 + 40, bucket.len() as int)
}

/// Law: writing one encoded slot into a bucket replaces that slot and no other;
/// writing zeros empties it.
pub proof fn law_slot_write(bucket: Seq<u8>, i: int, raw: Seq<u8>)
    requires
        0 <= i < bucket_len(bucket),
        raw.len() == SLOT_BYTES,
    ensures
        bucket_slots(with_slot_written(bucket, i, raw)) == bucket_slots(bucket).update(
            i,
            super::format::decoded_slot(raw),
        ),
        raw == bytes::zeros(40) ==> super::format::decoded_slot(raw) == empty_slot(),
{
    let after = with_slot_written(bucket, i, raw);
    assert(after.len() == bucket.len());
    bytes::lemma_le64();
    assert forall|j: int| 0 <= j < bucket_len(bucket) implies bucket_slots(after)[j]
        == bucket_slots(bucket).update(i, super::format::decoded_slot(raw))[j] by {
        if j == i {
            assert(after.subrange(j * 40, j * 40 + 40) =~= raw);
        } else {
            assert(after.subrange(j * 40, j * 40 + 40) =~= bucket.subrange(j * 40, j * 40 + 40));
        }
    }
    assert(bucket_slots(after) =~= bucket_slots(bucket).update(
        i,
        super::format::decoded_slot(raw),
    ));
}

/// The later of two optional points.
pub open spec fn latest(a: Option<u64>, b: Option<u64>) -> Option<u64> {
    match (a, b) {
        (Some(x), Some(y)) => Some(if x >= y { x } else { y }),
        (Some(x), None) => Some(x),
        (None, _) => b,
    }
}

/// The point of a slot, if the slot is live.
pub open spec fn live_point(disk: &Disk, slot: Slot) -> Option<u64> {
    if disk.live(slot) {
        Some(slot.current_after@)
    } else {
        None
    }
}

/// The latest point of the live slots.
pub open spec fn latest_point(disk: &Disk, slots: Seq<Slot>) -> Option<u64>
    decreases slots.len(),
{
    if slots.len() == 0 {
        None
    } else {
        latest(latest_point(disk, slots.drop_last()), live_point(disk, slots.last()))
    }
}

/// The raw value of an optional point.
pub open spec fn raw_point(point: Option<SequencePoint>) -> Option<u64> {
    match point {
        Some(p) => Some(p@),
        None => None,
    }
}

impl Disk {
    /// Extends the latest recovered point by the slots of one index bucket.
    pub fn scan_bucket(&self, bucket: &[u8], seen: Option<SequencePoint>) -> (r: Option<
        SequencePoint,
    >)
        requires
            self.wf(),
        ensures
            raw_point(r) == latest(raw_point(seen), latest_point(self, bucket_slots(bucket@))),
    {
        let count: usize = bucket.len() / 40;
        let ghost slots = bucket_slots(bucket@);
        let mut maximum = seen;
        let mut i: usize = 0;
        while i < count
            invariant
                self.wf(),
                i <= count,
                count == bucket_len(bucket@),
                slots == bucket_slots(bucket@),
                raw_point(maximum) == latest(
                    raw_point(seen),
                    latest_point(self, slots.take(i as int)),
                ),
            decreases count - i,
        {
            let slot = slot_in_bucket(&self.format, bucket, i);
            proof {
                assert(slots.take(i + 1).drop_last() =~= slots.take(i as int));
                assert(slots.take(i + 1).last() == slot);
            }
            if slot.generation != 0 && self.slot_range(slot).is_some() {
                maximum = match maximum {
                    Some(current) => Some(current.later(slot.current_after)),
                    None => Some(slot.current_after),
                };
            } else {
                proof {
                    assert(!self.live(slot));
                }
            }
            i = i + 1;
        }
        proof {
            assert(slots.take(i as int) =~= slots);
        }
        maximum
    }

    /// Ends an index scan; a point without a successor makes the container
    /// unusable.
    pub fn finish_scan(maximum: Option<SequencePoint>) -> (r: Result<
        Option<SequencePoint>,
        FormatError,
    >)
        ensures
            raw_point(maximum) == Some(u64::MAX) ==> r == Err::<
                Option<SequencePoint>,
                FormatError,
            >(FormatError::SequenceExhausted),
            raw_point(maximum) != Some(u64::MAX) ==> r == Ok::<
                Option<SequencePoint>,
                FormatError,
            >(maximum),
    {
        match maximum {
            Some(point) => {
                if point.raw() == u64::MAX {
                    Err(FormatError::SequenceExhausted)
                } else {
                    Ok(maximum)
                }
            },
            None => Ok(maximum),
        }
    }

    /// Reports whether an opened file already is this container.
    pub fn container_valid(format: &CacheFormat, current_len: u64, header: &[u8]) -> (r: bool)
        requires
            format.wf(),
        ensures
            r == (current_len == format.spec_layout().capacity && current_len != 0
                && header@.len() >= 80 && header@.subrange(0, 80) == format.header_content()),
    {
        current_len == format.capacity() && current_len != 0 && format.file_header_valid(header)
    }
}

/// The generation of a segment header, or zero for a damaged one.
pub open spec fn recovered_generation(header: Seq<u8>) -> u64 {
    match CacheFormat::segment_generation(header) {
        Some(generation) => generation,
        None => 0,
    }
}

/// The greatest of the generations, or zero.
pub open spec fn greatest(generations: Seq<u64>) -> u64
    decreases generations.len(),
{
    if generations.len() == 0 {
        0
    } else {
        let rest = greatest(generations.drop_last());
        if rest >= generations.last() {
            rest
        } else {
            generations.last()
        }
    }
}

/// No generation exceeds the greatest.
pub proof fn lemma_greatest(generations: Seq<u64>)
    ensures
        forall|i: int| 0 <= i < generations.len() ==> generations[i] <= greatest(generations),
    decreases generations.len(),
{
    if generations.len() > 0 {
        lemma_greatest(generations.drop_last());
        assert forall|i: int| 0 <= i < generations.len() implies generations[i] <= greatest(
            generations,
        ) by {
            if i < generations.len() - 1 {
                assert(generations[i] == generations.drop_last()[i]);
            }
        }
    }
}

/// The append position of the record ring and what is owed to the media.
pub struct WriterState {
    /// Segment that receives records.
    pub active_segment: Option<usize>,
    /// Where the next record goes.
    pub append_offset: u64,
    /// Generation of the next initialized segment.
    pub next_generation: u64,
    /// Bytes written since the last sync.
    pub dirty_bytes: u64,
    /// Bytes that promotions may still append.
    pub promotion_tokens: u64,
}

/// A segment about to be initialized.
pub struct SegmentStart {
    /// Segment to be reused.
    pub segment: usize,
    /// Its new generation.
    pub generation: u64,
    /// Offset of its header.
    pub start: u64,
    /// Encoded header.
    pub header: Vec<u8>,
}

/// A record about to be appended.
pub struct AppendPlan {
    /// Pointer to the record.
    pub slot: Slot,
    /// Encoded record.
    pub record: Vec<u8>,
}

/// The position lies in the content of segment `s`.
pub open spec fn tail_fits(format: &CacheFormat, s: int, append_offset: u64) -> bool {
    &&& append_offset % RECORD_ALIGNMENT == 0
    &&& format.segment_offset(s) + format.spec_geometry().block_bytes <= append_offset
    &&& append_offset <= format.segment_offset(s) + format.spec_geometry().segment_bytes
}

/// `s` is the first segment of the marker's generation whose content holds the
/// marker's position.
pub open spec fn resumes_at(disk: &Disk, maximum: u64, tail: Option<(u64, u64)>, s: int) -> bool {
    tail matches Some((generation, append_offset)) && {
        &&& maximum != 0
        &&& generation == maximum
        &&& 0 <= s < disk.segment_generations@.len()
        &&& disk.segment_generations@[s] == generation
        &&& tail_fits(&disk.format, s, append_offset)
        &&& forall|j: int|
            0 <= j < s ==> !(#[trigger] disk.segment_generations@[j] == generation && tail_fits(
                &disk.format,
                j,
                append_offset,
            ))
    }
}

impl Disk {
    /// Recovers the segment generations from the segment headers, with the
    /// greatest of them and its successor.
    pub fn recover(format: CacheFormat, headers: &Vec<Vec<u8>>) -> (r: Result<
        (Disk, u64, u64),
        FormatError,
    >)
        requires
            format.wf(),
            headers@.len() == format.spec_layout().segment_count,
        ensures
            ({
                let generations = headers@.map_values(
                    |header: Vec<u8>| recovered_generation(header@),
                );
                &&& greatest(generations) == u64::MAX ==> r == Err::<
                    (Disk, u64, u64),
                    FormatError,
                >(FormatError::GenerationExhausted)
                &&& greatest(generations) < u64::MAX ==> r is Ok
                &&& r matches Ok((disk, maximum, next)) ==> {
                    &&& disk.wf()
                    &&& disk.format == format
                    &&& disk.segment_generations@ == generations
                    &&& maximum == greatest(generations)
                    &&& next == maximum + 1
                }
            }),
    {
        let ghost all = headers@.map_values(|header: Vec<u8>| recovered_generation(header@));
        let mut generations: Vec<u64> = Vec::new();
        let mut maximum: u64 = 0;
        let mut i: usize = 0;
        while i < headers.len()
            invariant
                i <= headers@.len(),
                all == headers@.map_values(|header: Vec<u8>| recovered_generation(header@)),
                generations@ == all.take(i as int),
                maximum == greatest(all.take(i as int)),
            decreases headers@.len() - i,
        {
            let generation: u64 = match format.decode_segment_generation(headers[i].as_slice()) {
                Some(generation) => generation,
                None => 0,
            };
            proof {
                assert(all[i as int] == generation);
                assert(all.take(i + 1).drop_last() =~= all.take(i as int));
                assert(all.take(i + 1) =~= all.take(i as int).push(generation));
            }
            if generation > maximum {
                maximum = generation;
            }
            generations.push(generation);
            i = i + 1;
        }
        proof {
            assert(all.take(i as int) =~= all);
        }
        if maximum == u64::MAX {
            return Err(FormatError::GenerationExhausted);
        }
        Ok((Disk { format, segment_generations: generations }, maximum, maximum + 1))
    }

    /// Decides where appends resume after a clean shutdown.
    pub fn resume_tail(&self, maximum: u64, marker: &[u8]) -> (r: Option<(usize, u64)>)
        requires
            self.wf(),
        ensures
            r matches Some((s, append_offset)) ==> {
                &&& resumes_at(self, maximum, self.format.clean_tail(marker@), s as int)
                &&& self.format.clean_tail(marker@) == Some((maximum, append_offset))
            },
            r is None ==> forall|s: int| !resumes_at(self, maximum, self.format.clean_tail(marker@), s),
    {
        if maximum == 0 {
            return None;
        }
        let (generation, append_offset) = match self.format.decode_clean_tail(marker) {
            Some(tail) => tail,
            None => return None,
        };
        if generation != maximum {
            return None;
        }
        let mut s: usize = 0;
        while s < self.segment_generations.len()
            invariant
                self.wf(),
                s <= self.segment_generations@.len(),
                maximum != 0,
                generation == maximum,
                self.format.clean_tail(marker@) == Some((generation, append_offset)),
                forall|j: int|
                    0 <= j < s ==> !(#[trigger] self.segment_generations@[j] == generation
                        && tail_fits(&self.format, j, append_offset)),
            decreases self.segment_generations@.len() - s,
        {
            proof {
                self.format.lemma_layout();
                self.format.lemma_segment(s as int);
            }
            let start: u64 = self.format.segment_start(s);
            if self.segment_generations[s] == generation && append_offset % RECORD_ALIGNMENT == 0
                && append_offset >= start + self.format.block_bytes() && append_offset <= start
                + self.format.segment_bytes() {
                return Some((s, append_offset));
            }
            s = s + 1;
        }
        None
    }
}

/// `s` is the segment to be initialized next: the first unused one, else the
/// first of the oldest generation.
pub open spec fn is_next_segment(generations: Seq<u64>, s: int) -> bool {
    &&& 0 <= s < generations.len()
    &&& if exists|i: int| 0 <= i < generations.len() && #[trigger] generations[i] == 0 {
        &&& generations[s] == 0
        &&& forall|j: int| 0 <= j < s ==> #[trigger] generations[j] != 0
    } else {
        &&& forall|j: int| 0 <= j < generations.len() ==> generations[s] <= #[trigger] generations[j]
        &&& forall|j: int| 0 <= j < s ==> generations[s] < #[trigger] generations[j]
    }
}

/// The sum, or the greatest value that fits.
pub open spec fn saturated(x: int) -> int {
    if x > u64::MAX {
        u64::MAX as int
    } else {
        x
    }
}

/// Initialized segments older than `generation`.
pub open spec fn older_segments(generations: Seq<u64>, generation: u64) -> int
    decreases generations.len(),
{
    if generations.len() == 0 {
        0
    } else {
        older_segments(generations.drop_last(), generation) + if generations.last() != 0
            && generations.last() < generation {
            1int
        } else {
            0
        }
    }
}

/// Initialized segments.
pub open spec fn used_segments(generations: Seq<u64>) -> int
    decreases generations.len(),
{
    if generations.len() == 0 {
        0
    } else {
        used_segments(generations.drop_last()) + if generations.last() != 0 {
            1int
        } else {
            0
        }
    }
}

/// Bytes of appended records that earn one promotion token.
pub const PROMOTION_EARN_DIVISOR: u64 = 7;

/// Fraction of the largest record up to which promotion tokens accumulate.
pub const PROMOTION_CAP_DIVISOR: u64 = 8;

impl WriterState {
    /// The append position lies in the newest segment, and every generation in
    /// use precedes the next one.
    pub open spec fn wf(&self, disk: &Disk) -> bool {
        &&& disk.wf()
        &&& forall|i: int|
            0 <= i < disk.segment_generations@.len() ==> #[trigger] disk.segment_generations@[i]
                < self.next_generation
        &&& self.active_segment matches Some(s) ==> {
            &&& s < disk.segment_generations@.len()
            &&& tail_fits(&disk.format, s as int, self.append_offset)
            &&& disk.segment_generations@[s as int] != 0
            &&& forall|i: int|
                0 <= i < disk.segment_generations@.len() ==> #[trigger] disk.segment_generations@[i]
                    <= disk.segment_generations@[s as int]
        }
    }

    /// Restores the writer of a recovered container.
    pub fn open(disk: &Disk, maximum: u64, next_generation: u64, marker: &[u8]) -> (r: Self)
        requires
            disk.wf(),
            maximum == greatest(disk.segment_generations@),
            next_generation == maximum + 1,
        ensures
            r.wf(disk),
            r.next_generation == next_generation,
            r.dirty_bytes == 0,
            r.promotion_tokens == 0,
            r.active_segment matches Some(s) ==> {
                &&& resumes_at(disk, maximum, disk.format.clean_tail(marker@), s as int)
                &&& disk.format.clean_tail(marker@) == Some((maximum, r.append_offset))
            },
            r.active_segment is None ==> r.append_offset == 0 && forall|s: int|
                !resumes_at(disk, maximum, disk.format.clean_tail(marker@), s),
    {
        proof {
            lemma_greatest(disk.segment_generations@);
        }
        match disk.resume_tail(maximum, marker) {
            Some((segment, append_offset)) => WriterState {
                active_segment: Some(segment),
                append_offset,
                next_generation,
                dirty_bytes: 0,
                promotion_tokens: 0,
            },
            None => WriterState {
                active_segment: None,
                append_offset: 0,
                next_generation,
                dirty_bytes: 0,
                promotion_tokens: 0,
            },
        }
    }

    /// A record of `record_bytes` fits behind the append position.
    pub open spec fn has_room(&self, disk: &Disk, record_bytes: int) -> bool {
        self.active_segment matches Some(s) && self.append_offset + record_bytes
            <= disk.format.segment_offset(s as int) + disk.format.spec_geometry().segment_bytes
    }

    /// Reports whether a record fits in the active segment.
    pub fn space_fits(&self, disk: &Disk, record_bytes: u64) -> (r: bool)
        requires
            self.wf(disk),
        ensures
            r == self.has_room(disk, record_bytes as int),
    {
        match self.active_segment {
            Some(segment) => {
                proof {
                    disk.format.lemma_layout();
                    disk.format.lemma_segment(segment as int);
                }
                let end: u64 = disk.format.segment_start(segment) + disk.format.segment_bytes();
                record_bytes <= end - self.append_offset
            },
            None => false,
        }
    }

    /// Chooses the next segment and takes its generation.
    pub fn plan_segment(&mut self, disk: &Disk) -> (r: Result<SegmentStart, FormatError>)
        requires
            old(self).wf(disk),
            disk.format.fits_memory(),
        ensures
            final(self).wf(disk),
            old(self).next_generation == u64::MAX ==> *final(self) == *old(self) && r == Err::<
                SegmentStart,
                FormatError,
            >(FormatError::GenerationExhausted),
            old(self).next_generation < u64::MAX ==> r is Ok,
            r matches Ok(start) ==> {
                &&& is_next_segment(disk.segment_generations@, start.segment as int)
                &&& start.generation == old(self).next_generation
                &&& start.start == disk.format.segment_offset(start.segment as int)
                &&& start.header@ == bytes::padded(
                    CacheFormat::segment_content(start.generation),
                    disk.format.spec_geometry().block_bytes as int,
                )
                &&& final(self).next_generation == old(self).next_generation + 1
                &&& final(self).active_segment == old(self).active_segment
                &&& final(self).append_offset == old(self).append_offset
                &&& final(self).dirty_bytes == old(self).dirty_bytes
                &&& final(self).promotion_tokens == old(self).promotion_tokens
            },
    {
        let generations: &Vec<u64> = &disk.segment_generations;
        let mut unused: Option<usize> = None;
        let mut oldest: Option<(usize, u64)> = None;
        let mut i: usize = 0;
        while i < generations.len()
            invariant
                i <= generations@.len(),
                unused is None ==> forall|j: int| 0 <= j < i ==> #[trigger] generations@[j] != 0,
                unused matches Some(e) ==> {
                    &&& e < i
                    &&& generations@[e as int] == 0
                    &&& forall|j: int| 0 <= j < e ==> #[trigger] generations@[j] != 0
                },
                oldest is None ==> forall|j: int| 0 <= j < i ==> #[trigger] generations@[j] == 0,
                oldest matches Some((e, generation)) ==> {
                    &&& e < i
                    &&& generation == generations@[e as int]
                    &&& generation != 0
                    &&& forall|j: int|
                        0 <= j < i ==> #[trigger] generations@[j] == 0 || generation
                            <= generations@[j]
                    &&& forall|j: int|
                        0 <= j < e ==> #[trigger] generations@[j] == 0 || generation
                            < generations@[j]
                },
            decreases generations@.len() - i,
        {
            let generation: u64 = generations[i];
            if generation == 0 {
                if unused.is_none() {
                    unused = Some(i);
                }
            } else {
                match oldest {
                    None => {
                        oldest = Some((i, generation));
                    },
                    Some((_, current)) => {
                        if generation < current {
                            oldest = Some((i, generation));
                        }
                    },
                }
            }
            i = i + 1;
        }
        proof {
            disk.format.lemma_layout();
        }
        let segment: usize = match (unused, oldest) {
            (Some(segment), _) => segment,
            (None, Some((segment, _))) => segment,
            (None, None) => {
                assert(generations@[0] != 0);
                0
            },
        };
        let generation: u64 = self.next_generation;
        if generation == u64::MAX {
            return Err(FormatError::GenerationExhausted);
        }
        self.next_generation = generation + 1;
        let header = disk.format.encode_segment_header(generation);
        let start: u64 = disk.format.segment_start(segment);
        Ok(SegmentStart { segment, generation, start, header })
    }

    /// Makes a segment active once its header is on the media.
    pub fn segment_written(&mut self, disk: &mut Disk, start: &SegmentStart)
        requires
            old(self).wf(old(disk)),
            start.segment < old(disk).segment_generations@.len(),
            start.generation == old(self).next_generation - 1,
            start.generation != 0,
            start.start == old(disk).format.segment_offset(start.segment as int),
        ensures
            final(self).wf(final(disk)),
            final(disk).format == old(disk).format,
            final(disk).segment_generations@ == old(disk).segment_generations@.update(
                start.segment as int,
                start.generation,
            ),
            final(self).active_segment == Some(start.segment),
            final(self).append_offset == start.start
                + old(disk).format.spec_geometry().block_bytes,
            final(self).next_generation == old(self).next_generation,
            final(self).dirty_bytes == saturated(
                old(self).dirty_bytes + old(disk).format.spec_geometry().block_bytes,
            ),
            final(self).promotion_tokens == old(self).promotion_tokens,
    {
        proof {
            disk.format.lemma_layout();
            disk.format.lemma_segment(start.segment as int);
            lemma_blocks_are_aligned(&disk.format, start.segment as int);
        }
        disk.segment_generations[start.segment] = start.generation;
        self.active_segment = Some(start.segment);
        self.append_offset = start.start + disk.format.block_bytes();
        self.dirty_bytes = self.dirty_bytes.saturating_add(disk.format.block_bytes());
    }

    /// Encodes a record and its pointer at the append position.
    pub fn plan_append(
        &self,
        disk: &Disk,
        path: &str,
        revision: &[u8],
        body: &[u8],
        current_after: SequencePoint,
    ) -> (r: Result<AppendPlan, FormatError>)
        requires
            self.wf(disk),
            disk.format.fits_memory(),
            self.active_segment is Some,
            disk.format.record_size(revision@.len() as int, body@.len() as int) matches Some(size)
                ==> self.has_room(disk, size),
        ensures
            r is Ok <==> disk.format.record_encodable(path.spec_bytes(), revision@, body@),
            r matches Err(error) ==> error == FormatError::InvalidRecord,
            r matches Ok(plan) ==> {
                let size = disk.format.record_size(revision@.len() as int, body@.len() as int)->0;
                &&& plan.record@ == bytes::padded(
                    disk.format.record_content(
                        path.spec_bytes(),
                        revision@,
                        body@,
                        current_after@,
                    ),
                    size,
                )
                &&& plan.slot.fingerprint == disk.format.fingerprint(path.spec_bytes())
                &&& plan.slot.generation
                    == disk.segment_generations@[self.active_segment->0 as int]
                &&& plan.slot.record_offset == self.append_offset
                &&& plan.slot.record_bytes == size
                &&& plan.slot.current_after == current_after
                &&& current_after@ != 0 ==> disk.points_into(
                    plan.slot,
                    self.active_segment->0 as int,
                )
            },
    {
        let segment: usize = match self.active_segment {
            Some(segment) => segment,
            None => return Err(FormatError::InvalidRecord),
        };
        proof {
            disk.format.lemma_layout();
            disk.format.lemma_segment(segment as int);
            if revision@.len() <= u32::MAX && body@.len() <= u32::MAX {
                disk.format.lemma_record_size(revision@.len() as int, body@.len() as int);
            }
        }
        let record_bytes: u64 = match disk.format.record_bytes(revision.len(), body.len()) {
            Some(record_bytes) => record_bytes,
            None => return Err(FormatError::InvalidRecord),
        };
        let record = match disk.format.encode_record(path, revision, body, current_after) {
            Ok(record) => record,
            Err(error) => return Err(error),
        };
        let slot = Slot {
            fingerprint: disk.format.path_fingerprint(path),
            generation: disk.segment_generations[segment],
            record_offset: self.append_offset,
            record_bytes,
            current_after,
        };
        Ok(AppendPlan { slot, record })
    }

    /// Moves the append position behind a published record.
    pub fn appended(&mut self, disk: &Disk, slot: &Slot)
        requires
            old(self).wf(disk),
            slot.record_bytes % RECORD_ALIGNMENT == 0,
            old(self).has_room(disk, slot.record_bytes as int),
        ensures
            final(self).wf(disk),
            final(self).append_offset == old(self).append_offset + slot.record_bytes,
            final(self).dirty_bytes == saturated(
                old(self).dirty_bytes + slot.record_bytes + SLOT_BYTES,
            ),
            final(self).active_segment == old(self).active_segment,
            final(self).next_generation == old(self).next_generation,
            final(self).promotion_tokens == old(self).promotion_tokens,
    {
        proof {
            disk.format.lemma_layout();
            disk.format.lemma_segment(self.active_segment->0 as int);
        }
        self.append_offset = self.append_offset + slot.record_bytes;
        self.dirty_bytes = self.dirty_bytes.saturating_add(slot.record_bytes).saturating_add(
            SLOT_BYTES,
        );
    }

    /// Charges one zeroed slot to the unsynchronized bytes.
    pub fn slot_cleared(&mut self)
        ensures
            *final(self) == (WriterState {
                dirty_bytes: saturated(old(self).dirty_bytes + SLOT_BYTES) as u64,
                ..*old(self)
            }),
    {
        self.dirty_bytes = self.dirty_bytes.saturating_add(SLOT_BYTES);
    }

    /// Reports whether a sync is due now; a forced one is due unless nothing was
    /// written.
    pub fn sync_due(&self, force: bool) -> (r: bool)
        ensures
            r == (if force {
                self.dirty_bytes != 0
            } else {
                self.dirty_bytes >= SYNC_BYTES
            }),
    {
        if force {
            self.dirty_bytes != 0
        } else {
            self.dirty_bytes >= SYNC_BYTES
        }
    }

    /// Records a completed sync.
    pub fn synced(&mut self)
        ensures
            *final(self) == (WriterState { dirty_bytes: 0, ..*old(self) }),
    {
        self.dirty_bytes = 0;
    }

    /// Returns the generation and position that a clean shutdown stores.
    pub fn tail(&self, disk: &Disk) -> (r: Option<(u64, u64)>)
        requires
            self.wf(disk),
        ensures
            r == (match self.active_segment {
                Some(s) => Some((disk.segment_generations@[s as int], self.append_offset)),
                None => None,
            }),
    {
        match self.active_segment {
            Some(segment) => Some((disk.segment_generations[segment], self.append_offset)),
            None => None,
        }
    }

    /// The record lies in the older half of the used segments, and its size is
    /// covered by earned tokens.
    pub open spec fn promotes(&self, disk: &Disk, slot: Slot) -> bool {
        let generations = disk.segment_generations@;
        &&& used_segments(generations) >= 2
        &&& slot.generation != 0
        &&& generations.contains(slot.generation)
        &&& older_segments(generations, slot.generation) < used_segments(generations) / 2
        &&& self.promotion_tokens >= slot.record_bytes
    }

    /// Decides whether a record that was hit again is appended once more.
    pub fn may_promote(&self, disk: &Disk, slot: Slot) -> (r: bool)
        ensures
            r == self.promotes(disk, slot),
    {
        let generations: &Vec<u64> = &disk.segment_generations;
        let mut used: usize = 0;
        let mut older: usize = 0;
        let mut present: bool = false;
        let mut i: usize = 0;
        while i < generations.len()
            invariant
                i <= generations@.len(),
                used <= i,
                older <= i,
                used == used_segments(generations@.take(i as int)),
                older == older_segments(generations@.take(i as int), slot.generation),
                present == generations@.take(i as int).contains(slot.generation),
            decreases generations@.len() - i,
        {
            let generation: u64 = generations[i];
            let ghost head = generations@.take(i as int);
            proof {
                assert(generations@.take(i + 1).drop_last() =~= head);
                assert(generations@.take(i + 1) =~= head.push(generation));
                assert(head.push(generation)[i as int] == generation);
                if head.contains(slot.generation) {
                    let k = head.index_of(slot.generation);
                    assert(head.push(generation)[k] == slot.generation);
                }
            }
            if generation != 0 {
                used = used + 1;
                if generation < slot.generation {
                    older = older + 1;
                }
            }
            if generation == slot.generation {
                present = true;
            }
            i = i + 1;
        }
        proof {
            assert(generations@.take(i as int) =~= generations@);
        }
        used >= 2 && slot.generation != 0 && present && older < used / 2 && self.promotion_tokens
            >= slot.record_bytes
    }

    /// Pays for a promoted record.
    pub fn promoted(&mut self, record_bytes: u64)
        requires
            old(self).promotion_tokens >= record_bytes,
        ensures
            *final(self) == (WriterState {
                promotion_tokens: (old(self).promotion_tokens - record_bytes) as u64,
                ..*old(self)
            }),
    {
        self.promotion_tokens = self.promotion_tokens - record_bytes;
    }

    /// Earns promotion tokens for an admitted record, up to the cap.
    pub fn earn_tokens(&mut self, disk: &Disk, record_bytes: u64)
        requires
            disk.wf(),
        ensures
            ({
                let earned = saturated(
                    old(self).promotion_tokens + record_bytes / PROMOTION_EARN_DIVISOR,
                );
                let cap = (disk.format.spec_geometry().segment_bytes
                    - disk.format.spec_geometry().block_bytes) / PROMOTION_CAP_DIVISOR as int;
                *final(self) == (WriterState {
                    promotion_tokens: (if earned <= cap { earned } else { cap }) as u64,
                    ..*old(self)
                })
            }),
    {
        let earned: u64 = self.promotion_tokens.saturating_add(
            record_bytes / PROMOTION_EARN_DIVISOR,
        );
        let cap: u64 = disk.format.maximum_record_bytes() / PROMOTION_CAP_DIVISOR;
        self.promotion_tokens = if earned <= cap { earned } else { cap };
    }

    /// Law: what a clean shutdown stores, a reopened container with the same
    /// segments resumes from.
    pub proof fn law_clean_shutdown_resumes(&self, disk: &Disk)
        requires
            self.wf(disk),
            self.active_segment is Some,
        ensures
            ({
                let s = self.active_segment->0 as int;
                let generation = disk.segment_generations@[s];
                let marker = bytes::padded(
                    disk.format.tail_content(generation, self.append_offset),
                    disk.format.spec_geometry().block_bytes as int,
                );
                &&& greatest(disk.segment_generations@) == generation
                &&& disk.format.clean_tail(marker) == Some((generation, self.append_offset))
                &&& resumes_at(disk, generation, disk.format.clean_tail(marker), s)
                &&& forall|j: int| resumes_at(disk, generation, disk.format.clean_tail(marker), j)
                    ==> j == s
            }),
    {
        let s = self.active_segment->0 as int;
        let generation = disk.segment_generations@[s];
        disk.format.law_clean_tail_round_trip(generation, self.append_offset);
        lemma_greatest_is(disk.segment_generations@, s);
        disk.format.lemma_layout();
        assert forall|j: int|
            0 <= j < disk.segment_generations@.len() && tail_fits(
                &disk.format,
                j,
                self.append_offset,
            ) implies j == s by {
            disk.format.lemma_segment(j);
            disk.format.lemma_segment(s);
            let seg = disk.format.spec_geometry().segment_bytes as int;
            if j < s {
                assert((j + 1) * seg <= s * seg) by (nonlinear_arith)
                    requires
                        j + 1 <= s,
                        seg > 0,
                ;
            } else if s < j {
                assert((s + 1) * seg <= j * seg) by (nonlinear_arith)
                    requires
                        s + 1 <= j,
                        seg > 0,
                ;
            }
        }
    }
}

/// A generation that none exceeds is the greatest.
proof fn lemma_greatest_is(generations: Seq<u64>, s: int)
    requires
        0 <= s < generations.len(),
        forall|i: int| 0 <= i < generations.len() ==> #[trigger] generations[i] <= generations[s],
    ensures
        greatest(generations) == generations[s],
{
    lemma_greatest(generations);
    lemma_greatest_attained(generations);
}

/// The greatest generation is one of them, or zero.
proof fn lemma_greatest_attained(generations: Seq<u64>)
    ensures
        greatest(generations) == 0 || exists|i: int|
            0 <= i < generations.len() && #[trigger] generations[i] == greatest(generations),
    decreases generations.len(),
{
    if generations.len() > 0 {
        let rest = generations.drop_last();
        lemma_greatest_attained(rest);
        if greatest(generations) == greatest(rest) && greatest(rest) != 0 {
            let i = choose|i: int| 0 <= i < rest.len() && #[trigger] rest[i] == greatest(rest);
            assert(generations[i] == greatest(generations));
        } else {
            assert(generations[generations.len() - 1] == generations.last());
        }
    }
}

/// Segment contents start at a multiple of the record alignment.
proof fn lemma_blocks_are_aligned(format: &CacheFormat, s: int)
    requires
        format.wf(),
        0 <= s < format.spec_layout().segment_count,
    ensures
        (format.segment_offset(s) + format.spec_geometry().block_bytes) % 8 == 0,
{
    format.lemma_layout();
    let block = format.spec_geometry().block_bytes as int;
    let seg = format.spec_geometry().segment_bytes as int;
    let index = format.spec_layout().index_bytes as int;
    vstd::arithmetic::power2::lemma2_to64();
    let k = choose|k: nat| block == #[trigger] vstd::arithmetic::power2::pow2(k);
    if k < 3 {
        vstd::arithmetic::power2::lemma_pow2_strictly_increases(k, 12);
        assert(vstd::arithmetic::power2::pow2(12) == 4096);
        assert(false);
    }
    vstd::arithmetic::power2::lemma_pow2_adds(3, (k - 3) as nat);
    let m = vstd::arithmetic::power2::pow2((k - 3) as nat) as int;
    assert(vstd::arithmetic::power2::pow2(3) == 8);
    assert(block == 8 * m);
    vstd::arithmetic::div_mod::lemma_fundamental_div_mod(seg, block);
    vstd::arithmetic::div_mod::lemma_fundamental_div_mod(index, block);
    let a = seg / block;
    let b = index / block;
    assert(seg == 8 * (m * a)) by (nonlinear_arith)
        requires
            seg == block * a,
            block == 8 * m,
    ;
    assert(index == 8 * (m * b)) by (nonlinear_arith)
        requires
            index == block * b,
            block == 8 * m,
    ;
    assert(s * seg == 8 * (s * (m * a))) by (nonlinear_arith)
        requires
            seg == 8 * (m * a),
    ;
}

} // verus!
