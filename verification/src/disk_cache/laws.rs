//! What the container, its index and its worker promise.

use vstd::prelude::*;
use vstd::string::*;

use super::admission::{self, HitFilter};
use super::container;
use super::disk::{self, Disk, WriterState};
use super::fence::{self, FenceGuard};
use super::format::{CacheFormat, CacheGeometry, Layout, Record, Slot};
use super::perform;
use super::persistent;
use super::queue::{self, CacheInner, Work};
use super::sim_harness::{self, KnownRecord};
use super::store::{self, DiskStore};
use super::worker;
use crate::bytes;
use crate::cache_stats::CacheStats;

verus! {

/// Law: a container uses the capacity that it is given. It is as large as whole
/// blocks allow; behind two blocks of metadata stands an index of at least one
/// block that takes no more than its share; behind that stand as many segments as
/// there is room for.
pub proof fn law_layout_uses_the_capacity(capacity: u64, g: CacheGeometry, layout: Layout)
    requires
        crate::disk_cache::format::layout_error(capacity, g) is None,
        layout.of(capacity, g),
    ensures
        layout.capacity <= capacity,
        capacity - layout.capacity < g.block_bytes,
        layout.capacity % g.block_bytes == 0,
        layout.metadata_bytes == g.block_bytes + g.block_bytes,
        layout.index_bytes >= g.block_bytes,
        layout.index_bytes % g.block_bytes == 0,
        layout.index_bytes <= layout.capacity as int / g.index_divisor as int,
        layout.capacity as int / g.index_divisor as int - layout.index_bytes < g.block_bytes,
        layout.data_offset == layout.metadata_bytes + layout.index_bytes,
        layout.ring_end == layout.data_offset + layout.segment_count * g.segment_bytes,
        layout.ring_end <= layout.capacity,
        layout.capacity < layout.ring_end + g.segment_bytes,
        layout.segment_count >= g.minimum_segments,
        layout.segment_count >= 2,
{
    crate::disk_cache::format::lemma_floor_to(capacity as int, g.block_bytes as int);
    let share = crate::disk_cache::format::usable_capacity(capacity, g) / g.index_divisor as int;
    vstd::arithmetic::div_mod::lemma_div_pos_is_pos(
        crate::disk_cache::format::usable_capacity(capacity, g),
        g.index_divisor as int,
    );
    crate::disk_cache::format::lemma_floor_to(share, g.block_bytes as int);
    let data = crate::disk_cache::format::usable_capacity(capacity, g) - crate::disk_cache::format::ring_start(capacity, g);
    crate::disk_cache::format::lemma_floor_to(data, g.segment_bytes as int);
}

/// Law: a record takes the room of its header and content, aligned, and at least
/// the least one; no more is wasted than alignment asks for.
pub proof fn law_record_size_is_tight(format: &CacheFormat, revision_len: int, body_len: int)
    requires
        format.spec_geometry().valid(),
        0 <= revision_len,
        0 <= body_len,
    ensures
        format.record_size(revision_len, body_len) is None <==> revision_len > u32::MAX || body_len
            > u32::MAX,
        format.record_size(revision_len, body_len) matches Some(size) ==> {
            &&& size >= 48 + revision_len + body_len
            &&& size % 8 == 0
            &&& size >= format.spec_geometry().minimum_record_bytes
            &&& size == format.spec_geometry().minimum_record_bytes || size < 48 + revision_len
                + body_len + 8
        },
{
    if revision_len <= u32::MAX && body_len <= u32::MAX {
        format.lemma_record_size(revision_len, body_len);
    }
}

/// Law: a fingerprint is of the database and the path, and of nothing else: it is
/// read from the digest of the domain, the identity and the path with its length.
pub proof fn law_fingerprint_is_of_database_and_path(format: &CacheFormat, path: Seq<u8>)
    ensures
        format.fingerprint(path) == bytes::le64_value(
            crate::disk_cache::format::sha256(
                format.spec_geometry().path_domain.spec_bytes() + format.spec_identity()
                    + bytes::le32(path.len() as u32) + path,
            )@.subrange(0, 8),
        ),
{
}

/// Law: the digest of a record covers all of it: its database, its path, its
/// lengths and its point, its revision and its body. So a record is intact only
/// as what was written for its path.
pub proof fn law_record_digest_covers_the_record(format: &CacheFormat, path: Seq<u8>, raw: Seq<u8>)
    requires
        format.record_intact(path, raw),
    ensures
        raw.subrange(16, 48) == crate::disk_cache::format::sha256(
            format.spec_geometry().record_domain.spec_bytes() + format.spec_identity()
                + bytes::le32(path.len() as u32) + path + raw.subrange(0, 16)
                + CacheFormat::stored_revision(raw) + CacheFormat::stored_body(raw),
        )@,
        CacheFormat::stored_revision(raw).len() == bytes::le32_value(raw.subrange(0, 4)),
        CacheFormat::stored_body(raw).len() == bytes::le32_value(raw.subrange(4, 8)),
        raw.len() >= 48 + CacheFormat::stored_revision(raw).len() + CacheFormat::stored_body(
            raw,
        ).len(),
{
}

/// Law: the slots of a path are those of its bucket that carry its fingerprint and
/// point into a segment that is still of their generation.
pub proof fn law_slots_of_a_path(disk: &Disk, bucket: Seq<u8>, fingerprint: u64, slot: Slot)
    ensures
        disk::candidates(disk, bucket, fingerprint).contains(slot) <==> {
            &&& slot.fingerprint == fingerprint
            &&& slot.generation != 0
            &&& disk.live(slot)
            &&& exists|i: int|
                0 <= i < disk::bucket_slots(bucket).len() && #[trigger] disk::bucket_slots(
                    bucket,
                )[i] == slot
        },
{
    let all = disk::bucket_slots(bucket);
    let keep = |slot: Slot| disk::carries(slot, fingerprint) && disk.live(slot);
    let some = disk::candidates(disk, bucket, fingerprint);
    assert(some == all.filter(keep));
    if some.contains(slot) {
        all.lemma_filter_contains_rev(keep, slot);
        all.lemma_filter_pred(keep, some.index_of(slot));
        let i = all.index_of(slot);
        assert(all[i] == slot);
    }
    if exists|i: int| 0 <= i < all.len() && #[trigger] all[i] == slot {
        let i = choose|i: int| 0 <= i < all.len() && #[trigger] all[i] == slot;
        if keep(slot) {
            all.lemma_filter_contains(keep, i);
        }
    }
}

/// Law: a live slot points at a record that lies, aligned, behind the header of a
/// segment of its generation, and ends inside that segment.
pub proof fn law_live_slot_lies_in_its_segment(disk: &Disk, slot: Slot)
    requires
        disk.wf(),
        disk.live(slot),
    ensures
        slot.generation != 0,
        slot.current_after@ != 0,
        exists|s: int|
            {
                &&& 0 <= s < disk.segment_generations@.len()
                &&& #[trigger] disk.segment_generations@[s] == slot.generation
                &&& slot.record_offset >= disk.format.segment_offset(s)
                    + disk.format.spec_geometry().block_bytes
                &&& slot.record_offset + slot.record_bytes <= disk.format.segment_offset(s)
                    + disk.format.spec_geometry().segment_bytes
                &&& slot.record_offset + slot.record_bytes <= disk.format.spec_layout().capacity
            },
        slot.record_offset % 8 == 0,
        slot.record_bytes % 8 == 0,
        slot.record_bytes >= disk.format.spec_geometry().minimum_record_bytes,
{
    let s = choose|s: int| disk.points_into(slot, s);
    disk.format.lemma_layout();
    disk.format.lemma_segment(s);
    assert(disk.segment_generations@[s] == slot.generation);
}

/// Law: the segment that is started next is one whose records are the oldest: an
/// unused one as long as there is any.
pub proof fn law_next_segment_is_the_oldest(generations: Seq<u64>, s: int)
    requires
        disk::is_next_segment(generations, s),
    ensures
        0 <= s < generations.len(),
        forall|j: int| 0 <= j < generations.len() ==> generations[s] <= #[trigger] generations[j],
        forall|j: int| 0 <= j < s ==> generations[s] < #[trigger] generations[j],
{
}

/// Law: a bucket that has room is not robbed of a pointer: while a slot is empty or
/// of the same fingerprint, it is taken, and after those one whose record is gone.
pub proof fn law_publish_takes_free_slots_first(
    disk: &Disk,
    slots: Seq<Slot>,
    fingerprint: u64,
    t: int,
    i: int,
)
    requires
        disk::is_target(disk, slots, fingerprint, t),
        0 <= i < slots.len(),
        slots[i].generation == 0 || slots[i].fingerprint == fingerprint || !disk.live(slots[i]),
    ensures
        slots[t].generation == 0 || slots[t].fingerprint == fingerprint || !disk.live(slots[t]),
        slots[i].generation == 0 || slots[i].fingerprint == fingerprint ==> slots[t].generation == 0
            || slots[t].fingerprint == fingerprint,
{
    if slots[i].generation == 0 || slots[i].fingerprint == fingerprint {
        assert(disk::vacant(slots[i], fingerprint));
    } else {
        assert(!disk.live(slots[i]));
    }
}

/// Law: the latest point of slots is one of a live slot, and no live slot has a
/// later one.
pub proof fn law_latest_point_is_the_latest(disk: &Disk, slots: Seq<Slot>)
    ensures
        forall|i: int|
            0 <= i < slots.len() && disk.live(#[trigger] slots[i]) ==> (disk::latest_point(
                disk,
                slots,
            ) matches Some(point) && point >= slots[i].current_after@),
        disk::latest_point(disk, slots) matches Some(point) ==> exists|i: int|
            0 <= i < slots.len() && disk.live(#[trigger] slots[i]) && slots[i].current_after@
                == point,
    decreases slots.len(),
{
    if slots.len() > 0 {
        let rest = slots.drop_last();
        let n = rest.len() as int;
        law_latest_point_is_the_latest(disk, rest);
        assert(slots[n] == slots.last());
        assert forall|i: int| 0 <= i < slots.len() && disk.live(#[trigger] slots[i]) implies (
        disk::latest_point(disk, slots) matches Some(point) && point
            >= slots[i].current_after@) by {
            if i < n {
                assert(rest[i] == slots[i]);
            }
        }
        if let Some(point) = disk::latest_point(disk, slots) {
            if disk::latest_point(disk, rest) == Some(point) {
                let i = choose|i: int|
                    0 <= i < rest.len() && disk.live(#[trigger] rest[i]) && rest[i].current_after@
                        == point;
                assert(slots[i] == rest[i]);
            } else {
                assert(disk.live(slots[n]) && slots[n].current_after@ == point);
            }
        }
    }
}

/// Law: the greatest generation is one of them, and none is greater.
pub proof fn law_greatest_generation_is_the_greatest(generations: Seq<u64>)
    ensures
        forall|i: int|
            0 <= i < generations.len() ==> disk::greatest(generations) >= #[trigger] generations[i],
        generations.len() > 0 ==> generations.contains(disk::greatest(generations)),
    decreases generations.len(),
{
    if generations.len() > 0 {
        let rest = generations.drop_last();
        let n = rest.len() as int;
        law_greatest_generation_is_the_greatest(rest);
        assert(generations[n] == generations.last());
        assert forall|i: int| 0 <= i < generations.len() implies disk::greatest(generations)
            >= #[trigger] generations[i] by {
            if i < n {
                assert(rest[i] == generations[i]);
            }
        }
        if disk::greatest(generations) != generations[n] {
            if n > 0 {
                let k = rest.index_of(disk::greatest(rest));
                assert(generations[k] == disk::greatest(rest));
            }
        }
    }
}

/// Law: a record of the oldest segment is worth promoting, as soon as two segments
/// are in use and tokens cover it.
pub proof fn law_oldest_records_are_promoted(writer: WriterState, disk: &Disk, slot: Slot)
    requires
        disk::used_segments(disk.segment_generations@) >= 2,
        slot.generation != 0,
        disk.segment_generations@.contains(slot.generation),
        forall|i: int|
            0 <= i < disk.segment_generations@.len() ==> #[trigger] disk.segment_generations@[i]
                == 0 || disk.segment_generations@[i] >= slot.generation,
        writer.promotion_tokens >= slot.record_bytes,
    ensures
        writer.promotes(disk, slot),
{
    lemma_none_older(disk.segment_generations@, slot.generation);
}

/// Law: a record of the newest segment is never promoted, nor is one that tokens
/// do not cover, nor one whose segment is gone.
pub proof fn law_newest_records_are_not_promoted(writer: WriterState, disk: &Disk, slot: Slot)
    requires
        ({
            ||| slot.record_bytes > writer.promotion_tokens
            ||| slot.generation == 0
            ||| !disk.segment_generations@.contains(slot.generation)
            ||| exists|k: int|
                {
                    &&& 0 <= k < disk.segment_generations@.len()
                    &&& forall|i: int|
                        0 <= i < disk.segment_generations@.len() && i != k
                            ==> #[trigger] disk.segment_generations@[i] < slot.generation
                    &&& #[trigger] disk.segment_generations@[k] == slot.generation
                }
        }),
    ensures
        !writer.promotes(disk, slot),
{
    let generations = disk.segment_generations@;
    if exists|k: int|
        {
            &&& 0 <= k < generations.len()
            &&& forall|i: int|
                0 <= i < generations.len() && i != k ==> #[trigger] generations[i] < slot.generation
            &&& #[trigger] generations[k] == slot.generation
        } {
        let k = choose|k: int|
            {
                &&& 0 <= k < generations.len()
                &&& forall|i: int|
                    0 <= i < generations.len() && i != k ==> #[trigger] generations[i]
                        < slot.generation
                &&& #[trigger] generations[k] == slot.generation
            };
        if slot.generation != 0 {
            lemma_all_but_one_older(generations, slot.generation, k);
        }
    }
}

proof fn lemma_none_older(generations: Seq<u64>, generation: u64)
    requires
        forall|i: int|
            0 <= i < generations.len() ==> #[trigger] generations[i] == 0 || generations[i]
                >= generation,
    ensures
        disk::older_segments(generations, generation) == 0,
    decreases generations.len(),
{
    if generations.len() > 0 {
        let rest = generations.drop_last();
        assert forall|i: int| 0 <= i < rest.len() implies #[trigger] rest[i] == 0 || rest[i]
            >= generation by {
            assert(rest[i] == generations[i]);
        }
        lemma_none_older(rest, generation);
        assert(generations[generations.len() - 1] == generations.last());
    }
}

proof fn lemma_all_older(generations: Seq<u64>, generation: u64)
    requires
        forall|i: int|
            0 <= i < generations.len() ==> #[trigger] generations[i] < generation,
    ensures
        disk::older_segments(generations, generation) == disk::used_segments(generations),
    decreases generations.len(),
{
    if generations.len() > 0 {
        let rest = generations.drop_last();
        assert forall|i: int| 0 <= i < rest.len() implies #[trigger] rest[i] < generation by {
            assert(rest[i] == generations[i]);
        }
        lemma_all_older(rest, generation);
        assert(generations[generations.len() - 1] == generations.last());
    }
}

proof fn lemma_all_but_one_older(generations: Seq<u64>, generation: u64, k: int)
    requires
        generation != 0,
        0 <= k < generations.len(),
        generations[k] == generation,
        forall|i: int|
            0 <= i < generations.len() && i != k ==> #[trigger] generations[i] < generation,
    ensures
        disk::older_segments(generations, generation) == disk::used_segments(generations) - 1,
    decreases generations.len(),
{
    let rest = generations.drop_last();
    let n = rest.len() as int;
    assert(generations[n] == generations.last());
    assert forall|i: int| 0 <= i < rest.len() implies #[trigger] rest[i] == generations[i] by {}
    if k == n {
        lemma_all_older(rest, generation);
    } else {
        lemma_all_but_one_older(rest, generation, k);
    }
}

/// Law: a replacement earns a seventh of its size in tokens, and tokens are held
/// only up to an eighth of a segment.
pub proof fn law_earned_tokens(format: &CacheFormat, tokens: u64, record_bytes: u64)
    requires
        format.spec_geometry().segment_bytes > format.spec_geometry().block_bytes,
    ensures
        ({
            let cap = (format.spec_geometry().segment_bytes - format.spec_geometry().block_bytes)
                / 8;
            let after = store::earned(format, tokens, record_bytes);
            &&& after <= cap
            &&& tokens + record_bytes / 7 <= cap ==> after == tokens + record_bytes / 7
            &&& tokens + record_bytes / 7 > cap ==> after == cap
        }),
{
}

/// Law: a hit counts for its path at two counters, up to twice, and for no other
/// counter.
pub proof fn law_hit_moves_only_its_counters(counters: Seq<int>, fingerprint: u64, c: int)
    requires
        counters.len() == admission::FILTER_COUNTERS,
        forall|i: int| 0 <= i < counters.len() ==> 0 <= #[trigger] counters[i] <= 2,
        0 <= c < counters.len(),
    ensures
        ({
            let after = admission::counters_after_hit(counters, fingerprint);
            let own = c == admission::first_counter(fingerprint) || c
                == admission::second_counter(fingerprint);
            &&& after.len() == counters.len()
            &&& !own ==> after[c] == counters[c]
            &&& own && counters[c] < 2 ==> after[c] == counters[c] + 1
            &&& own && counters[c] == 2 ==> after[c] == 2
        }),
{
}

/// Law: counting starts anew once half of the segments, rounded up, were started
/// again, and not before.
pub proof fn law_filter_ages_with_the_segments(
    before: &HitFilter,
    after: &HitFilter,
    segment_count: usize,
)
    requires
        after.aged_from(before, segment_count),
        before.segment_count() < usize::MAX,
    ensures
        2 * (before.segment_count() + 1) >= segment_count ==> after.counters()
            == admission::no_hits() && after.hit_count() == 0 && after.segment_count() == 0,
        2 * (before.segment_count() + 1) < segment_count ==> after.counters() == before.counters()
            && after.hit_count() == before.hit_count() && after.segment_count()
            == before.segment_count() + 1,
{
}

/// Law: a replacement is queued only when its path can be written, its record fits
/// a segment, and the bytes that wait stay within their limit; else it is turned
/// into an invalidation.
pub proof fn law_what_is_admitted(
    format: &CacheFormat,
    payload: u64,
    path: Seq<u8>,
    revision_len: int,
    body_len: int,
)
    ensures
        worker::admits(format, payload, path, revision_len, body_len) <==> {
            &&& path.len() <= 0xffff_ffff
            &&& format.record_size(revision_len, body_len) matches Some(size)
            &&& size + format.spec_geometry().block_bytes <= format.spec_geometry().segment_bytes
            &&& payload + size <= admission::MAX_QUEUED_PAYLOAD_BYTES
        },
{
}

/// Law: a worker that was disabled or asked to shut down accepts nothing.
pub proof fn law_lifecycle_accepts(lifecycle: worker::Lifecycle)
    ensures
        lifecycle.accepting() <==> lifecycle.enabled && !lifecycle.shutdown_requested,
{
}

/// Law: what queued work holds is what each piece of it holds, added up: a
/// replacement its bytes and a fence, an invalidation a fence, a lookup or a
/// promotion an optional place.
pub proof fn law_queued_work_adds_up(queue: Seq<Work>, work: Work)
    ensures
        ({
            let before = queue::queued(queue);
            let after = queue::queued(queue.push(work));
            &&& after.payload == before.payload + (match work {
                Work::Replace { payload, .. } => payload as int,
                _ => 0,
            })
            &&& after.fences == before.fences + (if work is Replace || work is Invalidate {
                1int
            } else {
                0
            })
            &&& after.optional == before.optional + (if work is Lookup || work is Promote {
                1int
            } else {
                0
            })
        }),
        queue::queued(Seq::empty()) == (queue::Held { payload: 0, fences: 0, optional: 0 }),
{
    assert(queue.push(work).drop_last() =~= queue);
}

/// Law: a change that ends releases its path when it is the latest one, and leaves
/// the path to a newer one else. Other work leaves the path as it is.
pub proof fn law_finished_work_releases_its_path(path: (u64, bool), work: &Work)
    ensures
        match work {
            Work::Replace { fence: guard, .. } => queue::unfenced(path, work) == if path.0
                == guard@ {
                (path.0, false)
            } else {
                path
            },
            Work::Invalidate { fence: guard, .. } => queue::unfenced(path, work) == if path.0
                == guard@ {
                (path.0, false)
            } else {
                path
            },
            _ => queue::unfenced(path, work) == path,
        },
{
}

/// Law: a path that is fenced has a new epoch, one that no change of it had before,
/// until epochs wrap around; the wrapped one is not zero.
pub proof fn law_fenced_path_has_a_new_epoch(path: (u64, bool))
    ensures
        fence::begun(path).1,
        path.0 < u64::MAX ==> fence::begun(path).0 == path.0 + 1,
        path.0 == u64::MAX ==> fence::begun(path).0 == 1,
{
}

/// Law: an invalidation is never lost silently. It is queued, or the cache was not
/// accepting any more, or the path can have no record, or the cache is disabled
/// and counts an error; when it is not queued, its fence is released.
pub proof fn law_invalidation_is_not_lost(
    before: &CacheInner,
    after: &CacheInner,
    path: &str,
    guard: FenceGuard,
    old_fence: (u64, bool),
    new_fence: (u64, bool),
    old_counts: CacheStats,
    new_counts: CacheStats,
    queued: bool,
)
    requires
        queue::invalidates(
            before,
            after,
            path,
            guard,
            old_fence,
            new_fence,
            old_counts,
            new_counts,
            queued,
        ),
    ensures
        queued ==> {
            &&& after.queue@.len() > 0
            &&& after.queue@.last() matches Work::Invalidate { path: p, fence: g }
            &&& p@ == path@
            &&& g == guard
            &&& new_fence == old_fence
            &&& after.lifecycle == before.lifecycle
            &&& new_counts == old_counts
        },
        !queued ==> {
            &&& after.queue@ == before.queue@
            &&& new_fence == if old_fence.0 == guard@ {
                (old_fence.0, false)
            } else {
                old_fence
            }
            &&& {
                ||| !before.lifecycle.enabled
                ||| before.lifecycle.shutdown_requested
                ||| path.spec_bytes().len() > 0xffff_ffff
                ||| !after.lifecycle.enabled && new_counts.l2_errors
                    == old_counts.l2_errors.wrapping_add(1)
            }
        },
{
}

/// Law: an invalidation leaves the pointers of other paths alone.
pub proof fn law_invalidate_keeps_other_pointers(slots: Seq<Slot>, fingerprint: u64, i: int)
    requires
        0 <= i < slots.len(),
        slots[i].fingerprint != fingerprint,
    ensures
        disk::after_invalidate(slots, fingerprint).len() == slots.len(),
        disk::after_invalidate(slots, fingerprint)[i] == slots[i],
{
}

/// Law: the record that a lookup finds is one of its path's, it is intact, and no
/// newer one is.
pub proof fn law_lookup_finds_the_newest_intact(
    disk: &Disk,
    content: Seq<u8>,
    path: Seq<u8>,
    slot: Slot,
    other: Slot,
)
    requires
        store::finds(disk, content, path, slot),
    ensures
        slot.fingerprint == disk.format.fingerprint(path),
        disk.live(slot),
        disk.format.record_intact(path, store::behind(content, slot)),
        bytes::le64_value(store::behind(content, slot).subrange(8, 16)) == slot.current_after@,
        disk::candidates(
            disk,
            container::bucket_of(&disk.format, content, disk.format.fingerprint(path)),
            disk.format.fingerprint(path),
        ).contains(other) && disk.live(other) && disk.format.record_intact(
            path,
            store::behind(content, other),
        ) && bytes::le64_value(store::behind(content, other).subrange(8, 16))
            == other.current_after@ ==> other.generation <= slot.generation,
{
    let fingerprint = disk.format.fingerprint(path);
    law_slots_of_a_path(
        disk,
        container::bucket_of(&disk.format, content, fingerprint),
        fingerprint,
        slot,
    );
    assert(store::slots_of(disk, content, path).contains(slot));
    if store::slots_of(disk, content, path).contains(other) && store::intact(
        disk,
        content,
        path,
        other,
    ) && other.generation > slot.generation {
        assert(false);
    }
}

/// Law: the record that is promoted is that of the newest slot of its path, tokens
/// cover it, and what is written again is what stands there.
pub proof fn law_promoted_record_is_the_newest(
    store: &DiskStore,
    content: Seq<u8>,
    path: Seq<u8>,
    slot: Slot,
    record: &Record,
    other: Slot,
)
    requires
        perform::promotable(store, content, path, slot, record),
        store::slots_of(&store.disk, content, path).contains(other),
    ensures
        other.generation <= slot.generation,
        store.disk.format.record_intact(path, store::behind(content, slot)),
        slot.record_bytes <= store.writer.promotion_tokens,
        record.revision@ == CacheFormat::stored_revision(store::behind(content, slot)),
        record.body@ == CacheFormat::stored_body(store::behind(content, slot)),
        record.current_after == slot.current_after,
{
}

/// Law: bytes are read where they were written, and every other byte is what it
/// was.
pub proof fn law_written_bytes_are_read_back(
    content: Seq<u8>,
    offset: int,
    data: Seq<u8>,
    i: int,
)
    requires
        0 <= offset,
        offset + data.len() <= content.len(),
        0 <= i < content.len(),
    ensures
        container::write_at(content, offset, data).len() == content.len(),
        container::read_at(
            container::write_at(content, offset, data),
            offset,
            data.len() as int,
        ) == data,
        !(offset <= i < offset + data.len()) ==> container::write_at(content, offset, data)[i]
            == content[i],
{
    assert(container::read_at(
        container::write_at(content, offset, data),
        offset,
        data.len() as int,
    ) =~= data);
}

/// Law: the index stands between the metadata and the segments, so that nothing
/// written to a bucket reaches a header or a record.
pub proof fn law_buckets_lie_in_the_index(format: &CacheFormat, fingerprint: u64)
    requires
        format.wf(),
    ensures
        container::bucket_start(format, fingerprint) >= 2 * format.spec_geometry().block_bytes,
        container::bucket_start(format, fingerprint) + format.spec_geometry().block_bytes
            <= format.spec_layout().data_offset,
        (container::bucket_start(format, fingerprint) - 2 * format.spec_geometry().block_bytes)
            % format.spec_geometry().block_bytes as int == 0,
{
    format.lemma_layout();
    let block = format.spec_geometry().block_bytes as int;
    let n = format.buckets();
    let index = format.spec_layout().index_bytes as int;
    vstd::arithmetic::div_mod::lemma_fundamental_div_mod(index, block);
    assert(n * block == index) by (nonlinear_arith)
        requires
            index == block * (index / block) + index % block,
            index % block == 0,
            n == index / block,
    ;
    assert(n >= 1) by (nonlinear_arith)
        requires
            n * block == index,
            index >= block,
            block > 0,
    ;
    let k = fingerprint as int % n;
    vstd::arithmetic::div_mod::lemma_mod_bound(fingerprint as int, n);
    assert(0 <= k * block && k * block + block <= n * block) by (nonlinear_arith)
        requires
            0 <= k,
            k + 1 <= n,
            block > 0,
    ;
    vstd::arithmetic::div_mod::lemma_mod_multiples_basic(k, block);
}

/// Law: a record is appended where the last one ended, and the next one goes
/// behind it, so that records do not overlap. It ends inside the active segment
/// and counts as unsynchronized.
pub proof fn law_records_do_not_overlap(
    room: &DiskStore,
    after: &DiskStore,
    old_content: Seq<u8>,
    new_content: Seq<u8>,
    path: Seq<u8>,
    revision: Seq<u8>,
    body: Seq<u8>,
    slot: Slot,
    cleared: nat,
)
    requires
        room.wf(),
        room.writer.has_room(&room.disk, slot.record_bytes as int),
        store::appends(
            room,
            after,
            old_content,
            new_content,
            path,
            revision,
            body,
            slot,
            cleared,
        ),
    ensures
        slot.record_offset == room.writer.append_offset,
        after.writer.append_offset == slot.record_offset + slot.record_bytes,
        slot.record_bytes >= 48 + revision.len() + body.len(),
        slot.generation == room.disk.segment_generations@[room.writer.active_segment->0 as int],
        after.writer.append_offset <= room.disk.format.segment_offset(
            room.writer.active_segment->0 as int,
        ) + room.disk.format.spec_geometry().segment_bytes,
        after.writer.dirty_bytes == u64::MAX || after.writer.dirty_bytes
            >= room.writer.dirty_bytes + slot.record_bytes,
        after.writer.active_segment == room.writer.active_segment,
        after.disk == room.disk,
{
    room.disk.format.lemma_layout();
    room.disk.format.lemma_segment(room.writer.active_segment->0 as int);
    law_record_size_is_tight(&room.disk.format, revision.len() as int, body.len() as int);
}

/// Law: a segment that is started has a generation above all others, in place of
/// the oldest; the other segments keep theirs, and appending begins behind its
/// header.
pub proof fn law_started_segment_is_the_newest(
    before: &DiskStore,
    after: &DiskStore,
    old_content: Seq<u8>,
    new_content: Seq<u8>,
    i: int,
)
    requires
        before.wf(),
        before.writer.next_generation < u64::MAX,
        store::starts_segment(before, after, old_content, new_content),
        0 <= i < before.disk.segment_generations@.len(),
    ensures
        ({
            let s = after.writer.active_segment->0 as int;
            let old = before.disk.segment_generations@;
            let new = after.disk.segment_generations@;
            &&& 0 <= s < old.len()
            &&& new.len() == old.len()
            &&& old[s] <= old[i]
            &&& new[s] > old[i]
            &&& i != s ==> new[i] == old[i] && new[i] < new[s]
            &&& after.writer.append_offset == before.disk.format.segment_offset(s)
                + before.disk.format.spec_geometry().block_bytes
            &&& after.writer.next_generation == new[s] + 1
            &&& after.writer.promotion_tokens == before.writer.promotion_tokens
        }),
{
    let s = after.writer.active_segment->0 as int;
    law_next_segment_is_the_oldest(before.disk.segment_generations@, s);
    before.disk.format.lemma_layout();
    before.disk.format.lemma_segment(s);
    assert(before.disk.segment_generations@[i] < before.writer.next_generation);
    assert(before.disk.segment_generations@[s] < before.writer.next_generation);
}

/// Law: a container is that of one database: its header names the database, and
/// that of another is not opened.
pub proof fn law_container_names_its_database(format: &CacheFormat, content: Seq<u8>)
    requires
        format.wf(),
        store::is_container(format, content),
        content.len() >= 80,
    ensures
        content.len() == format.spec_layout().capacity,
        content.subrange(0, 8) == format.spec_geometry().magic@,
        content.subrange(8, 16) == bytes::le64(format.spec_geometry().format_version),
        content.subrange(16, 48) == format.spec_identity(),
{
    bytes::lemma_le64();
    let head = content.subrange(0, 80);
    assert(content.subrange(0, 8) =~= head.subrange(0, 8));
    assert(content.subrange(8, 16) =~= head.subrange(8, 16));
    assert(content.subrange(16, 48) =~= head.subrange(16, 48));
    assert(head.subrange(0, 8) =~= format.spec_geometry().magic@);
    assert(head.subrange(8, 16) =~= bytes::le64(format.spec_geometry().format_version));
    assert(head.subrange(16, 48) =~= format.spec_identity());
}

/// Law: an error is counted as one error, and as nothing else.
pub proof fn law_error_counts_as_one(counts: CacheStats)
    ensures
        ({
            let after = queue::one_more_error(counts);
            &&& after.l2_errors == counts.l2_errors.wrapping_add(1)
            &&& after.l1_hits == counts.l1_hits
            &&& after.l1_misses == counts.l1_misses
            &&& after.l2_hits == counts.l2_hits
            &&& after.l2_misses == counts.l2_misses
            &&& after.l2_bytes_read == counts.l2_bytes_read
            &&& after.l2_bytes_written == counts.l2_bytes_written
        }),
{
}

/// Law: a record that was found is genuine just when one was admitted for the same
/// database and path with the same revision, body and point.
pub proof fn law_genuine_records_were_admitted(
    known: Seq<KnownRecord>,
    i: int,
    identity: u8,
    path: u8,
    revision: Seq<u8>,
    body: Seq<u8>,
    point: u64,
)
    ensures
        0 <= i < known.len() ==> sim_harness::was_admitted(
            known,
            known[i].identity,
            known[i].path,
            known[i].revision@,
            known[i].body@,
            known[i].sequence_point,
        ) && sim_harness::point_admitted(known, known[i].identity, known[i].sequence_point),
        sim_harness::was_admitted(known, identity, path, revision, body, point) ==> exists|k: int|
            {
                &&& 0 <= k < known.len()
                &&& (#[trigger] known[k]).identity == identity
                &&& known[k].path == path
                &&& known[k].revision@ == revision
                &&& known[k].body@ == body
                &&& known[k].sequence_point == point
            },
        sim_harness::point_admitted(known, identity, point) ==> exists|k: int|
            0 <= k < known.len() && (#[trigger] known[k]).identity == identity
                && known[k].sequence_point == point,
{
    if 0 <= i < known.len() {
        assert(known[i].identity == known[i].identity);
    }
}

/// Clearing slots of a bucket touches no byte outside the bucket.
proof fn lemma_zeroed_outside(
    content: Seq<u8>,
    start: int,
    block: int,
    cleared: Seq<usize>,
    i: int,
)
    requires
        0 <= start,
        start + block <= content.len(),
        0 <= i < content.len(),
        !(start <= i < start + block),
        forall|k: int| 0 <= k < cleared.len() ==> (#[trigger] cleared[k] + 1) * 40 <= block,
    ensures
        container::zero_slots(content, start, cleared).len() == content.len(),
        container::zero_slots(content, start, cleared)[i] == content[i],
    decreases cleared.len(),
{
    if cleared.len() > 0 {
        let rest = cleared.drop_last();
        assert forall|k: int| 0 <= k < rest.len() implies (#[trigger] rest[k] + 1) * 40
            <= block by {
            assert(rest[k] == cleared[k]);
        }
        lemma_zeroed_outside(content, start, block, rest, i);
        assert(cleared[cleared.len() - 1] == cleared.last());
        law_written_bytes_are_read_back(
            container::zero_slots(content, start, rest),
            start + cleared.last() * 40,
            bytes::zeros(40),
            i,
        );
    }
}

/// The slots of a bucket end inside it.
proof fn lemma_slots_inside(disk: &Disk, content: Seq<u8>, fingerprint: u64)
    requires
        disk.wf(),
        content.len() == disk.format.spec_layout().capacity,
    ensures
        ({
            let start = container::bucket_start(&disk.format, fingerprint);
            let block = disk.format.spec_geometry().block_bytes as int;
            let slots = disk::bucket_slots(
                container::bucket_of(&disk.format, content, fingerprint),
            );
            &&& 0 <= start
            &&& start + block <= content.len()
            &&& slots.len() * 40 <= block
        }),
{
    disk.format.lemma_layout();
    law_buckets_lie_in_the_index(&disk.format, fingerprint);
    let block = disk.format.spec_geometry().block_bytes as int;
    assert(disk.format.spec_layout().segment_count * disk.format.spec_geometry().segment_bytes >= 0)
        by (nonlinear_arith);
    assert(container::bucket_of(&disk.format, content, fingerprint).len() == block);
    assert(block / 40 * 40 <= block) by (nonlinear_arith);
}

/// Law: an invalidation touches only the bucket of its path.
pub proof fn law_invalidation_touches_only_its_bucket(
    disk: &Disk,
    before: Seq<u8>,
    after: Seq<u8>,
    fingerprint: u64,
    cleared: nat,
    i: int,
)
    requires
        disk.wf(),
        before.len() == disk.format.spec_layout().capacity,
        store::clears(disk, before, after, fingerprint, cleared),
        0 <= i < before.len(),
        !(container::bucket_start(&disk.format, fingerprint) <= i < container::bucket_start(
            &disk.format,
            fingerprint,
        ) + disk.format.spec_geometry().block_bytes),
    ensures
        after.len() == before.len(),
        after[i] == before[i],
{
    lemma_slots_inside(disk, before, fingerprint);
    let slots = disk::bucket_slots(container::bucket_of(&disk.format, before, fingerprint));
    let zeroed = choose|zeroed: Seq<usize>|
        {
            &&& zeroed.len() == cleared
            &&& disk::carriers(slots, fingerprint, zeroed)
            &&& after == #[trigger] container::content_after_invalidate(
                &disk.format,
                before,
                fingerprint,
                zeroed,
            )
        };
    lemma_zeroed_outside(
        before,
        container::bucket_start(&disk.format, fingerprint),
        disk.format.spec_geometry().block_bytes as int,
        zeroed,
        i,
    );
}

/// Law: an append touches only the place of its record, the bucket of its path,
/// and the header of the segment that is started for it. So the records of other
/// paths stay as they are.
pub proof fn law_append_touches_only_its_places(
    before: &DiskStore,
    after: &DiskStore,
    old_content: Seq<u8>,
    new_content: Seq<u8>,
    path: Seq<u8>,
    revision: Seq<u8>,
    body: Seq<u8>,
    slot: Slot,
    started: bool,
    i: int,
)
    requires
        before.wf(),
        old_content.len() == before.disk.format.spec_layout().capacity,
        store::records(
            before,
            after,
            old_content,
            new_content,
            path,
            revision,
            body,
            slot,
            started,
        ),
        0 <= i < old_content.len(),
        !(slot.record_offset <= i < slot.record_offset + slot.record_bytes),
        ({
            let start = container::bucket_start(&before.disk.format, slot.fingerprint);
            !(start <= i < start + before.disk.format.spec_geometry().block_bytes)
        }),
        started ==> ({
            let start = before.disk.format.segment_offset(after.writer.active_segment->0 as int);
            !(start <= i < start + before.disk.format.spec_geometry().block_bytes)
        }),
    ensures
        new_content.len() == old_content.len(),
        new_content[i] == old_content[i],
{
    let (room, mid, cleared) = choose|room: DiskStore, mid: Seq<u8>, cleared: nat|
        {
            &&& room.wf()
            &&& mid.len() == old_content.len()
            &&& store::makes_room(
                before,
                &room,
                old_content,
                mid,
                slot.record_bytes as int,
                started,
            )
            &&& #[trigger] store::appends(
                &room,
                after,
                mid,
                new_content,
                path,
                revision,
                body,
                slot,
                cleared,
            )
        };
    let format = &before.disk.format;
    let block = format.spec_geometry().block_bytes as int;
    let s = room.writer.active_segment->0 as int;
    format.lemma_layout();
    format.lemma_segment(s);
    bytes::lemma_le64();
    if started {
        let header = bytes::padded(
            CacheFormat::segment_content(before.writer.next_generation),
            block,
        );
        assert(header.len() == block);
        law_written_bytes_are_read_back(old_content, format.segment_offset(s), header, i);
    }
    assert(mid[i] == old_content[i]);
    law_record_size_is_tight(format, revision.len() as int, body.len() as int);
    bytes::lemma_le32();
    let record = bytes::padded(
        format.record_content(path, revision, body, slot.current_after@),
        slot.record_bytes as int,
    );
    assert(record.len() == slot.record_bytes);
    law_written_bytes_are_read_back(mid, slot.record_offset as int, record, i);
    let written = container::write_at(mid, slot.record_offset as int, record);
    lemma_slots_inside(&room.disk, written, slot.fingerprint);
    let slots = disk::bucket_slots(
        container::bucket_of(&room.disk.format, written, slot.fingerprint),
    );
    let (zeroed, index) = choose|zeroed: Seq<usize>, index: int|
        {
            &&& zeroed.len() == cleared
            &&& disk::carriers(slots, slot.fingerprint, zeroed)
            &&& disk::is_target(&room.disk, slots, slot.fingerprint, index)
            &&& new_content == #[trigger] container::content_after_publish(
                &room.disk.format,
                written,
                slot,
                zeroed,
                index,
            )
        };
    let start = container::bucket_start(format, slot.fingerprint);
    lemma_zeroed_outside(written, start, block, zeroed, i);
    let emptied = container::zero_slots(written, start, zeroed);
    CacheFormat::law_slot_round_trip(slot);
    law_written_bytes_are_read_back(
        emptied,
        start + index * 40,
        crate::disk_cache::format::slot_bytes(slot),
        i,
    );
}

/// Law: a path counts as hit a second time just when both of its counters say that
/// it was hit before, and one of them that it was hit once only.
pub proof fn law_second_hit_needs_both_counters(counters: Seq<int>, fingerprint: u64)
    requires
        counters.len() == admission::FILTER_COUNTERS,
    ensures
        ({
            let first = counters[admission::first_counter(fingerprint)];
            let second = counters[admission::second_counter(fingerprint)];
            admission::is_second_hit(counters, fingerprint) <==> first >= 1 && second >= 1 && (first
                == 1 || second == 1)
        }),
{
}

/// Law: hits are counted until an epoch of them is full, and then anew.
pub proof fn law_filter_forgets_after_an_epoch(
    before: &HitFilter,
    after: &HitFilter,
    fingerprint: u64,
)
    requires
        after.hit_from(before, fingerprint),
    ensures
        before.hit_count() + 1 < admission::FILTER_HIT_EPOCH ==> {
            &&& after.counters() == admission::counters_after_hit(before.counters(), fingerprint)
            &&& after.hit_count() == before.hit_count() + 1
            &&& after.segment_count() == before.segment_count()
        },
        before.hit_count() + 1 >= admission::FILTER_HIT_EPOCH ==> after.counters()
            == admission::no_hits() && after.hit_count() == 0,
{
}

/// Law: a segment has a generation only when its header says so twice, the second
/// time in complement; a torn header counts as none.
pub proof fn law_torn_headers_count_as_unused(header: Seq<u8>)
    ensures
        CacheFormat::segment_generation(header) matches Some(generation) ==> {
            &&& generation != 0
            &&& header.len() >= 16
            &&& bytes::le64_value(header.subrange(0, 8)) == generation
            &&& bytes::le64_value(header.subrange(8, 16)) == !generation
        },
        disk::recovered_generation(header) != 0 ==> CacheFormat::segment_generation(header) == Some(
            disk::recovered_generation(header),
        ),
{
}

/// Law: a place to go on from is believed only when its digest is that of the
/// place, for this database and capacity.
pub proof fn law_torn_tails_are_ignored(format: &CacheFormat, marker: Seq<u8>)
    ensures
        format.clean_tail(marker) matches Some((generation, append_offset)) ==> {
            &&& marker.len() >= 48
            &&& generation == bytes::le64_value(marker.subrange(0, 8))
            &&& append_offset == bytes::le64_value(marker.subrange(8, 16))
            &&& marker.subrange(16, 48) == crate::disk_cache::format::sha256(
                format.spec_geometry().marker_domain.spec_bytes() + format.spec_identity()
                    + bytes::le64(format.spec_layout().capacity) + marker.subrange(0, 16),
            )@
        },
{
}

/// Law: appending goes on only in the newest segment, behind its header and no
/// further than its end.
pub proof fn law_appending_resumes_in_the_newest_segment(
    disk: &Disk,
    tail: Option<(u64, u64)>,
    s: int,
    i: int,
)
    requires
        disk::resumes_at(disk, disk::greatest(disk.segment_generations@), tail, s),
        0 <= i < disk.segment_generations@.len(),
    ensures
        tail is Some,
        0 <= s < disk.segment_generations@.len(),
        disk.segment_generations@[s] != 0,
        disk.segment_generations@[s] == tail->Some_0.0,
        disk.segment_generations@[i] <= disk.segment_generations@[s],
        disk.format.segment_offset(s) + disk.format.spec_geometry().block_bytes <= tail->Some_0.1,
        tail->Some_0.1 <= disk.format.segment_offset(s) + disk.format.spec_geometry().segment_bytes,
        tail->Some_0.1 % 8 == 0,
{
    law_greatest_generation_is_the_greatest(disk.segment_generations@);
}

/// Law: what makes an append impossible for good is that generations have run out
/// while the active segment is full.
pub proof fn law_what_exhausts_a_container(store: &DiskStore, revision: Seq<u8>, body: Seq<u8>)
    requires
        store.wf(),
        store::exhausted(store, revision, body),
    ensures
        store.writer.next_generation == u64::MAX,
        store.writer.active_segment matches Some(s) ==> store.writer.append_offset
            + store.disk.format.record_size(revision.len() as int, body.len() as int)->0
            > store.disk.format.segment_offset(s as int)
            + store.disk.format.spec_geometry().segment_bytes,
{
}

/// Law: a container that was just made, in place of none or of another one, is
/// usable: all of its segments are unused.
pub proof fn law_fresh_container_is_usable(format: &CacheFormat, content: Seq<u8>)
    requires
        format.wf(),
        !store::is_container(format, content),
    ensures
        !persistent::exhausted(format, content),
        forall|i: int|
            0 <= i < format.spec_layout().segment_count ==> #[trigger] store::generations_in(
                format,
                store::fresh(format),
            )[i] == 0,
{
    format.lemma_layout();
    bytes::lemma_le64();
    let block = format.spec_geometry().block_bytes as int;
    let fresh = store::fresh(format);
    let generations = store::generations_in(format, fresh);
    let header = bytes::padded(format.header_content(), block);
    assert(header.len() == block);
    assert forall|i: int| 0 <= i < format.spec_layout().segment_count implies #[trigger] generations[i]
        == 0 by {
        format.lemma_segment(i);
        let raw = container::read_at(fresh, format.segment_offset(i), 16);
        assert(raw =~= bytes::zeros(16));
        assert(raw.subrange(0, 8) =~= bytes::zeros(8));
        assert(bytes::le64_value(raw.subrange(0, 8)) == 0);
    }
    law_greatest_generation_is_the_greatest(generations);
    if disk::greatest(generations) == u64::MAX {
        let k = generations.index_of(disk::greatest(generations));
        assert(generations[k] == 0);
    }
}

/// Law: containers of production and compact ones are never taken for each other,
/// and both have segments of many blocks.
pub proof fn law_geometries_are_told_apart(a: CacheGeometry, b: CacheGeometry)
    requires
        a.is_production(),
        b.is_compact(),
    ensures
        a.magic@ != b.magic@,
        a.magic@.len() == 8,
        b.magic@.len() == 8,
        a.block_bytes == 4096,
        a.block_bytes == b.block_bytes,
        a.segment_bytes == 16384 * a.block_bytes,
        b.segment_bytes == 64 * b.block_bytes,
        a.minimum_record_bytes == a.block_bytes,
        b.minimum_record_bytes == b.block_bytes,
        a.index_divisor == 64,
        b.index_divisor == 64,
{
    assert(a.magic@[2] != b.magic@[2]);
}

} // verus!
