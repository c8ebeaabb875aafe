//! Positions in the container, and what its bytes hold after an operation.

use vstd::prelude::*;
use vstd::string::*;

use super::disk::{Disk, WriterState};
use super::format::{CacheFormat, Slot, SLOT_BYTES};
use crate::bytes;

verus! {

/// Bytes `offset..offset + len` of a container.
pub open spec fn read_at(content: Seq<u8>, offset: int, len: int) -> Seq<u8> {
    content.subrange(offset, offset + len)
}

/// A container after `data` was written at `offset`.
pub open spec fn write_at(content: Seq<u8>, offset: int, data: Seq<u8>) -> Seq<u8> {
    content.subrange(0, offset) + data + content.subrange(
        offset + data.len(),
        content.len() as int,
    )
}

/// Offset of the index bucket of a fingerprint.
pub open spec fn bucket_start(format: &CacheFormat, fingerprint: u64) -> int {
    format.spec_layout().metadata_bytes + (fingerprint as int % format.buckets())
        * format.spec_geometry().block_bytes
}

/// The bucket of a fingerprint.
pub open spec fn bucket_of(format: &CacheFormat, content: Seq<u8>, fingerprint: u64) -> Seq<u8> {
    read_at(
        content,
        bucket_start(format, fingerprint),
        format.spec_geometry().block_bytes as int,
    )
}

/// Buckets lie between the metadata and the record ring.
pub proof fn lemma_bucket_start(format: &CacheFormat, fingerprint: u64)
    requires
        format.wf(),
    ensures
        format.spec_layout().metadata_bytes <= bucket_start(format, fingerprint),
        bucket_start(format, fingerprint) + format.spec_geometry().block_bytes
            <= format.spec_layout().data_offset,
{
    format.lemma_layout();
    format.lemma_buckets();
    let b = fingerprint as int % format.buckets();
    let block = format.spec_geometry().block_bytes as int;
    let n = format.buckets();
    vstd::arithmetic::div_mod::lemma_mod_bound(fingerprint as int, n);
    assert(0 <= b * block && b * block + block <= n * block) by (nonlinear_arith)
        requires
            0 <= b < n,
            block > 0,
    ;
}

/// Returns the offset of the index bucket of `fingerprint`.
pub fn bucket_offset(format: &CacheFormat, fingerprint: u64) -> (r: u64)
    requires
        format.wf(),
    ensures
        r == bucket_start(format, fingerprint),
{
    proof {
        format.lemma_layout();
        lemma_bucket_start(format, fingerprint);
    }
    let bucket: u64 = fingerprint % format.bucket_count();
    proof {
        let block = format.spec_geometry().block_bytes as int;
        assert(0 <= bucket * block) by (nonlinear_arith)
            requires
                block > 0,
                bucket >= 0,
        ;
    }
    format.metadata_bytes() + bucket * format.block_bytes()
}

/// Returns the offset of slot `index` of the bucket of `fingerprint`.
pub fn slot_offset(format: &CacheFormat, fingerprint: u64, index: usize) -> (r: u64)
    requires
        format.wf(),
        index < format.spec_geometry().block_bytes as int / SLOT_BYTES as int,
    ensures
        r == bucket_start(format, fingerprint) + index * SLOT_BYTES,
        r + SLOT_BYTES <= format.spec_layout().data_offset,
{
    proof {
        lemma_bucket_start(format, fingerprint);
    }
    bucket_offset(format, fingerprint) + index as u64 * SLOT_BYTES
}

/// A container after some slots of the bucket at `start` were zeroed.
pub open spec fn zero_slots(content: Seq<u8>, start: int, cleared: Seq<usize>) -> Seq<u8>
    decreases cleared.len(),
{
    if cleared.len() == 0 {
        content
    } else {
        write_at(
            zero_slots(content, start, cleared.drop_last()),
            start + cleared.last() * SLOT_BYTES,
            bytes::zeros(SLOT_BYTES as int),
        )
    }
}

/// Writing inside a range leaves what lies outside of it.
pub proof fn lemma_write_outside(content: Seq<u8>, offset: int, data: Seq<u8>, at: int, len: int)
    requires
        0 <= offset,
        offset + data.len() <= content.len(),
        0 <= at,
        0 <= len,
        at + len <= content.len(),
        at + len <= offset || offset + data.len() <= at,
    ensures
        write_at(content, offset, data).len() == content.len(),
        read_at(write_at(content, offset, data), at, len) == read_at(content, at, len),
{
    assert(read_at(write_at(content, offset, data), at, len) =~= read_at(content, at, len));
}

/// Writing one slot of a bucket writes that slot of what is read back.
proof fn lemma_write_slot(content: Seq<u8>, start: int, block: int, i: int, raw: Seq<u8>)
    requires
        0 <= start,
        start + block <= content.len(),
        0 <= i < block / 40,
        raw.len() == 40,
    ensures
        write_at(content, start + i * 40, raw).len() == content.len(),
        read_at(write_at(content, start + i * 40, raw), start, block)
            == super::disk::with_slot_written(read_at(content, start, block), i, raw),
{
    assert(i * 40 + 40 <= block);
    assert(read_at(write_at(content, start + i * 40, raw), start, block)
        =~= super::disk::with_slot_written(read_at(content, start, block), i, raw));
}

/// The list names slot `i`.
pub open spec fn names(list: Seq<usize>, i: int) -> bool {
    exists|k: int| 0 <= k < list.len() && #[trigger] list[k] == i
}

/// Zeroing slots empties them, and changes nothing else of the container.
pub proof fn lemma_zero_slots(content: Seq<u8>, start: int, block: int, cleared: Seq<usize>)
    requires
        0 <= start,
        0 <= block,
        start + block <= content.len(),
        forall|k: int| 0 <= k < cleared.len() ==> (#[trigger] cleared[k]) < block / 40,
    ensures
        zero_slots(content, start, cleared).len() == content.len(),
        forall|at: int, len: int|
            #![trigger read_at(zero_slots(content, start, cleared), at, len)]
            0 <= at && 0 <= len && at + len <= content.len() && (at + len <= start || start + block
                <= at) ==> read_at(zero_slots(content, start, cleared), at, len) == read_at(
                content,
                at,
                len,
            ),
        ({
            let before = super::disk::bucket_slots(read_at(content, start, block));
            let after = super::disk::bucket_slots(
                read_at(zero_slots(content, start, cleared), start, block),
            );
            &&& after.len() == before.len()
            &&& forall|i: int|
                0 <= i < before.len() ==> #[trigger] after[i] == if names(cleared, i) {
                    super::disk::empty_slot()
                } else {
                    before[i]
                }
        }),
    decreases cleared.len(),
{
    let before = super::disk::bucket_slots(read_at(content, start, block));
    if cleared.len() > 0 {
        let rest = cleared.drop_last();
        let last = cleared.last() as int;
        assert forall|k: int| 0 <= k < rest.len() implies (#[trigger] rest[k]) < block / 40 by {
            assert(rest[k] == cleared[k]);
        }
        assert(cleared[cleared.len() - 1] < block / 40);
        lemma_zero_slots(content, start, block, rest);
        let mid = zero_slots(content, start, rest);
        let zero = bytes::zeros(40);
        assert(start + cleared.last() * SLOT_BYTES == start + last * 40);
        lemma_write_slot(mid, start, block, last, zero);
        let mid_bucket = read_at(mid, start, block);
        super::disk::law_slot_write(mid_bucket, last, zero);
        let out = zero_slots(content, start, cleared);
        assert(out == write_at(mid, start + last * 40, zero));
        assert forall|at: int, len: int|
            #![trigger read_at(out, at, len)]
            0 <= at && 0 <= len && at + len <= content.len() && (at + len <= start || start + block
                <= at) implies read_at(out, at, len) == read_at(content, at, len) by {
            lemma_write_outside(mid, start + last * 40, zero, at, len);
            assert(read_at(mid, at, len) == read_at(content, at, len));
        }
        let mid_slots = super::disk::bucket_slots(mid_bucket);
        let after = super::disk::bucket_slots(read_at(out, start, block));
        assert(after == mid_slots.update(last, super::disk::empty_slot()));
        assert forall|i: int| 0 <= i < before.len() implies #[trigger] after[i]
            == if names(cleared, i) {
            super::disk::empty_slot()
        } else {
            before[i]
        } by {
            assert(mid_slots[i] == if names(rest, i) {
                super::disk::empty_slot()
            } else {
                before[i]
            });
            if names(rest, i) {
                let k = choose|k: int| 0 <= k < rest.len() && #[trigger] rest[k] == i;
                assert(cleared[k] == i);
            }
            if names(cleared, i) && i != last {
                let k = choose|k: int| 0 <= k < cleared.len() && #[trigger] cleared[k] == i;
                assert(rest[k] == i);
            }
            if i == last {
                assert(cleared[cleared.len() - 1] == i);
            }
        }
    } else {
        assert forall|i: int| 0 <= i < before.len() implies #[trigger] before[i]
            == if names(cleared, i) {
            super::disk::empty_slot()
        } else {
            before[i]
        } by {
        }
    }
}

/// A container after `slot` was published with the given plan.
pub open spec fn content_after_publish(
    format: &CacheFormat,
    content: Seq<u8>,
    slot: Slot,
    cleared: Seq<usize>,
    index: int,
) -> Seq<u8> {
    let start = bucket_start(format, slot.fingerprint);
    write_at(
        zero_slots(content, start, cleared),
        start + index * SLOT_BYTES,
        super::format::slot_bytes(slot),
    )
}

/// A container after an invalidation zeroed the given slots.
pub open spec fn content_after_invalidate(
    format: &CacheFormat,
    content: Seq<u8>,
    fingerprint: u64,
    cleared: Seq<usize>,
) -> Seq<u8> {
    zero_slots(content, bucket_start(format, fingerprint), cleared)
}

/// Law: publishing a slot turns the bucket of its fingerprint into the bucket
/// after publication, and touches nothing outside of that bucket.
pub proof fn law_publish_on_bytes(
    disk: &Disk,
    content: Seq<u8>,
    slot: Slot,
    cleared: Seq<usize>,
    index: int,
)
    requires
        disk.wf(),
        content.len() == disk.format.spec_layout().capacity,
        super::disk::carriers(
            super::disk::bucket_slots(bucket_of(&disk.format, content, slot.fingerprint)),
            slot.fingerprint,
            cleared,
        ),
        0 <= index < disk.format.spec_geometry().block_bytes as int / 40,
    ensures
        ({
            let after = content_after_publish(&disk.format, content, slot, cleared, index);
            let start = bucket_start(&disk.format, slot.fingerprint);
            let block = disk.format.spec_geometry().block_bytes as int;
            &&& after.len() == content.len()
            &&& super::disk::bucket_slots(bucket_of(&disk.format, after, slot.fingerprint))
                == super::disk::after_publish(
                super::disk::bucket_slots(bucket_of(&disk.format, content, slot.fingerprint)),
                slot,
                index,
            )
            &&& forall|at: int, len: int|
                #![trigger read_at(after, at, len)]
                0 <= at && 0 <= len && at + len <= content.len() && (at + len <= start || start
                    + block <= at) ==> read_at(after, at, len) == read_at(content, at, len)
        }),
{
    let format = &disk.format;
    format.lemma_layout();
    lemma_bucket_start(format, slot.fingerprint);
    let start = bucket_start(format, slot.fingerprint);
    let block = format.spec_geometry().block_bytes as int;
    let bucket = bucket_of(format, content, slot.fingerprint);
    let slots = super::disk::bucket_slots(bucket);
    assert(slots.len() == block / 40);
    lemma_zero_slots(content, start, block, cleared);
    let mid = zero_slots(content, start, cleared);
    let mid_bucket = read_at(mid, start, block);
    let mid_slots = super::disk::bucket_slots(mid_bucket);
    CacheFormat::law_slot_round_trip(slot);
    let raw = super::format::slot_bytes(slot);
    assert(start + index * SLOT_BYTES == start + index * 40);
    lemma_write_slot(mid, start, block, index, raw);
    super::disk::law_slot_write(mid_bucket, index, raw);
    let after = content_after_publish(format, content, slot, cleared, index);
    assert(after == write_at(mid, start + index * 40, raw));
    let cleared_slots = super::disk::after_invalidate(slots, slot.fingerprint);
    assert forall|i: int| 0 <= i < slots.len() implies mid_slots[i] == cleared_slots[i] by {
        if super::disk::carries(slots[i], slot.fingerprint) {
            let k = choose|k: int| 0 <= k < cleared.len() && cleared[k] == i;
            assert(cleared[k] == i);
        } else if names(cleared, i) {
            let k = choose|k: int| 0 <= k < cleared.len() && #[trigger] cleared[k] == i;
            assert(super::disk::carries(slots[cleared[k] as int], slot.fingerprint));
        }
    }
    assert(mid_slots =~= cleared_slots);
    assert forall|at: int, len: int|
        #![trigger read_at(after, at, len)]
        0 <= at && 0 <= len && at + len <= content.len() && (at + len <= start || start + block
            <= at) implies read_at(after, at, len) == read_at(content, at, len) by {
        lemma_write_outside(mid, start + index * 40, raw, at, len);
        assert(read_at(mid, at, len) == read_at(content, at, len));
    }
}

/// Law: once a record has been appended and its slot published, a lookup of the
/// path has that slot as its only candidate, and the bytes behind it are an
/// intact record of the path with the revision, body and point that were
/// written.
pub proof fn law_published_record_is_found(
    disk: &Disk,
    writer: &WriterState,
    content: Seq<u8>,
    path: Seq<u8>,
    revision: Seq<u8>,
    body: Seq<u8>,
    slot: Slot,
    cleared: Seq<usize>,
    index: int,
)
    requires
        writer.wf(disk),
        writer.active_segment is Some,
        content.len() == disk.format.spec_layout().capacity,
        disk.format.record_encodable(path, revision, body),
        slot.fingerprint == disk.format.fingerprint(path),
        slot.generation == disk.segment_generations@[writer.active_segment->0 as int],
        slot.record_offset == writer.append_offset,
        disk.format.record_size(revision.len() as int, body.len() as int) == Some(
            slot.record_bytes as int,
        ),
        writer.has_room(disk, slot.record_bytes as int),
        slot.current_after@ != 0,
        ({
            let appended = write_at(
                content,
                slot.record_offset as int,
                bytes::padded(
                    disk.format.record_content(path, revision, body, slot.current_after@),
                    slot.record_bytes as int,
                ),
            );
            &&& super::disk::carriers(
                super::disk::bucket_slots(bucket_of(&disk.format, appended, slot.fingerprint)),
                slot.fingerprint,
                cleared,
            )
            &&& super::disk::is_target(
                disk,
                super::disk::bucket_slots(bucket_of(&disk.format, appended, slot.fingerprint)),
                slot.fingerprint,
                index,
            )
        }),
    ensures
        ({
            let appended = write_at(
                content,
                slot.record_offset as int,
                bytes::padded(
                    disk.format.record_content(path, revision, body, slot.current_after@),
                    slot.record_bytes as int,
                ),
            );
            let after = content_after_publish(&disk.format, appended, slot, cleared, index);
            let raw = read_at(after, slot.record_offset as int, slot.record_bytes as int);
            &&& super::disk::candidates(
                disk,
                bucket_of(&disk.format, after, slot.fingerprint),
                slot.fingerprint,
            ) == seq![slot]
            &&& disk.format.record_intact(path, raw)
            &&& CacheFormat::stored_revision(raw) == revision
            &&& CacheFormat::stored_body(raw) == body
            &&& bytes::le64_value(raw.subrange(8, 16)) == slot.current_after@
        }),
{
    let format = &disk.format;
    format.lemma_layout();
    let s = writer.active_segment->0 as int;
    format.lemma_segment(s);
    format.lemma_record_size(revision.len() as int, body.len() as int);
    lemma_bucket_start(format, slot.fingerprint);
    let record = bytes::padded(
        format.record_content(path, revision, body, slot.current_after@),
        slot.record_bytes as int,
    );
    format.law_record_round_trip(path, revision, body, slot.current_after@);
    assert(record.len() == slot.record_bytes) by {
        bytes::lemma_le64();
        bytes::lemma_le32();
    }
    let appended = write_at(content, slot.record_offset as int, record);
    assert(appended.len() == content.len());
    assert(read_at(appended, slot.record_offset as int, slot.record_bytes as int) =~= record);
    let slots = super::disk::bucket_slots(bucket_of(format, appended, slot.fingerprint));
    assert(slots.len() == format.spec_geometry().block_bytes as int / 40);
    law_publish_on_bytes(disk, appended, slot, cleared, index);
    let after = content_after_publish(format, appended, slot, cleared, index);
    assert(read_at(after, slot.record_offset as int, slot.record_bytes as int) == record);
    let after_slots = super::disk::bucket_slots(bucket_of(format, after, slot.fingerprint));
    super::disk::law_publish_leaves_one_pointer(slots, slot, index);
    assert(disk.points_into(slot, s));
    let keep = |other: Slot| super::disk::carries(other, slot.fingerprint) && disk.live(other);
    assert(forall|i: int| 0 <= i < after_slots.len() ==> (keep(#[trigger] after_slots[i]) <==> i == index));
    lemma_filter_single(after_slots, keep, index);
    assert(after_slots[index] == slot);
}

/// Filtering a sequence in which one element passes leaves that element.
proof fn lemma_filter_single<A>(s: Seq<A>, keep: spec_fn(A) -> bool, index: int)
    requires
        0 <= index < s.len(),
        forall|i: int| 0 <= i < s.len() ==> (keep(#[trigger] s[i]) <==> i == index),
    ensures
        s.filter(keep) == seq![s[index]],
    decreases s.len(),
{
    reveal(Seq::filter);
    let rest = s.drop_last();
    if index == s.len() - 1 {
        lemma_filter_none(rest, keep);
        assert(s.filter(keep) =~= seq![s[index]]);
    } else {
        assert forall|i: int| 0 <= i < rest.len() implies (keep(#[trigger] rest[i]) <==> i
            == index) by {
            assert(rest[i] == s[i]);
        }
        lemma_filter_single(rest, keep, index);
        assert(!keep(s[s.len() - 1]));
        assert(s.filter(keep) =~= seq![s[index]]);
    }
}

/// Filtering a sequence in which no element passes leaves nothing.
proof fn lemma_filter_none<A>(s: Seq<A>, keep: spec_fn(A) -> bool)
    requires
        forall|i: int| 0 <= i < s.len() ==> !keep(#[trigger] s[i]),
    ensures
        s.filter(keep) == Seq::<A>::empty(),
    decreases s.len(),
{
    reveal(Seq::filter);
    if s.len() > 0 {
        let rest = s.drop_last();
        assert forall|i: int| 0 <= i < rest.len() implies !keep(#[trigger] rest[i]) by {
            assert(rest[i] == s[i]);
        }
        lemma_filter_none(rest, keep);
        assert(!keep(s[s.len() - 1]));
    }
    assert(s.filter(keep) =~= Seq::<A>::empty());
}

/// Law: after an invalidation a lookup of the path has no candidate.
pub proof fn law_invalidated_path_is_not_found(
    disk: &Disk,
    content: Seq<u8>,
    fingerprint: u64,
    cleared: Seq<usize>,
)
    requires
        disk.wf(),
        content.len() == disk.format.spec_layout().capacity,
        super::disk::carriers(
            super::disk::bucket_slots(bucket_of(&disk.format, content, fingerprint)),
            fingerprint,
            cleared,
        ),
    ensures
        super::disk::candidates(
            disk,
            bucket_of(
                &disk.format,
                content_after_invalidate(&disk.format, content, fingerprint, cleared),
                fingerprint,
            ),
            fingerprint,
        ) == Seq::<Slot>::empty(),
{
    let format = &disk.format;
    format.lemma_layout();
    lemma_bucket_start(format, fingerprint);
    let start = bucket_start(format, fingerprint);
    let block = format.spec_geometry().block_bytes as int;
    let slots = super::disk::bucket_slots(bucket_of(format, content, fingerprint));
    lemma_zero_slots(content, start, block, cleared);
    let after = zero_slots(content, start, cleared);
    let after_slots = super::disk::bucket_slots(read_at(after, start, block));
    let keep = |other: Slot| super::disk::carries(other, fingerprint) && disk.live(other);
    assert forall|i: int| 0 <= i < after_slots.len() implies !keep(#[trigger] after_slots[i]) by {
        if super::disk::carries(slots[i], fingerprint) {
            let k = choose|k: int| 0 <= k < cleared.len() && cleared[k] == i;
            assert(cleared[k] == i);
        }
    }
    lemma_filter_none(after_slots, keep);
}

} // verus!
