//! What a container keeps over its operations and over a restart.

use vstd::prelude::*;

use super::container;
use super::disk::{self, Disk, WriterState};
use super::store::{self, DiskStore};
use crate::bytes;
use crate::disk_cache::format::{CacheFormat, Slot};
use crate::timeline::SequencePoint;

verus! {

/// The file is the container whose state is held: the header is that of the
/// format, and the segment headers say the generations.
pub open spec fn mirrors(disk: &Disk, content: Seq<u8>) -> bool {
    &&& store::is_container(&disk.format, content)
    &&& disk.segment_generations@ == store::generations_in(&disk.format, content)
}

/// A file whose headers are unchanged is still the container.
proof fn lemma_headers_kept(disk: &Disk, before: Seq<u8>, after: Seq<u8>)
    requires
        mirrors(disk, before),
        after.len() == before.len(),
        container::read_at(after, 0, 80) == container::read_at(before, 0, 80),
        forall|i: int|
            0 <= i < disk.format.spec_layout().segment_count ==> #[trigger] container::read_at(
                after,
                disk.format.segment_offset(i),
                16,
            ) == container::read_at(before, disk.format.segment_offset(i), 16),
    ensures
        mirrors(disk, after),
{
    assert(store::generations_in(&disk.format, after) =~= store::generations_in(
        &disk.format,
        before,
    ));
}

/// Law: an opened container is the one in its file.
pub proof fn law_opened_mirrors(
    format: &CacheFormat,
    content: Seq<u8>,
    kept: bool,
    opened: &DiskStore,
    last: Option<SequencePoint>,
)
    requires
        store::opens(format, content, kept, opened, last),
        kept ==> store::is_container(format, content),
        !kept ==> content == store::fresh(format),
    ensures
        mirrors(&opened.disk, content),
{
    format.lemma_layout();
    if !kept {
        let header = format.header_content();
        bytes::lemma_le64();
        let block = format.spec_geometry().block_bytes as int;
        assert(bytes::padded(header, block).len() == block);
        assert(content.subrange(0, 80) =~= header);
    }
}

/// Law: a container is the one in its file after a segment was started.
pub proof fn law_started_mirrors(
    before: &DiskStore,
    after: &DiskStore,
    old_content: Seq<u8>,
    new_content: Seq<u8>,
)
    requires
        before.wf(),
        mirrors(&before.disk, old_content),
        store::starts_segment(before, after, old_content, new_content),
    ensures
        mirrors(&after.disk, new_content),
        new_content.len() == old_content.len(),
{
    let format = &before.disk.format;
    let s = after.writer.active_segment->0 as int;
    let generation = before.writer.next_generation;
    let block = format.spec_geometry().block_bytes as int;
    let data = bytes::padded(CacheFormat::segment_content(generation), block);
    format.lemma_layout();
    format.lemma_segment(s);
    bytes::lemma_le64();
    assert(before.disk.segment_generations@[s] < generation);
    format.law_segment_header_round_trip(generation);
    assert(data.len() == block);
    let start = format.segment_offset(s);
    container::lemma_write_outside(old_content, start, data, 0, 80);
    assert(new_content.subrange(0, 80) == container::read_at(new_content, 0, 80));
    assert(old_content.subrange(0, 80) == container::read_at(old_content, 0, 80));
    let header = container::read_at(new_content, start, 16);
    assert(header =~= data.subrange(0, 16));
    assert(header.subrange(0, 8) =~= data.subrange(0, 8));
    assert(header.subrange(8, 16) =~= data.subrange(8, 16));
    assert forall|i: int| 0 <= i < format.spec_layout().segment_count implies
        #[trigger] after.disk.segment_generations@[i] == disk::recovered_generation(
        container::read_at(new_content, format.segment_offset(i), 16),
    ) by {
        if i != s {
            lemma_segments_apart(format, i, s);
            container::lemma_write_outside(
                old_content,
                start,
                data,
                format.segment_offset(i),
                16,
            );
        }
    }
    assert(after.disk.segment_generations@ =~= store::generations_in(format, new_content));
}

/// Two segments do not overlap.
proof fn lemma_segments_apart(format: &CacheFormat, i: int, j: int)
    requires
        format.wf(),
        0 <= i < format.spec_layout().segment_count,
        0 <= j < format.spec_layout().segment_count,
        i != j,
    ensures
        format.segment_offset(i) + format.spec_geometry().segment_bytes <= format.segment_offset(j)
            || format.segment_offset(j) + format.spec_geometry().segment_bytes
            <= format.segment_offset(i),
        0 <= format.segment_offset(i),
        format.segment_offset(i) + format.spec_geometry().segment_bytes
            <= format.spec_layout().capacity,
{
    format.lemma_layout();
    format.lemma_segment(i);
    format.lemma_segment(j);
    let seg = format.spec_geometry().segment_bytes as int;
    if i < j {
        assert((i + 1) * seg <= j * seg) by (nonlinear_arith)
            requires
                i + 1 <= j,
                seg > 0,
        ;
    } else {
        assert((j + 1) * seg <= i * seg) by (nonlinear_arith)
            requires
                j + 1 <= i,
                seg > 0,
        ;
    }
}

/// Law: a container is the one in its file after slots were zeroed.
pub proof fn law_cleared_mirrors(
    disk: &Disk,
    old_content: Seq<u8>,
    new_content: Seq<u8>,
    fingerprint: u64,
    cleared: nat,
)
    requires
        disk.wf(),
        mirrors(disk, old_content),
        store::clears(disk, old_content, new_content, fingerprint, cleared),
    ensures
        mirrors(disk, new_content),
        new_content.len() == old_content.len(),
{
    let format = &disk.format;
    let start = container::bucket_start(format, fingerprint);
    let block = format.spec_geometry().block_bytes as int;
    let slots = disk::bucket_slots(container::bucket_of(format, old_content, fingerprint));
    let zeroed = choose|zeroed: Seq<usize>|
        {
            &&& zeroed.len() == cleared
            &&& disk::carriers(slots, fingerprint, zeroed)
            &&& new_content == #[trigger] container::content_after_invalidate(
                format,
                old_content,
                fingerprint,
                zeroed,
            )
        };
    format.lemma_layout();
    container::lemma_bucket_start(format, fingerprint);
    assert(slots.len() == block / 40);
    assert forall|k: int| 0 <= k < zeroed.len() implies (#[trigger] zeroed[k]) < block / 40 by {
        assert(zeroed[k] < slots.len());
    }
    container::lemma_zero_slots(old_content, start, block, zeroed);
    assert forall|i: int| 0 <= i < format.spec_layout().segment_count implies
        #[trigger] container::read_at(new_content, format.segment_offset(i), 16)
        == container::read_at(old_content, format.segment_offset(i), 16) by {
        format.lemma_segment(i);
    }
    lemma_headers_kept(disk, old_content, new_content);
}

/// Law: a container is the one in its file after a record was written into the
/// active segment and its slot was published.
pub proof fn law_appended_mirrors(
    room: &DiskStore,
    after: &DiskStore,
    old_content: Seq<u8>,
    new_content: Seq<u8>,
    path: Seq<u8>,
    revision: Seq<u8>,
    body: Seq<u8>,
    slot: Slot,
    cleared: nat,
)
    requires
        room.wf(),
        mirrors(&room.disk, old_content),
        room.writer.has_room(&room.disk, slot.record_bytes as int),
        store::appends(
            room,
            after,
            old_content,
            new_content,
            path,
            revision,
            body,
            slot,
            cleared,
        ),
    ensures
        mirrors(&after.disk, new_content),
        new_content.len() == old_content.len(),
{
    let disk = &room.disk;
    let format = &disk.format;
    let s = room.writer.active_segment->0 as int;
    let block = format.spec_geometry().block_bytes as int;
    let place = slot.record_offset as int;
    let data = bytes::padded(
        format.record_content(path, revision, body, slot.current_after@),
        slot.record_bytes as int,
    );
    let written = container::write_at(old_content, place, data);
    format.lemma_layout();
    format.lemma_segment(s);
    format.lemma_record_size(revision.len() as int, body.len() as int);
    assert(data.len() == slot.record_bytes) by {
        bytes::lemma_le64();
        bytes::lemma_le32();
    }
    container::lemma_write_outside(old_content, place, data, 0, 80);
    assert forall|i: int| 0 <= i < format.spec_layout().segment_count implies
        #[trigger] container::read_at(written, format.segment_offset(i), 16)
        == container::read_at(old_content, format.segment_offset(i), 16) by {
        if i != s {
            lemma_segments_apart(format, i, s);
        }
        format.lemma_segment(i);
        container::lemma_write_outside(old_content, place, data, format.segment_offset(i), 16);
    }
    lemma_headers_kept(disk, old_content, written);
    let slots = disk::bucket_slots(container::bucket_of(format, written, slot.fingerprint));
    let (zeroed, index) = choose|zeroed: Seq<usize>, index: int|
        {
            &&& zeroed.len() == cleared
            &&& disk::carriers(slots, slot.fingerprint, zeroed)
            &&& disk::is_target(disk, slots, slot.fingerprint, index)
            &&& new_content == #[trigger] container::content_after_publish(
                format,
                written,
                slot,
                zeroed,
                index,
            )
        };
    container::lemma_bucket_start(format, slot.fingerprint);
    assert(slots.len() == block / 40);
    container::law_publish_on_bytes(disk, written, slot, zeroed, index);
    assert forall|i: int| 0 <= i < format.spec_layout().segment_count implies
        #[trigger] container::read_at(new_content, format.segment_offset(i), 16)
        == container::read_at(written, format.segment_offset(i), 16) by {
        format.lemma_segment(i);
    }
    lemma_headers_kept(disk, written, new_content);
}

/// Law: a container is the one in its file after room was made for a record
/// and the record was appended and published.
pub proof fn law_recorded_mirrors(
    before: &DiskStore,
    after: &DiskStore,
    old_content: Seq<u8>,
    new_content: Seq<u8>,
    path: Seq<u8>,
    revision: Seq<u8>,
    body: Seq<u8>,
    slot: Slot,
    started: bool,
)
    requires
        before.wf(),
        mirrors(&before.disk, old_content),
        store::records(
            before,
            after,
            old_content,
            new_content,
            path,
            revision,
            body,
            slot,
            started,
        ),
    ensures
        mirrors(&after.disk, new_content),
        new_content.len() == old_content.len(),
{
    let (room, mid, cleared) = choose|room: DiskStore, mid: Seq<u8>, cleared: nat|
        {
            &&& room.wf()
            &&& mid.len() == old_content.len()
            &&& store::makes_room(
                before,
                &room,
                old_content,
                mid,
                slot.record_bytes as int,
                started,
            )
            &&& #[trigger] store::appends(
                &room,
                after,
                mid,
                new_content,
                path,
                revision,
                body,
                slot,
                cleared,
            )
        };
    if started {
        law_started_mirrors(before, &room, old_content, mid);
    }
    law_appended_mirrors(
        &room,
        after,
        mid,
        new_content,
        path,
        revision,
        body,
        slot,
        cleared,
    );
}

/// A clean shutdown writes one metadata block, and nothing else.
proof fn lemma_shutdown_writes(closed: &DiskStore, content: Seq<u8>)
    requires
        closed.wf(),
        mirrors(&closed.disk, content),
    ensures
        ({
            let after = store::after_shutdown(closed, content);
            let format = &closed.disk.format;
            let block = format.spec_geometry().block_bytes as int;
            &&& mirrors(&closed.disk, after)
            &&& after.len() == content.len()
            &&& forall|at: int, len: int|
                #![trigger container::read_at(after, at, len)]
                2 * block <= at && 0 <= len && at + len <= content.len() ==> container::read_at(
                    after,
                    at,
                    len,
                ) == container::read_at(content, at, len)
            &&& container::read_at(after, block, block) == match closed.writer.active_segment {
                Some(s) => bytes::padded(
                    format.tail_content(
                        closed.disk.segment_generations@[s as int],
                        closed.writer.append_offset,
                    ),
                    block,
                ),
                None => bytes::zeros(block),
            }
        }),
{
    let disk = &closed.disk;
    let format = &disk.format;
    let block = format.spec_geometry().block_bytes as int;
    let after = store::after_shutdown(closed, content);
    let data = match closed.writer.active_segment {
        Some(s) => bytes::padded(
            format.tail_content(disk.segment_generations@[s as int], closed.writer.append_offset),
            block,
        ),
        None => bytes::zeros(block),
    };
    format.lemma_layout();
    bytes::lemma_le64();
    assert(data.len() == block);
    assert(after == container::write_at(content, block, data));
    container::lemma_write_outside(content, block, data, 0, 80);
    assert forall|at: int, len: int|
        #![trigger container::read_at(after, at, len)]
        2 * block <= at && 0 <= len && at + len <= content.len() implies container::read_at(
        after,
        at,
        len,
    ) == container::read_at(content, at, len) by {
        container::lemma_write_outside(content, block, data, at, len);
    }
    assert forall|i: int| 0 <= i < format.spec_layout().segment_count implies
        #[trigger] container::read_at(after, format.segment_offset(i), 16) == container::read_at(
        content,
        format.segment_offset(i),
        16,
    ) by {
        format.lemma_segment(i);
    }
    lemma_headers_kept(disk, content, after);
    assert(container::read_at(after, block, block) =~= data);
}

/// Law: a container that was closed by a clean shutdown and is opened again has
/// the same segments and goes on appending at the same position; only the
/// promotion tokens are gone.
pub proof fn law_restart_resumes(
    closed: &DiskStore,
    content: Seq<u8>,
    reopened: &DiskStore,
    last: Option<SequencePoint>,
)
    requires
        closed.wf(),
        mirrors(&closed.disk, content),
        closed.writer.active_segment is Some,
        store::opens(
            &closed.disk.format,
            store::after_shutdown(closed, content),
            true,
            reopened,
            last,
        ),
    ensures
        reopened.disk.format == closed.disk.format,
        reopened.disk.segment_generations@ == closed.disk.segment_generations@,
        reopened.writer == (WriterState {
            active_segment: closed.writer.active_segment,
            append_offset: closed.writer.append_offset,
            next_generation: (closed.disk.segment_generations@[closed.writer.active_segment->0 as int]
                + 1) as u64,
            dirty_bytes: 0,
            promotion_tokens: 0,
        }),
{
    lemma_shutdown_writes(closed, content);
    let s = closed.writer.active_segment->0 as int;
    let generation = closed.disk.segment_generations@[s];
    let marker = bytes::padded(
        closed.disk.format.tail_content(generation, closed.writer.append_offset),
        closed.disk.format.spec_geometry().block_bytes as int,
    );
    closed.writer.law_clean_shutdown_resumes(&closed.disk);
    assert(disk::resumes_at(
        &closed.disk,
        generation,
        closed.disk.format.clean_tail(marker),
        s,
    ));
    assert forall|j: int| #[trigger] disk::resumes_at(
        &reopened.disk,
        generation,
        closed.disk.format.clean_tail(marker),
        j,
    ) implies j == s by {
        assert(disk::resumes_at(
            &closed.disk,
            generation,
            closed.disk.format.clean_tail(marker),
            j,
        ));
    }
    assert(disk::resumes_at(
        &reopened.disk,
        generation,
        closed.disk.format.clean_tail(marker),
        s,
    ));
}

/// Law: a container that was closed by a clean shutdown and is opened again
/// finds for every path what it found before.
pub proof fn law_restart_keeps_records(
    closed: &DiskStore,
    content: Seq<u8>,
    reopened: &DiskStore,
    last: Option<SequencePoint>,
    path: Seq<u8>,
    slot: Slot,
)
    requires
        closed.wf(),
        mirrors(&closed.disk, content),
        store::opens(
            &closed.disk.format,
            store::after_shutdown(closed, content),
            true,
            reopened,
            last,
        ),
    ensures
        store::finds(&reopened.disk, store::after_shutdown(closed, content), path, slot)
            == store::finds(&closed.disk, content, path, slot),
        store::finds(&closed.disk, content, path, slot) ==> store::behind(
            store::after_shutdown(closed, content),
            slot,
        ) == store::behind(content, slot),
{
    lemma_shutdown_writes(closed, content);
    let disk = &closed.disk;
    let format = &disk.format;
    let after = store::after_shutdown(closed, content);
    let fingerprint = format.fingerprint(path);
    format.lemma_layout();
    container::lemma_bucket_start(format, fingerprint);
    assert forall|other: Slot| #[trigger] reopened.disk.live(other) == disk.live(other) by {
        assert forall|s: int| #[trigger] disk.points_into(other, s) == reopened.disk.points_into(
            other,
            s,
        ) by {}
        if disk.live(other) {
            let s = choose|s: int| disk.points_into(other, s);
            assert(reopened.disk.points_into(other, s));
        }
        if reopened.disk.live(other) {
            let s = choose|s: int| reopened.disk.points_into(other, s);
            assert(disk.points_into(other, s));
        }
    }
    assert forall|other: Slot| disk.live(other) implies #[trigger] store::behind(after, other)
        == store::behind(content, other) by {
        let s = choose|s: int| disk.points_into(other, s);
        format.lemma_segment(s);
    }
    let before_keep = |other: Slot| disk::carries(other, fingerprint) && disk.live(other);
    let after_keep = |other: Slot| disk::carries(other, fingerprint) && reopened.disk.live(other);
    assert(before_keep =~= after_keep);
    assert(store::slots_of(&reopened.disk, after, path) == store::slots_of(disk, content, path));
    assert forall|other: Slot| #[trigger] store::intact(&reopened.disk, after, path, other)
        == store::intact(disk, content, path, other) by {
        if disk.live(other) {
            assert(store::behind(after, other) == store::behind(content, other));
        }
    }
}

/// The latest point of some slots is no earlier than that of a live one.
proof fn lemma_latest_point(disk: &Disk, slots: Seq<Slot>, k: int)
    requires
        0 <= k < slots.len(),
        disk.live(slots[k]),
    ensures
        disk::latest_point(disk, slots) matches Some(point) && point >= slots[k].current_after@,
    decreases slots.len(),
{
    if k < slots.len() - 1 {
        assert(slots.drop_last()[k] == slots[k]);
        lemma_latest_point(disk, slots.drop_last(), k);
    }
}

/// The slots of an index bucket.
pub open spec fn index_slots(disk: &Disk, content: Seq<u8>, bucket: int) -> Seq<Slot> {
    let block = disk.format.spec_geometry().block_bytes as int;
    disk::bucket_slots(
        container::read_at(
            content,
            disk.format.spec_layout().metadata_bytes + bucket * block,
            block,
        ),
    )
}

/// The latest point of the index is no earlier than that of a live slot.
proof fn lemma_index_point(disk: &Disk, content: Seq<u8>, buckets: int, bucket: int, k: int)
    requires
        0 <= bucket < buckets,
        0 <= k < index_slots(disk, content, bucket).len(),
        disk.live(index_slots(disk, content, bucket)[k]),
    ensures
        store::index_point(disk, content, buckets) matches Some(point) && point >= index_slots(
            disk,
            content,
            bucket,
        )[k].current_after@,
    decreases buckets,
{
    if bucket == buckets - 1 {
        lemma_latest_point(disk, index_slots(disk, content, bucket), k);
    } else {
        lemma_index_point(disk, content, buckets - 1, bucket, k);
    }
}

/// Law: the point that an opened container reports is no earlier than that of
/// any record that a lookup could still find in it.
pub proof fn law_recovered_point_is_the_latest(
    format: &CacheFormat,
    content: Seq<u8>,
    opened: &DiskStore,
    last: Option<SequencePoint>,
    bucket: int,
    k: int,
)
    requires
        store::opens(format, content, true, opened, last),
        0 <= bucket < format.buckets(),
        0 <= k < index_slots(&opened.disk, content, bucket).len(),
        opened.disk.live(index_slots(&opened.disk, content, bucket)[k]),
    ensures
        last matches Some(point) && point@ >= index_slots(
            &opened.disk,
            content,
            bucket,
        )[k].current_after@,
{
    lemma_index_point(&opened.disk, content, format.buckets(), bucket, k);
}

} // verus!
