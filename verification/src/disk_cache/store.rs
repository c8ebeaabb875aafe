//! The persistent cache's container on its medium: opening, lookup, publication,
//! invalidation, promotion and shutdown.

use vstd::multiset::Multiset;
use vstd::prelude::*;
use vstd::string::*;

use super::container;
use super::disk::{self, Disk, RecordVerdict, WriterState};
use super::media::{CacheFile, MediaError};
use crate::bytes;
use crate::disk_cache::format::{CacheFormat, FormatError, Record, Slot, SLOT_BYTES};
use crate::timeline::SequencePoint;

verus! {

/// Why an operation on the container failed.
#[derive(Clone, Copy, Debug, PartialEq, Eq, Structural)]
pub enum StoreError {
    /// The medium failed.
    Media(MediaError),
    /// The container, or what was to be written, is unusable.
    Format(FormatError),
}

/// The container's state: its index and ring, and where records go next.
pub struct DiskStore {
    /// The format and the generations of the segments.
    pub disk: Disk,
    /// The append position.
    pub writer: WriterState,
}

impl DiskStore {
    /// The append position is valid, and the container's parts fit in memory.
    pub open spec fn wf(&self) -> bool {
        self.writer.wf(&self.disk) && self.disk.format.fits_memory()
    }

    /// The file has the container's size.
    pub open spec fn fits<F: CacheFile>(&self, file: &F) -> bool {
        file.content().len() == self.disk.format.spec_layout().capacity
    }
}

/// The bytes that a slot points at.
pub open spec fn behind(content: Seq<u8>, slot: Slot) -> Seq<u8> {
    container::read_at(content, slot.record_offset as int, slot.record_bytes as int)
}

/// The bytes that a slot points at are an intact record of a path.
pub open spec fn intact(disk: &Disk, content: Seq<u8>, path: Seq<u8>, slot: Slot) -> bool {
    &&& disk.live(slot)
    &&& disk.format.record_intact(path, behind(content, slot))
    &&& bytes::le64_value(behind(content, slot).subrange(8, 16)) == slot.current_after@
}

/// The slots that may hold a record of a path.
pub open spec fn slots_of(disk: &Disk, content: Seq<u8>, path: Seq<u8>) -> Seq<Slot> {
    let fingerprint = disk.format.fingerprint(path);
    disk::candidates(
        disk,
        container::bucket_of(&disk.format, content, fingerprint),
        fingerprint,
    )
}

/// A slot is one of the path's whose record is intact, and no newer one is.
pub open spec fn finds(disk: &Disk, content: Seq<u8>, path: Seq<u8>, slot: Slot) -> bool {
    &&& slots_of(disk, content, path).contains(slot)
    &&& intact(disk, content, path, slot)
    &&& forall|other: Slot| #[trigger]
        slots_of(disk, content, path).contains(other) && other.generation > slot.generation
            ==> !intact(disk, content, path, other)
}

/// A slot is among others, and none of them is newer.
pub open spec fn newest(slots: Seq<Slot>, slot: Slot) -> bool {
    &&& slots.contains(slot)
    &&& forall|other: Slot| #[trigger] slots.contains(other) ==> other.generation <= slot.generation
}

/// A slot is a newest one of the path, and its record is intact.
pub open spec fn current(disk: &Disk, content: Seq<u8>, path: Seq<u8>, slot: Slot) -> bool {
    newest(slots_of(disk, content, path), slot) && intact(disk, content, path, slot)
}

/// A newest slot of the path has a record that is not intact.
pub open spec fn damaged_newest(disk: &Disk, content: Seq<u8>, path: Seq<u8>) -> bool {
    exists|slot: Slot| #[trigger]
        newest(slots_of(disk, content, path), slot) && !intact(disk, content, path, slot)
}

/// The number of slots that are newer than a generation.
pub open spec fn newer(slots: Seq<Slot>, generation: u64) -> nat {
    slots.to_multiset().filter(|slot: Slot| slot.generation > generation).len()
}

/// The number of a path's slots that are not older than a generation and whose
/// record is not intact.
pub open spec fn broken_from(
    disk: &Disk,
    content: Seq<u8>,
    path: Seq<u8>,
    generation: u64,
) -> nat {
    slots_of(disk, content, path).to_multiset().filter(
        |slot: Slot| slot.generation >= generation && !intact(disk, content, path, slot),
    ).len()
}

/// On the way to the record that is found, `damaged` slots were passed over:
/// those that are newer, all of them damaged, and maybe damaged ones of the same
/// generation.
pub open spec fn passes_over(disk: &Disk, content: Seq<u8>, path: Seq<u8>, damaged: nat) -> bool {
    exists|slot: Slot| #[trigger]
        finds(disk, content, path, slot) && newer(
            slots_of(disk, content, path),
            slot.generation,
        ) <= damaged <= broken_from(disk, content, path, slot.generation)
}

/// A record has the size that its slot says, and a segment can hold it.
pub open spec fn sized(disk: &Disk, record: &Record, slot: Slot) -> bool {
    &&& disk.format.record_size(record.revision@.len() as int, record.body@.len() as int) == Some(
        slot.record_bytes as int,
    )
    &&& slot.record_bytes <= disk.format.spec_geometry().segment_bytes
        - disk.format.spec_geometry().block_bytes
}

/// A live slot points into the container.
proof fn lemma_live_slot(disk: &Disk, slot: Slot)
    requires
        disk.wf(),
        disk.live(slot),
    ensures
        slot.record_offset + slot.record_bytes <= disk.format.spec_layout().capacity,
        slot.record_bytes <= disk.format.spec_geometry().segment_bytes
            - disk.format.spec_geometry().block_bytes,
{
    disk.format.lemma_layout();
    let s = choose|s: int| disk.points_into(slot, s);
    disk.format.lemma_segment(s);
}

impl DiskStore {
    /// Reads the index bucket of a fingerprint.
    fn read_bucket<F: CacheFile>(&self, file: &mut F, fingerprint: u64) -> (r: Result<
        Vec<u8>,
        MediaError,
    >)
        requires
            self.wf(),
        ensures
            final(file).content() == old(file).content(),
            r matches Ok(bucket) ==> {
                &&& bucket@ == container::bucket_of(
                    &self.disk.format,
                    old(file).content(),
                    fingerprint,
                )
                &&& bucket@.len() == self.disk.format.spec_geometry().block_bytes
            },
            old(file).works() && self.fits(old(file)) ==> r is Ok && final(file).works(),
    {
        proof {
            self.disk.format.lemma_layout();
            container::lemma_bucket_start(&self.disk.format, fingerprint);
        }
        let offset: u64 = container::bucket_offset(&self.disk.format, fingerprint);
        file.read_exact_at(offset, self.disk.format.block_bytes() as usize)
    }

    /// Reads and judges the record behind a live slot.
    pub fn read_record<F: CacheFile>(&self, file: &mut F, path: &str, slot: Slot) -> (r: Result<
        RecordVerdict,
        MediaError,
    >)
        requires
            self.wf(),
        ensures
            final(file).content() == old(file).content(),
            r matches Ok(verdict) ==> {
                let raw = behind(old(file).content(), slot);
                &&& verdict is Stale <==> !self.disk.live(slot)
                &&& verdict is Found <==> intact(
                    &self.disk,
                    old(file).content(),
                    path.spec_bytes(),
                    slot,
                )
                &&& verdict matches RecordVerdict::Found(record) ==> {
                    &&& record.revision@ == CacheFormat::stored_revision(raw)
                    &&& record.body@ == CacheFormat::stored_body(raw)
                    &&& record.current_after == slot.current_after
                    &&& sized(&self.disk, &record, slot)
                }
            },
            old(file).works() && self.fits(old(file)) ==> r is Ok && final(file).works(),
    {
        if self.disk.slot_range(slot).is_none() {
            return Ok(RecordVerdict::Stale);
        }
        proof {
            lemma_live_slot(&self.disk, slot);
        }
        match file.read_exact_at(slot.record_offset, slot.record_bytes as usize) {
            Err(error) => Err(error),
            Ok(raw) => {
                proof {
                    self.disk.format.lemma_layout();
                    self.disk.format.lemma_record_size(
                        CacheFormat::stored_revision_len(raw@),
                        CacheFormat::stored_body_len(raw@),
                    );
                }
                Ok(self.disk.judge_record(path, slot, raw.as_slice()))
            },
        }
    }

    /// Looks a path up: the newest intact record is returned, with the number of
    /// damaged ones that were passed over.
    pub fn lookup<F: CacheFile>(&self, file: &mut F, path: &str) -> (r: Result<
        (Option<Record>, usize),
        MediaError,
    >)
        requires
            self.wf(),
        ensures
            final(file).content() == old(file).content(),
            r matches Ok((found, damaged)) ==> {
                let content = old(file).content();
                let slots = slots_of(&self.disk, content, path.spec_bytes());
                match found {
                    Some(record) => {
                        &&& damaged < slots.len()
                        &&& exists|slot: Slot| #[trigger]
                            finds(&self.disk, content, path.spec_bytes(), slot)
                                && record.revision@ == CacheFormat::stored_revision(
                                behind(content, slot),
                            ) && record.body@ == CacheFormat::stored_body(behind(content, slot))
                                && record.current_after == slot.current_after
                        &&& passes_over(&self.disk, content, path.spec_bytes(), damaged as nat)
                    },
                    None => {
                        &&& damaged == slots.len()
                        &&& forall|slot: Slot| #[trigger]
                            slots.contains(slot) ==> !intact(
                                &self.disk,
                                content,
                                path.spec_bytes(),
                                slot,
                            )
                    },
                }
            },
            old(file).works() && self.fits(old(file)) ==> r is Ok && final(file).works(),
    {
        let ghost content = file.content();
        let fingerprint: u64 = self.disk.format.path_fingerprint(path);
        let bucket = match self.read_bucket(file, fingerprint) {
            Err(error) => return Err(error),
            Ok(bucket) => bucket,
        };
        let slots = self.disk.matching_slots(bucket.as_slice(), fingerprint);
        let ghost wanted = slots_of(&self.disk, content, path.spec_bytes());
        proof {
            lemma_same_members(slots@, wanted);
        }
        let mut i: usize = 0;
        while i < slots.len()
            invariant
                self.wf(),
                i <= slots@.len(),
                file.content() == content,
                content == old(file).content(),
                wanted == slots_of(&self.disk, content, path.spec_bytes()),
                slots@.len() == wanted.len(),
                slots@.to_multiset() == wanted.to_multiset(),
                forall|slot: Slot| #[trigger] wanted.contains(slot) <==> slots@.contains(slot),
                disk::newest_first(slots@),
                forall|k: int|
                    0 <= k < i ==> !intact(
                        &self.disk,
                        content,
                        path.spec_bytes(),
                        #[trigger] slots@[k],
                    ),
                old(file).works() && self.fits(old(file)) ==> file.works() && self.fits(file),
            decreases slots@.len() - i,
        {
            let slot = slots[i];
            match self.read_record(file, path, slot) {
                Err(error) => return Err(error),
                Ok(RecordVerdict::Found(record)) => {
                    proof {
                        assert(slots@.contains(slots@[i as int]));
                        assert forall|other: Slot| #[trigger]
                            wanted.contains(other) && other.generation
                                > slot.generation implies !intact(
                            &self.disk,
                            content,
                            path.spec_bytes(),
                            other,
                        ) by {
                            let k = slots@.index_of(other);
                            assert(slots@[k] == other);
                            if k >= i {
                                assert(slots@[i as int].generation >= slots@[k].generation);
                            }
                        }
                        assert(finds(&self.disk, content, path.spec_bytes(), slot));
                        lemma_passes_over(&self.disk, content, path.spec_bytes(), slots@, i as int);
                    }
                    return Ok((Some(record), i));
                },
                Ok(_) => {},
            }
            i = i + 1;
        }
        proof {
            assert forall|slot: Slot| #[trigger] wanted.contains(slot) implies !intact(
                &self.disk,
                content,
                path.spec_bytes(),
                slot,
            ) by {
                let k = slots@.index_of(slot);
                assert(slots@[k] == slot);
            }
        }
        Ok((None, i))
    }

    /// Returns the newest slot of a path. That its record is damaged is an error,
    /// whatever older slots the path has.
    pub fn current_slot<F: CacheFile>(&self, file: &mut F, path: &str) -> (r: Result<
        Option<Slot>,
        StoreError,
    >)
        requires
            self.wf(),
        ensures
            final(file).content() == old(file).content(),
            match r {
                Ok(Some(slot)) => current(
                    &self.disk,
                    old(file).content(),
                    path.spec_bytes(),
                    slot,
                ),
                Ok(None) => slots_of(&self.disk, old(file).content(), path.spec_bytes()).len()
                    == 0,
                Err(StoreError::Format(error)) => error == FormatError::InvalidRecord
                    && damaged_newest(&self.disk, old(file).content(), path.spec_bytes()),
                Err(StoreError::Media(_)) => true,
            },
            old(file).works() && self.fits(old(file)) ==> !(r matches Err(StoreError::Media(_)))
                && final(file).works(),
    {
        let ghost content = file.content();
        let fingerprint: u64 = self.disk.format.path_fingerprint(path);
        let bucket = match self.read_bucket(file, fingerprint) {
            Err(error) => return Err(StoreError::Media(error)),
            Ok(bucket) => bucket,
        };
        let slots = self.disk.matching_slots(bucket.as_slice(), fingerprint);
        let ghost wanted = slots_of(&self.disk, content, path.spec_bytes());
        proof {
            lemma_same_members(slots@, wanted);
        }
        if slots.len() == 0 {
            return Ok(None);
        }
        let slot = slots[0];
        proof {
            assert(slots@.contains(slots@[0]));
            assert forall|other: Slot| #[trigger] wanted.contains(other) implies other.generation
                <= slot.generation by {
                let k = slots@.index_of(other);
                assert(slots@[k] == other);
                assert(slots@[0].generation >= slots@[k].generation);
            }
            assert(newest(wanted, slot));
        }
        match self.read_record(file, path, slot) {
            Err(error) => Err(StoreError::Media(error)),
            Ok(RecordVerdict::Found(_)) => Ok(Some(slot)),
            Ok(_) => Err(StoreError::Format(FormatError::InvalidRecord)),
        }
    }
}

/// Sequences of the same slots have the same length and the same members.
proof fn lemma_same_members(a: Seq<Slot>, b: Seq<Slot>)
    requires
        a.to_multiset() == b.to_multiset(),
    ensures
        a.len() == b.len(),
        forall|slot: Slot| #[trigger] b.contains(slot) <==> a.contains(slot),
{
    a.to_multiset_ensures();
    b.to_multiset_ensures();
    assert forall|slot: Slot| #[trigger] b.contains(slot) <==> a.contains(slot) by {
        assert(b.contains(slot) <==> b.to_multiset().count(slot) > 0);
        assert(a.contains(slot) <==> a.to_multiset().count(slot) > 0);
    }
}

/// A multiset has no more members than one that it is part of.
proof fn lemma_part(a: Multiset<Slot>, b: Multiset<Slot>)
    requires
        a.subset_of(b),
    ensures
        a.len() <= b.len(),
{
    vstd::multiset::axiom_len_sub(b, a);
}

/// The slots before the one that is found are the ones passed over.
proof fn lemma_passes_over(disk: &Disk, content: Seq<u8>, path: Seq<u8>, slots: Seq<Slot>, i: int)
    requires
        0 <= i < slots.len(),
        slots.to_multiset() == slots_of(disk, content, path).to_multiset(),
        disk::newest_first(slots),
        finds(disk, content, path, slots[i]),
        forall|k: int| 0 <= k < i ==> !intact(disk, content, path, #[trigger] slots[k]),
    ensures
        passes_over(disk, content, path, i as nat),
{
    let g = slots[i].generation;
    let all = slots.to_multiset();
    let head = slots.take(i);
    let tail = slots.skip(i);
    let later = all.filter(|slot: Slot| slot.generation > g);
    let broken = all.filter(
        |slot: Slot| slot.generation >= g && !intact(disk, content, path, slot),
    );
    assert(slots =~= head + tail);
    vstd::seq_lib::lemma_multiset_commutative(head, tail);
    head.to_multiset_ensures();
    tail.to_multiset_ensures();
    assert forall|v: Slot| later.count(v) <= head.to_multiset().count(v) by {
        if v.generation > g && tail.to_multiset().count(v) > 0 {
            assert(tail.contains(v));
            let k = tail.index_of(v);
            assert(slots[i + k] == v);
            assert(slots[i].generation >= slots[i + k].generation);
        }
    }
    assert forall|v: Slot| head.to_multiset().count(v) <= broken.count(v) by {
        if head.to_multiset().count(v) > 0 {
            assert(head.contains(v));
            let k = head.index_of(v);
            assert(slots[k] == v);
            assert(slots[k].generation >= slots[i].generation);
        }
    }
    lemma_part(later, head.to_multiset());
    lemma_part(head.to_multiset(), broken);
}

/// The container after a slot was published: the slots of the same fingerprint
/// were zeroed, `cleared` in number, and the slot was written over an empty, a
/// stale or the oldest one of its bucket.
pub open spec fn publishes(
    disk: &Disk,
    before: Seq<u8>,
    after: Seq<u8>,
    slot: Slot,
    cleared: nat,
) -> bool {
    exists|zeroed: Seq<usize>, index: int|
        {
            let slots = disk::bucket_slots(
                container::bucket_of(&disk.format, before, slot.fingerprint),
            );
            &&& zeroed.len() == cleared
            &&& disk::carriers(slots, slot.fingerprint, zeroed)
            &&& disk::is_target(disk, slots, slot.fingerprint, index)
            &&& after == #[trigger] container::content_after_publish(
                &disk.format,
                before,
                slot,
                zeroed,
                index,
            )
        }
}

/// The container after the slots of a fingerprint were zeroed, `cleared` in
/// number.
pub open spec fn clears(
    disk: &Disk,
    before: Seq<u8>,
    after: Seq<u8>,
    fingerprint: u64,
    cleared: nat,
) -> bool {
    exists|zeroed: Seq<usize>|
        {
            &&& zeroed.len() == cleared
            &&& disk::carriers(
                disk::bucket_slots(container::bucket_of(&disk.format, before, fingerprint)),
                fingerprint,
                zeroed,
            )
            &&& after == #[trigger] container::content_after_invalidate(
                &disk.format,
                before,
                fingerprint,
                zeroed,
            )
        }
}

/// The writer with some slots charged to the unsynchronized bytes.
pub open spec fn charged(writer: WriterState, slots: nat) -> WriterState {
    WriterState {
        dirty_bytes: disk::saturated(writer.dirty_bytes + slots * SLOT_BYTES) as u64,
        ..writer
    }
}

impl DiskStore {
    /// Zeroes slots of a bucket one after the other.
    fn zero_slots<F: CacheFile>(&mut self, file: &mut F, fingerprint: u64, zeroed: &Vec<usize>)
        -> (r: Result<(), MediaError>)
        requires
            old(self).wf(),
            forall|k: int|
                0 <= k < zeroed@.len() ==> (#[trigger] zeroed@[k])
                    < old(self).disk.format.spec_geometry().block_bytes as int / 40,
        ensures
            final(self).wf(),
            final(self).disk == old(self).disk,
            exists|n: nat|
                n <= zeroed@.len() && final(self).writer == #[trigger] charged(
                    old(self).writer,
                    n,
                ),
            r is Ok ==> {
                &&& final(self).writer == charged(old(self).writer, zeroed@.len())
                &&& final(file).content() == container::zero_slots(
                    old(file).content(),
                    container::bucket_start(&old(self).disk.format, fingerprint),
                    zeroed@,
                )
                &&& final(file).content().len() == old(file).content().len()
            },
            old(file).works() && old(self).fits(old(file)) ==> r is Ok && final(file).works(),
    {
        let ghost before = *self;
        let ghost content = file.content();
        let ghost start = container::bucket_start(&self.disk.format, fingerprint);
        let mut zero: Vec<u8> = Vec::new();
        bytes::pad(&mut zero, 40);
        let mut i: usize = 0;
        proof {
            assert(zero@ =~= bytes::zeros(40));
            assert(zeroed@.take(0) =~= Seq::<usize>::empty());
            assert(charged(before.writer, 0) == before.writer);
        }
        while i < zeroed.len()
            invariant
                i <= zeroed@.len(),
                self.wf(),
                before == *old(self),
                content == old(file).content(),
                self.disk == before.disk,
                self.writer == charged(before.writer, i as nat),
                start == container::bucket_start(&self.disk.format, fingerprint),
                zero@ == bytes::zeros(40),
                forall|k: int|
                    0 <= k < zeroed@.len() ==> (#[trigger] zeroed@[k])
                        < self.disk.format.spec_geometry().block_bytes as int / 40,
                file.content() == container::zero_slots(content, start, zeroed@.take(i as int)),
                file.content().len() == content.len(),
                old(file).works() && before.fits(old(file)) ==> file.works() && self.fits(file),
            decreases zeroed@.len() - i,
        {
            let offset: u64 = container::slot_offset(&self.disk.format, fingerprint, zeroed[i]);
            proof {
                self.disk.format.lemma_layout();
            }
            let ghost held = file.content();
            match file.write_all_at(zero.as_slice(), offset) {
                Err(error) => return Err(error),
                Ok(()) => {},
            }
            self.writer.slot_cleared();
            proof {
                assert(zeroed@.take(i + 1).drop_last() =~= zeroed@.take(i as int));
                assert(zeroed@.take(i + 1).last() == zeroed@[i as int]);
                assert(file.content().len() == held.len());
            }
            i = i + 1;
        }
        proof {
            assert(zeroed@.take(i as int) =~= zeroed@);
        }
        Ok(())
    }

    /// Publishes a slot in the bucket of its fingerprint.
    pub fn publish<F: CacheFile>(&mut self, file: &mut F, slot: Slot) -> (r: Result<
        (),
        MediaError,
    >)
        requires
            old(self).wf(),
        ensures
            final(self).wf(),
            final(self).disk == old(self).disk,
            exists|n: nat| final(self).writer == #[trigger] charged(old(self).writer, n),
            r is Ok ==> exists|n: nat|
                final(self).writer == #[trigger] charged(old(self).writer, n) && publishes(
                    &old(self).disk,
                    old(file).content(),
                    final(file).content(),
                    slot,
                    n,
                ),
            r is Ok ==> final(file).content().len() == old(file).content().len(),
            old(file).works() && old(self).fits(old(file)) ==> r is Ok && final(file).works(),
    {
        let ghost before = *self;
        let ghost content = file.content();
        proof {
            self.disk.format.lemma_layout();
            assert(charged(before.writer, 0) == before.writer);
        }
        let bucket = match self.read_bucket(file, slot.fingerprint) {
            Err(error) => return Err(error),
            Ok(bucket) => bucket,
        };
        proof {
            container::lemma_bucket_start(&self.disk.format, slot.fingerprint);
        }
        let plan = self.disk.plan_publish(bucket.as_slice(), slot);
        proof {
            let slots = disk::bucket_slots(bucket@);
            assert forall|k: int| 0 <= k < plan.cleared@.len() implies (#[trigger] plan.cleared@[k])
                < self.disk.format.spec_geometry().block_bytes as int / 40 by {
                assert(plan.cleared@[k] < slots.len());
            }
        }
        match self.zero_slots(file, slot.fingerprint, &plan.cleared) {
            Err(error) => return Err(error),
            Ok(()) => {},
        }
        let raw = self.disk.format.encode_slot(slot);
        let offset: u64 = container::slot_offset(
            &self.disk.format,
            slot.fingerprint,
            plan.index,
        );
        match file.write_all_at(raw.as_slice(), offset) {
            Err(error) => return Err(error),
            Ok(()) => {},
        }
        proof {
            assert(file.content() == container::content_after_publish(
                &self.disk.format,
                content,
                slot,
                plan.cleared@,
                plan.index as int,
            ));
            assert(publishes(
                &before.disk,
                content,
                file.content(),
                slot,
                plan.cleared@.len(),
            ));
        }
        Ok(())
    }

    /// Zeroes the slots of a path.
    pub fn invalidate<F: CacheFile>(&mut self, file: &mut F, path: &str) -> (r: Result<
        (),
        MediaError,
    >)
        requires
            old(self).wf(),
        ensures
            final(self).wf(),
            final(self).disk == old(self).disk,
            exists|n: nat| final(self).writer == #[trigger] charged(old(self).writer, n),
            r is Ok ==> exists|n: nat|
                final(self).writer == #[trigger] charged(old(self).writer, n) && clears(
                    &old(self).disk,
                    old(file).content(),
                    final(file).content(),
                    old(self).disk.format.fingerprint(path.spec_bytes()),
                    n,
                ),
            old(file).works() && old(self).fits(old(file)) ==> r is Ok && final(file).works(),
    {
        let ghost before = *self;
        let ghost content = file.content();
        proof {
            self.disk.format.lemma_layout();
            assert(charged(before.writer, 0) == before.writer);
        }
        let fingerprint: u64 = self.disk.format.path_fingerprint(path);
        let bucket = match self.read_bucket(file, fingerprint) {
            Err(error) => return Err(error),
            Ok(bucket) => bucket,
        };
        proof {
            container::lemma_bucket_start(&self.disk.format, fingerprint);
        }
        let zeroed = disk::slots_to_clear(&self.disk.format, bucket.as_slice(), fingerprint);
        proof {
            let slots = disk::bucket_slots(bucket@);
            assert forall|k: int| 0 <= k < zeroed@.len() implies (#[trigger] zeroed@[k])
                < self.disk.format.spec_geometry().block_bytes as int / 40 by {
                assert(zeroed@[k] < slots.len());
            }
        }
        match self.zero_slots(file, fingerprint, &zeroed) {
            Err(error) => return Err(error),
            Ok(()) => {},
        }
        proof {
            assert(file.content() == container::content_after_invalidate(
                &self.disk.format,
                content,
                fingerprint,
                zeroed@,
            ));
            assert(clears(&before.disk, content, file.content(), fingerprint, zeroed@.len()));
        }
        Ok(())
    }
}

/// A segment was started: the next one got the next generation, its header was
/// written, and records go behind that.
pub open spec fn starts_segment(
    before: &DiskStore,
    after: &DiskStore,
    old_content: Seq<u8>,
    new_content: Seq<u8>,
) -> bool {
    &&& after.disk.format == before.disk.format
    &&& after.writer.active_segment matches Some(s)
    &&& disk::is_next_segment(before.disk.segment_generations@, s as int)
    &&& after.disk.segment_generations@ == before.disk.segment_generations@.update(
        s as int,
        before.writer.next_generation,
    )
    &&& after.writer == (WriterState {
        active_segment: Some(s),
        append_offset: (before.disk.format.segment_offset(s as int)
            + before.disk.format.spec_geometry().block_bytes) as u64,
        next_generation: (before.writer.next_generation + 1) as u64,
        dirty_bytes: disk::saturated(
            before.writer.dirty_bytes + before.disk.format.spec_geometry().block_bytes,
        ) as u64,
        promotion_tokens: before.writer.promotion_tokens,
    })
    &&& new_content == container::write_at(
        old_content,
        before.disk.format.segment_offset(s as int),
        bytes::padded(
            CacheFormat::segment_content(before.writer.next_generation),
            before.disk.format.spec_geometry().block_bytes as int,
        ),
    )
}

impl DiskStore {
    /// Starts the next segment. Its generation is taken even when the medium
    /// fails.
    pub fn initialize_segment<F: CacheFile>(&mut self, file: &mut F) -> (r: Result<
        (),
        StoreError,
    >)
        requires
            old(self).wf(),
        ensures
            final(self).wf(),
            final(self).disk.format == old(self).disk.format,
            match r {
                Ok(()) => starts_segment(
                    old(self),
                    final(self),
                    old(file).content(),
                    final(file).content(),
                ),
                Err(StoreError::Format(error)) => {
                    &&& error == FormatError::GenerationExhausted
                    &&& old(self).writer.next_generation == u64::MAX
                    &&& *final(self) == *old(self)
                    &&& *final(file) == *old(file)
                },
                Err(StoreError::Media(_)) => {
                    &&& final(self).disk == old(self).disk
                    &&& final(self).writer == (WriterState {
                        next_generation: (old(self).writer.next_generation + 1) as u64,
                        ..old(self).writer
                    })
                },
            },
            r matches Ok(_) ==> final(file).content().len() == old(file).content().len(),
            old(file).works() && old(self).fits(old(file)) ==> !(r matches Err(
                StoreError::Media(_),
            )) && final(file).works(),
    {
        proof {
            self.disk.format.lemma_layout();
            assert(self.disk.segment_generations@[0] < self.writer.next_generation);
        }
        let start = match self.writer.plan_segment(&self.disk) {
            Err(error) => return Err(StoreError::Format(error)),
            Ok(start) => start,
        };
        proof {
            self.disk.format.lemma_segment(start.segment as int);
            bytes::lemma_le64();
            assert(start.header@.len() == self.disk.format.spec_geometry().block_bytes);
        }
        match file.write_all_at(start.header.as_slice(), start.start) {
            Err(error) => return Err(StoreError::Media(error)),
            Ok(()) => {},
        }
        self.writer.segment_written(&mut self.disk, &start);
        Ok(())
    }
}

/// Room was made for a record: there was some, or a segment was started.
pub open spec fn makes_room(
    before: &DiskStore,
    after: &DiskStore,
    old_content: Seq<u8>,
    new_content: Seq<u8>,
    record_bytes: int,
    started: bool,
) -> bool {
    &&& after.writer.has_room(&after.disk, record_bytes)
    &&& started != before.writer.has_room(&before.disk, record_bytes)
    &&& if started {
        starts_segment(before, after, old_content, new_content)
    } else {
        after == before && new_content == old_content
    }
}

/// A record was appended and published: `room` is the state once there was room
/// for it.
pub open spec fn appends(
    room: &DiskStore,
    after: &DiskStore,
    old_content: Seq<u8>,
    new_content: Seq<u8>,
    path: Seq<u8>,
    revision: Seq<u8>,
    body: Seq<u8>,
    slot: Slot,
    cleared: nat,
) -> bool {
    let format = &room.disk.format;
    &&& room.writer.active_segment matches Some(s)
    &&& format.record_encodable(path, revision, body)
    &&& slot.fingerprint == format.fingerprint(path)
    &&& slot.generation == room.disk.segment_generations@[s as int]
    &&& slot.record_offset == room.writer.append_offset
    &&& format.record_size(revision.len() as int, body.len() as int) == Some(
        slot.record_bytes as int,
    )
    &&& publishes(
        &room.disk,
        container::write_at(
            old_content,
            slot.record_offset as int,
            bytes::padded(
                format.record_content(path, revision, body, slot.current_after@),
                slot.record_bytes as int,
            ),
        ),
        new_content,
        slot,
        cleared,
    )
    &&& after.disk == room.disk
    &&& after.writer == (WriterState {
        append_offset: (room.writer.append_offset + slot.record_bytes) as u64,
        dirty_bytes: disk::saturated(
            charged(room.writer, cleared).dirty_bytes + slot.record_bytes + SLOT_BYTES,
        ) as u64,
        ..room.writer
    })
}

/// Room was made for a record, and then the record was appended and published.
pub open spec fn records(
    before: &DiskStore,
    after: &DiskStore,
    old_content: Seq<u8>,
    new_content: Seq<u8>,
    path: Seq<u8>,
    revision: Seq<u8>,
    body: Seq<u8>,
    slot: Slot,
    started: bool,
) -> bool {
    exists|room: DiskStore, mid: Seq<u8>, cleared: nat|
        {
            &&& room.wf()
            &&& mid.len() == old_content.len()
            &&& makes_room(
                before,
                &room,
                old_content,
                mid,
                slot.record_bytes as int,
                started,
            )
            &&& #[trigger] appends(
                &room,
                after,
                mid,
                new_content,
                path,
                revision,
                body,
                slot,
                cleared,
            )
        }
}

/// A record needs a new segment, and no generation is left for one.
pub open spec fn exhausted(store: &DiskStore, revision: Seq<u8>, body: Seq<u8>) -> bool {
    &&& store.writer.next_generation == u64::MAX
    &&& store.disk.format.record_size(revision.len() as int, body.len() as int) matches Some(size)
        && !store.writer.has_room(&store.disk, size)
}

impl DiskStore {
    /// Makes room for a record of `record_bytes`, which a segment can hold.
    /// Reports whether a segment was started.
    fn ensure_space<F: CacheFile>(&mut self, file: &mut F, record_bytes: u64) -> (r: Result<
        bool,
        StoreError,
    >)
        requires
            old(self).wf(),
            record_bytes <= old(self).disk.format.spec_geometry().segment_bytes - old(
                self,
            ).disk.format.spec_geometry().block_bytes,
        ensures
            final(self).wf(),
            final(self).disk.format == old(self).disk.format,
            match r {
                Ok(started) => makes_room(
                    old(self),
                    final(self),
                    old(file).content(),
                    final(file).content(),
                    record_bytes as int,
                    started,
                ) && final(file).content().len() == old(file).content().len(),
                Err(StoreError::Format(error)) => {
                    &&& error == FormatError::GenerationExhausted
                    &&& old(self).writer.next_generation == u64::MAX
                    &&& !old(self).writer.has_room(&old(self).disk, record_bytes as int)
                    &&& *final(self) == *old(self)
                    &&& final(file).content() == old(file).content()
                },
                Err(StoreError::Media(_)) => true,
            },
            old(file).works() && old(self).fits(old(file)) ==> !(r matches Err(
                StoreError::Media(_),
            )) && final(file).works(),
    {
        if self.writer.space_fits(&self.disk, record_bytes) {
            return Ok(false);
        }
        let ghost before = *self;
        match self.initialize_segment(file) {
            Err(error) => Err(error),
            Ok(()) => {
                proof {
                    let s = self.writer.active_segment->0 as int;
                    self.disk.format.lemma_layout();
                    self.disk.format.lemma_segment(s);
                }
                Ok(true)
            },
        }
    }

    /// Appends a record that a segment can hold, and publishes its slot. Returns
    /// the slot, and whether a segment was started for it.
    pub fn append<F: CacheFile>(
        &mut self,
        file: &mut F,
        path: &str,
        revision: &[u8],
        body: &[u8],
        current_after: SequencePoint,
    ) -> (r: Result<(Slot, bool), StoreError>)
        requires
            old(self).wf(),
            old(self).disk.format.record_size(revision@.len() as int, body@.len() as int) matches
                Some(size) ==> size <= old(self).disk.format.spec_geometry().segment_bytes - old(
                self,
            ).disk.format.spec_geometry().block_bytes,
        ensures
            final(self).wf(),
            final(self).disk.format == old(self).disk.format,
            match r {
                Ok((slot, started)) => {
                    &&& slot.current_after == current_after
                    &&& records(
                        old(self),
                        final(self),
                        old(file).content(),
                        final(file).content(),
                        path.spec_bytes(),
                        revision@,
                        body@,
                        slot,
                        started,
                    )
                },
                Err(StoreError::Format(error)) => {
                    ||| error == FormatError::InvalidRecord
                        && !old(self).disk.format.record_encodable(
                        path.spec_bytes(),
                        revision@,
                        body@,
                    )
                    ||| error == FormatError::GenerationExhausted && exhausted(
                        old(self),
                        revision@,
                        body@,
                    ) && *final(self) == *old(self) && final(file).content() == old(file).content()
                },
                Err(StoreError::Media(_)) => true,
            },
            r is Ok ==> final(file).content().len() == old(file).content().len(),
            old(file).works() && old(self).fits(old(file)) ==> !(r matches Err(
                StoreError::Media(_),
            )) && final(file).works(),
    {
        proof {
            self.disk.format.lemma_layout();
        }
        let ghost format = self.disk.format;
        let record_bytes: u64 = match self.disk.format.record_bytes(revision.len(), body.len()) {
            Some(record_bytes) => record_bytes,
            None => return Err(StoreError::Format(FormatError::InvalidRecord)),
        };
        let started = match self.ensure_space(file, record_bytes) {
            Err(error) => return Err(error),
            Ok(started) => started,
        };
        let ghost room = *self;
        let ghost mid = file.content();
        let plan = match self.writer.plan_append(&self.disk, path, revision, body, current_after) {
            Err(error) => return Err(StoreError::Format(error)),
            Ok(plan) => plan,
        };
        proof {
            let s = self.writer.active_segment->0 as int;
            format.lemma_segment(s);
            format.lemma_record_size(revision@.len() as int, body@.len() as int);
            bytes::lemma_le64();
            bytes::lemma_le32();
            assert(plan.record@.len() == plan.slot.record_bytes);
        }
        match file.write_all_at(plan.record.as_slice(), plan.slot.record_offset) {
            Err(error) => return Err(StoreError::Media(error)),
            Ok(()) => {},
        }
        let ghost written = file.content();
        match self.publish(file, plan.slot) {
            Err(error) => return Err(StoreError::Media(error)),
            Ok(()) => {},
        }
        let ghost n = choose|n: nat|
            self.writer == #[trigger] charged(room.writer, n) && publishes(
                &room.disk,
                written,
                file.content(),
                plan.slot,
                n,
            );
        self.writer.appended(&self.disk, &plan.slot);
        proof {
            assert(room.wf());
            assert(makes_room(
                old(self),
                &room,
                old(file).content(),
                mid,
                plan.slot.record_bytes as int,
                started,
            ));
            assert(appends(
                &room,
                self,
                mid,
                file.content(),
                path.spec_bytes(),
                revision@,
                body@,
                plan.slot,
                n,
            ));
            assert(records(
                old(self),
                self,
                old(file).content(),
                file.content(),
                path.spec_bytes(),
                revision@,
                body@,
                plan.slot,
                started,
            ));
        }
        Ok((plan.slot, started))
    }
}

/// Law: once a record was appended and published, a lookup of its path has its
/// slot as the only one to try, and finds the revision, the body and the point
/// that were written.
pub proof fn law_recorded_is_looked_up(
    before: &DiskStore,
    after: &DiskStore,
    old_content: Seq<u8>,
    new_content: Seq<u8>,
    path: Seq<u8>,
    revision: Seq<u8>,
    body: Seq<u8>,
    slot: Slot,
    started: bool,
)
    requires
        records(
            before,
            after,
            old_content,
            new_content,
            path,
            revision,
            body,
            slot,
            started,
        ),
        old_content.len() == before.disk.format.spec_layout().capacity,
        slot.current_after@ != 0,
    ensures
        slots_of(&after.disk, new_content, path) == seq![slot],
        finds(&after.disk, new_content, path, slot),
        forall|other: Slot| #[trigger] finds(&after.disk, new_content, path, other) ==> other
            == slot,
        CacheFormat::stored_revision(behind(new_content, slot)) == revision,
        CacheFormat::stored_body(behind(new_content, slot)) == body,
{
    let (room, mid, cleared) = choose|room: DiskStore, mid: Seq<u8>, cleared: nat|
        {
            &&& room.wf()
            &&& mid.len() == old_content.len()
            &&& makes_room(
                before,
                &room,
                old_content,
                mid,
                slot.record_bytes as int,
                started,
            )
            &&& #[trigger] appends(
                &room,
                after,
                mid,
                new_content,
                path,
                revision,
                body,
                slot,
                cleared,
            )
        };
    let written = container::write_at(
        mid,
        slot.record_offset as int,
        bytes::padded(
            room.disk.format.record_content(path, revision, body, slot.current_after@),
            slot.record_bytes as int,
        ),
    );
    let slots = disk::bucket_slots(
        container::bucket_of(&room.disk.format, written, slot.fingerprint),
    );
    let (zeroed, index) = choose|zeroed: Seq<usize>, index: int|
        {
            &&& zeroed.len() == cleared
            &&& disk::carriers(slots, slot.fingerprint, zeroed)
            &&& disk::is_target(&room.disk, slots, slot.fingerprint, index)
            &&& new_content == #[trigger] container::content_after_publish(
                &room.disk.format,
                written,
                slot,
                zeroed,
                index,
            )
        };
    container::law_published_record_is_found(
        &room.disk,
        &room.writer,
        mid,
        path,
        revision,
        body,
        slot,
        zeroed,
        index,
    );
    let found = slots_of(&after.disk, new_content, path);
    assert(found == seq![slot]);
    assert(found[0] == slot);
    assert(found.contains(slot));
    assert forall|other: Slot| #[trigger] found.contains(other) implies other == slot by {
        let k = found.index_of(other);
        assert(found[k] == other);
    }
    assert(room.disk.points_into(slot, room.writer.active_segment->0 as int)) by {
        room.disk.format.lemma_layout();
        room.disk.format.lemma_segment(room.writer.active_segment->0 as int);
        room.disk.format.lemma_record_size(revision.len() as int, body.len() as int);
    }
}

/// Law: once the slots of a path were zeroed, a lookup of the path has none to
/// try.
pub proof fn law_cleared_is_not_looked_up(
    disk: &Disk,
    old_content: Seq<u8>,
    new_content: Seq<u8>,
    path: Seq<u8>,
    cleared: nat,
)
    requires
        disk.wf(),
        old_content.len() == disk.format.spec_layout().capacity,
        clears(disk, old_content, new_content, disk.format.fingerprint(path), cleared),
    ensures
        slots_of(disk, new_content, path) == Seq::<Slot>::empty(),
        forall|slot: Slot| !#[trigger] finds(disk, new_content, path, slot),
{
    let fingerprint = disk.format.fingerprint(path);
    let zeroed = choose|zeroed: Seq<usize>|
        {
            &&& zeroed.len() == cleared
            &&& disk::carriers(
                disk::bucket_slots(container::bucket_of(&disk.format, old_content, fingerprint)),
                fingerprint,
                zeroed,
            )
            &&& new_content == #[trigger] container::content_after_invalidate(
                &disk.format,
                old_content,
                fingerprint,
                zeroed,
            )
        };
    container::law_invalidated_path_is_not_found(disk, old_content, fingerprint, zeroed);
}

/// The file after a clean shutdown of a container.
pub open spec fn after_shutdown(closed: &DiskStore, content: Seq<u8>) -> Seq<u8> {
    let format = &closed.disk.format;
    let block = format.spec_geometry().block_bytes as int;
    container::write_at(
        content,
        block,
        match closed.writer.active_segment {
            Some(s) => bytes::padded(
                format.tail_content(
                    closed.disk.segment_generations@[s as int],
                    closed.writer.append_offset,
                ),
                block,
            ),
            None => bytes::zeros(block),
        },
    )
}

impl DiskStore {
    /// Makes what was written durable, when that is due. Reports whether it was
    /// done.
    pub fn sync<F: CacheFile>(&mut self, file: &mut F, force: bool) -> (r: Result<
        bool,
        MediaError,
    >)
        requires
            old(self).wf(),
        ensures
            final(self).wf(),
            final(self).disk == old(self).disk,
            final(file).content() == old(file).content(),
            ({
                let due = if force {
                    old(self).writer.dirty_bytes != 0
                } else {
                    old(self).writer.dirty_bytes >= disk::SYNC_BYTES
                };
                match r {
                    Ok(done) => {
                        &&& done == due
                        &&& final(self).writer == if due {
                            WriterState { dirty_bytes: 0, ..old(self).writer }
                        } else {
                            old(self).writer
                        }
                    },
                    Err(_) => due && final(self).writer == old(self).writer,
                }
            }),
            old(file).works() ==> r is Ok && final(file).works(),
    {
        if !self.writer.sync_due(force) {
            return Ok(false);
        }
        match file.sync_data() {
            Err(error) => Err(error),
            Ok(()) => {
                self.writer.synced();
                Ok(true)
            },
        }
    }

    /// Makes the container durable and stores where appends resume.
    pub fn clean_shutdown<F: CacheFile>(&mut self, file: &mut F) -> (r: Result<(), MediaError>)
        requires
            old(self).wf(),
        ensures
            final(self).wf(),
            final(self).disk == old(self).disk,
            r is Ok ==> {
                &&& final(self).writer == (WriterState { dirty_bytes: 0, ..old(self).writer })
                &&& final(file).content() == after_shutdown(old(self), old(file).content())
            },
            r is Err ==> final(self).writer == old(self).writer,
            old(file).works() && old(self).fits(old(file)) ==> r is Ok && final(file).works(),
    {
        proof {
            self.disk.format.lemma_layout();
        }
        match file.sync_data() {
            Err(error) => return Err(error),
            Ok(()) => {},
        }
        let tail = self.writer.tail(&self.disk);
        let marker = self.disk.format.encode_clean_tail(tail);
        match file.write_all_at(marker.as_slice(), self.disk.format.block_bytes()) {
            Err(error) => return Err(error),
            Ok(()) => {},
        }
        match file.sync_data() {
            Err(error) => return Err(error),
            Ok(()) => {},
        }
        self.writer.synced();
        Ok(())
    }

    /// Decides whether the record of a path that was hit again is promoted, and
    /// reads it: only a record in the older half of the segments is, and only
    /// when earned tokens cover it.
    pub fn begin_promotion<F: CacheFile>(&self, file: &mut F, path: &str) -> (r: Result<
        Option<(Slot, Record)>,
        StoreError,
    >)
        requires
            self.wf(),
        ensures
            final(file).content() == old(file).content(),
            match r {
                Ok(Some((slot, record))) => {
                    &&& current(&self.disk, old(file).content(), path.spec_bytes(), slot)
                    &&& self.writer.promotes(&self.disk, slot)
                    &&& record.revision@ == CacheFormat::stored_revision(
                        behind(old(file).content(), slot),
                    )
                    &&& record.body@ == CacheFormat::stored_body(
                        behind(old(file).content(), slot),
                    )
                    &&& record.current_after == slot.current_after
                    &&& sized(&self.disk, &record, slot)
                },
                Ok(None) => {
                    ||| slots_of(&self.disk, old(file).content(), path.spec_bytes()).len() == 0
                    ||| exists|slot: Slot| #[trigger]
                        current(&self.disk, old(file).content(), path.spec_bytes(), slot)
                            && !self.writer.promotes(&self.disk, slot)
                },
                Err(StoreError::Format(error)) => error == FormatError::InvalidRecord
                    && damaged_newest(&self.disk, old(file).content(), path.spec_bytes()),
                Err(StoreError::Media(_)) => true,
            },
            old(file).works() && self.fits(old(file)) ==> !(r matches Err(StoreError::Media(_)))
                && final(file).works(),
    {
        let slot = match self.current_slot(file, path) {
            Err(error) => return Err(error),
            Ok(None) => return Ok(None),
            Ok(Some(slot)) => slot,
        };
        if !self.writer.may_promote(&self.disk, slot) {
            return Ok(None);
        }
        match self.read_record(file, path, slot) {
            Err(error) => Err(StoreError::Media(error)),
            Ok(RecordVerdict::Found(record)) => Ok(Some((slot, record))),
            Ok(_) => Ok(None),
        }
    }
}

/// A record was appended and published, and then the promotion tokens were
/// changed.
pub open spec fn records_but_tokens(
    before: &DiskStore,
    after: &DiskStore,
    old_content: Seq<u8>,
    new_content: Seq<u8>,
    path: Seq<u8>,
    revision: Seq<u8>,
    body: Seq<u8>,
    current_after: SequencePoint,
    started: bool,
) -> bool {
    exists|appended: DiskStore, slot: Slot|
        {
            &&& #[trigger] records(
                before,
                &appended,
                old_content,
                new_content,
                path,
                revision,
                body,
                slot,
                started,
            )
            &&& slot.current_after == current_after
            &&& after.disk == appended.disk
            &&& after.writer == (WriterState {
                promotion_tokens: after.writer.promotion_tokens,
                ..appended.writer
            })
        }
}

impl DiskStore {
    /// Appends a record once more, and pays for it with tokens, unless its slot
    /// is no longer the path's newest. Returns whether a segment was started, or
    /// `None` when nothing was appended.
    pub fn finish_promotion<F: CacheFile>(
        &mut self,
        file: &mut F,
        path: &str,
        slot: Slot,
        record: &Record,
    ) -> (r: Result<Option<bool>, StoreError>)
        requires
            old(self).wf(),
            sized(&old(self).disk, record, slot),
            old(self).writer.promotion_tokens >= slot.record_bytes,
        ensures
            final(self).wf(),
            final(self).disk.format == old(self).disk.format,
            match r {
                Ok(Some(started)) => {
                    &&& current(&old(self).disk, old(file).content(), path.spec_bytes(), slot)
                    &&& final(self).writer.promotion_tokens == old(self).writer.promotion_tokens
                        - slot.record_bytes
                    &&& records_but_tokens(
                        old(self),
                        final(self),
                        old(file).content(),
                        final(file).content(),
                        path.spec_bytes(),
                        record.revision@,
                        record.body@,
                        record.current_after,
                        started,
                    )
                },
                Ok(None) => {
                    &&& *final(self) == *old(self)
                    &&& final(file).content() == old(file).content()
                    &&& slots_of(&old(self).disk, old(file).content(), path.spec_bytes()).len()
                        == 0 || exists|other: Slot|
                        other != slot && #[trigger] current(
                            &old(self).disk,
                            old(file).content(),
                            path.spec_bytes(),
                            other,
                        )
                },
                Err(StoreError::Format(error)) => {
                    ||| error == FormatError::InvalidRecord && damaged_newest(
                        &old(self).disk,
                        old(file).content(),
                        path.spec_bytes(),
                    ) && *final(self) == *old(self) && final(file).content() == old(file).content()
                    ||| error == FormatError::InvalidRecord
                        && !old(self).disk.format.record_encodable(
                        path.spec_bytes(),
                        record.revision@,
                        record.body@,
                    )
                    ||| error == FormatError::GenerationExhausted && exhausted(
                        old(self),
                        record.revision@,
                        record.body@,
                    ) && *final(self) == *old(self) && final(file).content() == old(file).content()
                },
                Err(StoreError::Media(_)) => true,
            },
            old(file).works() && old(self).fits(old(file)) ==> !(r matches Err(
                StoreError::Media(_),
            )) && final(file).works(),
    {
        let ghost before = *self;
        let ghost content = file.content();
        let now = match self.current_slot(file, path) {
            Err(error) => return Err(error),
            Ok(now) => now,
        };
        let same = match now {
            Some(now) => now == slot,
            None => false,
        };
        if !same {
            return Ok(None);
        }
        match self.append(
            file,
            path,
            record.revision.as_slice(),
            record.body.as_slice(),
            record.current_after,
        ) {
            Err(error) => Err(error),
            Ok((placed, started)) => {
                let ghost appended = *self;
                proof {
                    lemma_tokens_kept(
                        &before,
                        &appended,
                        content,
                        file.content(),
                        path.spec_bytes(),
                        record.revision@,
                        record.body@,
                        placed,
                        started,
                    );
                }
                self.writer.promoted(placed.record_bytes);
                proof {
                    assert(records(
                        &before,
                        &appended,
                        content,
                        file.content(),
                        path.spec_bytes(),
                        record.revision@,
                        record.body@,
                        placed,
                        started,
                    ));
                    assert(records_but_tokens(
                        &before,
                        self,
                        content,
                        file.content(),
                        path.spec_bytes(),
                        record.revision@,
                        record.body@,
                        record.current_after,
                        started,
                    ));
                }
                Ok(Some(started))
            },
        }
    }

    /// Appends a replacement and earns promotion tokens for it.
    pub fn replace<F: CacheFile>(
        &mut self,
        file: &mut F,
        path: &str,
        revision: &[u8],
        body: &[u8],
        current_after: SequencePoint,
    ) -> (r: Result<bool, StoreError>)
        requires
            old(self).wf(),
            old(self).disk.format.record_size(revision@.len() as int, body@.len() as int) matches
                Some(size) ==> size <= old(self).disk.format.spec_geometry().segment_bytes
                - old(self).disk.format.spec_geometry().block_bytes,
        ensures
            final(self).wf(),
            final(self).disk.format == old(self).disk.format,
            match r {
                Ok(started) => {
                    &&& records_but_tokens(
                        old(self),
                        final(self),
                        old(file).content(),
                        final(file).content(),
                        path.spec_bytes(),
                        revision@,
                        body@,
                        current_after,
                        started,
                    )
                    &&& final(self).writer.promotion_tokens == earned(
                        &old(self).disk.format,
                        old(self).writer.promotion_tokens,
                        old(self).disk.format.record_size(
                            revision@.len() as int,
                            body@.len() as int,
                        )->0 as u64,
                    )
                },
                Err(StoreError::Format(error)) => {
                    ||| error == FormatError::InvalidRecord
                        && !old(self).disk.format.record_encodable(
                        path.spec_bytes(),
                        revision@,
                        body@,
                    )
                    ||| error == FormatError::GenerationExhausted && exhausted(
                        old(self),
                        revision@,
                        body@,
                    ) && *final(self) == *old(self) && final(file).content() == old(file).content()
                },
                Err(StoreError::Media(_)) => true,
            },
            old(file).works() && old(self).fits(old(file)) ==> !(r matches Err(
                StoreError::Media(_),
            )) && final(file).works(),
    {
        let ghost before = *self;
        let ghost content = file.content();
        match self.append(file, path, revision, body, current_after) {
            Err(error) => Err(error),
            Ok((slot, started)) => {
                let ghost appended = *self;
                proof {
                    lemma_tokens_kept(
                        &before,
                        &appended,
                        content,
                        file.content(),
                        path.spec_bytes(),
                        revision@,
                        body@,
                        slot,
                        started,
                    );
                }
                self.writer.earn_tokens(&self.disk, slot.record_bytes);
                proof {
                    assert(records(
                        &before,
                        &appended,
                        content,
                        file.content(),
                        path.spec_bytes(),
                        revision@,
                        body@,
                        slot,
                        started,
                    ));
                    assert(records_but_tokens(
                        &before,
                        self,
                        content,
                        file.content(),
                        path.spec_bytes(),
                        revision@,
                        body@,
                        current_after,
                        started,
                    ));
                }
                Ok(started)
            },
        }
    }
}

/// The promotion tokens after a record was appended: a fraction of its size is
/// earned, up to a fraction of the largest record.
pub open spec fn earned(format: &CacheFormat, tokens: u64, record_bytes: u64) -> u64 {
    let sum = disk::saturated(tokens + record_bytes / disk::PROMOTION_EARN_DIVISOR);
    let cap = (format.spec_geometry().segment_bytes - format.spec_geometry().block_bytes)
        / disk::PROMOTION_CAP_DIVISOR as int;
    (if sum <= cap {
        sum
    } else {
        cap
    }) as u64
}

/// Appending leaves the promotion tokens and the format.
proof fn lemma_tokens_kept(
    before: &DiskStore,
    after: &DiskStore,
    old_content: Seq<u8>,
    new_content: Seq<u8>,
    path: Seq<u8>,
    revision: Seq<u8>,
    body: Seq<u8>,
    slot: Slot,
    started: bool,
)
    requires
        records(
            before,
            after,
            old_content,
            new_content,
            path,
            revision,
            body,
            slot,
            started,
        ),
    ensures
        after.writer.promotion_tokens == before.writer.promotion_tokens,
        after.disk.format == before.disk.format,
        before.disk.format.record_size(revision.len() as int, body.len() as int) == Some(
            slot.record_bytes as int,
        ),
{
    let (room, mid, cleared) = choose|room: DiskStore, mid: Seq<u8>, cleared: nat|
        {
            &&& room.wf()
            &&& mid.len() == old_content.len()
            &&& makes_room(
                before,
                &room,
                old_content,
                mid,
                slot.record_bytes as int,
                started,
            )
            &&& #[trigger] appends(
                &room,
                after,
                mid,
                new_content,
                path,
                revision,
                body,
                slot,
                cleared,
            )
        };
}

/// Bytes of the index that are read at once.
pub const INDEX_SCAN_BYTES: u64 = 4_194_304;

/// The file is a container of this format.
pub open spec fn is_container(format: &CacheFormat, content: Seq<u8>) -> bool {
    &&& content.len() == format.spec_layout().capacity
    &&& content.len() != 0
    &&& content.subrange(0, 80) == format.header_content()
}

/// A container with no record.
pub open spec fn fresh(format: &CacheFormat) -> Seq<u8> {
    container::write_at(
        bytes::zeros(format.spec_layout().capacity as int),
        0,
        bytes::padded(format.header_content(), format.spec_geometry().block_bytes as int),
    )
}

/// The generations of the segments, as their headers say.
pub open spec fn generations_in(format: &CacheFormat, content: Seq<u8>) -> Seq<u64> {
    Seq::new(
        format.spec_layout().segment_count as nat,
        |i: int|
            disk::recovered_generation(
                container::read_at(content, format.segment_offset(i), 16),
            ),
    )
}

/// The latest point among the live slots of the first index buckets.
pub open spec fn index_point(disk: &Disk, content: Seq<u8>, buckets: int) -> Option<u64>
    decreases buckets,
{
    if buckets <= 0 {
        None
    } else {
        let block = disk.format.spec_geometry().block_bytes as int;
        disk::latest(
            index_point(disk, content, buckets - 1),
            disk::latest_point(
                disk,
                disk::bucket_slots(
                    container::read_at(
                        content,
                        disk.format.spec_layout().metadata_bytes + (buckets - 1) * block,
                        block,
                    ),
                ),
            ),
        )
    }
}

/// The latest point that the records of a container had when it was written.
pub open spec fn last_point(disk: &Disk, content: Seq<u8>) -> Option<u64> {
    index_point(disk, content, disk.format.buckets())
}

/// A record of a container has the last point there is.
pub open spec fn points_exhausted(format: &CacheFormat, content: Seq<u8>) -> bool {
    exists|disk: Disk|
        {
            &&& disk.format == *format
            &&& disk.segment_generations@ == generations_in(format, content)
            &&& #[trigger] last_point(&disk, content) == Some(u64::MAX)
        }
}

/// A container was opened: `content` is what its file holds by then, and `kept`
/// says that it was a container before.
pub open spec fn opens(
    format: &CacheFormat,
    content: Seq<u8>,
    kept: bool,
    store: &DiskStore,
    last: Option<SequencePoint>,
) -> bool {
    let generations = generations_in(format, content);
    let maximum = disk::greatest(generations);
    let marker = container::read_at(
        content,
        format.spec_geometry().block_bytes as int,
        format.spec_geometry().block_bytes as int,
    );
    &&& store.wf()
    &&& store.disk.format == *format
    &&& store.disk.segment_generations@ == generations
    &&& store.writer.next_generation == maximum + 1
    &&& store.writer.dirty_bytes == 0
    &&& store.writer.promotion_tokens == 0
    &&& match store.writer.active_segment {
        Some(s) => {
            &&& disk::resumes_at(&store.disk, maximum, format.clean_tail(marker), s as int)
            &&& format.clean_tail(marker) == Some((maximum, store.writer.append_offset))
        },
        None => {
            &&& store.writer.append_offset == 0
            &&& forall|s: int|
                !disk::resumes_at(&store.disk, maximum, format.clean_tail(marker), s)
        },
    }
    &&& disk::raw_point(last) != Some(u64::MAX)
    &&& disk::raw_point(last) == if kept {
        last_point(&store.disk, content)
    } else {
        None
    }
}

/// A bucket lies inside the index.
proof fn lemma_index_bucket(format: &CacheFormat, n: int)
    requires
        format.wf(),
        0 <= n < format.buckets(),
    ensures
        0 <= n * format.spec_geometry().block_bytes,
        (n + 1) * format.spec_geometry().block_bytes == n * format.spec_geometry().block_bytes
            + format.spec_geometry().block_bytes,
        format.spec_layout().metadata_bytes + (n + 1) * format.spec_geometry().block_bytes
            <= format.spec_layout().data_offset,
{
    format.lemma_layout();
    format.lemma_buckets();
    let block = format.spec_geometry().block_bytes as int;
    let all = format.buckets();
    assert(0 <= n * block) by (nonlinear_arith)
        requires
            n >= 0,
            block > 0,
    ;
    assert((n + 1) * block == n * block + block) by (nonlinear_arith);
    assert((n + 1) * block <= all * block) by (nonlinear_arith)
        requires
            n + 1 <= all,
            block > 0,
    ;
}

/// What is read at once fits in memory.
proof fn lemma_scan_fits(block: int, most: int)
    requires
        0 < block <= usize::MAX,
        most == 1 || most == INDEX_SCAN_BYTES as int / block,
    ensures
        most * block <= usize::MAX,
{
    if most != 1 {
        vstd::arithmetic::div_mod::lemma_fundamental_div_mod(INDEX_SCAN_BYTES as int, block);
        assert(most * block == block * most) by (nonlinear_arith);
    }
}

/// Returns the latest point of a container's records. A point without a
/// successor makes the container unusable.
pub fn last_sequence_point<F: CacheFile>(disk: &Disk, file: &mut F) -> (r: Result<
    Option<SequencePoint>,
    StoreError,
>)
    requires
        disk.wf(),
        disk.format.fits_memory(),
    ensures
        final(file).content() == old(file).content(),
        match r {
            Ok(point) => {
                &&& disk::raw_point(point) == last_point(disk, old(file).content())
                &&& last_point(disk, old(file).content()) != Some(u64::MAX)
            },
            Err(StoreError::Format(error)) => {
                &&& error == FormatError::SequenceExhausted
                &&& last_point(disk, old(file).content()) == Some(u64::MAX)
            },
            Err(StoreError::Media(_)) => true,
        },
        old(file).works() && old(file).content().len() == disk.format.spec_layout().capacity
            ==> !(r matches Err(StoreError::Media(_))) && final(file).works(),
{
    let ghost content = file.content();
    proof {
        disk.format.lemma_layout();
        disk.format.lemma_buckets();
    }
    let block: u64 = disk.format.block_bytes();
    let count: u64 = disk.format.bucket_count();
    let fitting: u64 = INDEX_SCAN_BYTES / block;
    let most: u64 = if fitting == 0 {
        1
    } else {
        fitting
    };
    proof {
        lemma_scan_fits(block as int, most as int);
    }
    let mut maximum: Option<SequencePoint> = None;
    let mut done: u64 = 0;
    while done < count
        invariant
            disk.wf(),
            content == old(file).content(),
            file.content() == content,
            block == disk.format.spec_geometry().block_bytes,
            0 < block <= usize::MAX,
            count == disk.format.buckets(),
            done <= count,
            1 <= most,
            most * block <= usize::MAX,
            disk::raw_point(maximum) == index_point(disk, content, done as int),
            old(file).works() && content.len() == disk.format.spec_layout().capacity
                ==> file.works(),
        decreases count - done,
    {
        let buckets: u64 = if most < count - done {
            most
        } else {
            count - done
        };
        proof {
            disk.format.lemma_layout();
            lemma_index_bucket(&disk.format, done as int);
            lemma_index_bucket(&disk.format, done + buckets - 1);
            let b = block as int;
            assert(done * b + buckets * b == (done + buckets) * b) by (nonlinear_arith);
            assert(buckets * b <= most * b) by (nonlinear_arith)
                requires
                    buckets <= most,
                    b > 0,
            ;
        }
        let offset: u64 = disk.format.metadata_bytes() + done * block;
        let chunk = match file.read_exact_at(offset, (buckets * block) as usize) {
            Err(error) => return Err(StoreError::Media(error)),
            Ok(chunk) => chunk,
        };
        let mut taken: u64 = 0;
        while taken < buckets
            invariant
                disk.wf(),
                block == disk.format.spec_geometry().block_bytes,
                0 < block <= usize::MAX,
                count == disk.format.buckets(),
                done + buckets <= count,
                taken <= buckets,
                buckets * block <= usize::MAX,
                offset == disk.format.spec_layout().metadata_bytes + done * block,
                chunk@ == container::read_at(content, offset as int, (buckets * block) as int),
                disk::raw_point(maximum) == index_point(disk, content, done + taken),
                chunk@.len() == buckets * block,
                offset + buckets * block <= content.len(),
            decreases buckets - taken,
        {
            let ghost b = block as int;
            proof {
                assert((taken + 1) * b == taken * b + b) by (nonlinear_arith);
                assert((done + taken) * b == done * b + taken * b) by (nonlinear_arith);
                assert(0 <= taken * b) by (nonlinear_arith)
                    requires
                        b > 0,
                        taken >= 0,
                ;
                assert((taken + 1) * b <= buckets * b) by (nonlinear_arith)
                    requires
                        taken + 1 <= buckets,
                        b > 0,
                ;
            }
            let start: usize = (taken * block) as usize;
            let bucket = vstd::slice::slice_subrange(
                chunk.as_slice(),
                start,
                start + block as usize,
            );
            proof {
                let place = offset + taken * b;
                assert(bucket@ =~= container::read_at(content, place, b));
                assert(place == disk.format.spec_layout().metadata_bytes + (done + taken) * b);
            }
            maximum = disk.scan_bucket(bucket, maximum);
            taken = taken + 1;
        }
        done = done + buckets;
    }
    match Disk::finish_scan(maximum) {
        Err(error) => Err(StoreError::Format(error)),
        Ok(point) => Ok(point),
    }
}

/// Reports whether the file is a container of this format.
fn recognize<F: CacheFile>(file: &mut F, format: &CacheFormat) -> (r: Result<bool, StoreError>)
    requires
        format.wf(),
        format.fits_memory(),
    ensures
        final(file).content() == old(file).content(),
        r matches Ok(valid) ==> valid == is_container(format, old(file).content()),
        r matches Err(error) ==> error is Media,
        old(file).works() ==> r is Ok && final(file).works(),
{
    proof {
        format.lemma_layout();
    }
    let len: u64 = match file.len() {
        Err(error) => return Err(StoreError::Media(error)),
        Ok(len) => len,
    };
    if len != format.capacity() || len == 0 {
        return Ok(false);
    }
    let header = match file.read_exact_at(0, format.block_bytes() as usize) {
        Err(error) => return Err(StoreError::Media(error)),
        Ok(header) => header,
    };
    proof {
        assert(header@.subrange(0, 80) =~= file.content().subrange(0, 80));
    }
    Ok(Disk::container_valid(format, len, header.as_slice()))
}

/// Makes the file a container with no record.
fn create<F: CacheFile>(file: &mut F, format: &CacheFormat) -> (r: Result<(), StoreError>)
    requires
        format.wf(),
        format.fits_memory(),
    ensures
        r is Ok ==> {
            &&& final(file).content() == fresh(format)
            &&& final(file).content().len() == format.spec_layout().capacity
        },
        r matches Err(error) ==> error is Media,
        old(file).works() && format.spec_layout().capacity <= usize::MAX ==> r is Ok
            && final(file).works(),
{
    proof {
        format.lemma_layout();
    }
    if let Err(error) = file.set_len(0) {
        return Err(StoreError::Media(error));
    }
    if let Err(error) = file.set_len(format.capacity()) {
        return Err(StoreError::Media(error));
    }
    proof {
        assert(file.content() =~= bytes::zeros(format.spec_layout().capacity as int));
    }
    if let Err(error) = file.allocate(format.capacity()) {
        return Err(StoreError::Media(error));
    }
    let header = format.encode_file_header();
    if let Err(error) = file.write_all_at(header.as_slice(), 0) {
        return Err(StoreError::Media(error));
    }
    if let Err(error) = file.sync_all() {
        return Err(StoreError::Media(error));
    }
    Ok(())
}

/// Reads the headers of the segments.
fn segment_headers<F: CacheFile>(file: &mut F, format: &CacheFormat) -> (r: Result<
    Vec<Vec<u8>>,
    StoreError,
>)
    requires
        format.wf(),
    ensures
        final(file).content() == old(file).content(),
        r matches Ok(headers) ==> {
            &&& headers@.len() == format.spec_layout().segment_count
            &&& headers@.map_values(|header: Vec<u8>| disk::recovered_generation(header@))
                == generations_in(format, old(file).content())
        },
        r matches Err(error) ==> error is Media,
        old(file).works() && old(file).content().len() == format.spec_layout().capacity ==> r is Ok
            && final(file).works(),
{
    let ghost content = file.content();
    let mut headers: Vec<Vec<u8>> = Vec::new();
    let count: usize = format.segment_count();
    let mut i: usize = 0;
    while i < count
        invariant
            format.wf(),
            content == old(file).content(),
            file.content() == content,
            count == format.spec_layout().segment_count,
            i <= count,
            headers@.len() == i,
            forall|j: int|
                0 <= j < i ==> (#[trigger] headers@[j])@ == container::read_at(
                    content,
                    format.segment_offset(j),
                    16,
                ),
            old(file).works() && content.len() == format.spec_layout().capacity ==> file.works(),
        decreases count - i,
    {
        proof {
            format.lemma_layout();
            format.lemma_segment(i as int);
        }
        match file.read_exact_at(format.segment_start(i), 16) {
            Err(error) => return Err(StoreError::Media(error)),
            Ok(header) => headers.push(header),
        }
        i = i + 1;
    }
    proof {
        assert(headers@.map_values(|header: Vec<u8>| disk::recovered_generation(header@))
            =~= generations_in(format, content));
    }
    Ok(headers)
}

/// Opens the container in a file, and creates it where the file holds none.
///
/// Returns the container's state and the latest point of the records that it
/// kept. The records are kept where the file was a container of this very
/// format. Appending goes on where a clean shutdown left it.
pub fn open_disk<F: CacheFile>(file: &mut F, format: CacheFormat) -> (r: Result<
    (DiskStore, Option<SequencePoint>),
    StoreError,
>)
    requires
        format.wf(),
        format.fits_memory(),
    ensures
        ({
            let kept = is_container(&format, old(file).content());
            let content = if kept {
                old(file).content()
            } else {
                fresh(&format)
            };
            let maximum = disk::greatest(generations_in(&format, content));
            &&& kept ==> final(file).content() == content
            &&& r matches Ok((store, last)) ==> {
                &&& final(file).content() == content
                &&& opens(&format, content, kept, &store, last)
                &&& store.fits(final(file))
                &&& maximum < u64::MAX
            }
            &&& r == Err::<(DiskStore, Option<SequencePoint>), StoreError>(
                StoreError::Format(FormatError::GenerationExhausted),
            ) ==> maximum == u64::MAX
            &&& r == Err::<(DiskStore, Option<SequencePoint>), StoreError>(
                StoreError::Format(FormatError::SequenceExhausted),
            ) ==> kept && points_exhausted(&format, content)
            &&& r matches Err(StoreError::Format(error)) ==> error
                == FormatError::GenerationExhausted || error == FormatError::SequenceExhausted
        }),
        old(file).works() && format.spec_layout().capacity <= usize::MAX ==> final(file).works()
            && !(r matches Err(StoreError::Media(_))),
{
    proof {
        format.lemma_layout();
    }
    let valid = match recognize(file, &format) {
        Err(error) => return Err(error),
        Ok(valid) => valid,
    };
    if !valid {
        if let Err(error) = create(file, &format) {
            return Err(error);
        }
    }
    let ghost content = file.content();
    proof {
        assert(content.len() == format.spec_layout().capacity);
        assert(generations_in(&format, content).len() == format.spec_layout().segment_count);
    }
    let headers = match segment_headers(file, &format) {
        Err(error) => return Err(error),
        Ok(headers) => headers,
    };
    let (disk, maximum, next_generation) = match Disk::recover(format, &headers) {
        Err(error) => return Err(StoreError::Format(error)),
        Ok(recovered) => recovered,
    };
    let last = if valid {
        match last_sequence_point(&disk, file) {
            Err(error) => {
                proof {
                    if error is Format {
                        assert(points_exhausted(&format, content));
                    }
                }
                return Err(error);
            },
            Ok(last) => last,
        }
    } else {
        None
    };
    let marker = if maximum == 0 {
        Vec::new()
    } else {
        let block: u64 = disk.format.block_bytes();
        match file.read_exact_at(block, block as usize) {
            Err(error) => return Err(StoreError::Media(error)),
            Ok(marker) => marker,
        }
    };
    let writer = WriterState::open(&disk, maximum, next_generation, marker.as_slice());
    let store = DiskStore { disk, writer };
    proof {
        assert(opens(&format, content, valid, &store, last));
    }
    Ok((store, last))
}

} // verus!
