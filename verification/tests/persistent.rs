use std::collections::HashMap;

use glassdb_storage::cache_stats::CacheStats;
use glassdb_storage::disk_cache::container;
use glassdb_storage::disk_cache::fence::PathFence;
use glassdb_storage::disk_cache::format::{CacheFormat, CacheGeometry, FormatError, Slot};
use glassdb_storage::disk_cache::media::{CacheFile, MediaError, Metered};
use glassdb_storage::disk_cache::perform::{close, complete_promotion, perform, synchronize};
use glassdb_storage::disk_cache::persistent::PersistentCache;
use glassdb_storage::disk_cache::queue::{CacheInner, Next, Outcome, Work};
use glassdb_storage::disk_cache::sim_media::{
    CrashChoices, MediaFaultProfile, SimFile, SimMedia,
};
use glassdb_storage::disk_cache::store::{open_disk, DiskStore, StoreError};
use glassdb_storage::disk_cache::EncodedBody;
use glassdb_storage::ids::DatabaseId;
use glassdb_storage::timeline::SequencePoint;

const TEST_CAPACITY: u64 = 2 * 1024 * 1024;
const RECORD_CONTENT_OFFSET: u64 = 48;

fn id(byte: u8) -> DatabaseId {
    DatabaseId::from_bytes([byte; 16])
}

fn point(value: u64) -> SequencePoint {
    SequencePoint::from_raw(value)
}

fn format(database_id: DatabaseId) -> CacheFormat {
    CacheFormat::new(CacheGeometry::compact(), TEST_CAPACITY, "db", database_id).unwrap()
}

fn healthy(media: SimMedia) -> SimFile {
    match SimFile::open(media, MediaFaultProfile::Healthy, Vec::new()) {
        Ok(file) => file,
        Err((_, error)) => panic!("{}", error.message()),
    }
}

/// An opened cache with its worker's state, driven one piece of work at a time.
struct Rig {
    cache: PersistentCache,
    last: Option<SequencePoint>,
    store: DiskStore,
    file: SimFile,
    fences: HashMap<String, PathFence>,
    answers: HashMap<u64, Option<EncodedBody>>,
    tickets: u64,
}

impl Rig {
    fn open(media: SimMedia, database_id: DatabaseId) -> Rig {
        let mut file = healthy(media);
        let (opened, store) = PersistentCache::open(
            &mut file,
            CacheGeometry::compact(),
            TEST_CAPACITY,
            "db",
            database_id,
        );
        Rig {
            cache: opened.cache,
            last: opened.last_sequence_point,
            store: store.unwrap(),
            file,
            fences: HashMap::new(),
            answers: HashMap::new(),
            tickets: 0,
        }
    }

    fn new() -> Rig {
        Rig::open(SimMedia::new(), id(1))
    }

    fn inner(&mut self) -> &mut CacheInner {
        self.cache.inner.as_mut().unwrap()
    }

    fn publish_at(&mut self, path: &str, revision: &[u8], body: &[u8], current_after: u64) {
        let fence = self.fences.entry(path.to_string()).or_default();
        let inner = self.cache.inner.as_mut().unwrap();
        let guard = inner.begin_fence(fence, &mut self.cache.metrics).unwrap();
        inner.replace(
            path,
            revision.to_vec(),
            body.to_vec(),
            point(current_after),
            guard,
            fence,
            &mut self.cache.metrics,
        );
    }

    fn publish(&mut self, path: &str, revision: &[u8], body: &[u8]) {
        self.publish_at(path, revision, body, 1);
    }

    fn handle(&mut self, work: Work) -> Outcome {
        let (path, epoch, ticket) = match &work {
            Work::Lookup { path, ticket } => (path.clone(), 0, Some(*ticket)),
            Work::Replace { path, .. } => (path.clone(), 0, None),
            Work::Invalidate { path, .. } => (path.clone(), 0, None),
            Work::Promote { path, epoch } => (path.clone(), *epoch, None),
            Work::Shutdown => (String::new(), 0, None),
        };
        let fence = self.fences.entry(path.clone()).or_default();
        let inner = self.cache.inner.as_mut().unwrap();
        let action = inner.action(&work, fence);
        let performed = perform(&mut self.store, &mut self.file, action, &work);
        let mut outcome = performed.outcome;
        if let Some((slot, record)) = performed.promotion {
            outcome = complete_promotion(
                &mut self.store,
                &mut self.file,
                &path,
                slot,
                &record,
                fence,
                epoch,
            );
        }
        self.cache.metrics.l2_errors(performed.damaged);
        if let Some(ticket) = ticket {
            self.answers.insert(ticket, performed.answer);
        }
        let segments = self.store.disk.format.segment_count();
        inner.finish(work, outcome, segments, fence, &mut self.cache.metrics);
        outcome
    }

    /// Works until the queue is empty; reports whether the worker stopped.
    fn run(&mut self) -> bool {
        loop {
            match self.inner().next_work(false) {
                Next::Handle(work) => {
                    self.handle(work);
                }
                Next::Wait | Next::ForcedSync => return false,
                Next::CleanShutdown => {
                    let lifecycle = self.inner().lifecycle;
                    if close(&mut self.store, &mut self.file, &lifecycle) == Outcome::Failed {
                        let inner = self.cache.inner.as_mut().unwrap();
                        inner.disable(&mut self.cache.metrics);
                    }
                    return true;
                }
            }
        }
    }

    fn lookup(&mut self, path: &str) -> Option<EncodedBody> {
        self.tickets += 1;
        let ticket = self.tickets;
        let inner = self.cache.inner.as_mut().unwrap();
        if !inner.lookup(path, ticket, &mut self.cache.metrics) {
            return None;
        }
        self.run();
        self.answers.remove(&ticket).unwrap()
    }

    fn hit(&mut self, path: &str) -> bool {
        let fence = self.fences.entry(path.to_string()).or_default();
        let inner = self.cache.inner.as_mut().unwrap();
        inner.record_present_hit(path, fence)
    }

    fn shutdown(mut self) -> SimMedia {
        self.inner().begin_shutdown();
        assert!(self.run());
        self.file.close()
    }

    fn stats(&mut self) -> CacheStats {
        self.cache.metrics.snapshot_and_reset()
    }
}

fn assert_zero_padded_vector(label: &str, actual: &[u8], prefix: &[u8]) {
    assert_eq!(&actual[..prefix.len()], prefix, "{label} prefix drifted");
    assert!(
        actual[prefix.len()..].iter().all(|byte| *byte == 0),
        "{label} padding is not zero"
    );
}

#[test]
fn lookup_is_ordered_with_worker_writes() {
    let mut rig = Rig::new();
    rig.publish("db/object", b"r1", b"body");

    let record = rig.lookup("db/object").unwrap();
    assert_eq!(record.revision, b"r1");
    assert_eq!(record.body, b"body");
    let stats = rig.stats();
    assert_eq!(stats.l2_hits, 1);
    assert_eq!(stats.l2_misses, 0);

    rig.shutdown();
}

#[test]
fn clean_reopen_preserves_record_and_identity_change_discards() {
    let first_id = id(1);
    let mut rig = Rig::open(SimMedia::new(), first_id);
    assert!(rig.cache.is_enabled());
    rig.publish_at("db/object", b"r1", b"body", 17);
    let media = rig.shutdown();

    let mut reopened = Rig::open(media, first_id);
    assert_eq!(reopened.last, Some(point(17)));
    assert!(reopened.cache.is_enabled());
    let got = reopened.lookup("db/object").unwrap();
    assert_eq!(got.revision, b"r1");
    assert_eq!(got.body, b"body");
    assert_eq!(got.current_after, point(17));
    let media = reopened.shutdown();

    let mut different = Rig::open(media, id(2));
    assert_eq!(different.last, None);
    assert!(different.lookup("db/object").is_none());
    assert_eq!(different.stats().l2_misses, 1);
    different.shutdown();
}

#[test]
fn persistent_format_bytes_and_clean_tail_are_golden() {
    const HEADER_PREFIX: [u8; 80] = [
        0x47, 0x4c, 0x32, 0x54, 0x45, 0x53, 0x54, 0x00, 0x01, 0x00, 0x00, 0x00, 0x00, 0x00,
        0x00, 0x00, 0xab, 0xa6, 0xbc, 0xa7, 0x95, 0x1d, 0x2a, 0xe1, 0xeb, 0x89, 0xbe, 0x6e,
        0x5f, 0xc5, 0xf3, 0xec, 0x78, 0x30, 0x91, 0x89, 0x0c, 0x8e, 0x38, 0xfd, 0x2b, 0xb5,
        0x7a, 0x55, 0xd0, 0x90, 0x46, 0xb3, 0xb2, 0x2a, 0xdd, 0x22, 0xe1, 0x63, 0x35, 0x0e,
        0x3e, 0x89, 0x5d, 0x36, 0x9d, 0x7e, 0x6f, 0x59, 0xcc, 0x08, 0xec, 0xdc, 0x42, 0xf0,
        0xff, 0xc9, 0x36, 0xba, 0xe4, 0x99, 0x5f, 0x87, 0x7c, 0x0a,
    ];
    const SLOT: [u8; 40] = [
        0xea, 0xb3, 0x14, 0x9e, 0xb7, 0xf7, 0x4a, 0x7a, 0x01, 0x00, 0x00, 0x00, 0x00, 0x00,
        0x00, 0x00, 0x00, 0xb0, 0x00, 0x00, 0x00, 0x00, 0x00, 0x00, 0x00, 0x10, 0x00, 0x00,
        0x00, 0x00, 0x00, 0x00, 0x11, 0x00, 0x00, 0x00, 0x00, 0x00, 0x00, 0x00,
    ];
    const MARKER_PREFIX: [u8; 48] = [
        0x01, 0x00, 0x00, 0x00, 0x00, 0x00, 0x00, 0x00, 0x00, 0xc0, 0x00, 0x00, 0x00, 0x00,
        0x00, 0x00, 0xdc, 0xaf, 0xa0, 0xb5, 0x62, 0xea, 0x64, 0xd8, 0xa8, 0xb4, 0x28, 0x8b,
        0x24, 0x0c, 0xeb, 0xc6, 0xf0, 0x03, 0xa2, 0x35, 0xa2, 0x29, 0x72, 0x66, 0xa2, 0xb5,
        0x03, 0xbc, 0x69, 0x1b, 0xcd, 0x79,
    ];
    const RECORD_PREFIX: [u8; 54] = [
        0x02, 0x00, 0x00, 0x00, 0x04, 0x00, 0x00, 0x00, 0x11, 0x00, 0x00, 0x00, 0x00, 0x00,
        0x00, 0x00, 0x49, 0xf2, 0x1a, 0xce, 0x4f, 0xbe, 0xfd, 0x52, 0x25, 0x8f, 0xc2, 0x4b,
        0x18, 0x3f, 0x52, 0xc6, 0xe7, 0xe3, 0x66, 0x8e, 0x13, 0x34, 0x7d, 0x56, 0xff, 0x2b,
        0x6a, 0x4f, 0xf1, 0x41, 0x59, 0xf2, 0x72, 0x31, 0x62, 0x6f, 0x64, 0x79,
    ];
    const MARKER_OFFSET: usize = 4 * 1024;
    const SLOT_OFFSET: usize = 16 * 1024;
    const RECORD_OFFSET: usize = 45_056;
    const CLEAN_TAIL: u64 = 49_152;

    let mut file = healthy(SimMedia::new());
    let (mut store, last) = open_disk(&mut file, format(id(1))).unwrap_or_else(|_| unreachable!());
    let block_bytes = store.disk.format.block_bytes() as usize;
    let minimum_record_bytes = store.disk.format.minimum_record_bytes() as usize;
    assert_eq!(last, None);
    let (slot, started) = store
        .append(&mut file, "db/object", b"r1", b"body", point(17))
        .unwrap_or_else(|_| unreachable!());
    assert!(started);
    assert_eq!(slot.record_offset, RECORD_OFFSET as u64);
    assert_eq!(slot.record_offset + slot.record_bytes, CLEAN_TAIL);
    store.clean_shutdown(&mut file).unwrap();
    let media = file.close();

    let bytes = media.durable_bytes().unwrap();
    assert_zero_padded_vector("header", &bytes[..block_bytes], &HEADER_PREFIX);
    assert_eq!(&bytes[SLOT_OFFSET..SLOT_OFFSET + SLOT.len()], SLOT);
    assert_zero_padded_vector(
        "clean-tail marker",
        &bytes[MARKER_OFFSET..MARKER_OFFSET + block_bytes],
        &MARKER_PREFIX,
    );
    assert_zero_padded_vector(
        "record",
        &bytes[RECORD_OFFSET..RECORD_OFFSET + minimum_record_bytes],
        &RECORD_PREFIX,
    );

    let mut file = healthy(media);
    let (mut store, last) = open_disk(&mut file, format(id(1))).unwrap_or_else(|_| unreachable!());
    assert_eq!(last, Some(point(17)));
    let (record, damaged) = store.lookup(&mut file, "db/object").unwrap();
    let record = record.unwrap();
    assert_eq!(damaged, 0);
    assert_eq!(record.revision, b"r1");
    assert_eq!(record.body, b"body");
    assert_eq!(record.current_after, point(17));
    let (resumed, started) = store
        .append(&mut file, "db/next", b"r2", b"next", point(18))
        .unwrap_or_else(|_| unreachable!());
    assert!(!started);
    assert_eq!(resumed.record_offset, CLEAN_TAIL);
}

#[test]
fn reopen_scans_the_maximum_persisted_sequence_point() {
    let mut rig = Rig::new();
    rig.publish_at("db/low", b"r1", b"low", 8);
    rig.publish_at("db/high", b"r2", b"high", 34);
    rig.publish_at("db/middle", b"r3", b"middle", 21);
    let media = rig.shutdown();

    let reopened = Rig::open(media, id(1));
    assert_eq!(reopened.last, Some(point(34)));
    reopened.shutdown();
}

#[test]
fn concurrent_owner_is_disabled_without_disturbing_the_owner() {
    let mut media = SimMedia::new();
    let owner = media.open_exclusive().unwrap();
    let (media, error) = match SimFile::open(media, MediaFaultProfile::Healthy, Vec::new()) {
        Ok(_) => panic!("two owners"),
        Err(refused) => refused,
    };
    assert_eq!(error, MediaError::Locked);
    let mut contender = PersistentCache::disabled();
    assert!(!contender.is_enabled());
    assert_eq!(contender.metrics.snapshot_and_reset().l2_errors, 1);

    let mut media = media;
    media.close(owner);
    let mut rig = Rig::open(media, id(1));
    rig.publish("db/object", b"r1", b"body");
    let media = rig.shutdown();
    let mut reopened = Rig::open(media, id(1));
    assert_eq!(reopened.lookup("db/object").unwrap().body, b"body");
    reopened.shutdown();
}

#[test]
fn damaged_record_is_a_miss() {
    let mut rig = Rig::new();
    rig.publish("db/object", b"r1", b"body");
    let media = rig.shutdown();

    let mut reopened = Rig::open(media, id(1));
    let slot = reopened
        .store
        .current_slot(&mut reopened.file, "db/object")
        .unwrap_or_else(|_| unreachable!())
        .unwrap();
    let place = slot.record_offset + RECORD_CONTENT_OFFSET;
    let mut damaged = reopened.file.read_exact_at(place, 1).unwrap();
    damaged[0] ^= 0xff;
    reopened.file.write_all_at(&damaged, place).unwrap();

    assert!(reopened.lookup("db/object").is_none());
    let stats = reopened.stats();
    assert_eq!(stats.l2_errors, 1);
    assert_eq!(stats.l2_misses, 1);
    reopened.shutdown();
}

#[test]
fn simulated_crash_never_fabricates_a_partially_published_record() {
    for survivors in [0usize, 1, 7] {
        let mut rig = Rig::new();
        rig.publish_at("db/object", b"r1", b"body", 17);
        assert_eq!(rig.lookup("db/object").unwrap().body, b"body");

        let mut media = rig.file.close();
        let kept: Vec<bool> = (0..TEST_CAPACITY as usize)
            .map(|i| survivors != 0 && i % survivors == 0)
            .collect();
        media.crash(&CrashChoices { creation: true, length: true, bytes: kept });

        let mut reopened = Rig::open(media, id(1));
        assert!(reopened.last.is_none() || reopened.last == Some(point(17)));
        if let Some(record) = reopened.lookup("db/object") {
            assert_eq!(record.revision, b"r1");
            assert_eq!(record.body, b"body");
            assert_eq!(record.current_after, point(17));
        }
        reopened.shutdown();
    }
}

#[test]
fn simulated_corruption_of_each_format_region_is_fail_open() {
    for region in 0..5 {
        let mut rig = Rig::new();
        rig.publish_at("db/object", b"r1", b"body", 17);
        assert_eq!(rig.lookup("db/object").unwrap().body, b"body");
        let slot = rig
            .store
            .current_slot(&mut rig.file, "db/object")
            .unwrap_or_else(|_| unreachable!())
            .unwrap();
        let disk = &rig.store.disk;
        let segment = disk
            .segment_generations
            .iter()
            .position(|generation| *generation == slot.generation)
            .unwrap();
        let clean_tail_offset = disk.format.block_bytes();
        let encoded_slot = disk.format.encode_slot(slot);
        let segment_header_offset = disk.format.segment_start(segment);
        let mut media = rig.shutdown();

        let offset = match region {
            0 => 0,
            1 => clean_tail_offset,
            2 => media
                .durable_bytes()
                .unwrap()
                .windows(encoded_slot.len())
                .position(|window| window == encoded_slot)
                .unwrap() as u64,
            3 => segment_header_offset,
            _ => slot.record_offset + RECORD_CONTENT_OFFSET,
        };
        assert!(media.corrupt(offset, 0x80), "could not corrupt region {region}");

        let mut reopened = Rig::open(media, id(1));
        if let Some(record) = reopened.lookup("db/object") {
            assert_eq!(record.revision, b"r1", "region {region}");
            assert_eq!(record.body, b"body", "region {region}");
            assert_eq!(record.current_after, point(17), "region {region}");
            assert_eq!(region, 1, "only the marker leaves the record readable");
        } else {
            assert_ne!(region, 1);
        }
        reopened.shutdown();
    }
}

#[test]
fn segment_ring_reuses_the_oldest_segment() {
    let mut rig = Rig::new();
    for index in 0..450 {
        rig.publish(&format!("db/object-{index}"), b"r1", b"body");
        rig.run();
    }

    assert!(rig.lookup("db/object-0").is_none());
    assert_eq!(rig.lookup("db/object-449").unwrap().body, b"body");
    rig.shutdown();
}

#[test]
fn full_index_bucket_evicts_its_oldest_pointer() {
    let mut rig = Rig::new();
    let bucket_count = rig.store.disk.format.bucket_count();
    let mut paths = Vec::new();
    let mut candidate = 0;
    while paths.len() <= 128 {
        let path = format!("db/collision-{candidate}");
        if rig.store.disk.format.path_fingerprint(&path) % bucket_count == 0 {
            paths.push(path);
        }
        candidate += 1;
    }
    for path in &paths {
        rig.publish(path, b"r1", b"body");
    }

    assert!(rig.lookup(&paths[0]).is_none());
    assert_eq!(rig.lookup(paths.last().unwrap()).unwrap().body, b"body");
    rig.shutdown();
}

#[test]
fn record_larger_than_a_segment_is_not_admitted() {
    let mut rig = Rig::new();
    let segment_bytes = rig.store.disk.format.segment_bytes() as usize;
    rig.publish("db/oversized", b"r1", &vec![0; segment_bytes]);
    assert!(matches!(rig.inner().queue[0], Work::Invalidate { .. }));

    assert!(rig.lookup("db/oversized").is_none());
    rig.shutdown();
}

#[test]
fn newer_path_epoch_cancels_an_older_admission() {
    let mut rig = Rig::new();
    let mut fence = PathFence::default();
    let inner = rig.cache.inner.as_mut().unwrap();
    let older = inner.begin_fence(&mut fence, &mut rig.cache.metrics).unwrap();
    let newer = inner.begin_fence(&mut fence, &mut rig.cache.metrics).unwrap();
    let mut replace = |revision: &[u8], body: &[u8], at: u64, guard| {
        inner.replace(
            "db/object",
            revision.to_vec(),
            body.to_vec(),
            point(at),
            guard,
            &mut fence,
            &mut rig.cache.metrics,
        )
    };
    assert!(replace(b"r1", b"old", 1, older));
    assert!(replace(b"r2", b"new", 2, newer));
    rig.fences.insert("db/object".to_string(), fence);

    let Next::Handle(first) = rig.inner().next_work(false) else {
        panic!("no work");
    };
    assert_eq!(rig.handle(first), Outcome::Skipped);
    assert!(rig.fences["db/object"].is_active());
    let record = rig.lookup("db/object").unwrap();
    assert_eq!(record.revision, b"r2");
    assert_eq!(record.body, b"new");
    assert!(!rig.fences["db/object"].is_active());
    rig.shutdown();
}

#[test]
fn unclean_reopen_keeps_completed_records_without_reusing_the_old_tail() {
    let mut file = healthy(SimMedia::new());
    let (mut store, _) = open_disk(&mut file, format(id(1))).unwrap_or_else(|_| unreachable!());
    let (old_slot, _) = store
        .append(&mut file, "db/object", b"r1", b"body", point(1))
        .unwrap_or_else(|_| unreachable!());
    assert_eq!(store.sync(&mut file, true), Ok(true));
    let old_segment = store.writer.active_segment.unwrap();

    let mut file = healthy(file.close());
    let (mut recovered, last) =
        open_disk(&mut file, format(id(1))).unwrap_or_else(|_| unreachable!());
    assert_eq!(last, Some(point(1)));
    assert_eq!(recovered.lookup(&mut file, "db/object").unwrap().0.unwrap().body, b"body");
    assert_eq!(recovered.writer.active_segment, None);
    let (recovered_slot, _) = recovered
        .append(&mut file, "db/new", b"r2", b"new", point(2))
        .unwrap_or_else(|_| unreachable!());
    assert_ne!(recovered.writer.active_segment, Some(old_segment));
    assert_ne!(
        recovered_slot.record_offset,
        old_slot.record_offset + old_slot.record_bytes
    );
    assert_eq!(recovered_slot.record_offset, 307_200);
}

#[test]
fn an_invalidated_path_is_a_miss() {
    let mut rig = Rig::new();
    rig.publish("db/object", b"r1", b"body");
    let fence = rig.fences.get_mut("db/object").unwrap();
    let inner = rig.cache.inner.as_mut().unwrap();
    let guard = inner.begin_fence(fence, &mut rig.cache.metrics).unwrap();
    assert!(inner.invalidate("db/object", guard, fence, &mut rig.cache.metrics));
    assert!(rig.lookup("db/object").is_none());
    assert!(!rig.fences["db/object"].is_active());
    rig.shutdown();
}

#[test]
fn a_rejected_candidate_is_cleared_and_counted() {
    let mut rig = Rig::new();
    rig.publish("db/object", b"r1", b"body");
    assert!(rig.lookup("db/object").is_some());
    let fence = rig.fences.get_mut("db/object").unwrap();
    let inner = rig.cache.inner.as_mut().unwrap();
    assert!(inner.reject_corrupt_candidate("db/object", fence, &mut rig.cache.metrics));
    assert!(rig.lookup("db/object").is_none());
    assert_eq!(rig.stats().l2_errors, 1);
    rig.shutdown();
}

#[test]
fn a_failing_medium_disables_the_cache_and_nothing_else() {
    let mut rig = Rig::new();
    rig.publish("db/object", b"r1", b"body");
    rig.run();
    // What a truncated medium is asked for lies outside of it.
    rig.file.set_len(0).unwrap();

    assert!(rig.lookup("db/object").is_none());
    assert!(!rig.cache.is_enabled());
    assert_eq!(rig.stats().l2_errors, 1);
    // Work that is left is let go without touching the medium.
    assert!(rig.lookup("db/object").is_none());
    assert_eq!(rig.stats().l2_errors, 0);
}

#[test]
fn a_popular_record_in_an_old_segment_is_promoted() {
    let mut rig = Rig::new();
    rig.publish("db/hot", b"r1", b"hot");
    for index in 0..150 {
        rig.publish(&format!("db/cold-{index}"), b"r1", b"cold");
        rig.run();
    }
    let before = rig
        .store
        .current_slot(&mut rig.file, "db/hot")
        .unwrap_or_else(|_| unreachable!())
        .unwrap();
    let tokens = rig.store.writer.promotion_tokens;
    assert!(tokens >= before.record_bytes);

    assert!(!rig.hit("db/hot"));
    assert!(rig.hit("db/hot"));
    assert!(!rig.hit("db/hot"));
    rig.run();
    let after = rig
        .store
        .current_slot(&mut rig.file, "db/hot")
        .unwrap_or_else(|_| unreachable!())
        .unwrap();
    assert!(after.generation > before.generation);
    assert_eq!(rig.store.writer.promotion_tokens, tokens - before.record_bytes);
    assert_eq!(rig.lookup("db/hot").unwrap().body, b"hot");
    rig.shutdown();
}

#[test]
fn promotions_are_an_eighth_of_what_is_appended() {
    let mut file = healthy(SimMedia::new());
    let (mut store, _) = open_disk(&mut file, format(id(1))).unwrap_or_else(|_| unreachable!());
    let (mut replaced, mut promoted) = (0, 0);
    let size = store.disk.format.record_bytes(2, 4).unwrap();
    for index in 0..40u64 {
        let name = format!("db/{index}");
        assert!(store.replace(&mut file, &name, b"r1", b"body", point(index + 1)).is_ok());
        replaced += size;
        while store.writer.promotion_tokens >= size {
            store.writer.promotion_tokens -= size;
            promoted += size;
        }
        assert!(8 * promoted <= promoted + replaced);
    }
    assert!(promoted > 0);
}

#[test]
fn a_path_that_is_being_changed_is_not_promoted() {
    let mut rig = Rig::new();
    rig.publish("db/hot", b"r1", b"hot");
    assert!(!rig.hit("db/hot"));
    assert!(!rig.hit("db/hot"));
    rig.run();
    assert!(!rig.hit("db/hot"));
    assert!(rig.hit("db/hot"));
}

#[test]
fn shutdown_finishes_queued_work_and_takes_no_more() {
    let mut rig = Rig::new();
    rig.publish("db/object", b"r1", b"body");
    rig.inner().begin_shutdown();
    assert!(!rig.inner().begin_shutdown());
    let fence = rig.fences.entry("db/late".to_string()).or_default();
    let inner = rig.cache.inner.as_mut().unwrap();
    let guard = inner.begin_fence(fence, &mut rig.cache.metrics).unwrap();
    assert!(!inner.replace(
        "db/late",
        b"r".to_vec(),
        b"b".to_vec(),
        point(2),
        guard,
        fence,
        &mut rig.cache.metrics,
    ));
    assert!(!fence.is_active());
    assert!(rig.run());
    let media = rig.file.close();
    let mut reopened = Rig::open(media, id(1));
    assert!(reopened.lookup("db/object").is_some());
    assert!(reopened.lookup("db/late").is_none());
}

#[test]
fn an_idle_worker_synchronizes_after_its_interval() {
    let mut rig = Rig::new();
    assert!(matches!(rig.inner().next_work(false), Next::Wait));
    assert!(matches!(rig.inner().next_work(true), Next::ForcedSync));
    let lifecycle = rig.inner().lifecycle;
    assert_eq!(
        synchronize(&mut rig.store, &mut rig.file, &lifecycle, true, 0),
        Outcome::Skipped
    );
    rig.publish("db/object", b"r1", b"body");
    rig.run();
    assert_eq!(
        synchronize(&mut rig.store, &mut rig.file, &lifecycle, false, 4_999_999_999),
        Outcome::Skipped
    );
    assert_eq!(
        synchronize(&mut rig.store, &mut rig.file, &lifecycle, false, 5_000_000_000),
        Outcome::Done
    );
    assert_eq!(rig.store.writer.dirty_bytes, 0);
}

#[test]
fn a_full_queue_disables_the_cache() {
    let mut rig = Rig::new();
    let inner = rig.cache.inner.as_mut().unwrap();
    assert!(inner.lookup("db/object", 1, &mut rig.cache.metrics));
    for _ in 0..4095 {
        rig.publish("db/object", b"", b"");
    }
    assert!(rig.cache.is_enabled());
    rig.publish("db/other", b"", b"");
    assert!(!rig.cache.is_enabled());
    assert!(!rig.fences["db/other"].is_active());
    assert_eq!(rig.stats().l2_errors, 1);
}

#[test]
fn too_many_fences_disable_the_cache() {
    let mut rig = Rig::new();
    let mut fence = PathFence::default();
    let inner = rig.cache.inner.as_mut().unwrap();
    for _ in 0..4096 {
        assert!(inner.begin_fence(&mut fence, &mut rig.cache.metrics).is_some());
    }
    assert!(inner.begin_fence(&mut fence, &mut rig.cache.metrics).is_none());
    assert!(!rig.cache.is_enabled());
    assert_eq!(rig.stats().l2_errors, 1);
}

#[test]
fn metered_accesses_are_counted() {
    let mut file = Metered::new(healthy(SimMedia::new()));
    file.set_len(100).unwrap();
    file.write_all_at(b"abc", 10).unwrap();
    assert_eq!(file.read_exact_at(9, 5).unwrap(), b"\0abc\0");
    assert!(file.read_exact_at(98, 5).is_err());
    assert_eq!(file.take_counts(), (5, 3));
    assert_eq!(file.take_counts(), (0, 0));
}

#[test]
fn a_capacity_without_a_container_disables_the_cache() {
    let mut file = healthy(SimMedia::new());
    let (opened, store) =
        PersistentCache::open(&mut file, CacheGeometry::compact(), 4096, "db", id(1));
    assert!(store.is_none());
    assert!(!opened.cache.is_enabled());
    assert_eq!(opened.last_sequence_point, None);
}

#[test]
fn a_full_segment_without_generations_is_exhausted() {
    let mut file = healthy(SimMedia::new());
    let (mut store, _) = open_disk(&mut file, format(id(1))).unwrap_or_else(|_| unreachable!());
    assert!(store.append(&mut file, "db/hot", b"r1", b"body", point(1)).is_ok());
    store.writer.next_generation = u64::MAX;
    // The active segment has room, so that no generation is needed.
    let mut index = 0;
    let refused = loop {
        let path = format!("db/{index}");
        match store.append(&mut file, &path, b"r1", b"body", point(2)) {
            Ok((_, started)) => assert!(!started),
            Err(error) => break error,
        }
        index += 1;
    };
    assert!(index > 0);
    assert_eq!(refused, StoreError::Format(FormatError::GenerationExhausted));

    // A promotion needs room just as well.
    let slot = store
        .current_slot(&mut file, "db/hot")
        .unwrap_or_else(|_| unreachable!())
        .unwrap();
    store.writer.promotion_tokens = slot.record_bytes;
    let (record, _) = store.lookup(&mut file, "db/hot").unwrap();
    let record = record.unwrap();
    assert_eq!(
        store.finish_promotion(&mut file, "db/hot", slot, &record),
        Err(StoreError::Format(FormatError::GenerationExhausted))
    );
    assert_eq!(store.writer.promotion_tokens, slot.record_bytes);
    store.writer.next_generation = 7;
    assert_eq!(store.finish_promotion(&mut file, "db/hot", slot, &record), Ok(Some(true)));
    assert_eq!(store.writer.promotion_tokens, 0);
}

#[test]
fn damaged_records_are_counted() {
    let mut file = healthy(SimMedia::new());
    let (mut store, _) = open_disk(&mut file, format(id(1))).unwrap_or_else(|_| unreachable!());
    let (slot, _) = store
        .append(&mut file, "db/object", b"r1", b"body", point(1))
        .unwrap_or_else(|_| unreachable!());
    let (found, damaged) = store.lookup(&mut file, "db/object").unwrap();
    assert_eq!(found.unwrap().body, b"body");
    assert_eq!(damaged, 0);
    file.write_all_at(&[0xff], slot.record_offset + RECORD_CONTENT_OFFSET).unwrap();
    let (found, damaged) = store.lookup(&mut file, "db/object").unwrap();
    assert!(found.is_none());
    assert_eq!(damaged, 1);
}

#[test]
fn only_a_damaged_newest_record_stops_a_promotion() {
    let mut file = healthy(SimMedia::new());
    let (mut store, _) = open_disk(&mut file, format(id(1))).unwrap_or_else(|_| unreachable!());
    let (mut older, _) = store
        .append(&mut file, "db/hot", b"r1", b"old", point(1))
        .unwrap_or_else(|_| unreachable!());
    let newer = loop {
        let (slot, started) = store
            .append(&mut file, "db/hot", b"r2", b"new", point(2))
            .unwrap_or_else(|_| unreachable!());
        if started {
            break slot;
        }
        older = slot;
    };
    assert!(older.generation < newer.generation);

    // The bucket holds the older slot again, beside the newer one.
    let fingerprint = store.disk.format.path_fingerprint("db/hot");
    let free = (0usize..2)
        .map(|index| container::slot_offset(&store.disk.format, fingerprint, index))
        .find(|offset| file.read_exact_at(*offset, 40).unwrap().iter().all(|byte| *byte == 0))
        .unwrap();
    file.write_all_at(&store.disk.format.encode_slot(older), free).unwrap();
    assert_eq!(store.current_slot(&mut file, "db/hot"), Ok(Some(newer)));

    let flip = |file: &mut SimFile, slot: Slot| {
        let place = slot.record_offset + RECORD_CONTENT_OFFSET;
        let mut byte = file.read_exact_at(place, 1).unwrap();
        byte[0] ^= 0xff;
        file.write_all_at(&byte, place).unwrap();
    };
    flip(&mut file, older);
    assert_eq!(store.current_slot(&mut file, "db/hot"), Ok(Some(newer)));
    assert_eq!(store.begin_promotion(&mut file, "db/hot"), Ok(None));

    flip(&mut file, older);
    flip(&mut file, newer);
    let invalid = StoreError::Format(FormatError::InvalidRecord);
    assert_eq!(store.current_slot(&mut file, "db/hot"), Err(invalid));
    assert_eq!(store.begin_promotion(&mut file, "db/hot"), Err(invalid));
    let (found, damaged) = store.lookup(&mut file, "db/hot").unwrap();
    assert_eq!(found.unwrap().current_after, older.current_after);
    assert_eq!(damaged, 1);
}
