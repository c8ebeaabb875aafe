use glassdb_storage::disk_cache::admission::{
    splitmix64_mix, Admission, HitFilter, SPLITMIX64_INVERSE_1, SPLITMIX64_INVERSE_2,
};
use glassdb_storage::disk_cache::change::{PathChanges, PendingChangeLimit};
use glassdb_storage::disk_cache::fence::{FenceTracker, PathFence};
use glassdb_storage::disk_cache::format::{CacheFormat, CacheGeometry, FormatError, Layout, Slot};
use glassdb_storage::ids::DatabaseId;
use glassdb_storage::timeline::SequencePoint;

fn id(byte: u8) -> DatabaseId {
    DatabaseId::from_bytes([byte; 16])
}

fn compact_format() -> CacheFormat {
    CacheFormat::new(CacheGeometry::compact(), 2 * 1024 * 1024, "db", id(1)).unwrap()
}

#[test]
fn second_chance_filter_emits_once_on_the_second_hit_and_resets() {
    let mut filter = HitFilter::new();
    assert!(!filter.observe(42));
    assert!(filter.observe(42));
    assert!(!filter.observe(42));

    filter.note_segment_reinitialized(4);
    filter.note_segment_reinitialized(4);
    assert!(!filter.observe(42));
    assert!(filter.observe(42));
}

#[test]
fn production_minimum_is_131_mib() {
    assert!(Layout::derive(130 * 1024 * 1024, CacheGeometry::production()).is_err());
    assert!(Layout::derive(131 * 1024 * 1024, CacheGeometry::production()).is_ok());
}

#[test]
fn test_format_is_not_a_production_file() {
    let compact = CacheGeometry::compact();
    let production = CacheGeometry::production();
    assert_ne!(compact.magic, production.magic);
    assert_ne!(compact.header_domain, production.header_domain);
}

#[test]
fn record_size_is_charged_and_aligned() {
    let format = compact_format();
    assert_eq!(format.record_bytes(2, 4), Some(4096));
    assert_eq!(format.record_bytes(2, 4097), Some(4152));
}

#[test]
fn splitmix_is_the_reference_finalizer() {
    assert_eq!(splitmix64_mix(0), 0);
    // The finalizer of the reference generator after one increment from zero.
    assert_eq!(splitmix64_mix(0x9e37_79b9_7f4a_7c15), 0xe220_a839_7b1d_cdaf);
}

#[test]
fn a_record_is_read_back() {
    let format = compact_format();
    let raw = format.encode_record("db/a", b"rev", b"body", SequencePoint::from_raw(7)).unwrap();
    let record = format.decode_record("db/a", &raw).unwrap();
    assert_eq!(record.revision, b"rev");
    assert_eq!(record.body, b"body");
    assert_eq!(record.current_after.raw(), 7);
}

#[test]
fn a_record_of_another_path_or_a_damaged_one_is_refused() {
    let format = compact_format();
    let raw = format.encode_record("db/a", b"rev", b"body", SequencePoint::from_raw(7)).unwrap();
    assert!(format.decode_record("db/b", &raw).is_err());
    for at in [0, 9, 20, 47, 48, 52] {
        let mut damaged = raw.clone();
        damaged[at] ^= 1;
        assert!(format.decode_record("db/a", &damaged).is_err(), "byte {at}");
    }
}

#[test]
fn headers_and_markers_are_read_back() {
    let format = compact_format();
    let header = format.encode_file_header();
    assert!(format.file_header_valid(&header));
    let mut damaged = header.clone();
    damaged[3] ^= 1;
    assert!(!format.file_header_valid(&damaged));
    let other = CacheFormat::new(CacheGeometry::compact(), 2 * 1024 * 1024, "db", id(2)).unwrap();
    assert!(!other.file_header_valid(&header));

    let segment = format.encode_segment_header(9);
    assert_eq!(format.decode_segment_generation(&segment[..16]), Some(9));

    let marker = format.encode_clean_tail(Some((9, 4096)));
    assert_eq!(format.decode_clean_tail(&marker), Some((9, 4096)));
    assert_eq!(format.decode_clean_tail(&format.encode_clean_tail(None)), None);

    let slot = Slot {
        fingerprint: 11,
        generation: 3,
        record_offset: 4096,
        record_bytes: 4096,
        current_after: SequencePoint::from_raw(5),
    };
    let raw = format.encode_slot(slot);
    assert_eq!(raw.len(), 40);
    let back = format.decode_slot(&raw);
    assert_eq!(back.fingerprint, 11);
    assert_eq!(back.generation, 3);
    assert_eq!(back.current_after.raw(), 5);
}

#[test]
fn capacities_that_do_not_fit_are_refused() {
    assert!(matches!(
        Layout::derive(0, CacheGeometry::compact()),
        Err(FormatError::NoIndexBucket)
    ));
}

#[test]
fn newer_epoch_cancels_an_older_one() {
    let mut tracker = FenceTracker::new();
    let mut fence = PathFence::default();
    let older = tracker.begin(&mut fence).unwrap();
    assert!(older.is_current(&fence));
    let newer = tracker.begin(&mut fence).unwrap();
    assert!(!older.is_current(&fence));
    assert!(newer.is_current(&fence));
    tracker.end(&mut fence, older);
    assert!(fence.is_active());
    tracker.end(&mut fence, newer);
    assert!(!fence.is_active());
}

#[test]
fn pending_changes_are_counted() {
    let mut limit = PendingChangeLimit::new();
    let mut changes = PathChanges::default();
    let first = limit.begin(&mut changes).unwrap();
    assert_eq!(limit.pending_count(), 1);
    assert!(changes.is_pending());
    limit.end(&mut changes, first);
    assert_eq!(limit.pending_count(), 0);
    assert!(!changes.is_pending());
}

#[test]
fn payload_reservations_are_bounded() {
    let mut admission = Admission::new();
    assert!(admission.reserve_payload(67_108_864));
    assert!(!admission.reserve_payload(1));
    admission.release_payload(67_108_864);
    assert!(admission.reserve_payload(1));
    assert!(admission.reserve_promotion("db/a"));
    assert!(!admission.reserve_promotion("db/a"));
    admission.remove_promotion("db/a");
    assert!(admission.reserve_promotion("db/a"));
}

#[test]
fn mixing_can_be_undone() {
    for value in [0, 1, 0x0123_4567_89ab_cdef, u64::MAX] {
        let mixed = splitmix64_mix(value);
        let d = mixed ^ (mixed >> 31) ^ (mixed >> 62);
        let c = d.wrapping_mul(SPLITMIX64_INVERSE_2);
        let b = c ^ (c >> 27) ^ (c >> 54);
        let a = b.wrapping_mul(SPLITMIX64_INVERSE_1);
        assert_eq!(a ^ (a >> 30) ^ (a >> 60), value);
    }
}
