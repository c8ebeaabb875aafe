use std::sync::Arc;

use glassdb_storage::cache_stats::{CacheMetrics, CacheStats};
use glassdb_storage::entry::SharedCache;
use glassdb_storage::error::{BackendError, StorageError};
use glassdb_storage::global::{Global, GlobalRead, ReadPlan, ReadReply};
use glassdb_storage::ids::TxId;
use glassdb_storage::local::Local;
use glassdb_storage::lock::{
    lock_type_from_proto, lock_type_to_proto, ExclusiveGate, LockStateError, LockType,
    SharedExclusiveLock,
};
use glassdb_storage::locker::{plan_lock_update, unlock_create_uncommitted, LockAction, LockUpdate};
use glassdb_storage::timeline::{CurrentnessBarrier, Requirement, SequencePoint, Timeline};
use glassdb_storage::version::Version;

fn version(token: &str) -> Version {
    Version::of_backend(token.to_string())
}

fn tx(byte: u8) -> TxId {
    TxId::from_bytes(vec![byte])
}

#[test]
fn a_written_value_is_read_until_it_is_stale() {
    let mut local = Local::new(1 << 20);
    assert!(local.read("k", 0, None).is_none());
    local.write("k", Arc::new(b"a".to_vec()), version("v1"), 100);
    let read = local.read("k", 150, Some(50)).unwrap();
    assert_eq!(read.value.as_slice(), b"a");
    assert!(read.version.equal_contents(&version("v1")));
    assert!(!read.deleted && !read.outdated);
    assert!(local.read("k", 151, Some(50)).is_none());
    assert!(local.read("k", 151, None).is_some());
}

#[test]
fn only_the_named_version_is_marked_outdated() {
    let mut local = Local::new(1 << 20);
    local.write("k", Arc::new(b"a".to_vec()), version("v1"), 1);
    local.mark_value_outdated("k", &version("v0"));
    assert!(!local.read("k", 1, None).unwrap().outdated);
    local.mark_value_outdated("k", &version("v1"));
    assert!(local.read("k", 1, None).unwrap().outdated);
}

#[test]
fn a_deletion_is_remembered_until_the_entry_is_dropped() {
    let mut local = Local::new(1 << 20);
    local.mark_deleted("k", version("v1"), 1);
    let read = local.read("k", 1, None).unwrap();
    assert!(read.deleted);
    assert!(read.value.is_empty());
    local.delete("k");
    assert!(local.read("k", 1, None).is_none());
}

#[test]
fn a_cached_copy_is_checked_and_an_unknown_object_is_fetched() {
    let mut global = Global::new(Local::new(1 << 20));
    assert!(matches!(global.plan_read("k", 1), ReadPlan::Fetch));
    let reply = ReadReply { contents: b"a".to_vec(), token: "v1".to_string() };
    let read = global.finish_fetch("k", Ok(reply), 1).unwrap();
    assert_eq!(read.value.as_slice(), b"a");

    let copy = match global.plan_read("k", 2) {
        ReadPlan::Check(copy) => copy,
        ReadPlan::Fetch => panic!("the copy is cached"),
    };
    assert_eq!(copy.version.token, "v1");
    let same = global.finish_check("k", copy, Err(BackendError::Precondition), 2).unwrap();
    assert_eq!(same.value.as_slice(), b"a");
    let reply = ReadReply { contents: b"b".to_vec(), token: "v2".to_string() };
    let newer = global.finish_check("k", same, Ok(reply), 3).unwrap();
    assert_eq!(newer.value.as_slice(), b"b");
    assert_eq!(newer.version.token, "v2");
}

#[test]
fn failed_reads_and_writes_change_nothing() {
    let mut global = Global::new(Local::new(1 << 20));
    let fetched = global.finish_fetch("k", Err(BackendError::NotFound), 1);
    assert!(matches!(fetched, Err(StorageError::NotFound)));
    let value = Arc::new(b"a".to_vec());
    let refused = global.finish_write("k", value.clone(), Err(BackendError::Precondition), 1);
    assert_eq!(refused, Err(StorageError::Precondition));
    assert!(matches!(global.plan_read("k", 1), ReadPlan::Fetch));

    let written = global.finish_write("k", value, Ok("v1".to_string()), 1);
    assert_eq!(written, Ok("v1".to_string()));
    let copy = GlobalRead { value: Arc::new(Vec::new()), version: version("v0") };
    let checked = global.finish_check("k", copy, Err(BackendError::NotFound), 2);
    assert!(matches!(checked, Err(StorageError::NotFound)));
    assert!(matches!(global.plan_read("k", 1), ReadPlan::Check(_)));
    assert_eq!(
        global.finish_delete("k", Err(BackendError::Precondition)),
        Err(StorageError::Precondition)
    );
    assert!(matches!(global.plan_read("k", 1), ReadPlan::Check(_)));
    assert_eq!(global.finish_delete("k", Ok(())), Ok(()));
    assert!(matches!(global.plan_read("k", 1), ReadPlan::Fetch));
}

#[test]
fn versions_name_contents_by_their_token() {
    assert!(version("").is_unset());
    assert!(!version("v").is_unset());
    let written = Version { token: "v".to_string(), writer: tx(1) };
    assert!(written.equal_contents(&version("v")));
    assert!(!written.equal_contents(&version("w")));
}

#[test]
fn points_of_a_timeline_ascend() {
    let mut timeline = Timeline::starting_after(SequencePoint::from_raw(41));
    assert_eq!(timeline.now(7).raw(), 42);
    assert_eq!(timeline.now(100).raw(), 100);
    assert_eq!(timeline.now(100).raw(), 101);
    assert_eq!(timeline.approximate_cutoff(100, 30).raw(), 70);
    assert_eq!(timeline.approximate_cutoff(100, 130).raw(), 0);
    let later = SequencePoint::from_raw(3).later(SequencePoint::from_raw(9));
    assert_eq!(later.raw(), 9);
}

#[test]
fn requirements_are_met_by_late_enough_evidence() {
    let at = |raw| Requirement::AtLeast(SequencePoint::from_raw(raw));
    assert!(Requirement::Any.is_satisfied_by(SequencePoint::from_raw(0)));
    assert!(at(5).is_satisfied_by(SequencePoint::from_raw(5)));
    assert!(!at(5).is_satisfied_by(SequencePoint::from_raw(4)));
    assert_eq!(at(5).stricter(at(7)), at(7));
    assert_eq!(at(5).stricter(Requirement::Any), at(5));
    let barrier = CurrentnessBarrier::at(SequencePoint::from_raw(5));
    assert!(barrier.is_reached_by(SequencePoint::from_raw(5)));
    assert!(!barrier.is_reached_by(SequencePoint::from_raw(4)));
}

#[test]
fn counters_are_summed_and_reset() {
    let mut metrics = CacheMetrics::new();
    metrics.l1_hit();
    metrics.l1_miss();
    metrics.l1_miss();
    metrics.l2_hit();
    metrics.l2_miss();
    metrics.l2_read(10);
    metrics.l2_write(20);
    metrics.l2_conditional_validation();
    metrics.l2_error();
    metrics.l2_errors(2);
    let first = metrics.snapshot_and_reset();
    assert_eq!(first.l1_hits, 1);
    assert_eq!(first.l1_misses, 2);
    assert_eq!(first.l2_hits, 1);
    assert_eq!(first.l2_misses, 1);
    assert_eq!(first.l2_bytes_read, 10);
    assert_eq!(first.l2_bytes_written, 20);
    assert_eq!(first.l2_conditional_validations, 1);
    assert_eq!(first.l2_errors, 3);
    assert_eq!(metrics.snapshot_and_reset().l1_misses, 0);

    let mut total = CacheStats::default();
    total.add_assign(first);
    total.add_assign(first);
    assert_eq!(total.l1_misses, 4);
    let back = first.sub(total);
    assert_eq!(back.l1_misses, 0);
    assert_eq!(total.sub(first).l2_errors, 3);
    assert_eq!(SharedCache::new(77).max_size_b(), 77);
}

#[test]
fn lock_numbers_are_stable() {
    for (typ, number) in [
        (LockType::Unknown, 0),
        (LockType::NoLock, 1),
        (LockType::Read, 2),
        (LockType::Write, 3),
        (LockType::Create, 4),
    ] {
        assert_eq!(lock_type_to_proto(typ), number);
        assert_eq!(lock_type_from_proto(number), typ);
    }
    assert_eq!(lock_type_from_proto(9), LockType::Unknown);
}

#[test]
fn locks_of_the_wire_have_a_valid_shape() {
    let twice = SharedExclusiveLock::from_wire(2, vec![vec![1], vec![1]]);
    assert_eq!(twice.err(), Some(LockStateError::DuplicateHolder));
    let two_writers = SharedExclusiveLock::from_wire(3, vec![vec![1], vec![2]]);
    assert_eq!(two_writers.err(), Some(LockStateError::InvalidShape));
    let readers = SharedExclusiveLock::from_wire(2, vec![vec![2], vec![1]]).unwrap();
    assert_eq!(readers.lock_type(), LockType::Read);
    assert_eq!(readers.holders(), &vec![tx(1), tx(2)]);
    let shared_gate = ExclusiveGate::from_wire(2, vec![vec![1]]);
    assert_eq!(shared_gate.err(), Some(LockStateError::InvalidShape));
}

#[test]
fn a_writer_takes_the_place_of_readers() {
    let mut lock = SharedExclusiveLock::default();
    assert!(lock.is_empty());
    lock.add_reader(tx(2));
    lock.add_reader(tx(1));
    assert!(lock.contains(&tx(1)));
    lock.set_writer(tx(3));
    assert_eq!(lock.lock_type(), LockType::Write);
    assert_eq!(lock.holders(), &vec![tx(3)]);
    assert!(!lock.remove(&tx(1)));
    assert!(lock.remove(&tx(3)));
    assert_eq!(lock.lock_type(), LockType::NoLock);
}

#[test]
fn an_update_of_a_missing_object_is_planned() {
    let update = |typ, prev_type| LockUpdate { typ, prev_type, ..LockUpdate::default() };
    assert!(matches!(
        plan_lock_update(&unlock_create_uncommitted(), true),
        Ok(LockAction::Delete)
    ));
    assert!(matches!(
        plan_lock_update(&update(LockType::NoLock, LockType::Read), true),
        Ok(LockAction::Keep)
    ));
    assert!(matches!(
        plan_lock_update(&update(LockType::Read, LockType::NoLock), true),
        Err(StorageError::NotFound)
    ));
    assert!(matches!(
        plan_lock_update(&update(LockType::Create, LockType::NoLock), true),
        Ok(LockAction::Create { .. })
    ));
    assert!(matches!(
        plan_lock_update(&update(LockType::Read, LockType::NoLock), false),
        Ok(LockAction::SetTags { .. })
    ));
    assert!(matches!(
        plan_lock_update(&update(LockType::Unknown, LockType::NoLock), false),
        Err(StorageError::Other { .. })
    ));
}
