use glassdb_storage::error::StorageError;
use glassdb_storage::ids::TxId;
use glassdb_storage::lock::LockType;
use glassdb_storage::locker::{
    compute_lock_update, lock_tags, lock_type_to_tag, plan_lock_update, tags_lock_info, tid_to_tag,
    unlock_create_uncommitted, LockAction, LockInfo, LockRequest, LockUpdate, TValue, Tags,
    TxCommitStatus, TxPathState,
};

fn tx(n: u8) -> TxId {
    TxId::from_bytes(vec![n])
}

fn final_states(ids: &[(u8, TxCommitStatus)]) -> Vec<TxPathState> {
    ids.iter()
        .map(|(n, s)| TxPathState {
            tx: tx(*n),
            status: *s,
            value: TValue::default(),
        })
        .collect()
}

#[test]
fn read_lock_on_unlocked() {
    let curr = LockInfo {
        typ: LockType::NoLock,
        ..Default::default()
    };
    let req = LockRequest {
        typ: LockType::Read,
        lockers: vec![tx(1)],
        unlockers: vec![],
    };
    let ops = compute_lock_update(curr, &req, &vec![]).unwrap();
    assert!(ops.has_update);
    assert_eq!(ops.update.typ, LockType::Read);
    assert_eq!(ops.update.lockers, vec![tx(1)]);
    assert_eq!(ops.locked_for, vec![tx(1)]);
}

#[test]
fn write_lock_waits_for_existing_reader() {
    let curr = LockInfo {
        typ: LockType::Read,
        locked_by: vec![tx(2)],
        ..Default::default()
    };
    let req = LockRequest {
        typ: LockType::Write,
        lockers: vec![tx(1)],
        unlockers: vec![],
    };
    let txs = final_states(&[(2, TxCommitStatus::Pending)]);
    let ops = compute_lock_update(curr, &req, &txs).unwrap();
    assert_eq!(ops.wait_for, vec![tx(2)]);
    assert!(!ops.has_update);
}

#[test]
fn read_to_write_upgrade_for_sole_reader() {
    let curr = LockInfo {
        typ: LockType::Read,
        locked_by: vec![tx(1)],
        ..Default::default()
    };
    let req = LockRequest {
        typ: LockType::Write,
        lockers: vec![tx(1)],
        unlockers: vec![],
    };
    let txs = final_states(&[(1, TxCommitStatus::Pending)]);
    let ops = compute_lock_update(curr, &req, &txs).unwrap();
    assert!(ops.has_update);
    assert_eq!(ops.update.typ, LockType::Write);
    assert_eq!(ops.update.lockers, vec![tx(1)]);
}

#[test]
fn unlock_committed_writer_records_value() {
    let curr = LockInfo {
        typ: LockType::Write,
        locked_by: vec![tx(1)],
        ..Default::default()
    };
    let req = LockRequest {
        typ: LockType::Unknown,
        lockers: vec![],
        unlockers: vec![tx(1)],
    };
    let txs = vec![TxPathState {
        tx: tx(1),
        status: TxCommitStatus::Committed,
        value: TValue {
            value: b"v".to_vec(),
            deleted: false,
            not_written: false,
        },
    }];
    // Empty lockers => unlock-only path.
    let ops = compute_lock_update(curr, &req, &txs).unwrap();
    assert!(ops.has_update);
    assert_eq!(ops.update.typ, LockType::NoLock);
    assert_eq!(ops.update.writer, tx(1));
    assert_eq!(ops.update.value.value, b"v");
    assert_eq!(ops.unlocked_for, vec![tx(1)]);
}

#[test]
fn create_lock_no_wait() {
    let curr = LockInfo {
        typ: LockType::NoLock,
        ..Default::default()
    };
    let req = LockRequest {
        typ: LockType::Create,
        lockers: vec![tx(1)],
        unlockers: vec![],
    };
    let ops = compute_lock_update(curr, &req, &vec![]).unwrap();
    assert!(ops.has_update);
    assert_eq!(ops.update.typ, LockType::Create);
    assert!(ops.wait_for.is_empty());
}

#[test]
fn tags_round_trip() {
    let mut update = LockUpdate {
        typ: LockType::Read,
        lockers: vec![tx(1), tx(2)],
        ..Default::default()
    };
    update.writer = tx(3);
    // Build the tags the way a lock update would.
    let mut tags = Tags::new();
    tags.insert(
        "lock-type".to_string(),
        lock_type_to_tag(update.typ).unwrap().to_string(),
    );
    tags.insert(
        "locked-by".to_string(),
        update
            .lockers
            .iter()
            .map(tid_to_tag)
            .collect::<Vec<_>>()
            .join(","),
    );
    tags.insert("last-writer".to_string(), tid_to_tag(&update.writer));

    let info = tags_lock_info(&tags).unwrap();
    assert_eq!(info.typ, LockType::Read);
    assert_eq!(info.locked_by, vec![tx(1), tx(2)]);
    assert_eq!(info.last_writer, tx(3));
}

// Builds a deterministic TxId whose priority follows `secs`: a smaller
// `secs` is older (higher priority).
fn mk_tid(secs: u64, name: &[u8]) -> TxId {
    TxId::with_priority(secs * 1_000_000_000, name)
}

fn pending(ids: &[TxId]) -> Vec<TxPathState> {
    ids.iter()
        .map(|id| TxPathState {
            tx: id.clone(),
            status: TxCommitStatus::Pending,
            value: TValue::default(),
        })
        .collect()
}

struct Case {
    name: &'static str,
    curr: LockInfo,
    req: LockRequest,
    txs: Vec<TxPathState>,
    want_wound: Vec<TxId>,
    want_wait_for: Vec<TxId>,
}

#[test]
fn compute_lock_update_wound_wait() {
    let older = mk_tid(100, b"old");
    let younger = mk_tid(200, b"new");
    let holder = mk_tid(150, b"hold");

    let cases = vec![
        Case {
            name: "write requester older than write holder wounds it",
            curr: LockInfo {
                typ: LockType::Write,
                locked_by: vec![younger.clone()],
                ..Default::default()
            },
            req: LockRequest {
                typ: LockType::Write,
                lockers: vec![older.clone()],
                unlockers: vec![],
            },
            txs: pending(std::slice::from_ref(&younger)),
            want_wound: vec![younger.clone()],
            want_wait_for: vec![],
        },
        Case {
            name: "write requester younger than write holder waits",
            curr: LockInfo {
                typ: LockType::Write,
                locked_by: vec![older.clone()],
                ..Default::default()
            },
            req: LockRequest {
                typ: LockType::Write,
                lockers: vec![younger.clone()],
                unlockers: vec![],
            },
            txs: pending(std::slice::from_ref(&older)),
            want_wound: vec![],
            want_wait_for: vec![older.clone()],
        },
        Case {
            name: "read requester older than write holder wounds it",
            curr: LockInfo {
                typ: LockType::Write,
                locked_by: vec![younger.clone()],
                ..Default::default()
            },
            req: LockRequest {
                typ: LockType::Read,
                lockers: vec![older.clone()],
                unlockers: vec![],
            },
            txs: pending(std::slice::from_ref(&younger)),
            want_wound: vec![younger.clone()],
            want_wait_for: vec![],
        },
        Case {
            name: "read requester younger than write holder waits",
            curr: LockInfo {
                typ: LockType::Write,
                locked_by: vec![older.clone()],
                ..Default::default()
            },
            req: LockRequest {
                typ: LockType::Read,
                lockers: vec![younger.clone()],
                unlockers: vec![],
            },
            txs: pending(std::slice::from_ref(&older)),
            want_wound: vec![],
            want_wait_for: vec![older.clone()],
        },
        Case {
            name: "write requester partitions mixed read holders",
            curr: LockInfo {
                typ: LockType::Read,
                locked_by: vec![older.clone(), younger.clone()],
                ..Default::default()
            },
            req: LockRequest {
                typ: LockType::Write,
                lockers: vec![holder.clone()],
                unlockers: vec![],
            },
            txs: pending(&[older.clone(), younger.clone()]),
            want_wound: vec![younger.clone()],
            want_wait_for: vec![older.clone()],
        },
        Case {
            name: "requester does not wound itself among readers",
            curr: LockInfo {
                typ: LockType::Read,
                locked_by: vec![older.clone(), younger.clone()],
                ..Default::default()
            },
            req: LockRequest {
                typ: LockType::Write,
                lockers: vec![younger.clone()],
                unlockers: vec![],
            },
            txs: pending(&[older.clone(), younger.clone()]),
            want_wound: vec![],
            want_wait_for: vec![older.clone(), younger.clone()],
        },
    ];

    for c in cases {
        let ops = compute_lock_update(c.curr, &c.req, &c.txs).unwrap();
        assert_eq!(ops.wound, c.want_wound, "{}: wound", c.name);
        assert_eq!(ops.wait_for, c.want_wait_for, "{}: wait_for", c.name);
        // Conflicts never produce a storage update.
        assert!(!ops.has_update, "{}: has_update", c.name);
        assert!(ops.locked_for.is_empty(), "{}: locked_for", c.name);
    }
}

#[test]
fn tags_of_transactions_are_base64() {
    assert_eq!(tid_to_tag(&TxId::from_bytes(vec![1])), "AQ==");
    assert_eq!(tid_to_tag(&TxId::from_bytes(b"glass".to_vec())), "Z2xhc3M=");
}

#[test]
fn lock_types_have_one_letter_tags() {
    assert_eq!(lock_type_to_tag(LockType::Read).unwrap(), "r");
    assert_eq!(lock_type_to_tag(LockType::Write).unwrap(), "w");
    assert_eq!(lock_type_to_tag(LockType::Create).unwrap(), "c");
    assert_eq!(lock_type_to_tag(LockType::NoLock).unwrap(), "-");
    assert!(lock_type_to_tag(LockType::Unknown).is_err());
}

#[test]
fn lock_tags_are_read_back() {
    let update = LockUpdate {
        typ: LockType::Read,
        lockers: vec![tx(1), tx(200), tx(3)],
        ..Default::default()
    };
    let info = tags_lock_info(&lock_tags(&update).unwrap()).unwrap();
    assert_eq!(info.typ, LockType::Read);
    assert_eq!(info.locked_by, vec![tx(1), tx(200), tx(3)]);
}

#[test]
fn unreadable_tags_are_refused() {
    let mut tags = Tags::new();
    tags.insert("lock-type".to_string(), "x".to_string());
    assert!(matches!(tags_lock_info(&tags), Err(StorageError::Other { .. })));

    let mut tags = Tags::new();
    tags.insert("lock-type".to_string(), "r".to_string());
    tags.insert("locked-by".to_string(), "not base64!".to_string());
    assert!(matches!(tags_lock_info(&tags), Err(StorageError::Other { .. })));
}

#[test]
fn an_uncommitted_create_is_deleted() {
    let update = unlock_create_uncommitted();
    assert!(matches!(plan_lock_update(&update, false), Ok(LockAction::Delete)));
}
