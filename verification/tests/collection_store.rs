use glassdb_storage::collection_store::CollectionRecord;
use glassdb_storage::ids::{CollectionId, TxId, MAX_COLLECTION_NAME_BYTES};

fn collection_id(byte: u8) -> CollectionId {
    CollectionId::from_slice(&[byte; 16]).unwrap()
}

#[test]
fn collection_store_round_trip() {
    let mut record = CollectionRecord::new();
    record
        .add_child(b"users".to_vec(), collection_id(1))
        .unwrap();
    record
        .add_child(b"settings".to_vec(), collection_id(2))
        .unwrap();

    let decoded = CollectionRecord::decode(&record.encode()).unwrap();
    assert_eq!(decoded, record);
}

#[test]
fn lifecycle_coordination_round_trips() {
    let directory_reader = TxId::from_bytes(vec![1]);
    let freeze = TxId::from_bytes(vec![2]);
    let participant = TxId::from_bytes(vec![3]);
    let mut record = CollectionRecord::new();
    record.add_directory_reader(directory_reader.clone());
    record.advance_directory_version();
    assert!(record.set_topology_freeze(freeze.clone()));
    assert!(record.add_topology_participant(freeze.clone()));

    let decoded = CollectionRecord::decode(&record.encode()).unwrap();
    assert_eq!(decoded.directory_version(), 1);
    assert!(decoded.directory_lock().contains(&directory_reader));
    assert_eq!(decoded.topology_freeze(), Some(&freeze));
    assert!(decoded
        .topology_participants()
        .iter()
        .any(|holder| holder == &freeze));
    let mut unfrozen = CollectionRecord::new();
    assert!(unfrozen.add_topology_participant(participant.clone()));
    assert!(unfrozen
        .topology_participants()
        .iter()
        .any(|holder| holder == &participant));
}

#[test]
fn collection_store_empty_round_trip() {
    let record = CollectionRecord::new();
    let decoded = CollectionRecord::decode(&record.encode()).unwrap();
    assert_eq!(decoded, record);
    assert_eq!(decoded.children().len(), 0);
}

#[test]
fn collection_store_child_directory_ops() {
    let mut record = CollectionRecord::new();
    assert!(record.add_child(b"a".to_vec(), collection_id(1)).unwrap());
    assert!(!record.add_child(b"a".to_vec(), collection_id(2)).unwrap());
    assert_eq!(record.child(b"a"), Some(collection_id(1)));
    assert_eq!(record.child(b"missing"), None);
    assert_eq!(record.remove_child(b"a"), Some(collection_id(1)));
    assert_eq!(record.remove_child(b"a"), None);
}

#[test]
fn collection_store_invalid_child_bindings_are_rejected_before_encoding() {
    let mut record = CollectionRecord::new();
    assert!(record.add_child(Vec::new(), collection_id(1)).is_err());
    assert!(record
        .add_child(vec![0; MAX_COLLECTION_NAME_BYTES + 1], collection_id(1))
        .is_err());
    assert!(record
        .add_child(b"root".to_vec(), CollectionId::root())
        .is_err());
    assert_eq!(record.children().len(), 0);
}

#[test]
fn collection_store_children_iterate_sorted() {
    let mut record = CollectionRecord::new();
    record.add_child(b"c".to_vec(), collection_id(3)).unwrap();
    record.add_child(b"a".to_vec(), collection_id(1)).unwrap();
    record.add_child(b"b".to_vec(), collection_id(2)).unwrap();
    let names: Vec<&[u8]> = record.children().iter().map(|c| c.name.as_slice()).collect();
    assert_eq!(names, vec![b"a".as_slice(), b"b", b"c"]);
}

#[test]
fn collection_store_encoding_is_canonical_regardless_of_input_order() {
    let mk = |order: &[&[u8]]| {
        let mut r = CollectionRecord::new();
        for (i, n) in order.iter().enumerate() {
            r.add_child(n.to_vec(), collection_id(n[0] + i as u8))
                .unwrap();
        }
        r
    };
    let a = mk(&[b"c", b"a", b"b"]);
    let b = {
        let mut record = CollectionRecord::new();
        record
            .add_child(b"a".to_vec(), collection_id(b'a' + 1))
            .unwrap();
        record
            .add_child(b"b".to_vec(), collection_id(b'b' + 2))
            .unwrap();
        record
            .add_child(b"c".to_vec(), collection_id(b'c'))
            .unwrap();
        record
    };
    assert_eq!(a.encode(), b.encode());
}

// Golden vector: a fixed value must always encode to these exact bytes.
// Changing the on-disk format must break this test.
#[test]
fn collection_store_golden_encoding() {
    let mut record = CollectionRecord::new();
    record
        .add_child(b"users".to_vec(), collection_id(1))
        .unwrap();
    let got = record.encode();
    let want = [
        0x0a, 0x19, 0x0a, 0x05, 0x75, 0x73, 0x65, 0x72, 0x73, 0x12, 0x10, 0x01, 0x01, 0x01,
        0x01, 0x01, 0x01, 0x01, 0x01, 0x01, 0x01, 0x01, 0x01, 0x01, 0x01, 0x01, 0x01,
    ];
    assert_eq!(record.encoded_len(), got.len());
    assert_eq!(got, want, "encoding drifted: {got:02x?}");
}

#[test]
fn a_freeze_admits_no_other_transaction() {
    let freeze = TxId::from_bytes(vec![2]);
    let other = TxId::from_bytes(vec![3]);
    let mut record = CollectionRecord::new();
    assert!(record.set_topology_freeze(freeze.clone()));
    assert!(!record.set_topology_freeze(other.clone()));
    assert!(!record.remove_topology_freeze(&other));
    assert!(record.remove_topology_freeze(&freeze));
    assert!(record.set_topology_freeze(other));
}

#[test]
fn truncated_records_are_refused() {
    let mut record = CollectionRecord::new();
    record.add_child(b"users".to_vec(), collection_id(1)).unwrap();
    let raw = record.encode();
    for cut in 1..raw.len() {
        assert!(CollectionRecord::decode(&raw[..cut]).is_err());
    }
}
