use glassdb_storage::root::CollectionRoot;
use glassdb_storage::ids::{CollectionId, TxId, MAX_COLLECTION_NAME_BYTES};
use glassdb_storage::leaf::{CurrentState, LeafBody, LeafEntry};
use glassdb_storage::node::{Node, NodeBody};

fn collection_id(byte: u8) -> CollectionId {
    CollectionId::from_slice(&[byte; 16]).unwrap()
}

#[test]
fn root_round_trip() {
    let mut record = CollectionRoot::new();
    record
        .add_child(b"users".to_vec(), collection_id(1))
        .unwrap();
    record
        .add_child(b"settings".to_vec(), collection_id(2))
        .unwrap();

    let decoded = CollectionRoot::decode(&record.encode()).unwrap();
    assert_eq!(decoded, record);
}

#[test]
fn root_empty_round_trip() {
    let root = CollectionRoot::new();
    let decoded = CollectionRoot::decode(&root.encode()).unwrap();
    assert_eq!(decoded, root);
    assert_eq!(decoded.children().len(), 0);
    // A fresh root is an empty leaf spanning the whole key space.
    assert!(matches!(decoded.node().body(), NodeBody::Leaf(s) if s.is_empty()));
}

#[test]
fn round_trip_preserves_root_node_entries() {
    // The root object carries the B-link root node; for a small collection
    // that node is a leaf holding the collection's key entries.
    let mut root = CollectionRoot::new();
    let node = Node::leaf(LeafBody::from_entries(vec![LeafEntry::new(b"apple")
        .with_current(CurrentState::External {
            writer: TxId::from_bytes(vec![1]),
        })]));
    root.set_node(node);

    let decoded = CollectionRoot::decode(&root.encode()).unwrap();
    assert_eq!(decoded, root);
    assert!(decoded.node().as_leaf().unwrap().holds_value(b"apple"));
}

#[test]
fn root_child_directory_ops() {
    let mut record = CollectionRoot::new();
    assert!(record.add_child(b"a".to_vec(), collection_id(1)).unwrap());
    assert!(!record.add_child(b"a".to_vec(), collection_id(2)).unwrap());
    assert_eq!(record.child(b"a"), Some(collection_id(1)));
    assert_eq!(record.child(b"missing"), None);
    assert_eq!(record.remove_child(b"a"), Some(collection_id(1)));
    assert_eq!(record.remove_child(b"a"), None);
}

#[test]
fn root_invalid_child_bindings_are_rejected_before_encoding() {
    let mut record = CollectionRoot::new();
    assert!(record.add_child(Vec::new(), collection_id(1)).is_err());
    assert!(record
        .add_child(vec![0; MAX_COLLECTION_NAME_BYTES + 1], collection_id(1))
        .is_err());
    assert!(record
        .add_child(b"root".to_vec(), CollectionId::root())
        .is_err());
    assert_eq!(record.children().len(), 0);
}

#[test]
fn root_children_iterate_sorted() {
    let mut record = CollectionRoot::new();
    record.add_child(b"c".to_vec(), collection_id(3)).unwrap();
    record.add_child(b"a".to_vec(), collection_id(1)).unwrap();
    record.add_child(b"b".to_vec(), collection_id(2)).unwrap();
    let names: Vec<&[u8]> = record.children().iter().map(|c| c.name.as_slice()).collect();
    assert_eq!(names, vec![b"a".as_slice(), b"b", b"c"]);
}

#[test]
fn root_encoding_is_canonical_regardless_of_input_order() {
    let mk = |order: &[&[u8]]| {
        let mut r = CollectionRoot::new();
        for (i, n) in order.iter().enumerate() {
            r.add_child(n.to_vec(), collection_id(n[0] + i as u8))
                .unwrap();
        }
        r
    };
    let a = mk(&[b"c", b"a", b"b"]);
    let b = {
        let mut record = CollectionRoot::new();
        record
            .add_child(b"a".to_vec(), collection_id(b'a' + 1))
            .unwrap();
        record
            .add_child(b"b".to_vec(), collection_id(b'b' + 2))
            .unwrap();
        record
            .add_child(b"c".to_vec(), collection_id(b'c'))
            .unwrap();
        record
    };
    assert_eq!(a.encode(), b.encode());
}

// Golden vector: a fixed value must always encode to these exact bytes.
// Changing the on-disk format must break this test.
#[test]
fn root_golden_encoding() {
    let mut record = CollectionRoot::new();
    record
        .add_child(b"users".to_vec(), collection_id(1))
        .unwrap();
    let got = record.encode();
    let want = [
        0x0a, 0x02, 0x1a, 0x00, 0x12, 0x19, 0x0a, 0x05, 0x75, 0x73, 0x65, 0x72, 0x73, 0x12,
        0x10, 0x01, 0x01, 0x01, 0x01, 0x01, 0x01, 0x01, 0x01, 0x01, 0x01, 0x01, 0x01, 0x01,
        0x01, 0x01, 0x01,
    ];
    assert_eq!(record.encoded_len(), got.len());
    assert_eq!(got, want, "encoding drifted: {got:02x?}");
}

#[test]
fn duplicate_bindings_are_refused() {
    let mut root = CollectionRoot::new();
    root.add_child(b"users".to_vec(), collection_id(1)).unwrap();
    let mut raw = root.encode();
    let binding = raw[4..].to_vec();
    raw.extend(binding);
    assert!(CollectionRoot::decode(&raw).is_err());
}
