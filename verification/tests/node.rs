use glassdb_storage::ids::{NodeId, StructuralIntentId, TxId, MAX_GENERATED_TX_ID_BYTES};
use glassdb_storage::leaf::{CurrentState, LeafBody, LeafEntry};
use glassdb_storage::node::{IndexNode, Node, NodeLocks, NodeSizePolicy};

const LOCK_READ: u8 = 2;
const LOCK_WRITE: u8 = 3;
const LOCK_CREATE: u8 = 4;

/// A node ID that shows `name` in its bytes, so tests stay readable.
fn id(name: &str) -> NodeId {
    let mut bytes = [0; 16];
    bytes[..name.len()].copy_from_slice(name.as_bytes());
    NodeId::from_bytes(bytes)
}

fn intent_id(byte: u8) -> StructuralIntentId {
    StructuralIntentId::from_bytes([byte; 16])
}

fn entry(key: &[u8], writer: u8) -> LeafEntry {
    LeafEntry::new(key).with_current(CurrentState::External {
        writer: TxId::from_bytes(vec![writer]),
    })
}

fn golden_entry() -> LeafEntry {
    let mut entry = LeafEntry::new(b"Hello").with_current(CurrentState::External {
        writer: TxId::from_bytes(vec![0xaa, 0xbb]),
    });
    entry.replace_write_lock(TxId::from_bytes(vec![1, 2, 3, 4]));
    entry
}

/// A length-delimited field of a short message.
fn part(number: u8, bytes: &[u8]) -> Vec<u8> {
    let mut field = vec![number << 3 | 2, bytes.len() as u8];
    field.extend_from_slice(bytes);
    field
}

/// A small number field.
fn number(number: u8, value: u8) -> Vec<u8> {
    vec![number << 3, value]
}

fn lock(lock_type: u8, locked_by: &[&[u8]]) -> Vec<u8> {
    let mut message = number(1, lock_type);
    for holder in locked_by {
        message.extend(part(2, holder));
    }
    message
}

#[test]
fn leaf_round_trip_preserves_bounds() {
    let node = Node::leaf(LeafBody::from_entries(vec![
        entry(b"apple", 1),
        entry(b"cat", 2),
    ]))
    .with_low_key(b"a".to_vec())
    .with_high_key(Some(b"m".to_vec()))
    .with_right_sibling(Some(id("sib")));

    let decoded = Node::decode(&node.encode()).unwrap();
    assert_eq!(decoded, node);
    assert_eq!(decoded.low_key(), b"a");
    assert_eq!(decoded.high_key(), Some(b"m".as_slice()));
    assert_eq!(decoded.right_sibling(), Some(id("sib")));
    assert!(decoded.as_leaf().is_some());
}

#[test]
fn round_trip_preserves_node_locks_and_membership_generation() {
    let gate = TxId::from_bytes(vec![2]);
    let writer = TxId::from_bytes(vec![1]);
    let mut node = Node::leaf(LeafBody::new());
    node.set_structural_gate(gate.clone());
    node.set_membership_writer(writer.clone());

    let decoded = Node::decode(&node.encode()).unwrap();
    assert_eq!(decoded.structural_gate().holder(), Some(&gate));
    assert_eq!(decoded.membership_lock().holders(), &[writer]);
    assert_eq!(decoded.membership_generation(), 2);
}

#[test]
fn round_trip_preserves_merge_fields() {
    let intent = intent_id(3);
    let mut target = Node::leaf(LeafBody::from_entries(vec![entry(b"a", 1)]));
    let mut locks = target.locks().clone();
    locks.set_merge_reservation(intent);
    target.set_locks(locks);
    let decoded = Node::decode(&target.encode()).unwrap();
    assert_eq!(decoded, target);
    assert_eq!(decoded.locks().merge_reservation(), Some(&intent));

    let mut source = Node::index(IndexNode::from_children(vec![(b"".to_vec(), id("L0"))]))
        .with_high_key(Some(b"m".to_vec()));
    source.drain(id("target"));
    let decoded = Node::decode(&source.encode()).unwrap();
    assert_eq!(decoded, source);
    assert!(decoded.is_drained());
}

#[test]
fn drain_keeps_level_bounds_and_generation() {
    let gate = TxId::from_bytes(vec![2]);
    let mut source = Node::leaf(LeafBody::from_entries(vec![entry(b"a", 1)]))
        .with_high_key(Some(b"m".to_vec()))
        .with_right_sibling(Some(id("drained")));
    source.set_structural_gate(gate);
    let generation = source.membership_generation();

    source.drain(id("target"));

    assert!(source.as_leaf().is_some_and(LeafBody::is_empty));
    assert_eq!(source.high_key(), Some(b"m".as_slice()));
    assert_eq!(source.right_sibling(), Some(id("target")));
    assert!(source.structural_gate().is_empty());
    assert_eq!(source.membership_generation(), generation);
    assert!(!source.covers(b"a"));
    assert!(source.split(id("sibling")).is_none());
}

#[test]
fn absorb_takes_the_left_range_and_abandon_restores_the_target() {
    let intent = intent_id(3);
    let mut left = Node::leaf(LeafBody::from_entries(vec![entry(b"b", 1)]))
        .with_low_key(b"a".to_vec())
        .with_high_key(Some(b"m".to_vec()));
    for _ in 0..5 {
        left.locks_mut().advance_membership_generation();
    }
    let original = Node::leaf(LeafBody::from_entries(vec![entry(b"n", 2)]))
        .with_low_key(b"m".to_vec())
        .with_high_key(Some(b"t".to_vec()));
    let mut right = original.clone();

    right.absorb(&left, intent).unwrap();

    let keys: Vec<_> = right
        .as_leaf()
        .unwrap()
        .entries()
        .iter()
        .map(|e| e.key.clone())
        .collect();
    assert_eq!(keys, [b"b".to_vec(), b"n".to_vec()]);
    assert_eq!(right.low_key(), b"a");
    assert_eq!(right.high_key(), Some(b"t".as_slice()));
    assert_eq!(right.locks().merge_reservation(), Some(&intent));
    // max(g_L, g_R + 1): absence reads of the gated left range stay valid.
    assert_eq!(right.membership_generation(), 5);

    let other = intent_id(4);
    assert!(!right.clone().abandon_merge(&other, b"m"));
    assert!(right.abandon_merge(&intent, b"m"));
    assert_eq!(right.as_leaf(), original.as_leaf());
    assert_eq!(right.low_key(), b"m");
    assert_eq!(right.locks().merge_reservation(), None);
    assert_eq!(right.membership_generation(), 5);
}

#[test]
fn absorb_joins_index_children_at_one_level() {
    let intent = intent_id(3);
    let left = Node::index(IndexNode::from_children(vec![(b"".to_vec(), id("A"))]))
        .with_high_key(Some(b"m".to_vec()));
    let mut right = Node::index(IndexNode::from_children(vec![(b"m".to_vec(), id("B"))]))
        .with_low_key(b"m".to_vec());

    right.absorb(&left, intent).unwrap();
    let children: Vec<_> = right
        .as_index()
        .unwrap()
        .children()
        .iter()
        .map(|c| (c.separator.as_slice(), c.child))
        .collect();
    assert_eq!(
        children,
        [(b"".as_slice(), id("A")), (b"m".as_slice(), id("B"))]
    );
    assert_eq!(right.as_index().unwrap().child_for(b"c"), Some(id("A")));
    assert_eq!(right.membership_generation(), 1);

    let error = Node::leaf(LeafBody::new())
        .absorb(&left, intent)
        .unwrap_err();
    assert_eq!(error.message(), "merge nodes are at different levels");
}

#[test]
fn decode_rejects_drained_nodes_with_content_or_without_target() {
    let with_entries = [
        part(2, id("target").as_bytes()),
        part(3, &LeafBody::from_entries(vec![entry(b"a", 1)]).encode()),
        number(9, 1),
    ]
    .concat();
    let without_target = number(9, 1);
    for raw in [with_entries, without_target] {
        let error = Node::decode(&raw).unwrap_err();
        assert_eq!(
            error.message(),
            "drained node must have an empty body and a right sibling"
        );
    }
}

#[test]
fn decode_rejects_node_ids_that_are_not_16_bytes() {
    // IDs of the older string format have 22 bytes.
    for bad in [vec![7; 15], vec![7; 17], b"0000000000000000000000".to_vec()] {
        let index = part(4, &part(1, &part(2, &bad)));
        let sibling = part(2, &bad);
        let reservation = part(10, &bad);
        for (raw, want) in [
            (index, "index node has an invalid child ID"),
            (sibling, "node has an invalid right-sibling ID"),
            (reservation, "node has an invalid merge reservation"),
        ] {
            let error = Node::decode(&raw).unwrap_err();
            assert_eq!(error.message(), want);
        }
    }

    let empty_child = part(4, &part(1, &[]));
    let error = Node::decode(&empty_child).unwrap_err();
    assert_eq!(error.message(), "index node has an invalid child ID");
}

#[test]
fn installations_advance_the_generation_once() {
    let gate = TxId::from_bytes(vec![2]);
    let intent = intent_id(3);
    let mut locks = NodeLocks::default();

    locks.set_structural_gate(gate.clone());
    locks.set_structural_gate(gate.clone());
    assert_eq!(locks.membership_generation(), 1);
    locks.set_merge_reservation(intent);
    locks.set_merge_reservation(intent);
    assert_eq!(locks.membership_generation(), 2);

    assert!(locks.remove_structural_gate(&gate));
    assert!(locks.remove_merge_reservation(&intent));
    assert!(!locks.remove_merge_reservation(&intent));
    assert_eq!(locks.membership_generation(), 2);
}

#[test]
fn decode_rejects_invalid_structural_gate_states() {
    for gate in [
        lock(LOCK_READ, &[&[1]]),
        lock(LOCK_CREATE, &[&[1]]),
        lock(LOCK_WRITE, &[&[1], &[2]]),
    ] {
        assert!(Node::decode(&part(5, &gate)).is_err());
    }
}

#[test]
fn decode_rejects_create_membership_lock() {
    let raw = part(6, &lock(LOCK_CREATE, &[&[1]]));

    let error = Node::decode(&raw).unwrap_err();
    assert_eq!(error.message(), "node has invalid membership lock");
}

#[test]
fn decode_rejects_duplicate_node_lock_holders() {
    let raw = part(6, &lock(LOCK_READ, &[&[2], &[1], &[1]]));

    let error = Node::decode(&raw).unwrap_err();
    assert_eq!(error.message(), "node has invalid membership lock");
}

#[test]
fn membership_generation_tracks_write_lock_activity() {
    let id = TxId::from_bytes(vec![1]);
    let mut node = Node::leaf(LeafBody::new());

    node.add_membership_reader(id.clone());
    assert_eq!(node.membership_generation(), 0);
    assert!(node.remove_membership_holder(&id));
    assert_eq!(node.membership_generation(), 0);

    node.set_membership_writer(id.clone());
    assert_eq!(node.membership_generation(), 1);
    node.set_membership_writer(id.clone());
    assert_eq!(node.membership_generation(), 1);
    assert!(node.remove_membership_holder(&id));
    assert_eq!(node.membership_generation(), 2);
    assert!(!node.remove_membership_holder(&id));
    assert_eq!(node.membership_generation(), 2);

    node.locks_mut().advance_membership_generation();
    assert_eq!(node.membership_generation(), 3);

    // A node whose persisted generation is the greatest number.
    let mut raw = vec![7 << 3];
    raw.extend([0xff; 9]);
    raw.push(1);
    let mut node = Node::decode(&raw).unwrap();
    assert_eq!(node.membership_generation(), u64::MAX);
    node.set_membership_writer(id);
    assert_eq!(node.membership_generation(), 0);
}

#[test]
fn index_round_trip_and_child_lookup() {
    let index = IndexNode::from_children(vec![
        (b"".to_vec(), id("L0")),
        (b"f".to_vec(), id("L1")),
        (b"m".to_vec(), id("L2")),
    ]);
    let node = Node::index(index);
    let decoded = Node::decode(&node.encode()).unwrap();
    assert_eq!(decoded, node);

    let idx = decoded.as_index().unwrap();
    // The routed child is the greatest separator not exceeding the key.
    assert_eq!(idx.child_for(b"apple"), Some(id("L0")));
    assert_eq!(idx.child_for(b"f"), Some(id("L1")));
    assert_eq!(idx.child_for(b"kiwi"), Some(id("L1")));
    assert_eq!(idx.child_for(b"mango"), Some(id("L2")));
    // The child for keys just below a separator is the one before it.
    assert_eq!(idx.child_before(b"f"), Some(id("L0")));
    assert_eq!(idx.child_before(b"kiwi"), Some(id("L1")));
    assert_eq!(idx.child_before(b""), Some(id("L0")));
}

fn linked(high_key: &[u8], right: &str) -> Node {
    Node::leaf(LeafBody::new())
        .with_high_key(Some(high_key.to_vec()))
        .with_right_sibling(Some(id(right)))
}

fn drained(high_key: &[u8], target: &str) -> Node {
    let mut node = linked(high_key, "unused");
    node.drain(id(target));
    node
}

fn index(children: &[(&[u8], &str)]) -> IndexNode {
    IndexNode::from_children(
        children
            .iter()
            .map(|(separator, child)| (separator.to_vec(), id(child)))
            .collect(),
    )
}

#[test]
fn reconcile_adds_the_separators_of_every_live_child_on_the_path() {
    let (l0, l1, l4) = (
        linked(b"m", "L1"),
        linked(b"t", "L4"),
        Node::leaf(LeafBody::new()),
    );
    let path = [(id("L0"), &l0), (id("L1"), &l1), (id("L4"), &l4)];
    let mut parent = index(&[(b"", "L0")]);

    parent.reconcile(&path);
    let reconciled = index(&[(b"", "L0"), (b"m", "L1"), (b"t", "L4")]);
    assert_eq!(parent, reconciled);
    parent.reconcile(&path);
    assert_eq!(parent, reconciled, "reconciliation is idempotent");
}

#[test]
fn reconcile_routes_the_range_of_a_drained_child_to_its_merge_target() {
    let (source, target) = (drained(b"m", "R"), linked(b"t", "S"));
    let mut parent = index(&[(b"", "A"), (b"f", "L"), (b"m", "R"), (b"t", "S")]);

    parent.reconcile(&[(id("L"), &source), (id("R"), &target)]);
    assert_eq!(parent, index(&[(b"", "A"), (b"f", "R"), (b"t", "S")]));
}

#[test]
fn reconcile_handles_a_merge_and_an_unpublished_split_on_one_path() {
    let (source, target, split) = (
        drained(b"m", "R"),
        linked(b"t", "S"),
        Node::leaf(LeafBody::new()),
    );
    let mut parent = index(&[(b"", "L"), (b"m", "R")]);

    parent.reconcile(&[(id("L"), &source), (id("R"), &target), (id("S"), &split)]);
    assert_eq!(parent, index(&[(b"", "R"), (b"t", "S")]));
}

#[test]
fn leaf_split_moves_upper_half_and_relinks() {
    // A leaf with an existing high-key and right-sibling splits: the new
    // sibling inherits both bounds, the source is rebounded to the split key
    // and linked to the sibling.
    let mut src = Node::leaf(LeafBody::from_entries(vec![
        entry(b"apple", 1),
        entry(b"cat", 2),
        entry(b"mango", 3),
        entry(b"pear", 4),
    ]))
    .with_low_key(b"ant".to_vec())
    .with_high_key(Some(b"tiger".to_vec()))
    .with_right_sibling(Some(id("oldRight")));

    let (right, split_key) = src.split(id("newRight")).expect("splittable");
    assert_eq!(split_key, b"mango");
    assert_eq!(src.low_key(), b"ant");
    assert_eq!(right.low_key(), b"mango");

    // Source keeps the lower half, bounded by the split key, linked to the
    // new sibling.
    let src_keys: Vec<&[u8]> = src
        .as_leaf()
        .unwrap()
        .entries()
        .iter()
        .map(|e| e.key.as_slice())
        .collect();
    assert_eq!(src_keys, vec![b"apple".as_slice(), b"cat"]);
    assert_eq!(src.high_key(), Some(b"mango".as_slice()));
    assert_eq!(src.right_sibling(), Some(id("newRight")));

    // The sibling holds the upper half and inherits the source's former
    // high-key and right-sibling.
    let right_keys: Vec<&[u8]> = right
        .as_leaf()
        .unwrap()
        .entries()
        .iter()
        .map(|e| e.key.as_slice())
        .collect();
    assert_eq!(right_keys, vec![b"mango".as_slice(), b"pear"]);
    assert_eq!(right.high_key(), Some(b"tiger".as_slice()));
    assert_eq!(right.right_sibling(), Some(id("oldRight")));
}

#[test]
fn leaf_split_preserves_membership_generation_in_both_outputs() {
    let mut src = Node::leaf(LeafBody::from_entries(vec![
        entry(b"a", 1),
        entry(b"b", 2),
        entry(b"c", 3),
        entry(b"d", 4),
    ]));
    let mut locks = src.locks().clone();
    locks.advance_membership_generation();
    locks.advance_membership_generation();
    src.set_locks(locks);

    let (right, _) = src.split(id("newRight")).expect("splittable");
    assert_eq!(src.membership_generation(), 2);
    assert_eq!(right.membership_generation(), 2);
}

#[test]
fn index_split_promotes_separator_and_relinks() {
    let mut src = Node::index(IndexNode::from_children(vec![
        (b"".to_vec(), id("L0")),
        (b"f".to_vec(), id("L1")),
        (b"m".to_vec(), id("L2")),
        (b"t".to_vec(), id("L3")),
    ]));
    let (right, sep) = src.split(id("newRight")).expect("splittable");
    assert_eq!(
        sep, b"m",
        "promoted separator is the right half's low bound"
    );

    let left_seps: Vec<&[u8]> = src
        .as_index()
        .unwrap()
        .children()
        .iter()
        .map(|c| c.separator.as_slice())
        .collect();
    assert_eq!(left_seps, vec![b"".as_slice(), b"f"]);
    assert_eq!(src.high_key(), Some(b"m".as_slice()));
    assert_eq!(src.right_sibling(), Some(id("newRight")));

    let right_seps: Vec<&[u8]> = right
        .as_index()
        .unwrap()
        .children()
        .iter()
        .map(|c| c.separator.as_slice())
        .collect();
    assert_eq!(right_seps, vec![b"m".as_slice(), b"t"]);
}

#[test]
fn split_of_undersized_node_is_none() {
    assert!(
        Node::leaf(LeafBody::from_entries(vec![entry(b"only", 1)]))
            .split(id("r"))
            .is_none()
    );
    assert!(Node::leaf(LeafBody::new()).split(id("r")).is_none());
    let one_child = Node::index(IndexNode::from_children(vec![(b"".to_vec(), id("L0"))]));
    assert!(one_child.clone().split(id("r")).is_none());
}

#[test]
fn over_soft_cap_respects_policy_and_min_size() {
    let tiny = NodeSizePolicy::builder()
        .leaf_max_entries(2)
        .node_soft_max_bytes(1 << 20)
        .index_max_children(2)
        .build()
        .unwrap();
    let two = Node::leaf(LeafBody::from_entries(vec![entry(b"a", 1), entry(b"b", 2)]));
    assert!(!two.over_soft_cap(&tiny), "at the cap is not over it");
    let three = Node::leaf(LeafBody::from_entries(vec![
        entry(b"a", 1),
        entry(b"b", 2),
        entry(b"c", 3),
    ]));
    assert!(three.over_soft_cap(&tiny));
    let two_index = Node::index(IndexNode::from_children(vec![
        (b"".to_vec(), id("L0")),
        (b"m".to_vec(), id("L1")),
    ]));
    assert!(
        !two_index.over_soft_cap(&tiny),
        "index at the child cap is not over it"
    );
    let three_index = Node::index(IndexNode::from_children(vec![
        (b"".to_vec(), id("L0")),
        (b"m".to_vec(), id("L1")),
        (b"t".to_vec(), id("L2")),
    ]));
    assert!(three_index.over_soft_cap(&tiny));

    // A single oversized entry is never a candidate: it cannot be split.
    let byte_policy = NodeSizePolicy::builder()
        .leaf_max_entries(1000)
        .node_soft_max_bytes(1)
        .index_max_children(1000)
        .build()
        .unwrap();
    assert!(
        !Node::leaf(LeafBody::from_entries(vec![entry(b"solo", 1)])).over_soft_cap(&byte_policy)
    );
    for (kind, node) in [("leaf", two), ("index", two_index)] {
        let at_limit = NodeSizePolicy::builder()
            .leaf_max_entries(usize::MAX)
            .node_soft_max_bytes(node.content_encoded_len())
            .index_max_children(usize::MAX)
            .build()
            .unwrap();
        assert!(
            !node.over_soft_cap(&at_limit),
            "{kind} at the encoded-content cap is not over it"
        );
        assert!(
            node.over_soft_cap(
                &NodeSizePolicy::builder()
                    .leaf_max_entries(usize::MAX)
                    .node_soft_max_bytes(at_limit.node_soft_max_bytes() - 1)
                    .index_max_children(usize::MAX)
                    .build()
                    .unwrap(),
            ),
            "{kind} one byte over the encoded-content cap splits"
        );
    }
}

#[test]
fn exact_entry_split_budget_is_half_the_content_limit() {
    let exact_headroom = NodeSizePolicy::builder()
        .node_max_bytes(128)
        .split_headroom_bytes(128)
        .build()
        .unwrap();
    assert_eq!(exact_headroom.content_limit(), 0);
    assert!(
        NodeSizePolicy::builder()
            .node_max_bytes(128)
            .split_headroom_bytes(129)
            .build()
            .is_err()
    );

    let entry = entry(b"boundary", 1);
    let entry_len = Node::leaf(LeafBody::from_entries(vec![entry.clone()])).content_encoded_len();
    let admitting = NodeSizePolicy::builder()
        .node_max_bytes(entry_len * 2)
        .split_headroom_bytes(0)
        .build()
        .unwrap();
    assert!(admitting.entry_fits_split_budget(&entry));

    let rejecting = NodeSizePolicy::builder()
        .node_max_bytes(entry_len * 2 - 1)
        .split_headroom_bytes(0)
        .build()
        .unwrap();
    assert!(!rejecting.entry_fits_split_budget(&entry));
}

#[test]
fn maximum_key_admission_matches_real_nodes_at_the_exact_limit() {
    let maximum_key = vec![b'k'; 128];
    let writer = TxId::with_priority(7, b"maximum");
    let mut entry = LeafEntry::new(&maximum_key).with_current(CurrentState::External {
        writer: writer.clone(),
    });
    entry.replace_write_lock(writer);
    let leaf = Node::leaf(LeafBody::from_entries(vec![entry]));

    let parent = Node::index(IndexNode::from_children(vec![
        (Vec::new(), id("L0")),
        (maximum_key.clone(), id("L1")),
    ]));
    assert_eq!(parent.as_index().unwrap().len(), 2);

    let leaf_requirement = leaf
        .content_encoded_len()
        .checked_mul(2)
        .expect("test leaf size fits usize");
    let required_limit = leaf_requirement.max(parent.content_encoded_len());
    let headroom = 17;
    let exact = NodeSizePolicy::builder()
        .node_max_bytes(
            required_limit
                .checked_add(headroom)
                .expect("test node size fits usize"),
        )
        .split_headroom_bytes(headroom)
        .build()
        .unwrap();
    assert_eq!(exact.content_limit(), required_limit);
    assert!(exact.key_fits(&maximum_key));

    let parent_limit = parent.content_encoded_len();
    let parent_exact = NodeSizePolicy::builder()
        .node_max_bytes(parent_limit)
        .split_headroom_bytes(0)
        .build()
        .unwrap();
    assert!(parent_exact.parent_separator_fits(&maximum_key));
    assert!(
        !NodeSizePolicy::builder()
            .node_max_bytes(parent_limit - 1)
            .split_headroom_bytes(0)
            .build()
            .unwrap()
            .parent_separator_fits(&maximum_key)
    );

    let one_byte_over = NodeSizePolicy::builder()
        .node_max_bytes(exact.node_max_bytes() - 1)
        .split_headroom_bytes(headroom)
        .build()
        .unwrap();
    assert_eq!(one_byte_over.content_limit(), required_limit - 1);
    assert!(!one_byte_over.key_fits(&maximum_key));

    let mut above_maximum = maximum_key;
    above_maximum.push(b'k');
    assert!(!exact.key_fits(&above_maximum));
}

#[test]
fn covers_reflects_high_key() {
    let plus_inf = Node::leaf(LeafBody::new());
    assert!(plus_inf.covers(b"anything"));

    let bounded = Node::leaf(LeafBody::new()).with_high_key(Some(b"m".to_vec()));
    assert!(bounded.covers(b"apple"));
    // The high-key is an exclusive upper bound.
    assert!(!bounded.covers(b"m"));
    assert!(!bounded.covers(b"zebra"));

    let mut drained = Node::leaf(LeafBody::new());
    drained.drain(id("target"));
    assert!(!drained.covers(b""));
    assert!(!drained.covers(b"anything"));
}

#[test]
fn a_key_below_the_low_key_marks_a_copy_older_than_a_merge() {
    let node = Node::leaf(LeafBody::new()).with_low_key(b"f".to_vec());
    assert!(node.is_below_range(b"a"));
    assert!(!node.is_below_range(b"f"));
    assert!(!node.is_below_range(b"z"));
    assert!(!Node::leaf(LeafBody::new()).is_below_range(b""));
}

#[test]
fn node_encoding_is_canonical_regardless_of_input_order() {
    let a = Node::index(IndexNode::from_children(vec![
        (b"m".to_vec(), id("L2")),
        (b"".to_vec(), id("L0")),
        (b"f".to_vec(), id("L1")),
    ]));
    let b = Node::index(IndexNode::from_children(vec![
        (b"".to_vec(), id("L0")),
        (b"f".to_vec(), id("L1")),
        (b"m".to_vec(), id("L2")),
    ]));
    assert_eq!(a.encode(), b.encode());
}

#[test]
fn codec_size_predictions_match_varint_boundaries() {
    let writer = TxId::from_bytes(vec![0; MAX_GENERATED_TX_ID_BYTES]);
    let child = id("child");

    for key_len in [
        0, 1, 81, 82, 83, 84, 127, 128, 16_335, 16_336, 16_338, 16_339, 16_383, 16_384,
    ] {
        let mut entry =
            LeafEntry::new(&vec![b'k'; key_len]).with_current(CurrentState::External {
                writer: writer.clone(),
            });
        entry.replace_write_lock(writer.clone());
        let actual = Node::leaf(LeafBody::from_entries(vec![entry.clone()])).content_encoded_len();

        assert_eq!(
            Node::leaf_entry_content_encoded_len(&entry),
            actual,
            "exact leaf entry with {key_len}-byte key"
        );
        assert_eq!(
            Node::worst_case_leaf_entry_len(key_len),
            actual,
            "worst-case leaf entry with {key_len}-byte key"
        );
    }

    for key_len in [
        0, 1, 85, 86, 107, 108, 127, 128, 16_339, 16_340, 16_362, 16_363, 16_383, 16_384,
    ] {
        let actual = Node::index(IndexNode::from_children(vec![
            (Vec::new(), child),
            (vec![b'k'; key_len], child),
        ]))
        .content_encoded_len();

        assert_eq!(
            Node::worst_case_parent_separator_len(key_len),
            actual,
            "parent separator with {key_len}-byte key"
        );
    }
}

#[test]
fn empty_body_decodes_as_empty_leaf() {
    // A persisted node with no body is a fresh empty root.
    let node = Node::decode(&[]).unwrap();
    assert!(node.as_leaf().is_some_and(LeafBody::is_empty));
    assert_eq!(node.high_key(), None);
    assert_eq!(node.right_sibling(), None);
}

// Golden vectors: a fixed node must always encode to these exact bytes.
// Changing the on-disk format must break these tests.
#[test]
fn golden_leaf_encoding() {
    let node = Node::leaf(LeafBody::from_entries(vec![golden_entry()]))
        .with_high_key(Some(b"m".to_vec()))
        .with_right_sibling(Some(NodeId::from_bytes([7; 16])));
    let got = node.encode();
    let want = [
        [0x0a, 0x01, 0x6d, 0x12, 0x10].as_slice(),
        &[7; 16],
        &[
            0x1a, 0x19, 0x0a, 0x17, 0x0a, 0x05, 0x48, 0x65, 0x6c, 0x6c, 0x6f, 0x10, 0x03, 0x1a,
            0x04, 0x01, 0x02, 0x03, 0x04, 0x22, 0x06, 0x0a, 0x02, 0xaa, 0xbb, 0x10, 0x01,
        ],
    ]
    .concat();
    assert_eq!(node.encoded_len(), got.len());
    assert_eq!(got, want, "leaf node encoding drifted: {got:02x?}");
}

// A late conditional write may land when its expected revision comes back, and
// content-based revisions come back with the same bytes. Removing a gate or
// reservation must therefore never restore the earlier encoding.
#[test]
fn released_installations_never_restore_the_earlier_encoding() {
    let never_locked = Node::leaf(LeafBody::from_entries(vec![entry(b"a", 1)]));
    let mut advanced = never_locked.clone();
    let mut locks = advanced.locks().clone();
    locks.advance_membership_generation();
    advanced.set_locks(locks);

    let holder = TxId::from_bytes(vec![0x11]);
    let mut released_gate = never_locked.clone();
    released_gate.set_structural_gate(holder.clone());
    assert!(released_gate.remove_structural_gate(&holder));

    let intent = intent_id(3);
    let mut released_reservation = never_locked.clone();
    let mut locks = released_reservation.locks().clone();
    locks.set_merge_reservation(intent);
    assert!(locks.remove_merge_reservation(&intent));
    released_reservation.set_locks(locks);

    for released in [released_gate, released_reservation] {
        assert_ne!(released.encode(), never_locked.encode());
        // Only the generation remains of the released installation.
        assert_eq!(released.encode(), advanced.encode());
    }
}

// Golden vector for the node-lock fields. Changing their tags, lock-type
// values, holder encoding, or membership-generation encoding must break this
// test.
#[test]
fn golden_node_locks_encoding() {
    let mut node = Node::leaf(LeafBody::from_entries(vec![golden_entry()]));
    node.set_structural_gate(TxId::from_bytes(vec![0x11]));
    node.set_membership_writer(TxId::from_bytes(vec![0x22]));

    let got = node.encode();
    let want = [
        0x1a, 0x19, 0x0a, 0x17, 0x0a, 0x05, 0x48, 0x65, 0x6c, 0x6c, 0x6f, 0x10, 0x03, 0x1a,
        0x04, 0x01, 0x02, 0x03, 0x04, 0x22, 0x06, 0x0a, 0x02, 0xaa, 0xbb, 0x10, 0x01, 0x2a,
        0x05, 0x08, 0x03, 0x12, 0x01, 0x11, 0x32, 0x05, 0x08, 0x03, 0x12, 0x01, 0x22, 0x38,
        0x02,
    ];
    assert_eq!(node.encoded_len(), got.len());
    assert_eq!(got, want, "node-lock encoding drifted: {got:02x?}");
}

// Golden vectors for the merge fields.
#[test]
fn golden_merge_fields_encoding() {
    let mut drained = Node::leaf(LeafBody::new())
        .with_low_key(b"a".to_vec())
        .with_high_key(Some(b"m".to_vec()));
    drained.drain(NodeId::from_bytes([8; 16]));
    let got = drained.encode();
    let want = [
        [0x0a, 0x01, 0x6d, 0x12, 0x10].as_slice(),
        &[8; 16],
        &[0x1a, 0x00, 0x48, 0x01, 0x5a, 0x01, 0x61],
    ]
    .concat();
    assert_eq!(drained.encoded_len(), got.len());
    assert_eq!(got, want, "drained node encoding drifted: {got:02x?}");

    let mut reserved = Node::leaf(LeafBody::new());
    let mut locks = reserved.locks().clone();
    locks.set_merge_reservation(StructuralIntentId::from_bytes([3; 16]));
    reserved.set_locks(locks);
    let got = reserved.encode();
    let want = [[0x1a, 0x00, 0x38, 0x01, 0x52, 0x10].as_slice(), &[3; 16]].concat();
    assert_eq!(reserved.encoded_len(), got.len());
    assert_eq!(got, want, "merge reservation encoding drifted: {got:02x?}");
}

#[test]
fn golden_index_encoding() {
    let node = Node::index(IndexNode::from_children(vec![
        (b"".to_vec(), NodeId::from_bytes([1; 16])),
        (b"m".to_vec(), NodeId::from_bytes([2; 16])),
    ]));
    let got = node.encode();
    let want = [
        [0x22, 0x2b, 0x0a, 0x12, 0x12, 0x10].as_slice(),
        &[1; 16],
        &[0x0a, 0x15, 0x0a, 0x01, 0x6d, 0x12, 0x10],
        &[2; 16],
    ]
    .concat();
    assert_eq!(node.encoded_len(), got.len());
    assert_eq!(got, want, "index node encoding drifted: {got:02x?}");
}

#[test]
fn inline_and_deleted_values_round_trip() {
    let node = Node::leaf(LeafBody::from_entries(vec![
        LeafEntry::new(b"a").with_current(CurrentState::Inline {
            writer: TxId::from_bytes(vec![1, 2]),
            value: b"payload".to_vec(),
        }),
        LeafEntry::new(b"b").with_current(CurrentState::Deleted {
            writer: TxId::from_bytes(vec![3]),
        }),
        LeafEntry::new(b"c"),
    ]));
    let decoded = Node::decode(&node.encode()).unwrap();
    assert_eq!(decoded, node);
    let leaf = decoded.as_leaf().unwrap();
    assert!(leaf.holds_value(b"a"));
    assert!(!leaf.holds_value(b"b"));
    assert!(!leaf.holds_value(b"c"));
    assert!(!leaf.holds_value(b"d"));
}

#[test]
fn truncated_nodes_are_refused() {
    let node = Node::leaf(LeafBody::from_entries(vec![golden_entry()]));
    let raw = node.encode();
    for cut in 1..raw.len() {
        let error = Node::decode(&raw[..cut]).unwrap_err();
        assert_eq!(error.message(), "unmarshalling node");
    }
}

#[test]
fn unknown_fields_are_skipped() {
    let node = Node::leaf(LeafBody::from_entries(vec![golden_entry()]));
    let mut raw = node.encode();
    raw.extend(part(15, b"from the future"));
    raw.extend(number(14, 9));
    assert_eq!(Node::decode(&raw).unwrap(), node);
}

#[test]
fn absorbing_the_split_off_half_restores_the_entries() {
    let whole = Node::leaf(LeafBody::from_entries(vec![
        entry(b"a", 1),
        entry(b"b", 2),
        entry(b"c", 3),
    ]));
    let mut left = whole.clone();
    let (mut right, _) = left.split(id("R")).expect("splittable");
    right.absorb(&left, intent_id(1)).unwrap();
    assert_eq!(right.as_leaf(), whole.as_leaf());
    assert_eq!(right.low_key(), whole.low_key());
    assert_eq!(right.high_key(), whole.high_key());
}

#[test]
fn invalid_policies_say_why() {
    let error = NodeSizePolicy::builder()
        .node_max_bytes(128)
        .split_headroom_bytes(129)
        .build()
        .unwrap_err();
    assert!(error.message().contains("129"), "{}", error.message());
}

#[test]
fn an_unlocked_entry_says_so() {
    let entry = LeafEntry::new(b"k");
    assert_eq!(entry.encode(), [0x0a, 0x01, b'k', 0x10, 0x01]);
    let node = Node::leaf(LeafBody::from_entries(vec![entry]));
    assert_eq!(Node::decode(&node.encode()).unwrap().as_leaf(), node.as_leaf());
    // An entry without the field is unlocked too.
    let bare = Node::decode(&[0x1a, 0x05, 0x0a, 0x03, 0x0a, 0x01, b'k']).unwrap();
    assert_eq!(bare.as_leaf(), node.as_leaf());
}

fn groups(count: usize) -> Vec<u8> {
    let mut bytes = vec![0x7b; count];
    bytes.extend(vec![0x7c; count]);
    bytes
}

fn message(tag: u8, payload: Vec<u8>) -> Vec<u8> {
    let mut bytes = vec![tag * 8 + 2];
    let len = payload.len();
    if len < 128 {
        bytes.push(len as u8);
    } else {
        bytes.push((len % 128) as u8 + 128);
        bytes.push((len / 128) as u8);
    }
    bytes.extend(payload);
    bytes
}

#[test]
fn embedded_messages_count_towards_the_nesting_of_unknown_groups() {
    // Below the node come its leaf, an entry and the entry's current state.
    let in_node = |count| groups(count);
    let in_leaf = |count| message(3, groups(count));
    let in_entry = |count| message(3, message(1, groups(count)));
    let in_current = |count| message(3, message(1, message(4, {
        let mut bytes = vec![0x10, 0x01];
        bytes.extend(groups(count));
        bytes
    })));
    assert!(Node::decode(&in_node(100)).is_ok());
    assert!(Node::decode(&in_node(101)).is_err());
    assert!(Node::decode(&in_leaf(99)).is_ok());
    assert!(Node::decode(&in_leaf(100)).is_err());
    assert!(Node::decode(&in_entry(98)).is_ok());
    assert!(Node::decode(&in_entry(99)).is_err());
    assert!(Node::decode(&in_current(97)).is_ok());
    assert!(Node::decode(&in_current(98)).is_err());
}

#[test]
fn unknown_fixed_width_fields_are_skipped() {
    let node = Node::leaf(LeafBody::from_entries(vec![golden_entry()]));
    let with = |key: u8, width: usize| {
        let mut raw = node.encode();
        raw.push(key);
        raw.extend(vec![0xff; width]);
        Node::decode(&raw)
    };
    assert_eq!(with(121, 8).unwrap(), node);
    assert_eq!(with(125, 4).unwrap(), node);
    assert_eq!(with(121, 7).unwrap_err().message(), "unmarshalling node");
    assert_eq!(with(125, 3).unwrap_err().message(), "unmarshalling node");
    // The end of a group that never began, and wire types that do not exist.
    for key in [124, 126, 127] {
        assert_eq!(with(key, 0).unwrap_err().message(), "unmarshalling node");
    }
}
