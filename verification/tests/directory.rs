use std::collections::HashMap;
use std::sync::Arc;

use glassdb_storage::cached_store::evidence::{CasResult, Observation};
use glassdb_storage::cached_store::{Body, CachedStore};
use glassdb_storage::collection_store::{CollectionRecord, CollectionStore};
use glassdb_storage::directory::{
    referenced_tokens, Descent, Directory, LeafLocator, Reach, RoutedKey, Step,
};
use glassdb_storage::error::{BackendError, StorageError};
use glassdb_storage::ids::{CollectionId, NodeId, TxId};
use glassdb_storage::leaf::{CurrentState, LeafBody, LeafEntry};
use glassdb_storage::node::{IndexNode, Node};
use glassdb_storage::node_store::{created, stored, NodeStore};
use glassdb_storage::object_cache::ObjectCache;
use glassdb_storage::object_path::{CollectionAddress, ObjectPath};
use glassdb_storage::timeline::SequencePoint;

fn id(name: &str) -> NodeId {
    let mut bytes = [0; 16];
    bytes[..name.len()].copy_from_slice(name.as_bytes());
    NodeId::from_bytes(bytes)
}

fn name(id: &NodeId) -> String {
    let bytes: Vec<u8> = id.as_bytes().iter().copied().filter(|byte| *byte != 0).collect();
    String::from_utf8(bytes).unwrap()
}

fn live(key: &[u8]) -> LeafEntry {
    LeafEntry::new(key).with_current(CurrentState::External { writer: TxId::from_bytes(vec![1]) })
}

fn leaf(keys: &[&[u8]], low: &[u8], high: Option<&[u8]>, right: Option<&str>) -> Node {
    Node::leaf(LeafBody::from_entries(keys.iter().map(|key| live(key)).collect()))
        .with_low_key(low.to_vec())
        .with_high_key(high.map(<[u8]>::to_vec))
        .with_right_sibling(right.map(id))
}

/// The nodes of one collection, with its root under a fixed path.
#[derive(Default)]
struct Tree {
    root: Option<Node>,
    nodes: HashMap<String, Node>,
}

impl Tree {
    fn put(&mut self, at: &str, node: Node) {
        self.nodes.insert(at.to_string(), node);
    }

    fn index(&mut self, children: &[(&[u8], &str)]) {
        let children = children.iter().map(|(key, child)| (key.to_vec(), id(child))).collect();
        self.root = Some(Node::index(IndexNode::from_children(children)));
    }

    fn two_level() -> Tree {
        let mut tree = Tree::default();
        tree.put("L0", leaf(&[b"apple", b"cat"], b"", Some(b"m"), Some("L1")));
        tree.put("L1", leaf(&[b"mango", b"pear"], b"m", None, None));
        tree.index(&[(b"", "L0"), (b"m", "L1")]);
        tree
    }

    fn load(&self, child: &NodeId) -> LeafLocator {
        let at = name(child);
        LeafLocator {
            node: self.nodes[&at].clone(),
            version: Some("v".to_string()),
            path: format!("_n/{at}"),
        }
    }

    fn begin(&self) -> Descent {
        let directory = Directory::new("_i");
        Descent::new(directory.root_leaf(self.root.clone().map(|node| (node, "v".to_string()))))
    }

    fn leaf_for(&self, key: &[u8]) -> Descent {
        let mut descent = self.begin();
        loop {
            let step = Directory::leaf_for(&descent.current.node, key).unwrap();
            match step {
                Step::Arrived => return descent,
                Step::Right(next) | Step::Child(next) => {
                    descent = descent.advance(step, self.load(&next));
                }
            }
        }
    }

    fn leftmost_leaf(&self) -> LeafLocator {
        let mut descent = self.begin();
        loop {
            let step = Directory::leftmost_leaf(&descent.current.node).unwrap();
            match step {
                Step::Arrived => return descent.current,
                Step::Right(next) | Step::Child(next) => {
                    descent = descent.advance(step, self.load(&next));
                }
            }
        }
    }

    fn leaves_through(&self, start: &[u8], end: Option<&[u8]>) -> Vec<String> {
        let mut leaf = self.leaf_for(start).current;
        let mut paths = Vec::new();
        loop {
            let next = Directory::leaves_through(&leaf.node, end);
            paths.push(leaf.path);
            match next {
                Some(right) => leaf = self.load(&right),
                None => return paths,
            }
        }
    }
}

#[test]
fn single_leaf_collection_resolves_to_root() {
    let mut tree = Tree::default();
    tree.root = Some(leaf(&[b"only"], b"", None, None));
    let found = tree.leaf_for(b"only").current;
    assert_eq!(found.path, "_i");
    assert!(found.version.is_some());
    assert!(found.node.as_leaf().unwrap().holds_value(b"only"));
}

#[test]
fn absent_collection_routes_to_uncreated_root_leaf() {
    let tree = Tree::default();
    let found = tree.leaf_for(b"k").current;
    assert_eq!(found.path, "_i");
    assert!(found.version.is_none());
    assert!(found.node.as_leaf().unwrap().is_empty());
    assert!(!Directory::reloads(&found, false));
}

#[test]
fn descends_index_to_correct_leaf() {
    let tree = Tree::two_level();
    for (key, wanted) in [
        (b"apple".as_slice(), "_n/L0"),
        (b"cat", "_n/L0"),
        (b"mango", "_n/L1"),
        (b"pear", "_n/L1"),
        (b"zebra", "_n/L1"),
    ] {
        assert_eq!(tree.leaf_for(key).current.path, wanted);
    }
}

#[test]
fn follows_right_link_when_parent_is_stale() {
    let mut tree = Tree::two_level();
    tree.index(&[(b"", "L0")]);
    assert_eq!(tree.leaf_for(b"pear").current.path, "_n/L1");
}

#[test]
fn leaves_are_returned_in_key_order() {
    let tree = Tree::two_level();
    assert_eq!(tree.leftmost_leaf().path, "_n/L0");
    assert_eq!(tree.leaves_through(b"", None), vec!["_n/L0", "_n/L1"]);
    assert_eq!(tree.leaves_through(b"a", Some(b"cat")), vec!["_n/L0"]);
    assert_eq!(tree.leaves_through(b"cat", Some(b"m")), vec!["_n/L0", "_n/L1"]);
    let first = tree.leaf_for(b"apple").current;
    assert_eq!(Directory::next_leaf(&first.node).map(|right| name(&right)), Some("L1".to_string()));
}

#[test]
fn an_empty_index_stops_the_descent() {
    let mut tree = Tree::default();
    tree.index(&[]);
    let root = tree.root.unwrap();
    for step in [Directory::leaf_for(&root, b"a"), Directory::leftmost_leaf(&root)] {
        match step {
            Err(StorageError::Other { msg, .. }) => {
                assert_eq!(msg, "descent reached an empty index node");
            }
            other => panic!("{other:?}"),
        }
    }
}

#[test]
fn stale_root_leaf_cache_still_descends_after_root_split() {
    let mut tree = Tree::default();
    tree.root = Some(leaf(&[b"a", b"b"], b"", None, None));
    let warm = tree.leaf_for(b"a").current;
    assert!(warm.node.as_leaf().is_some());
    assert!(Directory::reloads(&warm, false));
    assert!(!Directory::reloads(&warm, true));

    tree.put("L", leaf(&[b"a"], b"", Some(b"b"), Some("R")));
    tree.put("R", leaf(&[b"b"], b"b", None, None));
    tree.index(&[(b"", "L"), (b"b", "R")]);
    let found = tree.leaf_for(b"a").current;
    assert!(found.node.as_leaf().unwrap().holds_value(b"a"));
    assert_eq!(found.path, "_n/L");
}

#[test]
fn parent_index_for_finds_leaf_parent_and_none_for_single_leaf() {
    let parent = Tree::two_level().leaf_for(b"mango").parent_index_for().unwrap();
    assert_eq!(parent.path, "_i");
    assert!(parent.node.as_index().is_some());

    let mut single = Tree::default();
    single.root = Some(leaf(&[b"only"], b"", None, None));
    assert!(single.leaf_for(b"only").parent_index_for().is_none());
}

#[test]
fn a_right_link_keeps_the_parent() {
    let mut tree = Tree::two_level();
    tree.index(&[(b"", "L0")]);
    let parent = tree.leaf_for(b"pear").parent_index_for().unwrap();
    assert_eq!(parent.path, "_i");
}

#[test]
fn group_keys_by_leaf_routes_and_preserves_order() {
    let tree = Tree::two_level();
    let items = [(b"cat".to_vec(), 'c'), (b"mango".to_vec(), 'm'), (b"apple".to_vec(), 'a')]
        .into_iter()
        .map(|(key, payload)| RoutedKey {
            leaf: tree.leaf_for(&key).current,
            key,
            payload,
        })
        .collect();
    let groups = Directory::group_keys_by_leaf(items);
    assert_eq!(groups.len(), 2);
    let l0 = groups.iter().find(|group| group.path == "_n/L0").unwrap();
    assert_eq!(l0.keys, vec![(b"cat".to_vec(), 'c'), (b"apple".to_vec(), 'a')]);
    let l1 = groups.iter().find(|group| group.path == "_n/L1").unwrap();
    assert_eq!(l1.keys, vec![(b"mango".to_vec(), 'm')]);
}

#[test]
fn every_node_is_reached_once() {
    let mut tree = Tree::two_level();
    tree.put("L1", leaf(&[b"mango"], b"m", Some(b"t"), Some("L2")));
    tree.put("L2", leaf(&[b"zebra"], b"t", None, None));
    assert_eq!(referenced_tokens(tree.root.as_ref().unwrap()).len(), 2);

    let mut reach = Reach::new(tree.root.as_ref());
    let mut loads = 0;
    while let Some(token) = reach.next_token() {
        loads += 1;
        // A node that is gone is still named by what points at it.
        reach.loaded(tree.nodes.get(&name(&token)));
    }
    assert_eq!(loads, 3);
    let mut reached: Vec<String> = reach.reachable_tokens().iter().map(name).collect();
    reached.sort();
    assert_eq!(reached, vec!["L0", "L1", "L2"]);
    assert!(Reach::new(None).reachable_tokens().is_empty());
}

fn collection(byte: u8) -> CollectionAddress {
    CollectionAddress::new("db", CollectionId::from_bytes([byte; 16]))
}

fn node_path(byte: u8, node: &str) -> ObjectPath {
    ObjectPath::Node { collection: collection(byte), node: id(node) }
}

/// Observes a state as a read of the backend would.
fn observe<V>(value: Option<V>) -> Observation<V> {
    let mut cached: CachedStore<V> = CachedStore::new(1 << 20, false);
    let reply = match value {
        Some(value) => Ok(Body { decoded: Ok((Arc::new(value), 1)), version: "v1".to_string() }),
        None => Err(BackendError::NotFound),
    };
    let (fetched, _) = cached.finish_fetch("p", "kind", None, reply, SequencePoint::from_raw(1));
    cached.finish_read("p", "kind", fetched.unwrap()).unwrap()
}

/// Creates an object as a mutation of the backend would.
fn create<V>(value: V, reply: Result<String, BackendError>) -> Result<CasResult<V>, StorageError> {
    let mut cached: CachedStore<V> = CachedStore::new(1 << 20, false);
    let round = cached.begin_create("p", None).unwrap();
    cached
        .finish_create("p", "kind", round, Arc::new(value), 1, reply, SequencePoint::from_raw(1))
        .0
}

#[test]
fn node_paths_are_validated() {
    let root = ObjectPath::TreeRoot { collection: collection(1) };
    let record = ObjectPath::CollectionRecord { collection: collection(1) };
    let other = ObjectPath::Other { path: "db/x".to_string() };
    assert!(NodeStore::validate_node_path(&root).is_ok());
    assert!(NodeStore::validate_node_path(&node_path(1, "L0")).is_ok());
    assert!(NodeStore::validate_node_path(&record).is_err());
    assert!(NodeStore::validate_node_path(&other).is_err());
}

#[test]
fn a_node_is_stored_where_it_was_observed() {
    assert!(NodeStore::store_node_at(&node_path(1, "L0"), &node_path(1, "L0")).is_ok());
    match NodeStore::store_node_at(&node_path(1, "L0"), &node_path(1, "L1")) {
        Err(StorageError::Other { msg, .. }) => assert_eq!(msg, "node observation path changed"),
        other => panic!("{other:?}"),
    }
    let other = ObjectPath::Other { path: "db/x".to_string() };
    assert!(NodeStore::store_node_at(&other, &other).is_err());
}

#[test]
fn listed_nodes_belong_to_their_collection() {
    let found = NodeStore::list_nodes(&node_path(1, "L0"), &collection(1)).unwrap();
    assert_eq!(name(&found), "L0");
    for (path, words) in [
        (node_path(2, "L0"), "node listing returned a different collection"),
        (
            ObjectPath::TreeRoot { collection: collection(1) },
            "node listing returned a non-node path",
        ),
    ] {
        match NodeStore::list_nodes(&path, &collection(1)) {
            Err(StorageError::Other { msg, .. }) => assert_eq!(msg, words),
            other => panic!("{other:?}"),
        }
    }
}

#[test]
fn only_leaves_are_loaded_as_leaves() {
    let loaded = NodeStore::load_leaf(observe(Some(leaf(&[b"a"], b"", None, None)))).unwrap();
    assert!(loaded.entries().unwrap().holds_value(b"a"));
    assert!(loaded.owns(b"z"));
    let mut tree = Tree::default();
    tree.index(&[(b"", "L0")]);
    assert!(matches!(
        NodeStore::load_leaf(observe(tree.root)),
        Err(StorageError::Precondition)
    ));
    assert!(matches!(
        NodeStore::load_leaf(observe::<Node>(None)),
        Err(StorageError::NotFound)
    ));
    assert!(NodeStore::load_root_node(observe::<Node>(None)).is_none());
    assert!(matches!(
        NodeStore::load_node(observe::<Node>(None)),
        Err(StorageError::NotFound)
    ));
}

#[test]
fn an_edit_stages_within_the_topology_of_its_leaf() {
    let before = leaf(&[b"a"], b"", Some(b"m"), Some("R"));
    let mut edit = NodeStore::load_leaf(observe(Some(before))).unwrap().into_edit();
    edit.set_entries(LeafBody::from_entries(vec![live(b"a"), live(b"b")]));
    assert!(edit.owns(b"b") && !edit.owns(b"z"));
    let (observed, after) = edit.commit_leaf();
    assert_eq!(observed.path(), "p");
    assert_eq!(after.high_key(), Some(b"m".as_slice()));
    assert_eq!(after.right_sibling().map(|right| name(&right)), Some("R".to_string()));
    assert!(after.as_leaf().unwrap().holds_value(b"b"));
}

#[test]
fn a_vanished_object_has_changed() {
    let applied = create(leaf(&[], b"", None, None), Ok("v1".to_string()));
    assert_eq!(stored(applied), Ok(true));
    let rejected = create(leaf(&[], b"", None, None), Err(BackendError::Precondition));
    assert_eq!(stored(rejected), Ok(false));
    assert_eq!(stored::<Node>(Err(StorageError::NotFound)), Ok(false));
    assert_eq!(stored::<Node>(Err(StorageError::InvalidCursor)), Err(StorageError::InvalidCursor));
    let applied = create(leaf(&[], b"", None, None), Ok("v1".to_string()));
    assert_eq!(created(applied).unwrap().unwrap().revision().unwrap().serialize(), "v1");
    let rejected = create(leaf(&[], b"", None, None), Err(BackendError::Precondition));
    assert!(created(rejected).unwrap().is_none());
}

#[test]
fn records_are_loaded_and_created() {
    let (record, observed) =
        CollectionStore::load_record(observe(Some(CollectionRecord::new()))).unwrap();
    assert_eq!(record.encode(), CollectionRecord::new().encode());
    assert!(observed.is_present());
    assert!(matches!(
        CollectionStore::load_record(observe::<CollectionRecord>(None)),
        Err(StorageError::NotFound)
    ));
    let made = create(CollectionRecord::new(), Ok("v1".to_string()));
    assert_eq!(CollectionStore::create_record(made), Ok(true));
    let there = create(CollectionRecord::new(), Err(BackendError::Precondition));
    assert_eq!(CollectionStore::create_record(there), Ok(false));
    assert_eq!(CollectionStore::store_record(Err(StorageError::NotFound)), Ok(false));
}

#[test]
fn raw_objects_carry_their_version() {
    let read = ObjectCache::read(observe(Some(b"body".to_vec()))).unwrap();
    assert_eq!(read.value.as_slice(), b"body");
    assert_eq!(read.version, "v1");
    assert!(matches!(
        ObjectCache::read(observe::<Vec<u8>>(None)),
        Err(StorageError::NotFound)
    ));
    assert!(ObjectCache::peek(observe::<Vec<u8>>(None)).is_none());
    let written = create(b"x".to_vec(), Ok("v7".to_string())).unwrap();
    assert_eq!(ObjectCache::write_if(written), Ok("v7".to_string()));
    let refused = create(b"x".to_vec(), Err(BackendError::Precondition)).unwrap();
    assert_eq!(ObjectCache::write_if(refused), Err(StorageError::Precondition));
}
