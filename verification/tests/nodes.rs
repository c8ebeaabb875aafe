//! Tree nodes and collection records kept over a backend in memory.

use std::cell::RefCell;
use std::collections::HashMap;
use std::rc::Rc;
use std::sync::Arc;

use glassdb_storage::cached_store::evidence::{CasResult, Observation};
use glassdb_storage::cached_store::{Body, CachedStore, Lead, ReadStart};
use glassdb_storage::collection_store::{CollectionRecord, CollectionStore};
use glassdb_storage::error::{BackendError, StorageError};
use glassdb_storage::ids::{CollectionId, NodeId, TxId};
use glassdb_storage::leaf::{LeafBody, LeafEntry};
use glassdb_storage::node::locks::NodeLocks;
use glassdb_storage::node::Node;
use glassdb_storage::node_store::{stored, LeafEdit, LoadedLeaf, NodeStore};
use glassdb_storage::timeline::{Requirement, SequencePoint, Timeline};

const KIND: &str = "object";

#[derive(Default)]
struct Memory {
    objects: HashMap<String, (Vec<u8>, String)>,
    versions: u64,
    log: Vec<&'static str>,
}

type Backend = Rc<RefCell<Memory>>;

impl Memory {
    fn put(&mut self, path: &str, body: Vec<u8>) -> String {
        self.versions += 1;
        let version = format!("v{}", self.versions);
        self.objects.insert(path.to_string(), (body, version.clone()));
        version
    }
}

/// How an object is kept in bytes.
trait Kept: Sized {
    fn to_body(&self) -> Vec<u8>;
    fn of_body(body: &[u8]) -> Result<Self, StorageError>;
}

impl Kept for Node {
    fn to_body(&self) -> Vec<u8> {
        self.encode()
    }

    fn of_body(body: &[u8]) -> Result<Self, StorageError> {
        Node::decode(body)
    }
}

impl Kept for CollectionRecord {
    fn to_body(&self) -> Vec<u8> {
        self.encode()
    }

    fn of_body(body: &[u8]) -> Result<Self, StorageError> {
        CollectionRecord::decode(body)
    }
}

/// A store of one kind of object whose calls run to their end at once.
struct Store<V> {
    backend: Backend,
    cached: CachedStore<V>,
    timeline: Timeline,
    clock: u64,
}

impl<V: Kept> Store<V> {
    fn over(backend: &Backend) -> Store<V> {
        Store {
            backend: backend.clone(),
            cached: CachedStore::new(1 << 20, false),
            timeline: Timeline::new(),
            clock: 0,
        }
    }

    fn now(&mut self) -> SequencePoint {
        self.clock += 10;
        self.timeline.now(self.clock)
    }

    fn at_least_now(&mut self) -> Requirement {
        Requirement::AtLeast(self.now())
    }

    fn read(&mut self, path: &str, requirement: Requirement) -> Result<Observation<V>, StorageError> {
        if let ReadStart::Hit { observed, .. } = self.cached.begin_read(path, KIND, requirement)? {
            return Ok(observed);
        }
        let lead = self.cached.lead(path, KIND, requirement, None)?;
        let invoked = self.now();
        let found = self.backend.borrow().objects.get(path).cloned();
        let (seed, reply) = match lead {
            Lead::Answer { fetched, .. } => return self.cached.finish_read(path, KIND, fetched),
            Lead::Conditional(seed) => {
                self.backend.borrow_mut().log.push("read_if_modified");
                let reply = match found {
                    None => Err(BackendError::NotFound),
                    Some((_, version)) if version == seed.revision().serialize() => {
                        Err(BackendError::Precondition)
                    }
                    Some(changed) => Ok(changed),
                };
                (Some(seed), reply)
            }
            _ => {
                self.backend.borrow_mut().log.push("read");
                (None, found.ok_or(BackendError::NotFound))
            }
        };
        let reply = reply.map(|(body, version)| Body {
            decoded: V::of_body(&body).map(|value| (Arc::new(value), body.len())),
            version,
        });
        let (fetched, _) = self.cached.finish_fetch(path, KIND, seed, reply, invoked);
        self.cached.finish_read(path, KIND, fetched?)
    }

    fn create(&mut self, path: &str, value: V) -> Result<CasResult<V>, StorageError> {
        let round = self.cached.begin_create(path, None)?;
        let invoked = self.now();
        let body = value.to_body();
        let size = body.len();
        let taken = self.backend.borrow().objects.contains_key(path);
        let reply = if taken {
            Err(BackendError::Precondition)
        } else {
            Ok(self.backend.borrow_mut().put(path, body))
        };
        self.cached.finish_create(path, KIND, round, Arc::new(value), size, reply, invoked).0
    }

    fn replace(&mut self, expected: &Observation<V>, value: V) -> Result<CasResult<V>, StorageError> {
        let (revision, round) = self.cached.begin_cas(expected)?;
        let invoked = self.now();
        let path = expected.path().to_string();
        let body = value.to_body();
        let size = body.len();
        let current = self.backend.borrow().objects.get(&path).map(|found| found.1.clone());
        let reply = match current {
            None => Err(BackendError::NotFound),
            Some(version) if version == revision.serialize() => {
                Ok(self.backend.borrow_mut().put(&path, body))
            }
            Some(_) => Err(BackendError::Precondition),
        };
        let value = Arc::new(value);
        self.cached.finish_cas(&path, KIND, revision, round, value, size, reply, invoked).0
    }

    fn count(&self, operation: &str) -> usize {
        self.backend.borrow().log.iter().filter(|logged| **logged == operation).count()
    }
}

impl Store<Node> {
    fn load_leaf(&mut self, path: &str, requirement: Requirement) -> Result<LoadedLeaf, StorageError> {
        NodeStore::load_leaf(self.read(path, requirement)?)
    }

    fn store_node(&mut self, path: &str, node: Node) -> Result<bool, StorageError> {
        let result = self.create(path, node);
        stored(result)
    }

    fn commit_leaf(&mut self, edit: LeafEdit) -> Result<bool, StorageError> {
        let (expected, node) = edit.commit_leaf();
        let result = self.replace(&expected, node);
        stored(result)
    }
}

fn empty_leaf() -> Node {
    Node::leaf(LeafBody::new())
}

fn entries(key: &[u8]) -> LeafBody {
    LeafBody::from_entries(vec![LeafEntry::new(key)])
}

fn nodes() -> Store<Node> {
    Store::over(&Backend::default())
}

// A separate store seeds the leaf, so that the reader begins cold.
fn seeded_reader() -> Store<Node> {
    let backend = Backend::default();
    assert!(Store::over(&backend).store_node("n1", empty_leaf()).unwrap());
    Store::over(&backend)
}

fn version(observed: &Observation<Node>) -> String {
    observed.revision().unwrap().serialize().to_string()
}

#[test]
fn hot_reload_checks_current_without_full_read() {
    let mut reader = seeded_reader();
    let now = reader.at_least_now();
    let first = version(reader.load_leaf("n1", now).unwrap().observation());
    assert_eq!(reader.count("read"), 1, "cold load full-reads");
    assert_eq!(reader.count("read_if_modified"), 0);

    let now = reader.at_least_now();
    let second = version(reader.load_leaf("n1", now).unwrap().observation());
    assert_eq!(reader.count("read"), 1, "hot load must not full-read");
    assert_eq!(reader.count("read_if_modified"), 1, "hot load checks conditionally");
    assert_eq!(first, second);
}

#[test]
fn any_serves_cached_without_backend_op() {
    let mut reader = seeded_reader();
    let now = reader.at_least_now();
    reader.load_leaf("n1", now).unwrap();
    assert_eq!(reader.count("read"), 1);

    reader.load_leaf("n1", Requirement::Any).unwrap();
    assert_eq!(reader.count("read"), 1, "cached Any must not read");
    assert_eq!(reader.count("read_if_modified"), 0, "cached Any must not check the backend");

    assert!(matches!(
        reader.load_leaf("n2", Requirement::Any),
        Err(StorageError::NotFound)
    ));
    assert_eq!(reader.count("read"), 2, "uncached Any falls through");
}

#[test]
fn committed_edit_is_visible_to_the_next_cached_load() {
    let mut store = nodes();
    assert!(store.store_node("n1", empty_leaf()).unwrap());

    let loaded = store.load_leaf("n1", Requirement::Any).unwrap();
    let previous_revision = version(loaded.observation());
    let mut edit = loaded.into_edit();
    edit.set_entries(entries(b"new"));
    assert!(store.commit_leaf(edit).unwrap());

    let committed = store.load_leaf("n1", Requirement::Any).unwrap();
    assert!(committed.entries().unwrap().lookup(b"new").is_some());
    assert_ne!(version(committed.observation()), previous_revision);
}

#[test]
fn leaf_edit_commits_bounded_changes_without_changing_topology() {
    let right = NodeId::from_bytes([7; 16]);
    let mut store = nodes();
    let original = empty_leaf()
        .with_high_key(Some(b"m".to_vec()))
        .with_right_sibling(Some(right));
    assert!(store.store_node("n1", original).unwrap());

    let loaded = store.load_leaf("n1", Requirement::Any).unwrap();
    let holder = TxId::from_bytes(b"holder".to_vec());
    let locks = || {
        let mut locks = NodeLocks::default();
        locks.set_membership_writer(TxId::from_bytes(b"holder".to_vec()));
        locks
    };

    let mut edit = loaded.into_edit();
    assert_eq!(edit.path(), "n1");
    edit.set_entries(entries(b"key"));
    edit.set_locks(locks());
    assert!(store.commit_leaf(edit).unwrap());

    let committed = store.load_leaf("n1", Requirement::Any).unwrap();
    assert_eq!(committed.entries(), Some(&entries(b"key")));
    assert_eq!(committed.locks(), &locks());
    assert_eq!(committed.node().high_key(), Some(b"m".as_slice()));
    let sibling = committed.node().right_sibling().unwrap();
    assert_eq!(sibling.as_bytes(), &[7; 16]);
    assert_eq!(committed.node().membership_lock().holders(), &[holder]);
}

#[test]
fn leaf_edit_is_bound_to_its_observed_path() {
    let mut store = nodes();
    for path in ["n1", "n2"] {
        assert!(store.store_node(path, empty_leaf()).unwrap());
    }

    let mut edit = store.load_leaf("n1", Requirement::Any).unwrap().into_edit();
    edit.set_entries(entries(b"left-key"));
    assert_eq!(edit.path(), "n1");
    assert!(store.commit_leaf(edit).unwrap());

    let left = store.load_leaf("n1", Requirement::Any).unwrap();
    let right = store.load_leaf("n2", Requirement::Any).unwrap();
    assert!(left.entries().unwrap().lookup(b"left-key").is_some());
    assert!(right.entries().unwrap().is_empty());
}

#[test]
fn stale_leaf_edit_conflicts() {
    let mut store = nodes();
    assert!(store.store_node("n1", empty_leaf()).unwrap());

    let mut winner = store.load_leaf("n1", Requirement::Any).unwrap().into_edit();
    let mut stale = store.load_leaf("n1", Requirement::Any).unwrap().into_edit();
    winner.set_entries(entries(b"winner"));
    stale.set_entries(entries(b"stale"));

    assert!(store.commit_leaf(winner).unwrap());
    assert!(!store.commit_leaf(stale).unwrap());

    let committed = store.load_leaf("n1", Requirement::Any).unwrap();
    assert!(committed.entries().unwrap().lookup(b"winner").is_some());
    assert!(committed.entries().unwrap().lookup(b"stale").is_none());
}

#[test]
fn record_and_tree_root_have_independent_cas_revisions() {
    let backend = Backend::default();
    let mut records: Store<CollectionRecord> = Store::over(&backend);
    let mut roots: Store<Node> = Store::over(&backend);
    let made = records.create("record", CollectionRecord::new());
    assert!(CollectionStore::create_record(made).unwrap());
    assert!(roots.store_node("root", empty_leaf()).unwrap());

    let now = records.at_least_now();
    let (mut record, record_before) =
        CollectionStore::load_record(records.read("record", now).unwrap()).unwrap();
    let now = roots.at_least_now();
    let (mut root, root_before) =
        NodeStore::load_root_node(roots.read("root", now).unwrap()).unwrap();

    assert!(record.add_child(b"child".to_vec(), CollectionId::from_bytes([1; 16])).unwrap());
    let result = records.replace(&record_before, record);
    assert!(CollectionStore::store_record(result).unwrap());
    let now = records.at_least_now();
    let record_after = records.read("record", now).unwrap();
    let now = roots.at_least_now();
    let root_after_record_write = roots.read("root", now).unwrap();
    assert_ne!(
        record_before.revision().unwrap().serialize(),
        record_after.revision().unwrap().serialize()
    );
    assert_eq!(
        version(&root_before),
        version(&root_after_record_write),
        "metadata mutation must not advance the data-root revision"
    );

    root.add_membership_reader(TxId::from_bytes(vec![1]));
    let result = roots.replace(&root_after_record_write, root);
    assert!(stored(result).unwrap());
    let now = records.at_least_now();
    let record_after_root_write = records.read("record", now).unwrap();
    assert_eq!(
        record_after.revision().unwrap().serialize(),
        record_after_root_write.revision().unwrap().serialize(),
        "data-root mutation must not advance the record revision"
    );
}

#[test]
fn response_time_does_not_overstate_freshness() {
    let mut store = nodes();
    store.backend.borrow_mut().put("p", empty_leaf().encode());
    let body = store.backend.borrow().objects["p"].0.clone();
    assert!(matches!(
        store.cached.begin_read("p", KIND, Requirement::Any).unwrap(),
        ReadStart::Fetch
    ));
    let invoked = store.timeline.now(1_000_000_000);
    // The reply comes back much later than the read was invoked.
    let later = store.timeline.now(100_000_000_000);
    let reply = Ok(Body {
        decoded: Node::decode(&body).map(|node| (Arc::new(node), body.len())),
        version: "v1".to_string(),
    });
    let (fetched, _) = store.cached.finish_fetch("p", KIND, None, reply, invoked);
    let observed = store.cached.finish_read("p", KIND, fetched.unwrap()).unwrap();
    assert!(observed.current_after(store.cached.cells()).raw() < later.raw());
}
