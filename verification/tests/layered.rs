//! The object cache over the persistent one, driven one piece of work at a time.

use std::cell::RefCell;
use std::collections::HashMap;
use std::rc::Rc;
use std::sync::Arc;

use glassdb_storage::cache_stats::CacheStats;
use glassdb_storage::cached_store::evidence::{CasResult, Observation};
use glassdb_storage::cached_store::mutation::DiskChange;
use glassdb_storage::cached_store::{Body, CachedStore, Candidate, Lead, ReadStart};
use glassdb_storage::disk_cache::fence::PathFence;
use glassdb_storage::disk_cache::format::CacheGeometry;
use glassdb_storage::disk_cache::perform::{close, complete_promotion, perform};
use glassdb_storage::disk_cache::persistent::PersistentCache;
use glassdb_storage::disk_cache::queue::{Next, Outcome, Work};
use glassdb_storage::disk_cache::sim_media::{MediaFaultProfile, SimFile, SimMedia};
use glassdb_storage::disk_cache::store::DiskStore;
use glassdb_storage::disk_cache::EncodedBody;
use glassdb_storage::error::{BackendError, StorageError};
use glassdb_storage::ids::DatabaseId;
use glassdb_storage::timeline::{Requirement, SequencePoint, Timeline};

const KIND: &str = "Bytes";
const CAPACITY: u64 = 2 * 1024 * 1024;

const OLD_VALUE: &[u8] = b"old";
const PROPOSED_VALUE: &[u8] = b"proposed";
const WINNER_VALUE: &[u8] = b"winner";

#[derive(Clone, Copy, Debug)]
enum MutationKind {
    Create,
    Cas,
    Delete,
}

impl MutationKind {
    fn operation(self) -> &'static str {
        match self {
            Self::Create => "write_if_not_exists",
            Self::Cas => "write_if",
            Self::Delete => "delete_if",
        }
    }
}

#[derive(Clone, Copy, Debug)]
enum CompletionCase {
    Natural,
    UnavailableAfterApply,
    DefinitiveBeforeApply,
    CancelledAfterApply,
}

#[derive(Clone, Copy, Debug, PartialEq, Eq)]
enum ExpectedMutationResult {
    Committed,
    Conflict,
    Deleted,
    Precondition,
    Unavailable,
    Definitive,
    Cancelled,
}

#[derive(Clone, Copy, Debug, PartialEq, Eq)]
enum ExpectedValue {
    Absent,
    Old,
    Proposed,
    Winner,
}

impl ExpectedValue {
    fn bytes(self) -> Option<&'static [u8]> {
        match self {
            Self::Absent => None,
            Self::Old => Some(OLD_VALUE),
            Self::Proposed => Some(PROPOSED_VALUE),
            Self::Winner => Some(WINNER_VALUE),
        }
    }
}

fn assert_observation(
    observed: &Observation<Vec<u8>>,
    expected: ExpectedValue,
    cache_hit: bool,
    context: &str,
) {
    assert_eq!(
        observed.value().map(|value| value.as_slice()),
        expected.bytes(),
        "{context}: value"
    );
    assert_eq!(observed.cache_hit(), cache_hit, "{context}: cache hit");
}

struct Memory {
    objects: HashMap<String, (Vec<u8>, String)>,
    versions: u64,
    log: Vec<&'static str>,
    completion: CompletionCase,
}

impl Memory {
    fn new() -> Memory {
        Memory {
            objects: HashMap::new(),
            versions: 0,
            log: Vec::new(),
            completion: CompletionCase::Natural,
        }
    }

    fn put(&mut self, path: &str, body: &[u8]) -> String {
        self.versions += 1;
        let version = format!("v{}", self.versions);
        self.objects.insert(path.to_string(), (body.to_vec(), version.clone()));
        version
    }

    fn begin(&mut self, operation: &'static str) -> Result<(), BackendError> {
        self.log.push(operation);
        match self.completion {
            CompletionCase::DefinitiveBeforeApply => Err(BackendError::Other {
                msg: "rejected before apply".to_string(),
                source: None,
            }),
            _ => Ok(()),
        }
    }

    fn answer<T>(&mut self, done: T) -> Result<T, BackendError> {
        match self.completion {
            CompletionCase::UnavailableAfterApply => {
                Err(BackendError::Unavailable("lost acknowledgement".to_string()))
            }
            _ => Ok(done),
        }
    }

    fn expect(&self, path: &str, expected: &str) -> Result<(), BackendError> {
        match self.objects.get(path) {
            None => Err(BackendError::NotFound),
            Some((_, version)) if version == expected => Ok(()),
            Some(_) => Err(BackendError::Precondition),
        }
    }

    fn write_if_not_exists(&mut self, path: &str, body: &[u8]) -> Result<String, BackendError> {
        self.begin("write_if_not_exists")?;
        if self.objects.contains_key(path) {
            return Err(BackendError::Precondition);
        }
        let version = self.put(path, body);
        self.answer(version)
    }

    fn write_if(&mut self, path: &str, body: &[u8], expected: &str) -> Result<String, BackendError> {
        self.begin("write_if")?;
        self.expect(path, expected)?;
        let version = self.put(path, body);
        self.answer(version)
    }

    fn delete_if(&mut self, path: &str, expected: &str) -> Result<(), BackendError> {
        self.begin("delete_if")?;
        self.expect(path, expected)?;
        self.objects.remove(path);
        self.answer(())
    }
}

type Backend = Rc<RefCell<Memory>>;

fn backend_with(path: &str, body: &[u8]) -> Backend {
    let mut memory = Memory::new();
    memory.put(path, body);
    Rc::new(RefCell::new(memory))
}

struct Layered {
    backend: Backend,
    cached: CachedStore<Vec<u8>>,
    timeline: Timeline,
    clock: u64,
    disk: PersistentCache,
    worker: Option<(DiskStore, SimFile)>,
    fences: HashMap<String, PathFence>,
}

impl Layered {
    fn open(backend: &Backend, media: SimMedia) -> Layered {
        Layered::open_faulty(backend, media, MediaFaultProfile::Healthy, Vec::new())
    }

    fn in_memory(backend: &Backend) -> Layered {
        Layered {
            backend: backend.clone(),
            cached: CachedStore::new(1 << 20, false),
            timeline: Timeline::new(),
            clock: 0,
            disk: PersistentCache::disabled(),
            worker: None,
            fences: HashMap::new(),
        }
    }

    fn open_faulty(
        backend: &Backend,
        media: SimMedia,
        profile: MediaFaultProfile,
        tape: Vec<u8>,
    ) -> Layered {
        let mut last = None;
        let mut disk = PersistentCache::disabled();
        let mut worker = None;
        if let Ok(mut file) = SimFile::open(media, profile, tape) {
            let (opened, store) = PersistentCache::open(
                &mut file,
                CacheGeometry::compact(),
                CAPACITY,
                "db",
                DatabaseId::from_bytes([1; 16]),
            );
            last = opened.last_sequence_point;
            disk = opened.cache;
            worker = store.map(|store| (store, file));
        }
        Layered {
            backend: backend.clone(),
            cached: CachedStore::new(1 << 20, true),
            timeline: last.map_or_else(Timeline::new, Timeline::starting_after),
            clock: 0,
            disk,
            worker,
            fences: HashMap::new(),
        }
    }

    fn now(&mut self) -> SequencePoint {
        self.clock += 10;
        self.timeline.now(self.clock)
    }

    fn after(&self, observed: &Observation<Vec<u8>>) -> SequencePoint {
        observed.current_after(self.cached.cells())
    }

    fn replace(&mut self, path: &str, revision: &[u8], body: &[u8], at: SequencePoint) {
        let fence = self.fences.entry(path.to_string()).or_default();
        let Some(inner) = self.disk.inner.as_mut() else {
            return;
        };
        if let Some(guard) = inner.begin_fence(fence, &mut self.disk.metrics) {
            let metrics = &mut self.disk.metrics;
            inner.replace(path, revision.to_vec(), body.to_vec(), at, guard, fence, metrics);
        }
    }

    fn carry(&mut self, path: &str, change: DiskChange, read: Option<(&str, &[u8])>, at: SequencePoint) {
        match (change, read) {
            (DiskChange::Keep, _) => {}
            (DiskChange::Replace, Some((version, body))) => {
                self.replace(path, version.as_bytes(), body, at);
            }
            _ => {
                let fence = self.fences.entry(path.to_string()).or_default();
                let Some(inner) = self.disk.inner.as_mut() else {
                    return;
                };
                if let Some(guard) = inner.begin_fence(fence, &mut self.disk.metrics) {
                    inner.invalidate(path, guard, fence, &mut self.disk.metrics);
                }
            }
        }
    }

    /// Works until the queue is empty; gives the last answer to a lookup.
    fn run(&mut self) -> Option<EncodedBody> {
        let mut answer = None;
        let (Some(inner), Some((store, file))) = (self.disk.inner.as_mut(), self.worker.as_mut())
        else {
            return None;
        };
        loop {
            let work = match inner.next_work(false) {
                Next::Handle(work) => work,
                Next::CleanShutdown => {
                    assert!(close(store, file, &inner.lifecycle) != Outcome::Failed);
                    return answer;
                }
                Next::Wait | Next::ForcedSync => return answer,
            };
            let (path, epoch) = match &work {
                Work::Lookup { path, .. } => (path.clone(), 0),
                Work::Replace { path, .. } => (path.clone(), 0),
                Work::Invalidate { path, .. } => (path.clone(), 0),
                Work::Promote { path, epoch } => (path.clone(), *epoch),
                Work::Shutdown => (String::new(), 0),
            };
            let fence = self.fences.entry(path.clone()).or_default();
            let action = inner.action(&work, fence);
            let performed = perform(store, file, action, &work);
            let mut outcome = performed.outcome;
            if let Some((slot, record)) = performed.promotion {
                outcome = complete_promotion(store, file, &path, slot, &record, fence, epoch);
            }
            self.disk.metrics.l2_errors(performed.damaged);
            answer = performed.answer.or(answer);
            let segments = store.disk.format.segment_count();
            inner.finish(work, outcome, segments, fence, &mut self.disk.metrics);
        }
    }

    fn candidate(&mut self, path: &str) -> Option<EncodedBody> {
        let inner = self.disk.inner.as_mut()?;
        if !inner.lookup(path, 1, &mut self.disk.metrics) {
            return None;
        }
        self.run()
    }

    fn read(&mut self, path: &str, requirement: Requirement) -> Result<Observation<Vec<u8>>, StorageError> {
        if let ReadStart::Hit { observed, .. } = self.cached.begin_read(path, KIND, requirement)? {
            return Ok(observed);
        }
        let mut lead = self.cached.lead(path, KIND, requirement, None)?;
        if matches!(lead, Lead::Persistent) {
            let mut seed = None;
            if let Some(found) = self.candidate(path) {
                let size = found.body.len();
                let decoded = Ok((Arc::new(found.body), size));
                let at = found.current_after;
                match self.cached.decode_candidate(path, KIND, found.revision, decoded, at) {
                    Candidate::Seed(found) => seed = Some(found),
                    Candidate::Corrupt => {
                        let fence = self.fences.entry(path.to_string()).or_default();
                        let inner = self.disk.inner.as_mut().unwrap();
                        inner.reject_corrupt_candidate(path, fence, &mut self.disk.metrics);
                    }
                }
            }
            lead = self.cached.lead_on(requirement, seed);
        }
        let invoked = self.now();
        let (seed, reply) = match lead {
            Lead::Answer { fetched, .. } => return self.cached.finish_read(path, KIND, fetched),
            Lead::Conditional(seed) => {
                self.backend.borrow_mut().log.push("read_if_modified");
                let found = self.backend.borrow().objects.get(path).cloned();
                let reply = match found {
                    None => Err(BackendError::NotFound),
                    Some((_, version)) if version == seed.revision().serialize() => {
                        Err(BackendError::Precondition)
                    }
                    Some(changed) => Ok(changed),
                };
                (Some(seed), reply)
            }
            _ => {
                self.backend.borrow_mut().log.push("read");
                let found = self.backend.borrow().objects.get(path).cloned();
                (None, found.ok_or(BackendError::NotFound))
            }
        };
        let read = reply.clone().ok();
        let reply = reply.map(|(body, version)| Body {
            decoded: Ok((Arc::new(body.clone()), body.len())),
            version,
        });
        let (fetched, change) = self.cached.finish_fetch(path, KIND, seed, reply, invoked);
        let kept = read.as_ref().map(|(body, version)| (version.as_str(), body.as_slice()));
        self.carry(path, change, kept, invoked);
        self.cached.finish_read(path, KIND, fetched?)
    }

    fn compare_and_swap(
        &mut self,
        expected: &Observation<Vec<u8>>,
        value: &[u8],
    ) -> Result<CasResult<Vec<u8>>, StorageError> {
        let (revision, round) = self.cached.begin_cas(expected)?;
        let invoked = self.now();
        let path = expected.path().to_string();
        let reply = self.backend.borrow_mut().write_if(&path, value, revision.serialize());
        let kept = Arc::new(value.to_vec());
        let size = value.len();
        let (result, change) =
            self.cached.finish_cas(&path, KIND, revision, round, kept, size, reply, invoked);
        self.carry(&path, change, None, invoked);
        result
    }

    fn create(
        &mut self,
        path: &str,
        absence: Option<&Observation<Vec<u8>>>,
        value: &[u8],
    ) -> Result<CasResult<Vec<u8>>, StorageError> {
        let round = self.cached.begin_create(path, absence)?;
        let invoked = self.now();
        let reply = self.backend.borrow_mut().write_if_not_exists(path, value);
        let kept = Arc::new(value.to_vec());
        let size = value.len();
        let (result, change) =
            self.cached.finish_create(path, KIND, round, kept, size, reply, invoked);
        self.carry(path, change, None, invoked);
        result
    }

    fn delete(
        &mut self,
        expected: &Observation<Vec<u8>>,
    ) -> Result<Observation<Vec<u8>>, StorageError> {
        let (revision, round) = self.cached.begin_delete(expected)?;
        let invoked = self.now();
        let path = expected.path().to_string();
        let reply = self.backend.borrow_mut().delete_if(&path, revision.serialize());
        let (result, change) = self.cached.finish_delete(&path, round, reply, invoked);
        self.carry(&path, change, None, invoked);
        result
    }

    /// Invokes a mutation whose caller goes away before the reply.
    fn invoke_and_leave(&mut self, kind: MutationKind, expected: Option<&Observation<Vec<u8>>>) {
        let version = expected.and_then(|expected| expected.revision());
        let version = version.map_or(String::new(), |revision| revision.serialize().to_string());
        self.now();
        let mut backend = self.backend.borrow_mut();
        let applied = match kind {
            MutationKind::Create => backend.write_if_not_exists("p", PROPOSED_VALUE).is_ok(),
            MutationKind::Cas => backend.write_if("p", PROPOSED_VALUE, &version).is_ok(),
            MutationKind::Delete => backend.delete_if("p", &version).is_ok(),
        };
        drop(backend);
        assert!(applied);
        let change = self.cached.abandon("p");
        self.carry("p", change, None, SequencePoint::from_raw(0));
    }

    fn mutate(
        &mut self,
        kind: MutationKind,
        expected: Option<&Observation<Vec<u8>>>,
    ) -> (ExpectedMutationResult, Option<Observation<Vec<u8>>>) {
        let result = match kind {
            MutationKind::Create => self.create("p", expected, PROPOSED_VALUE),
            MutationKind::Cas => self.compare_and_swap(expected.unwrap(), PROPOSED_VALUE),
            MutationKind::Delete => match self.delete(expected.unwrap()) {
                Ok(absence) => return (ExpectedMutationResult::Deleted, Some(absence)),
                Err(StorageError::Precondition) => {
                    return (ExpectedMutationResult::Precondition, None);
                }
                Err(error) => Err(error),
            },
        };
        match result {
            Ok(result) if result.committed() => {
                (ExpectedMutationResult::Committed, result.into_observation())
            }
            Ok(_) => (ExpectedMutationResult::Conflict, None),
            Err(StorageError::Unavailable(_)) => (ExpectedMutationResult::Unavailable, None),
            Err(StorageError::Other { .. }) => (ExpectedMutationResult::Definitive, None),
            Err(error) => panic!("unexpected result: {error:?}"),
        }
    }

    /// Makes a mutation complete in one of the ways.
    fn complete(
        &mut self,
        kind: MutationKind,
        expected: Option<&Observation<Vec<u8>>>,
        completion: CompletionCase,
    ) -> (ExpectedMutationResult, Option<Observation<Vec<u8>>>) {
        self.backend.borrow_mut().completion = completion;
        let result = if matches!(completion, CompletionCase::CancelledAfterApply) {
            self.invoke_and_leave(kind, expected);
            (ExpectedMutationResult::Cancelled, None)
        } else {
            self.mutate(kind, expected)
        };
        self.backend.borrow_mut().completion = CompletionCase::Natural;
        result
    }

    fn count(&self, operation: &str) -> usize {
        self.backend.borrow().log.iter().filter(|logged| **logged == operation).count()
    }

    fn stats(&mut self) -> CacheStats {
        let below = self.disk.metrics.snapshot_and_reset();
        let mut stats = self.cached.cache_stats_and_reset();
        stats.l2_hits += below.l2_hits;
        stats.l2_misses += below.l2_misses;
        stats.l2_errors += below.l2_errors;
        stats
    }

    fn shutdown(mut self) -> Option<SimMedia> {
        if let Some(inner) = self.disk.inner.as_mut() {
            inner.begin_shutdown();
        }
        self.run();
        self.worker.map(|(_, file)| file.close())
    }
}

fn text(observed: &Observation<Vec<u8>>) -> &[u8] {
    observed.value().unwrap().as_slice()
}

#[test]
fn persistent_cache_runs_with_cached_store_in_deterministic_simulation() {
    let backend = backend_with("p", b"one");
    let mut first = Layered::open(&backend, SimMedia::new());
    let loaded = first.read("p", Requirement::Any).unwrap();
    let persisted = first.after(&loaded);
    let media = first.shutdown().unwrap();

    let mut reopened = Layered::open(&backend, media);
    assert!(reopened.now().raw() > persisted.raw());
    let restored = reopened.read("p", Requirement::Any).unwrap();
    assert_eq!(text(&restored), b"one");
    assert_eq!(reopened.after(&restored), persisted);
    assert!(restored.cache_hit());
    assert_eq!(reopened.cached.body_reads(), 0);
    reopened.shutdown();
}

#[test]
fn simulated_media_failure_remains_a_cached_store_performance_failure() {
    let backend = backend_with("p", b"one");
    let mut store = Layered::open_faulty(
        &backend,
        SimMedia::new(),
        MediaFaultProfile::Selected,
        vec![255],
    );
    assert!(!store.disk.is_enabled());

    let loaded = store.read("p", Requirement::Any).unwrap();
    assert_eq!(text(&loaded), b"one");
    store.shutdown();
}

#[test]
fn simulated_invalid_candidate_is_rejected_before_escape() {
    let backend = backend_with("p", b"backend");
    let mut store = Layered::open(&backend, SimMedia::new());
    store.replace("p", &[0xff], b"untrusted", SequencePoint::from_raw(1));

    let loaded = store.read("p", Requirement::Any).unwrap();
    assert_eq!(text(&loaded), b"backend");
    assert_eq!(store.cached.body_reads(), 1);
    assert_eq!(store.count("read"), 1);
    assert_eq!(store.count("read_if_modified"), 0);
    assert!(store.stats().l2_errors >= 1);
    store.shutdown();
}

#[test]
fn persistent_evidence_precedes_the_reopened_session() {
    let backend = backend_with("p", b"one");
    let mut first = Layered::open(&backend, SimMedia::new());
    let loaded = first.read("p", Requirement::Any).unwrap();
    let persisted = first.after(&loaded);
    let media = first.shutdown().unwrap();

    let mut reopened = Layered::open(&backend, media);
    let bound = reopened.now();
    assert!(bound.raw() > persisted.raw());

    let restored = reopened.read("p", Requirement::Any).unwrap();
    assert_eq!(text(&restored), b"one");
    assert_eq!(reopened.after(&restored), persisted);
    assert!(restored.cache_hit());
    assert_eq!(reopened.cached.body_reads(), 0);

    backend.borrow_mut().log.clear();
    let verified = reopened.read("p", Requirement::AtLeast(bound)).unwrap();
    assert!(reopened.after(&verified).raw() >= bound.raw());
    assert_eq!(reopened.cached.body_reads(), 0);
    assert_eq!(
        reopened.count("read_if_modified"),
        1,
        "persisted evidence should seed a conditional backend read"
    );
    let stats = reopened.stats();
    assert_eq!(stats.l2_hits, 1, "cache stats: {stats:?}");
    reopened.shutdown();
}

#[test]
fn mutation_invalidates_a_persisted_body_without_admitting_the_write() {
    let backend = backend_with("p", b"one");
    let mut first = Layered::open(&backend, SimMedia::new());
    let old = first.read("p", Requirement::Any).unwrap();
    let changed = first.compare_and_swap(&old, b"two").unwrap();
    assert!(changed.committed());
    let media = first.shutdown().unwrap();

    let mut reopened = Layered::open(&backend, media);
    let loaded = reopened.read("p", Requirement::Any).unwrap();
    assert_eq!(text(&loaded), b"two");
    assert!(reopened.after(&loaded).raw() > 0);
    assert_eq!(reopened.cached.body_reads(), 1);
    let stats = reopened.stats();
    assert_eq!(stats.l2_hits, 0, "cache stats: {stats:?}");
    assert_eq!(stats.l2_misses, 1, "cache stats: {stats:?}");
    reopened.shutdown();
}

#[test]
fn a_body_changed_behind_a_reopened_cache_is_read_again() {
    let backend = backend_with("p", b"one");
    let mut first = Layered::open(&backend, SimMedia::new());
    first.read("p", Requirement::Any).unwrap();
    let media = first.shutdown().unwrap();
    backend.borrow_mut().put("p", b"two");

    let mut reopened = Layered::open(&backend, media);
    let bound = reopened.now();
    let loaded = reopened.read("p", Requirement::AtLeast(bound)).unwrap();
    assert_eq!(text(&loaded), b"two");
    assert!(!loaded.cache_hit());
    assert_eq!(reopened.count("read_if_modified"), 1);
    let media = reopened.shutdown().unwrap();

    // The body that replaced the stale one is what survives.
    let mut again = Layered::open(&backend, media);
    let restored = again.read("p", Requirement::Any).unwrap();
    assert_eq!(text(&restored), b"two");
    assert_eq!(again.cached.body_reads(), 0);
}

#[derive(Clone, Copy, Debug)]
enum KnowledgeCase {
    Absent,
    Matching,
    Stale,
    Missing,
    KnownWinner,
}

struct MutationCase {
    name: &'static str,
    kind: MutationKind,
    knowledge: KnowledgeCase,
    completion: CompletionCase,
    result: ExpectedMutationResult,
    advance_expected: bool,
    next_value: ExpectedValue,
    next_cache_hit: bool,
}

const MUTATION_CASES: &[MutationCase] = &[
    MutationCase {
        name: "create commits from known absence",
        kind: MutationKind::Create,
        knowledge: KnowledgeCase::Absent,
        completion: CompletionCase::Natural,
        result: ExpectedMutationResult::Committed,
        advance_expected: true,
        next_value: ExpectedValue::Proposed,
        next_cache_hit: true,
    },
    MutationCase {
        name: "create conflicts with stale absence",
        kind: MutationKind::Create,
        knowledge: KnowledgeCase::Stale,
        completion: CompletionCase::Natural,
        result: ExpectedMutationResult::Conflict,
        advance_expected: false,
        next_value: ExpectedValue::Winner,
        next_cache_hit: false,
    },
    MutationCase {
        name: "create lost acknowledgement is uncertain",
        kind: MutationKind::Create,
        knowledge: KnowledgeCase::Absent,
        completion: CompletionCase::UnavailableAfterApply,
        result: ExpectedMutationResult::Unavailable,
        advance_expected: false,
        next_value: ExpectedValue::Proposed,
        next_cache_hit: false,
    },
    MutationCase {
        name: "create definitive failure preserves absence",
        kind: MutationKind::Create,
        knowledge: KnowledgeCase::Absent,
        completion: CompletionCase::DefinitiveBeforeApply,
        result: ExpectedMutationResult::Definitive,
        advance_expected: false,
        next_value: ExpectedValue::Absent,
        next_cache_hit: true,
    },
    MutationCase {
        name: "cancelled invoked create is uncertain",
        kind: MutationKind::Create,
        knowledge: KnowledgeCase::Absent,
        completion: CompletionCase::CancelledAfterApply,
        result: ExpectedMutationResult::Cancelled,
        advance_expected: false,
        next_value: ExpectedValue::Proposed,
        next_cache_hit: false,
    },
    MutationCase {
        name: "CAS commits from matching revision",
        kind: MutationKind::Cas,
        knowledge: KnowledgeCase::Matching,
        completion: CompletionCase::Natural,
        result: ExpectedMutationResult::Committed,
        advance_expected: true,
        next_value: ExpectedValue::Proposed,
        next_cache_hit: true,
    },
    MutationCase {
        name: "CAS conflict invalidates stale revision",
        kind: MutationKind::Cas,
        knowledge: KnowledgeCase::Stale,
        completion: CompletionCase::Natural,
        result: ExpectedMutationResult::Conflict,
        advance_expected: false,
        next_value: ExpectedValue::Winner,
        next_cache_hit: false,
    },
    MutationCase {
        name: "CAS conflict preserves known winner",
        kind: MutationKind::Cas,
        knowledge: KnowledgeCase::KnownWinner,
        completion: CompletionCase::Natural,
        result: ExpectedMutationResult::Conflict,
        advance_expected: false,
        next_value: ExpectedValue::Winner,
        next_cache_hit: true,
    },
    MutationCase {
        name: "CAS missing installs absence",
        kind: MutationKind::Cas,
        knowledge: KnowledgeCase::Missing,
        completion: CompletionCase::Natural,
        result: ExpectedMutationResult::Conflict,
        advance_expected: false,
        next_value: ExpectedValue::Absent,
        next_cache_hit: true,
    },
    MutationCase {
        name: "CAS lost acknowledgement is uncertain",
        kind: MutationKind::Cas,
        knowledge: KnowledgeCase::Matching,
        completion: CompletionCase::UnavailableAfterApply,
        result: ExpectedMutationResult::Unavailable,
        advance_expected: false,
        next_value: ExpectedValue::Proposed,
        next_cache_hit: false,
    },
    MutationCase {
        name: "CAS definitive failure preserves expected revision",
        kind: MutationKind::Cas,
        knowledge: KnowledgeCase::Matching,
        completion: CompletionCase::DefinitiveBeforeApply,
        result: ExpectedMutationResult::Definitive,
        advance_expected: false,
        next_value: ExpectedValue::Old,
        next_cache_hit: true,
    },
    MutationCase {
        name: "cancelled invoked CAS is uncertain",
        kind: MutationKind::Cas,
        knowledge: KnowledgeCase::Matching,
        completion: CompletionCase::CancelledAfterApply,
        result: ExpectedMutationResult::Cancelled,
        advance_expected: false,
        next_value: ExpectedValue::Proposed,
        next_cache_hit: false,
    },
    MutationCase {
        name: "delete commits from matching revision",
        kind: MutationKind::Delete,
        knowledge: KnowledgeCase::Matching,
        completion: CompletionCase::Natural,
        result: ExpectedMutationResult::Deleted,
        advance_expected: true,
        next_value: ExpectedValue::Absent,
        next_cache_hit: true,
    },
    MutationCase {
        name: "delete conflict invalidates stale revision",
        kind: MutationKind::Delete,
        knowledge: KnowledgeCase::Stale,
        completion: CompletionCase::Natural,
        result: ExpectedMutationResult::Precondition,
        advance_expected: false,
        next_value: ExpectedValue::Winner,
        next_cache_hit: false,
    },
    MutationCase {
        name: "delete conflict preserves known winner",
        kind: MutationKind::Delete,
        knowledge: KnowledgeCase::KnownWinner,
        completion: CompletionCase::Natural,
        result: ExpectedMutationResult::Precondition,
        advance_expected: false,
        next_value: ExpectedValue::Winner,
        next_cache_hit: true,
    },
    MutationCase {
        name: "delete missing converges on absence",
        kind: MutationKind::Delete,
        knowledge: KnowledgeCase::Missing,
        completion: CompletionCase::Natural,
        result: ExpectedMutationResult::Deleted,
        advance_expected: false,
        next_value: ExpectedValue::Absent,
        next_cache_hit: true,
    },
    MutationCase {
        name: "delete lost acknowledgement is uncertain",
        kind: MutationKind::Delete,
        knowledge: KnowledgeCase::Matching,
        completion: CompletionCase::UnavailableAfterApply,
        result: ExpectedMutationResult::Unavailable,
        advance_expected: false,
        next_value: ExpectedValue::Absent,
        next_cache_hit: false,
    },
    MutationCase {
        name: "delete definitive failure preserves expected revision",
        kind: MutationKind::Delete,
        knowledge: KnowledgeCase::Matching,
        completion: CompletionCase::DefinitiveBeforeApply,
        result: ExpectedMutationResult::Definitive,
        advance_expected: false,
        next_value: ExpectedValue::Old,
        next_cache_hit: true,
    },
    MutationCase {
        name: "cancelled invoked delete is uncertain",
        kind: MutationKind::Delete,
        knowledge: KnowledgeCase::Matching,
        completion: CompletionCase::CancelledAfterApply,
        result: ExpectedMutationResult::Cancelled,
        advance_expected: false,
        next_value: ExpectedValue::Absent,
        next_cache_hit: false,
    },
];

fn prepare(
    store: &mut Layered,
    kind: MutationKind,
    knowledge: KnowledgeCase,
) -> (Observation<Vec<u8>>, Option<Observation<Vec<u8>>>) {
    let expected = match kind {
        MutationKind::Create => store.read("p", Requirement::Any).unwrap(),
        _ => store.create("p", None, OLD_VALUE).unwrap().into_observation().unwrap(),
    };
    match knowledge {
        KnowledgeCase::Stale | KnowledgeCase::KnownWinner => {
            store.backend.borrow_mut().put("p", WINNER_VALUE);
        }
        KnowledgeCase::Missing => {
            store.backend.borrow_mut().objects.remove("p");
        }
        KnowledgeCase::Absent | KnowledgeCase::Matching => {}
    }
    let mut known_winner = None;
    if matches!(knowledge, KnowledgeCase::KnownWinner) {
        let bound = store.now();
        known_winner = Some(store.read("p", Requirement::AtLeast(bound)).unwrap());
    }
    assert_eq!(expected.is_absent(), matches!(kind, MutationKind::Create));
    store.backend.borrow_mut().log.clear();
    (expected, known_winner)
}

#[test]
fn mutation_protocol_matrix() {
    for case in MUTATION_CASES {
        let backend = Rc::new(RefCell::new(Memory::new()));
        let mut store = Layered::in_memory(&backend);
        let (expected, known_winner) = prepare(&mut store, case.kind, case.knowledge);
        let original_evidence = store.after(&expected);
        let known_winner_evidence = known_winner.as_ref().map(|winner| store.after(winner));
        let barrier = store.now();

        let (result, observation) = store.complete(case.kind, Some(&expected), case.completion);

        assert_eq!(result, case.result, "{}: result", case.name);
        assert_eq!(
            store.after(&expected).raw() >= barrier.raw(),
            case.advance_expected,
            "{}: expected evidence",
            case.name
        );
        if !case.advance_expected {
            assert_eq!(
                store.after(&expected),
                original_evidence,
                "{}: unchanged expected evidence",
                case.name
            );
        }
        if let Some(known_winner) = &known_winner {
            assert_eq!(
                Some(store.after(known_winner)),
                known_winner_evidence,
                "{}: known winner evidence",
                case.name
            );
        }
        if let Some(observation) = &observation {
            let value = match case.kind {
                MutationKind::Delete => ExpectedValue::Absent,
                _ => ExpectedValue::Proposed,
            };
            assert_observation(observation, value, false, case.name);
            assert!(
                store.after(observation).raw() >= barrier.raw(),
                "{}: returned evidence",
                case.name
            );
        }
        assert_eq!(backend.borrow().log, [case.kind.operation()], "{}", case.name);

        backend.borrow_mut().log.clear();
        let next = store.read("p", Requirement::Any).unwrap();
        assert_observation(&next, case.next_value, case.next_cache_hit, case.name);
        let expected_operations: &[&str] = if case.next_cache_hit { &[] } else { &["read"] };
        assert_eq!(backend.borrow().log, expected_operations, "{}", case.name);
    }
}

#[derive(Clone, Copy, Debug)]
enum L2RemoteCase {
    Matching,
    Stale,
    Missing,
}

struct L2MutationCase {
    name: &'static str,
    kind: MutationKind,
    remote: L2RemoteCase,
    completion: CompletionCase,
    result: ExpectedMutationResult,
    advance_expected: bool,
    next_value: ExpectedValue,
}

const L2_MUTATION_CASES: &[L2MutationCase] = &[
    L2MutationCase {
        name: "L2 create commits after persisted state became missing",
        kind: MutationKind::Create,
        remote: L2RemoteCase::Missing,
        completion: CompletionCase::Natural,
        result: ExpectedMutationResult::Committed,
        advance_expected: false,
        next_value: ExpectedValue::Proposed,
    },
    L2MutationCase {
        name: "L2 create conflict invalidates persisted state",
        kind: MutationKind::Create,
        remote: L2RemoteCase::Matching,
        completion: CompletionCase::Natural,
        result: ExpectedMutationResult::Conflict,
        advance_expected: false,
        next_value: ExpectedValue::Old,
    },
    L2MutationCase {
        name: "L2 create lost acknowledgement invalidates persisted state",
        kind: MutationKind::Create,
        remote: L2RemoteCase::Missing,
        completion: CompletionCase::UnavailableAfterApply,
        result: ExpectedMutationResult::Unavailable,
        advance_expected: false,
        next_value: ExpectedValue::Proposed,
    },
    L2MutationCase {
        name: "L2 create definitive failure preserves persisted state",
        kind: MutationKind::Create,
        remote: L2RemoteCase::Matching,
        completion: CompletionCase::DefinitiveBeforeApply,
        result: ExpectedMutationResult::Definitive,
        advance_expected: false,
        next_value: ExpectedValue::Old,
    },
    L2MutationCase {
        name: "L2 cancelled create invalidates persisted state",
        kind: MutationKind::Create,
        remote: L2RemoteCase::Missing,
        completion: CompletionCase::CancelledAfterApply,
        result: ExpectedMutationResult::Cancelled,
        advance_expected: false,
        next_value: ExpectedValue::Proposed,
    },
    L2MutationCase {
        name: "L2 CAS commits from persisted revision",
        kind: MutationKind::Cas,
        remote: L2RemoteCase::Matching,
        completion: CompletionCase::Natural,
        result: ExpectedMutationResult::Committed,
        advance_expected: true,
        next_value: ExpectedValue::Proposed,
    },
    L2MutationCase {
        name: "L2 CAS conflict invalidates persisted stale revision",
        kind: MutationKind::Cas,
        remote: L2RemoteCase::Stale,
        completion: CompletionCase::Natural,
        result: ExpectedMutationResult::Conflict,
        advance_expected: false,
        next_value: ExpectedValue::Winner,
    },
    L2MutationCase {
        name: "L2 CAS missing invalidates persisted revision",
        kind: MutationKind::Cas,
        remote: L2RemoteCase::Missing,
        completion: CompletionCase::Natural,
        result: ExpectedMutationResult::Conflict,
        advance_expected: false,
        next_value: ExpectedValue::Absent,
    },
    L2MutationCase {
        name: "L2 CAS lost acknowledgement invalidates persisted revision",
        kind: MutationKind::Cas,
        remote: L2RemoteCase::Matching,
        completion: CompletionCase::UnavailableAfterApply,
        result: ExpectedMutationResult::Unavailable,
        advance_expected: false,
        next_value: ExpectedValue::Proposed,
    },
    L2MutationCase {
        name: "L2 CAS definitive failure preserves persisted revision",
        kind: MutationKind::Cas,
        remote: L2RemoteCase::Matching,
        completion: CompletionCase::DefinitiveBeforeApply,
        result: ExpectedMutationResult::Definitive,
        advance_expected: false,
        next_value: ExpectedValue::Old,
    },
    L2MutationCase {
        name: "L2 cancelled CAS invalidates persisted revision",
        kind: MutationKind::Cas,
        remote: L2RemoteCase::Matching,
        completion: CompletionCase::CancelledAfterApply,
        result: ExpectedMutationResult::Cancelled,
        advance_expected: false,
        next_value: ExpectedValue::Proposed,
    },
    L2MutationCase {
        name: "L2 delete commits from persisted revision",
        kind: MutationKind::Delete,
        remote: L2RemoteCase::Matching,
        completion: CompletionCase::Natural,
        result: ExpectedMutationResult::Deleted,
        advance_expected: true,
        next_value: ExpectedValue::Absent,
    },
    L2MutationCase {
        name: "L2 delete conflict invalidates persisted stale revision",
        kind: MutationKind::Delete,
        remote: L2RemoteCase::Stale,
        completion: CompletionCase::Natural,
        result: ExpectedMutationResult::Precondition,
        advance_expected: false,
        next_value: ExpectedValue::Winner,
    },
    L2MutationCase {
        name: "L2 delete missing invalidates persisted revision",
        kind: MutationKind::Delete,
        remote: L2RemoteCase::Missing,
        completion: CompletionCase::Natural,
        result: ExpectedMutationResult::Deleted,
        advance_expected: false,
        next_value: ExpectedValue::Absent,
    },
    L2MutationCase {
        name: "L2 delete lost acknowledgement invalidates persisted revision",
        kind: MutationKind::Delete,
        remote: L2RemoteCase::Matching,
        completion: CompletionCase::UnavailableAfterApply,
        result: ExpectedMutationResult::Unavailable,
        advance_expected: false,
        next_value: ExpectedValue::Absent,
    },
    L2MutationCase {
        name: "L2 delete definitive failure preserves persisted revision",
        kind: MutationKind::Delete,
        remote: L2RemoteCase::Matching,
        completion: CompletionCase::DefinitiveBeforeApply,
        result: ExpectedMutationResult::Definitive,
        advance_expected: false,
        next_value: ExpectedValue::Old,
    },
    L2MutationCase {
        name: "L2 cancelled delete invalidates persisted revision",
        kind: MutationKind::Delete,
        remote: L2RemoteCase::Matching,
        completion: CompletionCase::CancelledAfterApply,
        result: ExpectedMutationResult::Cancelled,
        advance_expected: false,
        next_value: ExpectedValue::Absent,
    },
];

#[test]
fn persistent_mutation_protocol_matrix() {
    for case in L2_MUTATION_CASES {
        let backend = backend_with("p", OLD_VALUE);
        let mut first = Layered::open(&backend, SimMedia::new());
        let persisted = first.read("p", Requirement::Any).unwrap();
        assert_observation(&persisted, ExpectedValue::Old, false, case.name);
        let media = first.shutdown().unwrap();

        backend.borrow_mut().log.clear();
        let mut second = Layered::open(&backend, media);
        let mut expected = None;
        if !matches!(case.kind, MutationKind::Create) {
            let restored = second.read("p", Requirement::Any).unwrap();
            assert_observation(&restored, ExpectedValue::Old, true, case.name);
            assert!(backend.borrow().log.is_empty(), "{}", case.name);
            expected = Some(restored);
        }
        match case.remote {
            L2RemoteCase::Matching => {}
            L2RemoteCase::Stale => {
                backend.borrow_mut().put("p", WINNER_VALUE);
            }
            L2RemoteCase::Missing => {
                backend.borrow_mut().objects.remove("p");
            }
        }
        let original_evidence = expected.as_ref().map(|expected| second.after(expected));
        let barrier = second.now();

        let (result, observation) = second.complete(case.kind, expected.as_ref(), case.completion);

        assert_eq!(result, case.result, "{}: result", case.name);
        if let (Some(expected), Some(original_evidence)) = (&expected, original_evidence) {
            assert_eq!(
                second.after(expected).raw() >= barrier.raw(),
                case.advance_expected,
                "{}: expected evidence",
                case.name
            );
            if !case.advance_expected {
                assert_eq!(
                    second.after(expected),
                    original_evidence,
                    "{}: unchanged expected evidence",
                    case.name
                );
            }
        }
        if let Some(observation) = &observation {
            let value = match case.kind {
                MutationKind::Delete => ExpectedValue::Absent,
                _ => ExpectedValue::Proposed,
            };
            assert_observation(observation, value, false, case.name);
            assert!(
                second.after(observation).raw() >= barrier.raw(),
                "{}: returned evidence",
                case.name
            );
        }
        assert_eq!(backend.borrow().log, [case.kind.operation()], "{}", case.name);
        let media = second.shutdown().unwrap();

        backend.borrow_mut().log.clear();
        let mut third = Layered::open(&backend, media);
        let next = third.read("p", Requirement::Any).unwrap();
        let preserved = matches!(case.completion, CompletionCase::DefinitiveBeforeApply);
        assert_observation(&next, case.next_value, preserved, case.name);
        let expected_operations: &[&str] = if preserved { &[] } else { &["read"] };
        assert_eq!(backend.borrow().log, expected_operations, "{}", case.name);
        third.shutdown();
    }
}
