use std::cell::RefCell;
use std::collections::HashMap;
use std::rc::Rc;
use std::sync::Arc;

use glassdb_storage::cached_store::evidence::{CasResult, Observation, ObservationCheck};
use glassdb_storage::cached_store::mutation::DiskChange;
use glassdb_storage::cached_store::path_lane::{Flight, FlightEnd, PathLane, ReadAdmission};
use glassdb_storage::cached_store::{
    check_path, typed_page, Body, CachedStore, Candidate, CheckStart, Lead, ListedPath, ReadStart,
};
use glassdb_storage::error::{BackendError, StorageError};
use glassdb_storage::timeline::{Requirement, SequencePoint, Timeline};

const KIND: &str = "Bytes";

/// A backend in memory that logs its operations.
#[derive(Default)]
struct Memory {
    objects: HashMap<String, (Vec<u8>, String)>,
    versions: u64,
    by_content: bool,
    log: Vec<&'static str>,
    lose_acknowledgement: bool,
    reject: bool,
}

impl Memory {
    fn version(&mut self, body: &[u8]) -> String {
        if self.by_content {
            return format!("{body:?}");
        }
        self.versions += 1;
        format!("v{}", self.versions)
    }

    fn read(&mut self, path: &str) -> Result<(Vec<u8>, String), BackendError> {
        self.log.push("read");
        self.objects.get(path).cloned().ok_or(BackendError::NotFound)
    }

    fn read_if_modified(
        &mut self,
        path: &str,
        version: &str,
    ) -> Result<(Vec<u8>, String), BackendError> {
        self.log.push("read_if_modified");
        let found = self.objects.get(path).cloned().ok_or(BackendError::NotFound)?;
        if found.1 == version {
            Err(BackendError::Precondition)
        } else {
            Ok(found)
        }
    }

    fn answer<T>(&mut self, done: T) -> Result<T, BackendError> {
        if self.lose_acknowledgement {
            Err(BackendError::Unavailable("lost ack".to_string()))
        } else {
            Ok(done)
        }
    }

    fn accept(&mut self, operation: &'static str) -> Result<(), BackendError> {
        if self.reject {
            return Err(BackendError::Other { msg: "boom".to_string(), source: None });
        }
        self.log.push(operation);
        Ok(())
    }

    fn write_if_not_exists(&mut self, path: &str, body: &[u8]) -> Result<String, BackendError> {
        self.accept("write_if_not_exists")?;
        if self.objects.contains_key(path) {
            return Err(BackendError::Precondition);
        }
        let version = self.version(body);
        self.objects.insert(path.to_string(), (body.to_vec(), version.clone()));
        self.answer(version)
    }

    fn write_if(&mut self, path: &str, body: &[u8], expected: &str) -> Result<String, BackendError> {
        self.accept("write_if")?;
        match self.objects.get(path) {
            Some((_, version)) if version == expected => {}
            _ => return Err(BackendError::Precondition),
        }
        let version = self.version(body);
        self.objects.insert(path.to_string(), (body.to_vec(), version.clone()));
        self.answer(version)
    }

    fn delete_if(&mut self, path: &str, expected: &str) -> Result<(), BackendError> {
        self.accept("delete_if")?;
        match self.objects.get(path) {
            None => return Err(BackendError::NotFound),
            Some((_, version)) if version == expected => {}
            _ => return Err(BackendError::Precondition),
        }
        self.objects.remove(path);
        self.answer(())
    }
}

type Backend = Rc<RefCell<Memory>>;

/// A store whose reads and mutations run to their end at once.
struct Store {
    cached: CachedStore<Vec<u8>>,
    timeline: Timeline,
    clock: u64,
    backend: Backend,
    changes: Vec<DiskChange>,
}

fn backend() -> Backend {
    Rc::new(RefCell::new(Memory::default()))
}

impl Store {
    fn on(backend: &Backend) -> Store {
        Store {
            cached: CachedStore::new(1 << 20, false),
            timeline: Timeline::new(),
            clock: 0,
            backend: backend.clone(),
            changes: Vec::new(),
        }
    }

    fn now(&mut self) -> SequencePoint {
        self.clock += 10;
        self.timeline.now(self.clock)
    }

    fn after(&self, observed: &Observation<Vec<u8>>) -> SequencePoint {
        observed.current_after(self.cached.cells())
    }

    fn read(
        &mut self,
        path: &str,
        requirement: Requirement,
    ) -> Result<Observation<Vec<u8>>, StorageError> {
        self.read_as(path, KIND, requirement)
    }

    fn read_as(
        &mut self,
        path: &str,
        kind: &str,
        requirement: Requirement,
    ) -> Result<Observation<Vec<u8>>, StorageError> {
        match self.cached.begin_read(path, kind, requirement)? {
            ReadStart::Hit { observed, .. } => Ok(observed),
            ReadStart::Fetch => self.fetch(path, kind, requirement, None),
        }
    }

    fn fetch(
        &mut self,
        path: &str,
        kind: &str,
        requirement: Requirement,
        fallback: Option<(&Observation<Vec<u8>>, usize)>,
    ) -> Result<Observation<Vec<u8>>, StorageError> {
        let mut lead = self.cached.lead(path, kind, requirement, fallback)?;
        if matches!(lead, Lead::Persistent) {
            lead = self.cached.lead_on(requirement, None);
        }
        let invoked = self.now();
        let (seed, reply) = match lead {
            Lead::Answer { fetched, .. } => return self.cached.finish_read(path, kind, fetched),
            Lead::Conditional(seed) => {
                let version = seed.revision().serialize().to_string();
                let reply = self.backend.borrow_mut().read_if_modified(path, &version);
                (Some(seed), reply)
            }
            _ => (None, self.backend.borrow_mut().read(path)),
        };
        let reply = reply.map(|(body, version)| Body {
            decoded: Ok((Arc::new(body.clone()), body.len())),
            version,
        });
        let (fetched, change) = self.cached.finish_fetch(path, kind, seed, reply, invoked);
        self.changes.push(change);
        self.cached.finish_read(path, kind, fetched?)
    }

    fn check_current(
        &mut self,
        observed: &Observation<Vec<u8>>,
        bound: SequencePoint,
    ) -> Result<ObservationCheck<Vec<u8>>, StorageError> {
        let requirement = Requirement::AtLeast(bound);
        match self.cached.begin_check(observed, KIND, requirement)? {
            CheckStart::Settled { check, .. } => Ok(check),
            CheckStart::Fetch => {
                let path = observed.path().to_string();
                let size = observed.value().map_or(0, |value| value.len());
                let fallback = observed.is_present().then_some((observed, size));
                let current = self.fetch(&path, KIND, requirement, fallback)?;
                Ok(self.cached.finish_check(observed, current))
            }
        }
    }

    fn create(
        &mut self,
        path: &str,
        absence: Option<&Observation<Vec<u8>>>,
        value: &[u8],
    ) -> Result<CasResult<Vec<u8>>, StorageError> {
        let round = self.cached.begin_create(path, absence)?;
        let invoked = self.now();
        let reply = self.backend.borrow_mut().write_if_not_exists(path, value);
        let (result, change) = self.cached.finish_create(
            path,
            KIND,
            round,
            Arc::new(value.to_vec()),
            value.len(),
            reply,
            invoked,
        );
        self.changes.push(change);
        result
    }

    fn compare_and_swap(
        &mut self,
        expected: &Observation<Vec<u8>>,
        value: &[u8],
    ) -> Result<CasResult<Vec<u8>>, StorageError> {
        let (revision, round) = self.cached.begin_cas(expected)?;
        let invoked = self.now();
        let path = expected.path().to_string();
        let reply = self.backend.borrow_mut().write_if(&path, value, revision.serialize());
        let (result, change) = self.cached.finish_cas(
            &path,
            KIND,
            revision,
            round,
            Arc::new(value.to_vec()),
            value.len(),
            reply,
            invoked,
        );
        self.changes.push(change);
        result
    }

    fn delete(
        &mut self,
        expected: &Observation<Vec<u8>>,
    ) -> Result<Observation<Vec<u8>>, StorageError> {
        let (revision, round) = self.cached.begin_delete(expected)?;
        let invoked = self.now();
        let path = expected.path().to_string();
        let reply = self.backend.borrow_mut().delete_if(&path, revision.serialize());
        let (result, change) = self.cached.finish_delete(&path, round, reply, invoked);
        self.changes.push(change);
        result
    }

    fn create_value(&mut self, path: &str, value: &[u8]) -> Observation<Vec<u8>> {
        self.create(path, None, value).unwrap().into_observation().unwrap()
    }

    fn replace_value(&mut self, path: &str, value: &[u8]) -> Observation<Vec<u8>> {
        let now = self.now();
        let observed = self.read(path, Requirement::AtLeast(now)).unwrap();
        self.compare_and_swap(&observed, value).unwrap().into_observation().unwrap()
    }

    fn count(&self, operation: &str) -> usize {
        self.backend.borrow().log.iter().filter(|logged| **logged == operation).count()
    }

    fn clear(&self) {
        self.backend.borrow_mut().log.clear();
    }
}

fn text(observed: &Observation<Vec<u8>>) -> &[u8] {
    observed.value().unwrap().as_slice()
}

#[test]
fn any_hit_is_local_and_at_least_checks_current_and_advances() {
    let mut s = Store::on(&backend());
    s.create_value("p", b"a");

    let o1 = s.read("p", Requirement::Any).unwrap();
    let at1 = s.after(&o1);
    assert_eq!(text(&o1), b"a");
    assert!(o1.cache_hit());
    assert_eq!(s.count("read"), 0);
    assert_eq!(s.count("read_if_modified"), 0);

    let t = s.now();
    let o2 = s.read("p", Requirement::AtLeast(t)).unwrap();
    assert_eq!(s.count("read_if_modified"), 1);
    assert!(s.after(&o2).raw() >= t.raw());
    assert!(s.after(&o2).raw() >= at1.raw());
}

#[test]
fn at_least_served_locally_when_watermark_sufficient() {
    let mut s = Store::on(&backend());
    s.create_value("p", b"a");
    let t = s.now();
    let o = s.read("p", Requirement::AtLeast(t)).unwrap();
    let w = s.after(&o);
    s.clear();

    let o2 = s.read("p", Requirement::AtLeast(w)).unwrap();
    assert_eq!(s.count("read"), 0);
    assert_eq!(s.count("read_if_modified"), 0);
    assert!(s.after(&o2).raw() >= w.raw());
}

#[test]
fn any_rereads_after_conflict_invalidates_starting_entry() {
    let shared = backend();
    let mut s1 = Store::on(&shared);
    let mut s2 = Store::on(&shared);
    let obs = s1.create_value("p", b"a");
    s2.replace_value("p", b"b");

    assert!(!s1.compare_and_swap(&obs, b"c").unwrap().committed());
    s1.clear();

    let got = s1.read("p", Requirement::Any).unwrap();
    assert_eq!(text(&got), b"b");
    assert_eq!(s1.count("read"), 1);
}

#[test]
fn same_state_holds_across_independent_evidence_for_one_revision() {
    let shared = backend();
    let mut a = Store::on(&shared);
    let mut b = Store::on(&shared);
    a.create_value("p", b"x");
    let obs_a = a.read("p", Requirement::Any).unwrap();
    let obs_b = b.read("p", Requirement::Any).unwrap();
    assert_eq!(
        obs_a.revision().unwrap().serialize(),
        obs_b.revision().unwrap().serialize()
    );
    assert!(obs_a.same_state(&obs_b));
}

#[test]
fn observation_outlives_invalidation() {
    let shared = backend();
    let mut s1 = Store::on(&shared);
    let mut s2 = Store::on(&shared);
    let obs = s1.create_value("p", b"a");
    let w = s1.after(&obs);
    s2.replace_value("p", b"b");
    s1.compare_and_swap(&obs, b"c").unwrap();
    assert_eq!(text(&obs), b"a");

    s1.clear();
    assert!(matches!(s1.check_current(&obs, w).unwrap(), ObservationCheck::Current));
    assert_eq!(s1.count("read"), 0);
    assert_eq!(s1.count("read_if_modified"), 0);

    let t = s1.now();
    match s1.check_current(&obs, t).unwrap() {
        ObservationCheck::Changed(current) => assert_eq!(text(&current), b"b"),
        ObservationCheck::Current => panic!("a stricter bound must observe the changed state"),
    }
    let got = s1.read("p", Requirement::Any).unwrap();
    assert_eq!(text(&got), b"b");
}

#[test]
fn newer_current_evidence_confirms_an_observation_without_io() {
    let shared = backend();
    let mut local = Store::on(&shared);
    let mut peer = Store::on(&shared);
    let observed = local.create_value("p", b"a");
    peer.replace_value("p", b"b");
    let bound = local.now();
    let current = local.read("p", Requirement::AtLeast(bound)).unwrap();
    assert_eq!(text(&current), b"b");

    local.clear();
    match local.check_current(&observed, bound).unwrap() {
        ObservationCheck::Changed(changed) => assert_eq!(text(&changed), b"b"),
        ObservationCheck::Current => panic!("the retained revision changed"),
    }
    assert!(local.backend.borrow().log.is_empty());
}

#[test]
fn successful_cas_advances_expected_and_installs() {
    let mut s = Store::on(&backend());
    let obs = s.create_value("p", b"a");
    let before = s.now();
    let nb = s.compare_and_swap(&obs, b"b").unwrap().into_observation().unwrap();
    assert!(s.after(&obs).raw() >= before.raw());
    assert!(s.after(&nb).raw() >= before.raw());
    assert_eq!(text(&nb), b"b");
    assert_eq!(s.changes.last(), Some(&DiskChange::Invalidate));

    let got = s.read("p", Requirement::Any).unwrap();
    assert_eq!(text(&got), b"b");
}

#[test]
fn successful_cas_advances_observation_and_reloaded_evidence() {
    let mut store = Store::on(&backend());
    let expected = store.create_value("p", b"a");
    store.cached.abandon("p");
    let reloaded = store.read("p", Requirement::Any).unwrap();
    assert!(expected.same_state(&reloaded));
    assert_ne!(expected.cell(), reloaded.cell());

    let before = store.now();
    store.compare_and_swap(&expected, b"b").unwrap();
    assert!(store.after(&expected).raw() >= before.raw());
    assert!(store.after(&reloaded).raw() >= before.raw());
}

#[test]
fn cas_conflict_advances_nothing() {
    let shared = backend();
    let mut s1 = Store::on(&shared);
    let mut s2 = Store::on(&shared);
    let obs = s1.create_value("p", b"a");
    s2.replace_value("p", b"b");

    let before = s1.now();
    assert!(!s1.compare_and_swap(&obs, b"c").unwrap().committed());
    assert!(s1.after(&obs).raw() < before.raw());
    let got = s1.read("p", Requirement::Any).unwrap();
    assert_eq!(text(&got), b"b");
}

#[test]
fn cas_in_doubt_makes_path_uncertain() {
    let shared = backend();
    let mut s = Store::on(&shared);
    let obs = s.create_value("p", b"a");
    let before = s.now();

    shared.borrow_mut().lose_acknowledgement = true;
    let error = s.compare_and_swap(&obs, b"b").unwrap_err();
    assert_eq!(error, StorageError::Unavailable("lost ack".to_string()));
    shared.borrow_mut().lose_acknowledgement = false;

    assert!(s.after(&obs).raw() < before.raw());
    let got = s.read("p", Requirement::Any).unwrap();
    assert_eq!(text(&got), b"b");
}

#[test]
fn failed_mutation_is_not_published() {
    let shared = backend();
    let mut s = Store::on(&shared);
    assert!(!s.read("p", Requirement::Any).unwrap().is_present());

    shared.borrow_mut().reject = true;
    assert!(matches!(s.create("p", None, b"x"), Err(StorageError::Other { .. })));
    shared.borrow_mut().reject = false;
    assert_eq!(s.changes.last(), Some(&DiskChange::Keep));

    let got = s.read("p", Requirement::Any).unwrap();
    assert!(!got.is_present());
    assert!(got.cache_hit());
}

#[test]
fn create_executes_after_absence_aba() {
    let shared = backend();
    let mut local = Store::on(&shared);
    let mut peer = Store::on(&shared);
    let absent = local.read("p", Requirement::Any).unwrap();
    let present = peer.create_value("p", b"temporary");
    peer.delete(&present).unwrap();
    local.clear();

    let created = local
        .create("p", Some(&absent), b"final")
        .unwrap()
        .into_observation()
        .unwrap();
    assert_eq!(text(&created), b"final");
    assert_eq!(local.count("write_if_not_exists"), 1);
}

#[test]
fn cas_executes_after_revision_aba() {
    let shared = backend();
    shared.borrow_mut().by_content = true;
    let mut store = Store::on(&shared);
    let expected = store.create_value("p", b"a");
    let version = expected.revision().unwrap().serialize().to_string();
    shared.borrow_mut().delete_if("p", &version).unwrap();
    shared.borrow_mut().write_if_not_exists("p", b"a").unwrap();

    let replacement =
        store.compare_and_swap(&expected, b"b").unwrap().into_observation().unwrap();
    assert_eq!(text(&replacement), b"b");
}

#[test]
fn unchanged_conditional_reads_only_advance() {
    let mut s = Store::on(&backend());
    s.create_value("p", b"a");
    let t1 = s.now();
    let o1 = s.read("p", Requirement::AtLeast(t1)).unwrap();
    let w1 = s.after(&o1);
    assert!(w1.raw() >= t1.raw());
    let t2 = s.now();
    let o2 = s.read("p", Requirement::AtLeast(t2)).unwrap();
    assert!(s.after(&o2).raw() >= w1.raw());
    assert_eq!(s.count("read_if_modified"), 2);
    assert_eq!(s.cached.body_reads(), 0);
}

#[test]
fn absence_is_cached_and_transitions() {
    let mut s = Store::on(&backend());
    assert!(!s.read("m", Requirement::Any).unwrap().is_present());
    assert_eq!(s.count("read"), 1);
    s.clear();
    assert!(!s.read("m", Requirement::Any).unwrap().is_present());
    assert_eq!(s.count("read"), 0);

    let present = s.create_value("m", b"x");
    let got = s.read("m", Requirement::Any).unwrap();
    assert_eq!(text(&got), b"x");

    let deleted = s.delete(&present).unwrap();
    assert!(deleted.is_absent());
    s.clear();
    assert!(!s.read("m", Requirement::Any).unwrap().is_present());
    assert_eq!(s.count("read"), 0);
}

#[test]
fn successful_delete_advances_expected_and_installs_absence() {
    let mut s = Store::on(&backend());
    let expected = s.create_value("p", b"a");
    let before = s.now();
    let absent = s.delete(&expected).unwrap();
    assert!(absent.is_absent());
    assert!(s.after(&absent).raw() >= before.raw());
    assert!(s.after(&expected).raw() >= before.raw());
    assert_eq!(s.count("delete_if"), 1);
    s.clear();
    assert!(s.read("p", Requirement::Any).unwrap().is_absent());
    assert!(s.backend.borrow().log.is_empty());
}

#[test]
fn delete_not_found_converges_without_advancing_expected() {
    let shared = backend();
    let mut local = Store::on(&shared);
    let mut peer = Store::on(&shared);
    let expected = local.create_value("p", b"a");
    let seen = peer.read("p", Requirement::Any).unwrap();
    peer.delete(&seen).unwrap();
    let before = local.now();
    local.clear();

    let absent = local.delete(&expected).unwrap();
    assert!(absent.is_absent());
    assert!(local.after(&absent).raw() >= before.raw());
    assert!(local.after(&expected).raw() < before.raw());
    assert_eq!(local.count("delete_if"), 1);
    local.clear();
    assert!(local.read("p", Requirement::Any).unwrap().is_absent());
    assert!(local.backend.borrow().log.is_empty());
}

#[test]
fn a_receipt_holds_fresh_evidence_of_the_installed_state() {
    let mut store = Store::on(&backend());
    let absent = store.read("p", Requirement::Any).unwrap();
    let created = store.create("p", Some(&absent), b"a").unwrap().into_receipt().unwrap();
    assert!(!created.installed().cache_hit());
    assert_eq!(created.installed().cell(), 1);
    let first = created.into_installed();
    let replaced = store.compare_and_swap(&first, b"b").unwrap().into_receipt().unwrap();
    assert!(!replaced.installed().cache_hit());
    assert_eq!(replaced.installed().cell(), 2);

    // A revision that is known already keeps its cell.
    store.backend.borrow_mut().by_content = true;
    let seen = store.create_value("q", b"a");
    assert_eq!(seen.cell(), 3);
    let again = store.compare_and_swap(&seen, b"a").unwrap().into_receipt().unwrap();
    assert_eq!(again.installed().cell(), 3);
    assert!(!again.installed().cache_hit());
}

#[test]
fn a_retyped_receipt_is_of_the_same_mutation() {
    let mut store = Store::on(&backend());
    let first = store.create_value("p", b"a");
    let receipt = store.compare_and_swap(&first, b"b").unwrap().into_receipt().unwrap();
    let retyped = receipt.retyped(Some(Arc::new(7u32)));
    assert_eq!(**retyped.installed().value().unwrap(), 7);
    assert_eq!(retyped.installed().path(), "p");
    assert_eq!(retyped.installed().cell(), receipt.installed().cell());
    assert_eq!(
        retyped.installed().revision().unwrap().serialize(),
        receipt.installed().revision().unwrap().serialize()
    );
    assert!(!retyped.installed().cache_hit());
}

#[test]
fn absent_and_present_evidence_are_held_apart() {
    let shared = backend();
    let mut local = Store::on(&shared);
    let mut peer = Store::on(&shared);
    let expected = local.create_value("p", b"a");
    let other = local.create_value("q", b"a");
    let seen = peer.read("p", Requirement::Any).unwrap();
    peer.delete(&seen).unwrap();
    let (before_expected, before_other) =
        (local.after(&expected).raw(), local.after(&other).raw());

    assert!(!local.compare_and_swap(&expected, b"b").unwrap().committed());
    let absent = local.read("p", Requirement::Any).unwrap();
    assert!(absent.is_absent());
    assert_ne!(absent.cell(), expected.cell());
    assert_ne!(absent.cell(), other.cell());
    assert_eq!(local.after(&expected).raw(), before_expected);
    assert_eq!(local.after(&other).raw(), before_other);

    // The absence is found again: its own evidence advances, and no other.
    let bound = local.now();
    let confirmed = local.read("p", Requirement::AtLeast(bound)).unwrap();
    assert_eq!(confirmed.cell(), absent.cell());
    assert!(local.after(&absent).raw() >= bound.raw());
    assert_eq!(local.after(&expected).raw(), before_expected);

    // A new present state has evidence of its own.
    let made = local.create("p", Some(&confirmed), b"c").unwrap().into_observation().unwrap();
    assert_ne!(made.cell(), absent.cell());
    assert_ne!(made.cell(), expected.cell());
    assert_eq!(local.after(&expected).raw(), before_expected);
}

#[test]
fn fresh_read_discovers_external_recreation_after_delayed_not_found() {
    let shared = backend();
    shared.borrow_mut().by_content = true;
    let mut store = Store::on(&shared);
    let expected = store.create_value("p", b"a");
    let version = expected.revision().unwrap().serialize().to_string();
    shared.borrow_mut().delete_if("p", &version).unwrap();

    let (revision, round) = store.cached.begin_delete(&expected).unwrap();
    let invoked = store.now();
    let reply = shared.borrow_mut().delete_if("p", revision.serialize());
    assert_eq!(reply, Err(BackendError::NotFound));
    // The object is made again before the reply arrives.
    shared.borrow_mut().write_if_not_exists("p", b"a").unwrap();
    let (absent, _) = store.cached.finish_delete("p", round, reply, invoked);
    assert!(absent.unwrap().is_absent());

    let bound = store.now();
    let current = store.read("p", Requirement::AtLeast(bound)).unwrap();
    assert_eq!(text(&current), b"a");
}

#[test]
fn delete_conflict_invalidates_expected_and_preserves_winner() {
    let shared = backend();
    let mut local = Store::on(&shared);
    let mut peer = Store::on(&shared);
    let expected = local.create_value("p", b"a");
    peer.replace_value("p", b"b");
    let before = local.now();

    assert!(matches!(local.delete(&expected), Err(StorageError::Precondition)));
    assert!(local.after(&expected).raw() < before.raw());
    local.clear();
    let current = local.read("p", Requirement::Any).unwrap();
    assert_eq!(text(&current), b"b");
    assert_eq!(local.count("read"), 1);
}

#[test]
fn delete_in_doubt_invalidates_expected_without_advancing_it() {
    let shared = backend();
    let mut store = Store::on(&shared);
    let expected = store.create_value("p", b"a");
    let before = store.now();
    shared.borrow_mut().lose_acknowledgement = true;
    assert!(matches!(store.delete(&expected), Err(StorageError::Unavailable(_))));
    shared.borrow_mut().lose_acknowledgement = false;

    assert!(store.after(&expected).raw() < before.raw());
    store.clear();
    assert!(store.read("p", Requirement::Any).unwrap().is_absent());
    assert_eq!(store.count("read"), 1);
}

#[test]
fn definitive_delete_error_keeps_expected_cached() {
    let shared = backend();
    let mut store = Store::on(&shared);
    let expected = store.create_value("p", b"a");
    let before = store.now();
    shared.borrow_mut().reject = true;
    assert!(matches!(store.delete(&expected), Err(StorageError::Other { .. })));
    shared.borrow_mut().reject = false;

    assert!(store.after(&expected).raw() < before.raw());
    store.clear();
    let current = store.read("p", Requirement::Any).unwrap();
    assert_eq!(text(&current), b"a");
    assert!(current.cache_hit());
    assert!(store.backend.borrow().log.is_empty());
}

#[test]
fn delete_rejects_an_absence_observation_without_backend_io() {
    let mut store = Store::on(&backend());
    let absent = store.read("p", Requirement::Any).unwrap();
    store.clear();
    assert!(matches!(store.delete(&absent), Err(StorageError::Other { .. })));
    assert!(matches!(
        store.compare_and_swap(&absent, b"x"),
        Err(StorageError::Other { .. })
    ));
    assert!(store.backend.borrow().log.is_empty());
}

#[test]
fn create_rejects_a_present_observation_or_one_of_another_path() {
    let mut store = Store::on(&backend());
    let present = store.create_value("p", b"a");
    assert!(matches!(
        store.create("p", Some(&present), b"b"),
        Err(StorageError::Other { .. })
    ));
    let absent = store.read("q", Requirement::Any).unwrap();
    assert!(matches!(
        store.create("r", Some(&absent), b"b"),
        Err(StorageError::Other { .. })
    ));
}

#[test]
fn create_of_an_existing_object_conflicts() {
    let shared = backend();
    let mut local = Store::on(&shared);
    let mut peer = Store::on(&shared);
    let absent = local.read("p", Requirement::Any).unwrap();
    peer.create_value("p", b"theirs");
    let result = local.create("p", Some(&absent), b"mine").unwrap();
    assert!(!result.committed());
    let got = local.read("p", Requirement::Any).unwrap();
    assert_eq!(text(&got), b"theirs");
}

#[test]
fn wrong_decoded_type_is_internal_error() {
    let mut store = Store::on(&backend());
    store.create_value("p", b"abcd");
    match store.read_as("p", "Ints", Requirement::Any) {
        Err(StorageError::Other { msg, source }) => {
            assert_eq!(source, None);
            assert!(msg.contains("p") && msg.contains("Ints"), "{msg}");
        }
        other => panic!("{other:?}"),
    }
}

#[test]
fn a_body_that_does_not_decode_is_forgotten() {
    let mut s = Store::on(&backend());
    s.create_value("p", b"a");
    let now = s.now();
    let lead = s.cached.lead("p", KIND, Requirement::AtLeast(now), None).unwrap();
    let seed = match lead {
        Lead::Conditional(seed) => seed,
        other => panic!("{other:?}"),
    };
    let invoked = s.now();
    let reply = Ok(Body {
        decoded: Err(StorageError::Other { msg: "bad body".to_string(), source: None }),
        version: "v9".to_string(),
    });
    let (result, change) = s.cached.finish_fetch("p", KIND, Some(seed), reply, invoked);
    assert!(matches!(result, Err(StorageError::Other { .. })));
    assert_eq!(change, DiskChange::Invalidate);
    assert_eq!(s.cached.body_reads(), 1);
    assert!(matches!(
        s.cached.begin_read("p", KIND, Requirement::Any).unwrap(),
        ReadStart::Fetch
    ));
}

#[test]
fn a_persisted_body_is_served_or_validated() {
    let mut cached: CachedStore<Vec<u8>> = CachedStore::new(1 << 20, true);
    assert!(matches!(
        cached.begin_read("p", KIND, Requirement::Any).unwrap(),
        ReadStart::Fetch
    ));
    assert!(matches!(
        cached.lead("p", KIND, Requirement::Any, None).unwrap(),
        Lead::Persistent
    ));
    let at = SequencePoint::from_raw(7);
    let body = Arc::new(b"body".to_vec());
    let seed = match cached.decode_candidate("p", KIND, b"v1".to_vec(), Ok((body, 4)), at) {
        Candidate::Seed(seed) => seed,
        other => panic!("{other:?}"),
    };
    assert_eq!(seed.revision().serialize(), "v1");
    match cached.lead_on(Requirement::Any, Some(seed)) {
        Lead::Answer { fetched, .. } => {
            let observed = cached.finish_read("p", KIND, fetched).unwrap();
            assert_eq!(text(&observed), b"body");
            assert!(observed.cache_hit());
            assert_eq!(observed.current_after(cached.cells()), at);
        }
        other => panic!("{other:?}"),
    }
    // A stricter reader validates what the first one installed.
    let bound = SequencePoint::from_raw(8);
    let lead = cached.lead("p", KIND, Requirement::AtLeast(bound), None).unwrap();
    assert!(matches!(lead, Lead::Conditional(_)));
    let stats = cached.cache_stats_and_reset();
    assert_eq!(stats.l1_misses, 1);
}

#[test]
fn a_persisted_body_with_a_broken_revision_is_rejected() {
    let mut cached: CachedStore<Vec<u8>> = CachedStore::new(1 << 20, true);
    let at = SequencePoint::from_raw(7);
    let body = Arc::new(b"body".to_vec());
    assert!(matches!(
        cached.decode_candidate("p", KIND, vec![0xff, 0xfe], Ok((body, 4)), at),
        Candidate::Corrupt
    ));
    let broken = StorageError::Other { msg: "bad body".to_string(), source: None };
    assert!(matches!(
        cached.decode_candidate("p", KIND, b"v1".to_vec(), Err(broken), at),
        Candidate::Corrupt
    ));
}

#[test]
fn an_abandoned_mutation_makes_the_path_uncertain() {
    let mut s = Store::on(&backend());
    s.create_value("p", b"a");
    assert_eq!(s.cached.abandon("p"), DiskChange::Invalidate);
    s.clear();
    let got = s.read("p", Requirement::Any).unwrap();
    assert_eq!(text(&got), b"a");
    assert_eq!(s.count("read"), 1);
}

#[test]
fn duration_requirement_uses_the_timeline() {
    let timeline = Timeline::new();
    assert_eq!(
        Requirement::within(&timeline, 10_000_000_000, Some(3_000_000_000)),
        Requirement::AtLeast(SequencePoint::from_raw(7_000_000_000))
    );
    assert_eq!(Requirement::within(&timeline, 10_000_000_000, None), Requirement::Any);
}

#[test]
fn a_bounded_age_is_checked_when_it_is_exceeded() {
    let mut s = Store::on(&backend());
    s.create_value("p", b"a");
    s.clear();
    let clock = s.clock;
    let recent = Requirement::within(&s.timeline, clock, Some(1_000));
    s.read("p", recent).unwrap();
    assert_eq!(s.count("read_if_modified"), 0);

    s.clock += 10_000;
    let clock = s.clock;
    let strict = Requirement::within(&s.timeline, clock, Some(1_000));
    s.read("p", strict).unwrap();
    assert_eq!(s.count("read_if_modified"), 1);
    assert_eq!(Requirement::within(&s.timeline, clock, None), Requirement::Any);
}

#[test]
fn reads_join_a_flight_that_began_late_enough() {
    let mut lane = PathLane::new();
    assert_eq!(lane.admit_read(Requirement::Any), ReadAdmission::Lead);
    let id = lane.lead_read(SequencePoint::from_raw(10));
    assert_eq!(lane.admit_read(Requirement::Any), ReadAdmission::Join);
    assert_eq!(
        lane.admit_read(Requirement::AtLeast(SequencePoint::from_raw(10))),
        ReadAdmission::Join
    );
    assert_eq!(
        lane.admit_read(Requirement::AtLeast(SequencePoint::from_raw(11))),
        ReadAdmission::Lead
    );
    let newer = lane.lead_read(SequencePoint::from_raw(20));
    lane.remove(id);
    assert_eq!(lane.admit_read(Requirement::Any), ReadAdmission::Join);
    lane.remove(newer);
    assert_eq!(lane.admit_read(Requirement::Any), ReadAdmission::Lead);
}

#[test]
fn a_flight_ends_once() {
    let mut flight: Flight<u8> = Flight::new(SequencePoint::from_raw(10));
    assert!(flight.outcome().is_none());
    assert!(flight.finish(FlightEnd::Finished(1)));
    assert!(!flight.finish(FlightEnd::Cancelled));
    assert!(matches!(flight.outcome(), Some(FlightEnd::Finished(1))));
}

#[test]
fn paths_of_another_type_are_refused() {
    assert!(check_path(true, "db/x", "node").is_ok());
    match check_path(false, "db/\"x\"", "node") {
        Err(StorageError::Other { msg, .. }) => {
            assert!(msg.contains("\"db/\\\"x\\\"\""), "{msg}");
            assert!(msg.contains("node"), "{msg}");
        }
        other => panic!("{other:?}"),
    }
}

#[test]
fn a_listing_holds_paths_of_one_type() {
    let listed = |path: &str, accepted| ListedPath { path: path.to_string(), accepted };
    let page = vec![listed("a", Ok(true)), listed("c", Ok(true))];
    assert_eq!(typed_page(page, "node").unwrap(), vec!["a", "c"]);
    let foreign = vec![listed("a", Ok(true)), listed("b", Ok(false))];
    assert!(matches!(typed_page(foreign, "node"), Err(StorageError::Other { .. })));
    let broken = vec![listed("a", Err("not a path".to_string()))];
    assert!(matches!(typed_page(broken, "node"), Err(StorageError::Other { .. })));
}
