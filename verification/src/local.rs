//! The local, staleness-aware cache of values.

use vstd::prelude::*;
use vstd::string::*;

use std::sync::Arc;

use crate::cache::{Cache, Weighable, SHARD_COUNT};
use crate::shared;
use crate::version::{Version, VersionView};

verus! {

/// A cached value and what is known of it.
#[verifier::ext_equal]
pub struct CachedView {
    /// The bytes.
    pub value: Seq<u8>,
    /// The object was deleted.
    pub deleted: bool,
    /// The value is certainly outdated.
    pub outdated: bool,
    /// The version.
    pub version: VersionView,
    /// When the value was stored, in nanoseconds.
    pub updated: u64,
}

/// A cached value and what is known of it.
#[derive(Debug)]
pub struct CacheEntry {
    value: Arc<Vec<u8>>,
    deleted: bool,
    outdated: bool,
    version: Version,
    updated: u64,
}

impl View for CacheEntry {
    type V = CachedView;

    closed spec fn view(&self) -> CachedView {
        CachedView {
            value: (*self.value)@,
            deleted: self.deleted,
            outdated: self.outdated,
            version: self.version@,
            updated: self.updated,
        }
    }
}

impl Clone for CacheEntry {
    fn clone(&self) -> (r: Self)
        ensures
            r@ == self@,
    {
        CacheEntry {
            value: shared::share(&self.value),
            deleted: self.deleted,
            outdated: self.outdated,
            version: self.version.clone(),
            updated: self.updated,
        }
    }
}

/// The size of a cached value: its bytes and those of its writer, as far as
/// they can be counted.
pub open spec fn cached_weight(entry: CachedView) -> usize {
    if entry.value.len() + entry.version.writer.len() <= usize::MAX {
        (entry.value.len() + entry.version.writer.len()) as usize
    } else {
        usize::MAX
    }
}

impl Weighable for CacheEntry {
    closed spec fn weight(&self) -> usize {
        cached_weight(self@)
    }

    fn size(&self) -> (r: usize) {
        let value: usize = self.value.len();
        value.saturating_add(self.version.writer.as_bytes().len())
    }
}

/// The result of reading a value from the local cache.
#[derive(Debug)]
pub struct LocalRead {
    /// The bytes.
    pub value: Arc<Vec<u8>>,
    /// The version.
    pub version: Version,
    /// The object was deleted.
    pub deleted: bool,
    /// True if the value is certainly outdated.
    pub outdated: bool,
}

/// More time has passed since `updated` than the bound admits.
pub open spec fn stale(updated: u64, now: u64, max_staleness: Option<u64>) -> bool {
    match max_staleness {
        None => false,
        Some(nanos) => now - updated > nanos,
    }
}

/// A local in-memory cache for storage values with staleness tracking.
pub struct Local {
    cache: Cache<CacheEntry>,
}

impl Local {
    /// The cache of values.
    pub closed spec fn cache(&self) -> Cache<CacheEntry> {
        self.cache
    }

    /// The cache is well formed.
    pub open spec fn wf(&self) -> bool {
        self.cache().wf()
    }

    /// What is cached under a key.
    pub open spec fn cached(&self, key: &str) -> Option<CachedView> {
        match self.cache().entry(key) {
            Some(entry) => Some(entry@),
            None => None,
        }
    }

    /// Creates a local cache with the given maximum size in bytes.
    pub fn new(max_size_b: usize) -> (r: Self)
        ensures
            r.wf(),
            forall|i: int|
                0 <= i < SHARD_COUNT ==> (#[trigger] r.cache().shards()[i]).budget() == max_size_b
                    / SHARD_COUNT,
            forall|key: &str| (#[trigger] r.cached(key)) is None,
    {
        let r = Local { cache: Cache::new(max_size_b) };
        proof {
            assert forall|key: &str| (#[trigger] r.cached(key)) is None by {
                let i = Cache::<CacheEntry>::shard_of(key);
                assert(r.cache().shards()[i].entries().len() == 0);
            }
        }
        r
    }

    /// Reads the cached value, if present and not staler than the bound at
    /// `now`.
    pub fn read(&mut self, key: &str, now: u64, max_staleness: Option<u64>) -> (r: Option<
        LocalRead,
    >)
        requires
            old(self).wf(),
        ensures
            final(self).wf(),
            final(self).cache().touched(&old(self).cache(), key),
            r is Some <==> old(self).cached(key) is Some && !stale(
                old(self).cached(key)->0.updated,
                now,
                max_staleness,
            ),
            r matches Some(read) ==> {
                let entry = old(self).cached(key)->0;
                &&& (*read.value)@ == entry.value
                &&& read.version@ == entry.version
                &&& read.deleted == entry.deleted
                &&& read.outdated == entry.outdated
            },
    {
        match self.cache.get(key) {
            None => None,
            Some(entry) => {
                let elapsed: u64 = now.saturating_sub(entry.updated);
                let is_stale: bool = match max_staleness {
                    None => false,
                    Some(nanos) => elapsed > nanos,
                };
                if is_stale {
                    None
                } else {
                    Some(
                        LocalRead {
                            value: entry.value,
                            version: entry.version,
                            deleted: entry.deleted,
                            outdated: entry.outdated,
                        },
                    )
                }
            },
        }
    }

    /// Stores the value for `key`.
    pub fn write(&mut self, key: &str, value: Arc<Vec<u8>>, version: Version, now: u64)
        requires
            old(self).wf(),
        ensures
            final(self).wf(),
            final(self).cached(key) == Some(
                CachedView {
                    value: (*value)@,
                    deleted: false,
                    outdated: false,
                    version: version@,
                    updated: now,
                },
            ),
            exists|entry: CacheEntry|
                final(self).cache().wrote(&old(self).cache(), key, Some(entry)),
    {
        let ghost before = self.cache;
        let entry = CacheEntry { value, deleted: false, outdated: false, version, updated: now };
        self.cache.set(key, entry);
        proof {
            Cache::lemma_written_is_found(&before, &self.cache, key, Some(entry));
            assert(self.cache().wrote(&before, key, Some(entry)));
        }
    }

    /// Marks the value at `key` as outdated, only if it is at version `version`.
    pub fn mark_value_outdated(&mut self, key: &str, version: &Version)
        requires
            old(self).wf(),
        ensures
            final(self).wf(),
            final(self).cached(key) == match old(self).cached(key) {
                Some(entry) => Some(
                    CachedView {
                        outdated: entry.outdated || entry.version.token == version@.token,
                        ..entry
                    },
                ),
                None => None,
            },
            old(self).cached(key) is None ==> final(self).cache().touched(
                &old(self).cache(),
                key,
            ),
            old(self).cached(key) is Some ==> exists|entry: CacheEntry|
                final(self).cache().wrote(&old(self).cache(), key, Some(entry)),
    {
        let ghost before = self.cache;
        let found = self.cache.get(key);
        let ghost mid = self.cache;
        match found {
            None => {
                proof {
                    Cache::lemma_touch_keeps(&before, &mid, key);
                }
            },
            Some(entry) => {
                let mut entry = entry;
                if entry.version.equal_contents(version) {
                    entry.outdated = true;
                }
                self.cache.set(key, entry);
                proof {
                    Cache::lemma_touch_then_write(&before, &mid, &self.cache, key, Some(entry));
                    Cache::lemma_written_is_found(&before, &self.cache, key, Some(entry));
                    assert(self.cache().wrote(&before, key, Some(entry)));
                }
            },
        }
    }

    /// Marks `key` as deleted at version `version`.
    pub fn mark_deleted(&mut self, key: &str, version: Version, now: u64)
        requires
            old(self).wf(),
        ensures
            final(self).wf(),
            final(self).cached(key) == Some(
                CachedView {
                    value: Seq::empty(),
                    deleted: true,
                    outdated: false,
                    version: version@,
                    updated: now,
                },
            ),
            exists|entry: CacheEntry|
                final(self).cache().wrote(&old(self).cache(), key, Some(entry)),
    {
        let ghost before = self.cache;
        let nothing: Vec<u8> = Vec::new();
        let entry = CacheEntry {
            value: Arc::new(nothing),
            deleted: true,
            outdated: false,
            version,
            updated: now,
        };
        self.cache.set(key, entry);
        proof {
            Cache::lemma_written_is_found(&before, &self.cache, key, Some(entry));
            assert(self.cache().wrote(&before, key, Some(entry)));
        }
    }

    /// Removes `key` entirely.
    pub fn delete(&mut self, key: &str)
        requires
            old(self).wf(),
        ensures
            final(self).wf(),
            final(self).cached(key) is None,
            final(self).cache().wrote(&old(self).cache(), key, None),
    {
        let ghost before = self.cache;
        self.cache.delete(key);
        proof {
            Cache::lemma_written_is_found(&before, &self.cache, key, None::<CacheEntry>);
        }
    }
}

/// Law: a reader that bounds staleness is given no copy that is older than that; a
/// reader that does not is given any.
pub proof fn law_stale_copies_are_not_given(updated: u64, now: u64, nanos: u64)
    ensures
        !stale(updated, now, None),
        stale(updated, now, Some(nanos)) <==> now > updated + nanos,
{
}

} // verus!
