//! Read-through and write-through caching over a backend.

use vstd::prelude::*;
use vstd::string::*;

use std::sync::Arc;

use crate::error::{self, BackendError, StorageError};
use crate::local::{CacheEntry, CachedView, Local};
use crate::shared;
use crate::version::{Version, VersionView};

verus! {

/// What a backend returns for a read.
#[derive(Debug)]
pub struct ReadReply {
    /// The object's contents.
    pub contents: Vec<u8>,
    /// The token of its version.
    pub token: String,
}

/// The result of reading a value from global storage.
#[derive(Debug)]
pub struct GlobalRead {
    /// The bytes.
    pub value: Arc<Vec<u8>>,
    /// The version.
    pub version: Version,
}

/// How to read an object.
#[derive(Debug)]
pub enum ReadPlan {
    /// Ask the backend whether the cached copy is still current.
    Check(GlobalRead),
    /// Read the object from the backend.
    Fetch,
}

/// What the cache holds of a freshly stored object.
pub open spec fn fresh(value: Seq<u8>, token: Seq<char>, now: u64) -> CachedView {
    CachedView {
        value,
        deleted: false,
        outdated: false,
        version: VersionView { token, writer: Seq::empty() },
        updated: now,
    }
}

/// A cached copy that the backend can be asked about.
pub open spec fn checkable(entry: Option<CachedView>) -> bool {
    entry matches Some(e) && !e.outdated && e.version.token.len() > 0
}

/// Wraps a backend with a local cache: decides what to ask the backend and
/// what to keep of its replies.
pub struct Global {
    local: Local,
}

impl Global {
    /// The local cache.
    pub closed spec fn local(&self) -> Local {
        self.local
    }

    /// The local cache is well formed.
    pub open spec fn wf(&self) -> bool {
        self.local().wf()
    }

    /// Creates a global storage that uses `local` as a cache.
    pub fn new(local: Local) -> (r: Self)
        requires
            local.wf(),
        ensures
            r.wf(),
            r.local() == local,
    {
        Global { local }
    }

    /// Decides how to read `key`. A cached copy that is not outdated and whose
    /// backend version is known is checked with a version-conditional read: the
    /// backend returns the body only if it changed.
    pub fn plan_read(&mut self, key: &str, now: u64) -> (r: ReadPlan)
        requires
            old(self).wf(),
        ensures
            final(self).wf(),
            final(self).local().cache().touched(&old(self).local().cache(), key),
            match r {
                ReadPlan::Check(copy) => checkable(old(self).local().cached(key))
                    && (*copy.value)@ == old(self).local().cached(key)->0.value && copy.version@
                    == old(self).local().cached(key)->0.version,
                ReadPlan::Fetch => !checkable(old(self).local().cached(key)),
            },
    {
        match self.local.read(key, now, None) {
            Some(entry) => if !entry.outdated && !entry.version.is_unset() {
                ReadPlan::Check(GlobalRead { value: entry.value, version: entry.version })
            } else {
                ReadPlan::Fetch
            },
            None => ReadPlan::Fetch,
        }
    }

    /// Takes the backend's reply to a version-conditional read: a body replaces
    /// the cached copy, and a failed precondition means that the cached copy is
    /// still current.
    pub fn finish_check(
        &mut self,
        key: &str,
        copy: GlobalRead,
        reply: Result<ReadReply, BackendError>,
        now: u64,
    ) -> (r: Result<GlobalRead, StorageError>)
        requires
            old(self).wf(),
        ensures
            final(self).wf(),
            match reply {
                Ok(found) => {
                    &&& r matches Ok(read)
                    &&& (*read.value)@ == found.contents@
                    &&& read.version@ == (VersionView {
                        token: found.token@,
                        writer: Seq::empty(),
                    })
                    &&& final(self).local().cached(key) == Some(
                        fresh(found.contents@, found.token@, now),
                    )
                    &&& exists|entry: CacheEntry|
                        final(self).local().cache().wrote(
                            &old(self).local().cache(),
                            key,
                            Some(entry),
                        )
                },
                Err(BackendError::Precondition) => r == Ok::<GlobalRead, StorageError>(copy)
                    && final(self).local() == old(self).local(),
                Err(cause) => r == Err::<GlobalRead, StorageError>(error::storage_error(cause))
                    && final(self).local() == old(self).local(),
            },
    {
        match reply {
            Ok(found) => Ok(self.cache_read(key, found, now)),
            Err(cause) => match cause {
                BackendError::Precondition => Ok(copy),
                other => Err(StorageError::from(other)),
            },
        }
    }

    /// Takes the backend's reply to a plain read.
    pub fn finish_fetch(
        &mut self,
        key: &str,
        reply: Result<ReadReply, BackendError>,
        now: u64,
    ) -> (r: Result<GlobalRead, StorageError>)
        requires
            old(self).wf(),
        ensures
            final(self).wf(),
            match reply {
                Ok(found) => {
                    &&& r matches Ok(read)
                    &&& (*read.value)@ == found.contents@
                    &&& read.version@ == (VersionView {
                        token: found.token@,
                        writer: Seq::empty(),
                    })
                    &&& final(self).local().cached(key) == Some(
                        fresh(found.contents@, found.token@, now),
                    )
                    &&& exists|entry: CacheEntry|
                        final(self).local().cache().wrote(
                            &old(self).local().cache(),
                            key,
                            Some(entry),
                        )
                },
                Err(cause) => r == Err::<GlobalRead, StorageError>(error::storage_error(cause))
                    && final(self).local() == old(self).local(),
            },
    {
        match reply {
            Ok(found) => Ok(self.cache_read(key, found, now)),
            Err(cause) => Err(StorageError::from(cause)),
        }
    }

    /// Takes the backend's reply to a write, conditional or not: a written
    /// value is cached under its new version.
    pub fn finish_write(
        &mut self,
        key: &str,
        value: Arc<Vec<u8>>,
        reply: Result<String, BackendError>,
        now: u64,
    ) -> (r: Result<String, StorageError>)
        requires
            old(self).wf(),
        ensures
            final(self).wf(),
            match reply {
                Ok(token) => {
                    &&& r == Ok::<String, StorageError>(token)
                    &&& final(self).local().cached(key) == Some(
                        fresh((*value)@, token@, now),
                    )
                    &&& exists|entry: CacheEntry|
                        final(self).local().cache().wrote(
                            &old(self).local().cache(),
                            key,
                            Some(entry),
                        )
                },
                Err(cause) => r == Err::<String, StorageError>(error::storage_error(cause))
                    && final(self).local() == old(self).local(),
            },
    {
        match reply {
            Ok(token) => {
                self.local.write(key, value, Version::of_backend(token.clone()), now);
                Ok(token)
            },
            Err(cause) => Err(StorageError::from(cause)),
        }
    }

    /// Takes the backend's reply to a delete: a deleted object leaves the
    /// cache.
    pub fn finish_delete(&mut self, key: &str, reply: Result<(), BackendError>) -> (r: Result<
        (),
        StorageError,
    >)
        requires
            old(self).wf(),
        ensures
            final(self).wf(),
            match reply {
                Ok(()) => {
                    &&& r is Ok
                    &&& final(self).local().cached(key) is None
                    &&& final(self).local().cache().wrote(&old(self).local().cache(), key, None)
                },
                Err(cause) => r == Err::<(), StorageError>(error::storage_error(cause))
                    && final(self).local() == old(self).local(),
            },
    {
        match reply {
            Ok(()) => {
                self.local.delete(key);
                Ok(())
            },
            Err(cause) => Err(StorageError::from(cause)),
        }
    }

    /// Caches a freshly read object body and returns it.
    fn cache_read(&mut self, key: &str, reply: ReadReply, now: u64) -> (r: GlobalRead)
        requires
            old(self).wf(),
        ensures
            final(self).wf(),
            (*r.value)@ == reply.contents@,
            r.version@ == (VersionView { token: reply.token@, writer: Seq::empty() }),
            final(self).local().cached(key) == Some(fresh(reply.contents@, reply.token@, now)),
            exists|entry: CacheEntry|
                final(self).local().cache().wrote(&old(self).local().cache(), key, Some(entry)),
    {
        let version = Version::of_backend(reply.token);
        let contents = Arc::new(reply.contents);
        self.local.write(key, shared::share(&contents), version.clone(), now);
        GlobalRead { value: contents, version }
    }
}

/// Law: a cached copy is checked only when it names its version and is not known
/// to be outdated.
pub proof fn law_only_current_copies_are_checked(entry: CachedView)
    ensures
        !checkable(None),
        entry.outdated ==> !checkable(Some(entry)),
        entry.version.token.len() == 0 ==> !checkable(Some(entry)),
        !entry.outdated && entry.version.token.len() > 0 ==> checkable(Some(entry)),
{
}

/// Law: what was read or written is cached as such: with its bytes and its
/// version, and neither deleted nor outdated.
pub proof fn law_fresh_copy_is_what_was_read(value: Seq<u8>, token: Seq<char>, now: u64)
    ensures
        ({
            let copy = fresh(value, token, now);
            &&& copy.value == value
            &&& copy.version.token == token
            &&& copy.version.writer.len() == 0
            &&& copy.updated == now
            &&& !copy.deleted
            &&& !copy.outdated
        }),
{
}

} // verus!
