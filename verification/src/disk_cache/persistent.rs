//! Opening the persistent cache of one database.

use vstd::prelude::*;
use vstd::string::*;

use super::disk;
use super::media::CacheFile;
use super::queue::{self, CacheInner};
use super::store::{self, open_disk, DiskStore};
use super::worker::Lifecycle;
use crate::cache_stats::{self, CacheMetrics};
use crate::disk_cache::format::{CacheFormat, CacheGeometry};
use crate::ids::DatabaseId;
use crate::timeline::SequencePoint;

verus! {

/// A persistent cache, possibly disabled.
pub struct PersistentCache {
    /// The state of the opened cache; a cache that failed to open has none.
    pub inner: Option<CacheInner>,
    /// What is counted.
    pub metrics: CacheMetrics,
}

/// Result of opening a persistent cache.
pub struct OpenedPersistentCache {
    /// The opened cache, disabled when initialization failed.
    pub cache: PersistentCache,
    /// The greatest point that was recovered. The database's timeline starts
    /// after this point before it uses the cache.
    pub last_sequence_point: Option<SequencePoint>,
}

/// A container has no generation or no point left: it cannot be used.
pub open spec fn exhausted(format: &CacheFormat, content: Seq<u8>) -> bool {
    let kept = store::is_container(format, content);
    let after = if kept {
        content
    } else {
        store::fresh(format)
    };
    ||| disk::greatest(store::generations_in(format, after)) == u64::MAX
    ||| kept && store::points_exhausted(format, after)
}

/// An exhausted container of the database is what is to be opened.
pub open spec fn unusable(
    geometry: CacheGeometry,
    capacity_bytes: u64,
    database_name: &str,
    database_id: DatabaseId,
    content: Seq<u8>,
) -> bool {
    exists|format: CacheFormat|
        {
            &&& #[trigger] format.made_of(geometry, capacity_bytes, database_name, database_id)
            &&& exhausted(&format, content)
        }
}

impl PersistentCache {
    /// A cache that failed to open, which is counted.
    pub fn disabled() -> (r: Self)
        ensures
            r.inner is None,
            r.metrics@ == queue::one_more_error(cache_stats::no_activity()),
    {
        let mut metrics = CacheMetrics::new();
        metrics.l2_error();
        PersistentCache { inner: None, metrics }
    }

    /// The cache is used.
    pub open spec fn spec_enabled(&self) -> bool {
        self.inner matches Some(inner) && inner.lifecycle.enabled
    }

    /// Reports whether the cache is used.
    pub fn is_enabled(&self) -> (r: bool)
        ensures
            r == self.spec_enabled(),
    {
        match &self.inner {
            Some(inner) => inner.lifecycle.enabled,
            None => false,
        }
    }

    /// Opens the container of a database in a file. The container's state is
    /// the worker's. A container that cannot be opened disables the cache, and
    /// nothing else fails.
    pub fn open<F: CacheFile>(
        file: &mut F,
        geometry: CacheGeometry,
        capacity_bytes: u64,
        database_name: &str,
        database_id: DatabaseId,
    ) -> (r: (OpenedPersistentCache, Option<DiskStore>))
        ensures
            r.1 is Some <==> r.0.cache.inner is Some,
            r.1 is None ==> {
                &&& r.0.last_sequence_point is None
                &&& r.0.cache.metrics@ == queue::one_more_error(cache_stats::no_activity())
            },
            old(file).works() && crate::disk_cache::format::layout_error(
                capacity_bytes,
                geometry,
            ) is None && database_name.spec_bytes().len() <= u32::MAX && capacity_bytes
                <= usize::MAX && !unusable(
                geometry,
                capacity_bytes,
                database_name,
                database_id,
                old(file).content(),
            ) ==> r.1 is Some && final(file).works(),
            r.1 matches Some(store) ==> {
                let format = store.disk.format;
                let kept = store::is_container(&format, old(file).content());
                let inner = r.0.cache.inner->0;
                &&& format.wf()
                &&& format.made_of(geometry, capacity_bytes, database_name, database_id)
                &&& final(file).content() == if kept {
                    old(file).content()
                } else {
                    store::fresh(&format)
                }
                &&& store::opens(
                    &format,
                    final(file).content(),
                    kept,
                    &store,
                    r.0.last_sequence_point,
                )
                &&& store.fits(final(file))
                &&& inner.wf()
                &&& inner.format == format
                &&& inner.queue@.len() == 0
                &&& inner.outstanding() == (queue::Held { payload: 0, fences: 0, optional: 0 })
                &&& inner.lifecycle == (Lifecycle {
                    enabled: true,
                    shutdown_requested: false,
                    shutdown_started: false,
                })
                &&& r.0.cache.metrics@ == cache_stats::no_activity()
            },
    {
        let opened = match CacheFormat::new(geometry, capacity_bytes, database_name, database_id) {
            Err(_) => None,
            Ok(format) => {
                proof {
                    format.lemma_layout();
                    format.lemma_segment(0);
                    format.lemma_capacity(capacity_bytes);
                    assert(format.made_of(geometry, capacity_bytes, database_name, database_id));
                }
                if format.memory_suffices() {
                    match open_disk(file, format) {
                        Err(_) => None,
                        Ok(opened) => Some(opened),
                    }
                } else {
                    None
                }
            },
        };
        match opened {
            None => (
                OpenedPersistentCache { cache: Self::disabled(), last_sequence_point: None },
                None,
            ),
            Some((store, last_sequence_point)) => {
                let inner = CacheInner::new(store.disk.format);
                (
                    OpenedPersistentCache {
                        cache: PersistentCache {
                            inner: Some(inner),
                            metrics: CacheMetrics::new(),
                        },
                        last_sequence_point,
                    },
                    Some(store),
                )
            },
        }
    }
}

} // verus!
