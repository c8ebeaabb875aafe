//! Best-effort persistent cache of encoded object bodies.

pub mod admission;
pub mod change;
pub mod container;
pub mod disk;
pub mod fence;
pub mod format;
pub mod laws;
pub mod media;
pub mod perform;
pub mod persistent;
pub mod queue;
pub mod restart;
pub mod sim_harness;
pub mod sim_media;
pub mod store;
pub mod traffic;
pub mod worker;

use vstd::prelude::*;

use crate::disk_cache::format::CacheGeometry;
use crate::timeline::SequencePoint;

verus! {

/// The name of the container in its directory.
pub const CACHE_FILE: &'static str = "l2.cache";

/// How long an open may take, in nanoseconds.
pub const OPEN_TIMEOUT_NANOS: u64 = 5_000_000_000;

/// How long a shutdown may take, in nanoseconds.
pub const SHUTDOWN_TIMEOUT_NANOS: u64 = 5_000_000_000;

/// Configures the persistent cache of one database handle.
#[derive(Debug, Clone, PartialEq, Eq)]
pub struct PersistentCacheConfig {
    /// The directory that is dedicated to this database's cache.
    pub directory: String,
    /// The exact size of the container in bytes.
    pub capacity_bytes: u64,
}

/// The medium that a persistent cache is opened on.
#[derive(Debug, Clone, Copy)]
pub struct PersistentCacheMedia {
    geometry: CacheGeometry,
}

impl View for PersistentCacheMedia {
    type V = CacheGeometry;

    closed spec fn view(&self) -> CacheGeometry {
        self.geometry
    }
}

impl PersistentCacheMedia {
    /// A file, whose container has the production geometry.
    pub fn file() -> (r: Self)
        ensures
            r@.is_production(),
    {
        PersistentCacheMedia { geometry: CacheGeometry::production() }
    }

    /// A simulated medium, whose container has the compact geometry.
    pub fn simulated() -> (r: Self)
        ensures
            r@.is_compact(),
    {
        PersistentCacheMedia { geometry: CacheGeometry::compact() }
    }

    /// Returns the medium to open: the given one, or a file.
    pub fn or_file(media: Option<Self>) -> (r: Self)
        ensures
            match media {
                Some(media) => r == media,
                None => r@.is_production(),
            },
    {
        match media {
            Some(media) => media,
            None => Self::file(),
        }
    }

    /// Returns the geometry of the container.
    pub fn geometry(&self) -> (r: CacheGeometry)
        ensures
            r == self@,
    {
        self.geometry
    }
}

/// An encoded body that the persistent cache returned.
#[derive(Debug)]
pub struct EncodedBody {
    /// The revision.
    pub revision: Vec<u8>,
    /// The body.
    pub body: Vec<u8>,
    /// The point after which the body was known to be current.
    pub current_after: SequencePoint,
}

} // verus!
