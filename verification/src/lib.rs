//! Storage layer of a transactional key-value store kept in object storage.

pub mod bytes;
pub mod cache;
pub mod cache_stats;
pub mod directory;
pub mod disk_cache;
pub mod error;
pub mod ids;
pub mod lock;
pub mod sorted;
pub mod timeline;
pub mod wire;
pub mod proto;
pub mod bindings;
pub mod collection_store;
pub mod entry;
pub mod inline;
pub mod global;
pub mod cached_store;
pub mod leaf;
pub mod local;
pub mod version;
mod shared;
pub mod locker;
pub mod root;
pub mod text;
pub mod node;
pub mod node_store;
pub mod object_cache;
pub mod object_path;
