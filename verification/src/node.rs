//! B-link tree nodes: bodies, bounds, coordination state and their canonical
//! encoding.

pub mod index;
pub mod laws;
pub mod locks;
pub mod policy;
pub mod tree_laws;
pub mod tree_node;

pub use locks::NodeLocks;
pub use index::{IndexChild, IndexNode};
pub use policy::{InvalidNodeSizePolicy, NodeSizePolicy, NodeSizePolicyBuilder};
pub use tree_node::{Node, NodeBody};
