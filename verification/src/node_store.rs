//! Typed persistence rules for B-link tree nodes.

use vstd::prelude::*;

use crate::cached_store::{CasResult, Observation, ObservationCheck, ObservationView};
use crate::error::StorageError;
use crate::ids::NodeId;
use crate::leaf::LeafBody;
use crate::node::locks::NodeLocks;
use crate::node::tree_node::{BodyView, Node, NodeView};
use crate::object_path::{CollectionAddress, ObjectPath, PathView};

verus! {

/// The greatest number of paths of one page of a node listing.
pub const NODE_LIST_PAGE_SIZE: usize = 128;

/// The exact node state from which a leaf was decoded.
pub type LeafObservation = Observation<Node>;

/// The outcome of checking a retained leaf observation.
pub type LeafObservationCheck = ObservationCheck<Node>;

/// A leaf mutation bound to the exact node state that it will compare-and-swap.
#[derive(Debug)]
pub struct LeafEdit {
    observation: LeafObservation,
    node: Node,
}

impl LeafEdit {
    /// The state against which the edit will commit.
    pub closed spec fn base(&self) -> ObservationView<Node> {
        self.observation@
    }

    /// The node as staged.
    pub closed spec fn staged(&self) -> NodeView {
        self.node@
    }

    /// The staged node is a leaf.
    pub open spec fn wf(&self) -> bool {
        self.staged().body is Leaf
    }

    /// Returns the object path to which this edit is bound.
    pub fn path(&self) -> (r: &str)
        ensures
            r@ == self.base().path,
    {
        self.observation.path()
    }

    /// Returns the complete node carrying this edit's topology and contents.
    pub fn node(&self) -> (r: &Node)
        ensures
            r@ == self.staged(),
    {
        &self.node
    }

    /// Returns the staged leaf entries.
    pub fn entries(&self) -> (r: Option<&LeafBody>)
        requires
            self.wf(),
        ensures
            r matches Some(leaf) && self.staged().body == BodyView::Leaf(leaf@),
    {
        self.node.as_leaf()
    }

    /// Replaces the staged leaf entries without changing topology.
    pub fn set_entries(&mut self, entries: LeafBody)
        requires
            old(self).wf(),
        ensures
            final(self).wf(),
            final(self).base() == old(self).base(),
            final(self).staged() == (NodeView {
                body: BodyView::Leaf(entries@),
                ..old(self).staged()
            }),
    {
        let _replaced = self.node.set_leaf(entries);
    }

    /// Returns the staged node-level coordination state.
    pub fn locks(&self) -> (r: &NodeLocks)
        ensures
            r@ == self.staged().locks,
    {
        self.node.locks()
    }

    /// Replaces the staged node-level coordination state without changing
    /// topology.
    pub fn set_locks(&mut self, locks: NodeLocks)
        ensures
            final(self).base() == old(self).base(),
            final(self).staged() == (NodeView { locks: locks@, ..old(self).staged() }),
    {
        self.node.set_locks(locks);
    }

    /// Returns the exact observation against which this edit will commit.
    pub fn observation(&self) -> (r: &LeafObservation)
        ensures
            r@ == self.base(),
    {
        &self.observation
    }

    /// Reports whether this edited leaf still owns `key`.
    pub fn owns(&self, key: &[u8]) -> (r: bool)
        ensures
            r == self.staged().covers(key@),
    {
        self.node.covers(key)
    }

    /// Returns what a commit compare-and-swaps: the observation and the staged
    /// node.
    pub fn commit_leaf(self) -> (r: (LeafObservation, Node))
        ensures
            r.0@ == self.base(),
            r.1@ == self.staged(),
    {
        (self.observation, self.node)
    }
}

/// A B-link leaf loaded for one coordination round.
#[derive(Debug)]
pub struct LoadedLeaf {
    edit: LeafEdit,
}

impl LoadedLeaf {
    /// The state from which the leaf was loaded.
    pub closed spec fn base(&self) -> ObservationView<Node> {
        self.edit.base()
    }

    /// The loaded node.
    pub closed spec fn loaded(&self) -> NodeView {
        self.edit.staged()
    }

    /// The loaded node is a leaf.
    pub open spec fn wf(&self) -> bool {
        self.loaded().body is Leaf
    }

    /// Returns the object path of this loaded leaf.
    pub fn path(&self) -> (r: &str)
        ensures
            r@ == self.base().path,
    {
        self.edit.path()
    }

    /// Returns the complete node carrying this leaf's entries and coordination.
    pub fn node(&self) -> (r: &Node)
        ensures
            r@ == self.loaded(),
    {
        self.edit.node()
    }

    /// Returns the loaded leaf entries.
    pub fn entries(&self) -> (r: Option<&LeafBody>)
        requires
            self.wf(),
        ensures
            r matches Some(leaf) && self.loaded().body == BodyView::Leaf(leaf@),
    {
        self.edit.entries()
    }

    /// Returns the loaded node-level coordination state.
    pub fn locks(&self) -> (r: &NodeLocks)
        ensures
            r@ == self.loaded().locks,
    {
        self.edit.locks()
    }

    /// Returns the exact observation from which this leaf was loaded.
    pub fn observation(&self) -> (r: &LeafObservation)
        ensures
            r@ == self.base(),
    {
        self.edit.observation()
    }

    /// Reports whether this loaded leaf still owns `key`. A `false` result means
    /// that a split moved `key` to a right sibling after it was routed here, so
    /// a caller must descend again.
    pub fn owns(&self, key: &[u8]) -> (r: bool)
        ensures
            r == self.loaded().covers(key@),
    {
        self.edit.owns(key)
    }

    /// Converts this loaded leaf into an observation-bound mutation.
    pub fn into_edit(self) -> (r: LeafEdit)
        ensures
            r.base() == self.base(),
            r.staged() == self.loaded(),
    {
        self.edit
    }
}

/// The rules by which tree nodes are read and compare-and-swapped.
#[derive(Debug)]
pub struct NodeStore;

impl NodeStore {
    /// Accepts the paths that name a tree node.
    pub fn validate_node_path(path: &ObjectPath) -> (r: Result<(), StorageError>)
        ensures
            r is Ok == (path@ is TreeRoot || path@ is Node),
            r matches Err(error) ==> error.says("expected a tree-node object path"@),
    {
        if path.names_node() {
            Ok(())
        } else {
            Err(StorageError::other("expected a tree-node object path"))
        }
    }

    /// Returns the node of an observation with it, or `None` when the node is
    /// absent.
    pub fn load_root_node(observed: LeafObservation) -> (r: Option<(Node, LeafObservation)>)
        ensures
            match observed@.value {
                Some(node) => r matches Some((found, at)) && found@ == node@ && at == observed,
                None => r is None,
            },
    {
        let node = match observed.value() {
            Some(node) => Some((**node).clone()),
            None => None,
        };
        match node {
            Some(node) => Some((node, observed)),
            None => None,
        }
    }

    /// Returns the node of an observation with it. A missing node is a dangling
    /// child or right-sibling reference, which a descent reports rather than
    /// skips.
    pub fn load_node(observed: LeafObservation) -> (r: Result<
        (Node, LeafObservation),
        StorageError,
    >)
        ensures
            match observed@.value {
                Some(node) => r matches Ok((found, at)) && found@ == node@ && at == observed,
                None => r matches Err(error) && error is NotFound,
            },
    {
        match Self::load_root_node(observed) {
            Some(found) => Ok(found),
            None => Err(StorageError::NotFound),
        }
    }

    /// Returns the leaf of an observation. An index node at the path is refused.
    pub fn load_leaf(observed: LeafObservation) -> (r: Result<LoadedLeaf, StorageError>)
        ensures
            match observed@.value {
                Some(node) => if node@.body is Leaf {
                    r matches Ok(leaf) && leaf.wf() && leaf.base() == observed@ && leaf.loaded()
                        == node@
                } else {
                    r matches Err(error) && error is Precondition
                },
                None => r matches Err(error) && error is NotFound,
            },
    {
        match Self::load_root_node(observed) {
            Some((node, observation)) => {
                if node.as_leaf().is_none() {
                    return Err(StorageError::Precondition);
                }
                Ok(LoadedLeaf { edit: LeafEdit { observation, node } })
            },
            None => Err(StorageError::NotFound),
        }
    }

    /// Checks that a retained observation is of the path to store.
    pub fn store_node_at(path: &ObjectPath, expected: &ObjectPath) -> (r: Result<(), StorageError>)
        ensures
            if !(path@ is TreeRoot || path@ is Node) {
                r matches Err(error) && error.says("expected a tree-node object path"@)
            } else if expected@ != path@ {
                r matches Err(error) && error.says("node observation path changed"@)
            } else {
                r is Ok
            },
    {
        match Self::validate_node_path(path) {
            Err(error) => return Err(error),
            Ok(()) => {},
        }
        if !expected.same(path) {
            return Err(StorageError::other("node observation path changed"));
        }
        Ok(())
    }

    /// Returns the identity of a listed standalone node of `collection`.
    pub fn list_nodes(path: &ObjectPath, collection: &CollectionAddress) -> (r: Result<
        NodeId,
        StorageError,
    >)
        ensures
            match path@ {
                PathView::Node { collection: listed, node } => if listed == collection@ {
                    r matches Ok(id) && id@ == node
                } else {
                    r matches Err(error) && error.says(
                        "node listing returned a different collection"@,
                    )
                },
                _ => r matches Err(error) && error.says("node listing returned a non-node path"@),
            },
    {
        match path {
            ObjectPath::Node { collection: listed, node } => {
                if !listed.same(collection) {
                    return Err(
                        StorageError::other("node listing returned a different collection"),
                    );
                }
                Ok(*node)
            },
            _ => Err(StorageError::other("node listing returned a non-node path")),
        }
    }
}

/// Reports whether a compare-and-swap took effect. An object that is gone is
/// one that has changed.
pub fn stored<V>(result: Result<CasResult<V>, StorageError>) -> (r: Result<bool, StorageError>)
    ensures
        match result {
            Ok(outcome) => r == Ok::<bool, StorageError>(outcome is Applied),
            Err(error) => if error is NotFound {
                r == Ok::<bool, StorageError>(false)
            } else {
                r == Err::<bool, StorageError>(error)
            },
        },
{
    match result {
        Ok(outcome) => Ok(outcome.committed()),
        Err(StorageError::NotFound) => Ok(false),
        Err(error) => Err(error),
    }
}

/// Reports whether a conditional create took effect.
pub fn created<V>(result: Result<CasResult<V>, StorageError>) -> (r: Result<
    Option<Observation<V>>,
    StorageError,
>)
    ensures
        match result {
            Ok(CasResult::Applied(receipt)) => r matches Ok(Some(observed)) && observed@
                == receipt.state(),
            Ok(CasResult::Rejected) => r matches Ok(None),
            Err(error) => r matches Err(failure) && failure == error,
        },
{
    match result {
        Ok(outcome) => Ok(outcome.into_observation()),
        Err(error) => Err(error),
    }
}

} // verus!
