//! Size limits and thresholds for splitting and merging nodes.

use vstd::prelude::*;
use vstd::string::*;

use crate::leaf::{self, LeafEntry};
use crate::node::tree_node::{self, Node};
use crate::text;
use crate::wire;

verus! {

/// The limits and thresholds.
pub struct PolicyView {
    /// Maximum leaf entries before a leaf is a split candidate.
    pub leaf_max_entries: usize,
    /// Maximum encoded content bytes before a node is a split candidate.
    pub node_soft_max_bytes: usize,
    /// Maximum index children before an index is a split candidate.
    pub index_max_children: usize,
    /// Minimum live leaf entries below which a leaf is a merge candidate.
    pub leaf_min_entries: usize,
    /// Minimum index children below which an index is a merge candidate.
    pub index_min_children: usize,
    /// Maximum encoded coordination-object size, including transient locks.
    pub node_max_bytes: usize,
    /// Bytes reserved for transient node-lock metadata at the hard cap.
    pub split_headroom_bytes: usize,
}

/// The production limits.
pub open spec fn production() -> PolicyView {
    PolicyView {
        leaf_max_entries: 256,
        node_soft_max_bytes: 262144,
        index_max_children: 256,
        leaf_min_entries: 64,
        index_min_children: 64,
        node_max_bytes: 1048576,
        split_headroom_bytes: 65536,
    }
}

/// Size admission limits and soft thresholds for coordination-node splits and
/// merges.
///
/// The hard cap and reserved headroom are shared database settings. Soft
/// thresholds tune each database instance's background splits and merges.
#[derive(Debug, Clone, Copy, PartialEq, Eq)]
pub struct NodeSizePolicy {
    leaf_max_entries: usize,
    node_soft_max_bytes: usize,
    index_max_children: usize,
    leaf_min_entries: usize,
    index_min_children: usize,
    node_max_bytes: usize,
    split_headroom_bytes: usize,
}

/// Builds a validated [`NodeSizePolicy`], starting from production defaults.
#[derive(Debug, Clone, Copy, PartialEq, Eq)]
pub struct NodeSizePolicyBuilder {
    leaf_max_entries: usize,
    node_soft_max_bytes: usize,
    index_max_children: usize,
    leaf_min_entries: usize,
    index_min_children: usize,
    node_max_bytes: usize,
    split_headroom_bytes: usize,
}

/// A node size policy whose reserved headroom exceeds its hard node cap.
#[derive(Debug, Clone, Copy, PartialEq, Eq)]
pub struct InvalidNodeSizePolicy {
    node_max_bytes: usize,
    split_headroom_bytes: usize,
}

impl View for InvalidNodeSizePolicy {
    type V = (usize, usize);

    /// The hard cap and the headroom that exceeds it.
    closed spec fn view(&self) -> (usize, usize) {
        (self.node_max_bytes, self.split_headroom_bytes)
    }
}

impl InvalidNodeSizePolicy {
    /// Returns the text of the error.
    pub fn message(&self) -> (r: String)
        ensures
            r@ == "split headroom ("@ + text::decimal(self@.1 as nat)
                + " bytes) exceeds the node hard cap ("@ + text::decimal(self@.0 as nat)
                + " bytes)"@,
    {
        let mut r = String::from_str("split headroom (");
        text::append_decimal(&mut r, self.split_headroom_bytes as u64);
        r.append(" bytes) exceeds the node hard cap (");
        text::append_decimal(&mut r, self.node_max_bytes as u64);
        r.append(" bytes)");
        r
    }
}

impl View for NodeSizePolicy {
    type V = PolicyView;

    closed spec fn view(&self) -> PolicyView {
        PolicyView {
            leaf_max_entries: self.leaf_max_entries,
            node_soft_max_bytes: self.node_soft_max_bytes,
            index_max_children: self.index_max_children,
            leaf_min_entries: self.leaf_min_entries,
            index_min_children: self.index_min_children,
            node_max_bytes: self.node_max_bytes,
            split_headroom_bytes: self.split_headroom_bytes,
        }
    }
}

impl View for NodeSizePolicyBuilder {
    type V = PolicyView;

    closed spec fn view(&self) -> PolicyView {
        PolicyView {
            leaf_max_entries: self.leaf_max_entries,
            node_soft_max_bytes: self.node_soft_max_bytes,
            index_max_children: self.index_max_children,
            leaf_min_entries: self.leaf_min_entries,
            index_min_children: self.index_min_children,
            node_max_bytes: self.node_max_bytes,
            split_headroom_bytes: self.split_headroom_bytes,
        }
    }
}

impl Default for NodeSizePolicyBuilder {
    fn default() -> (r: Self)
        ensures
            r@ == production(),
    {
        NodeSizePolicyBuilder {
            leaf_max_entries: 256,
            node_soft_max_bytes: 262144,
            index_max_children: 256,
            leaf_min_entries: 64,
            index_min_children: 64,
            node_max_bytes: 1048576,
            split_headroom_bytes: 65536,
        }
    }
}

impl Default for NodeSizePolicy {
    fn default() -> (r: Self)
        ensures
            r@ == production(),
            r.wf(),
    {
        NodeSizePolicy {
            leaf_max_entries: 256,
            node_soft_max_bytes: 262144,
            index_max_children: 256,
            leaf_min_entries: 64,
            index_min_children: 64,
            node_max_bytes: 1048576,
            split_headroom_bytes: 65536,
        }
    }
}

impl NodeSizePolicyBuilder {
    /// Sets the maximum leaf entry count before a split is requested.
    pub fn leaf_max_entries(self, value: usize) -> (r: Self)
        ensures
            r@ == (PolicyView { leaf_max_entries: value, ..self@ }),
    {
        NodeSizePolicyBuilder { leaf_max_entries: value, ..self }
    }

    /// Sets the shared encoded-content soft cap for leaf and index nodes.
    pub fn node_soft_max_bytes(self, value: usize) -> (r: Self)
        ensures
            r@ == (PolicyView { node_soft_max_bytes: value, ..self@ }),
    {
        NodeSizePolicyBuilder { node_soft_max_bytes: value, ..self }
    }

    /// Sets the maximum index fan-out before a split is requested.
    pub fn index_max_children(self, value: usize) -> (r: Self)
        ensures
            r@ == (PolicyView { index_max_children: value, ..self@ }),
    {
        NodeSizePolicyBuilder { index_max_children: value, ..self }
    }

    /// Sets the live leaf entry count below which a merge is requested. Zero
    /// disables leaf merges.
    pub fn leaf_min_entries(self, value: usize) -> (r: Self)
        ensures
            r@ == (PolicyView { leaf_min_entries: value, ..self@ }),
    {
        NodeSizePolicyBuilder { leaf_min_entries: value, ..self }
    }

    /// Sets the index fan-out below which a merge is requested. Zero disables
    /// index merges.
    pub fn index_min_children(self, value: usize) -> (r: Self)
        ensures
            r@ == (PolicyView { index_min_children: value, ..self@ }),
    {
        NodeSizePolicyBuilder { index_min_children: value, ..self }
    }

    /// Sets the hard encoded size cap for a coordination node.
    pub fn node_max_bytes(self, value: usize) -> (r: Self)
        ensures
            r@ == (PolicyView { node_max_bytes: value, ..self@ }),
    {
        NodeSizePolicyBuilder { node_max_bytes: value, ..self }
    }

    /// Sets the hard-cap space reserved for transient split coordination.
    pub fn split_headroom_bytes(self, value: usize) -> (r: Self)
        ensures
            r@ == (PolicyView { split_headroom_bytes: value, ..self@ }),
    {
        NodeSizePolicyBuilder { split_headroom_bytes: value, ..self }
    }

    /// Validates the hard-cap relationship and returns the completed policy.
    pub fn build(self) -> (r: Result<NodeSizePolicy, InvalidNodeSizePolicy>)
        ensures
            r is Ok <==> self@.split_headroom_bytes <= self@.node_max_bytes,
            r matches Ok(policy) ==> policy@ == self@ && policy.wf(),
            r matches Err(error) ==> error@ == (
                self@.node_max_bytes,
                self@.split_headroom_bytes,
            ),
    {
        if self.split_headroom_bytes > self.node_max_bytes {
            return Err(
                InvalidNodeSizePolicy {
                    node_max_bytes: self.node_max_bytes,
                    split_headroom_bytes: self.split_headroom_bytes,
                },
            );
        }
        Ok(
            NodeSizePolicy {
                leaf_max_entries: self.leaf_max_entries,
                node_soft_max_bytes: self.node_soft_max_bytes,
                index_max_children: self.index_max_children,
                leaf_min_entries: self.leaf_min_entries,
                index_min_children: self.index_min_children,
                node_max_bytes: self.node_max_bytes,
                split_headroom_bytes: self.split_headroom_bytes,
            },
        )
    }
}

impl NodeSizePolicy {
    /// The headroom stays within the hard cap.
    pub open spec fn wf(&self) -> bool {
        self@.split_headroom_bytes <= self@.node_max_bytes
    }

    /// Starts building a policy from the production defaults.
    pub fn builder() -> (r: NodeSizePolicyBuilder)
        ensures
            r@ == production(),
    {
        NodeSizePolicyBuilder::default()
    }

    /// Returns the maximum leaf entries before a leaf is a split candidate.
    pub fn leaf_max_entries(&self) -> (r: usize)
        ensures
            r == self@.leaf_max_entries,
    {
        self.leaf_max_entries
    }

    /// Returns the maximum encoded content bytes before either node kind is a
    /// split candidate.
    pub fn node_soft_max_bytes(&self) -> (r: usize)
        ensures
            r == self@.node_soft_max_bytes,
    {
        self.node_soft_max_bytes
    }

    /// Returns the maximum index children before an index is a split candidate.
    pub fn index_max_children(&self) -> (r: usize)
        ensures
            r == self@.index_max_children,
    {
        self.index_max_children
    }

    /// Returns the minimum live leaf entries below which a leaf is a merge
    /// candidate.
    pub fn leaf_min_entries(&self) -> (r: usize)
        ensures
            r == self@.leaf_min_entries,
    {
        self.leaf_min_entries
    }

    /// Returns the minimum index children below which an index is a merge
    /// candidate.
    pub fn index_min_children(&self) -> (r: usize)
        ensures
            r == self@.index_min_children,
    {
        self.index_min_children
    }

    /// Returns the maximum encoded coordination-object size, including transient
    /// locks.
    pub fn node_max_bytes(&self) -> (r: usize)
        ensures
            r == self@.node_max_bytes,
    {
        self.node_max_bytes
    }

    /// Returns the bytes reserved for transient node-lock metadata at the hard
    /// cap.
    pub fn split_headroom_bytes(&self) -> (r: usize)
        ensures
            r == self@.split_headroom_bytes,
    {
        self.split_headroom_bytes
    }

    /// Returns the encoded content size a node's entries must stay under,
    /// reserving headroom for transient locks and the split's shrink.
    pub fn content_limit(&self) -> (r: usize)
        requires
            self.wf(),
        ensures
            r == self@.node_max_bytes - self@.split_headroom_bytes,
    {
        self.node_max_bytes - self.split_headroom_bytes
    }
}

/// Returns the node-content size of a leaf with one entry of `entry_len`
/// bytes, unless it exceeds the address space.
fn checked_leaf_size(entry_len: usize) -> (r: Option<usize>)
    ensures
        r is Some <==> tree_node::single_entry_size(entry_len as nat) <= usize::MAX,
        r matches Some(size) ==> size == tree_node::single_entry_size(entry_len as nat),
{
    match wire::checked_field(1, entry_len) {
        None => None,
        Some(leaf_len) => wire::checked_field(3, leaf_len),
    }
}

/// Returns the size of the largest entry for a key of `key_len` bytes, unless
/// it exceeds the address space.
fn checked_entry_size(key_len: usize) -> (r: Option<usize>)
    ensures
        r is Some <==> leaf::worst_case_entry_size(key_len as nat) <= usize::MAX,
        r matches Some(size) ==> size == leaf::worst_case_entry_size(key_len as nat),
{
    proof {
        leaf::lemma_worst_case_parts();
    }
    let fixed: usize = LeafEntry::worst_case_encoded_len(0);
    if key_len == 0 {
        return Some(fixed);
    }
    match wire::checked_field(1, key_len) {
        None => None,
        Some(key) => key.checked_add(fixed),
    }
}

/// Returns the size of the smallest parent that can contain a separator of
/// `key_len` bytes, unless it exceeds the address space.
fn checked_parent_size(key_len: usize) -> (r: Option<usize>)
    ensures
        r is Some <==> tree_node::parent_size(key_len as nat) <= usize::MAX,
        r matches Some(size) ==> size == tree_node::parent_size(key_len as nat),
{
    proof {
        tree_node::lemma_leftmost_size();
    }
    if key_len == 0 {
        return Some(Node::worst_case_parent_separator_len(0));
    }
    match wire::checked_field(1, key_len) {
        None => None,
        Some(separator) => match separator.checked_add(18) {
            None => None,
            Some(entry) => match wire::checked_field(1, entry) {
                None => None,
                Some(candidate) => match candidate.checked_add(20) {
                    None => None,
                    Some(index) => wire::checked_field(4, index),
                },
            },
        },
    }
}

impl NodeSizePolicy {
    /// Reports whether one exact leaf entry fits the per-entry budget that
    /// preserves room for another independently admissible entry.
    pub fn entry_fits_split_budget(&self, entry: &LeafEntry) -> (r: bool)
        requires
            self.wf(),
        ensures
            r == (tree_node::single_entry_size(leaf::entry_bytes(entry@).len()) <= (
            self@.node_max_bytes - self@.split_headroom_bytes) / 2),
    {
        let budget: usize = self.content_limit() / 2;
        match checked_leaf_size(entry.encoded_len()) {
            Some(size) => size <= budget,
            None => false,
        }
    }

    /// Reports whether `key` can fit in both a splittable leaf entry and its
    /// eventual parent separator under this policy.
    pub fn key_fits(&self, key: &[u8]) -> (r: bool)
        requires
            self.wf(),
        ensures
            r == (tree_node::single_entry_size(leaf::worst_case_entry_size(key@.len())) <= (
            self@.node_max_bytes - self@.split_headroom_bytes) / 2 && tree_node::parent_size(
                key@.len(),
            ) <= self@.node_max_bytes - self@.split_headroom_bytes),
    {
        let budget: usize = self.content_limit() / 2;
        let entry_fits: bool = match checked_entry_size(key.len()) {
            Some(entry_len) => match checked_leaf_size(entry_len) {
                Some(size) => size <= budget,
                None => false,
            },
            None => false,
        };
        entry_fits && self.parent_separator_fits(key)
    }

    /// Reports whether a parent can contain `key` as a separator.
    pub fn parent_separator_fits(&self, key: &[u8]) -> (r: bool)
        requires
            self.wf(),
        ensures
            r == (tree_node::parent_size(key@.len()) <= self@.node_max_bytes
                - self@.split_headroom_bytes),
    {
        match checked_parent_size(key.len()) {
            Some(size) => size <= self.content_limit(),
            None => false,
        }
    }
}

/// Law: a node of the production policy that is split leaves halves that are not
/// merged again, its soft cap leaves room below the hard one, and the headroom fits
/// many times into a node.
pub proof fn law_production_policy_is_stable()
    ensures
        ({
            let policy = production();
            &&& policy.leaf_max_entries == 256
            &&& policy.index_max_children == 256
            &&& 2 * policy.leaf_min_entries < policy.leaf_max_entries
            &&& 2 * policy.index_min_children < policy.index_max_children
            &&& 4 * policy.leaf_min_entries == policy.leaf_max_entries
            &&& 4 * policy.index_min_children == policy.index_max_children
            &&& policy.node_max_bytes == 1024 * 1024
            &&& 4 * policy.node_soft_max_bytes == policy.node_max_bytes
            &&& 16 * policy.split_headroom_bytes == policy.node_max_bytes
        }),
{
}

} // verus!
