//! What the paths of stored objects name.

use vstd::prelude::*;
use vstd::string::*;

use crate::ids::{CollectionId, NodeId};

verus! {

/// One incarnation of a collection in a database.
#[derive(Debug, PartialEq, Eq, Hash)]
pub struct CollectionAddress {
    /// The root path of the database.
    pub db_root: String,
    /// The collection.
    pub id: CollectionId,
}

/// One incarnation of a collection in a database.
pub struct AddressView {
    /// The root path of the database.
    pub db_root: Seq<char>,
    /// The collection.
    pub id: Seq<u8>,
}

impl View for CollectionAddress {
    type V = AddressView;

    open spec fn view(&self) -> AddressView {
        AddressView { db_root: self.db_root@, id: self.id@ }
    }
}

impl Clone for CollectionAddress {
    fn clone(&self) -> (r: Self)
        ensures
            r@ == self@,
    {
        CollectionAddress { db_root: self.db_root.clone(), id: self.id }
    }
}

impl CollectionAddress {
    /// Names a collection of a database.
    pub fn new(db_root: &str, id: CollectionId) -> (r: Self)
        ensures
            r@ == (AddressView { db_root: db_root@, id: id@ }),
    {
        CollectionAddress { db_root: String::from_str(db_root), id }
    }

    /// Reports whether two addresses are the same.
    pub fn same(&self, other: &Self) -> (r: bool)
        ensures
            r == (self@ == other@),
    {
        self.db_root == other.db_root && self.id.same(&other.id)
    }
}

/// What a stored object is.
#[derive(Debug, PartialEq, Eq, Hash)]
pub enum ObjectPath {
    /// The fixed root node of a collection's tree.
    TreeRoot { collection: CollectionAddress },
    /// A standalone node of a collection's tree.
    Node { collection: CollectionAddress, node: NodeId },
    /// A collection's record.
    CollectionRecord { collection: CollectionAddress },
    /// Any other object of the database.
    Other { path: String },
}

/// What a stored object is.
pub enum PathView {
    /// The fixed root node of a collection's tree.
    TreeRoot { collection: AddressView },
    /// A standalone node of a collection's tree.
    Node { collection: AddressView, node: Seq<u8> },
    /// A collection's record.
    CollectionRecord { collection: AddressView },
    /// Any other object of the database.
    Other { path: Seq<char> },
}

impl View for ObjectPath {
    type V = PathView;

    open spec fn view(&self) -> PathView {
        match self {
            ObjectPath::TreeRoot { collection } => PathView::TreeRoot { collection: collection@ },
            ObjectPath::Node { collection, node } => PathView::Node {
                collection: collection@,
                node: node@,
            },
            ObjectPath::CollectionRecord { collection } => PathView::CollectionRecord {
                collection: collection@,
            },
            ObjectPath::Other { path } => PathView::Other { path: path@ },
        }
    }
}

impl Clone for ObjectPath {
    fn clone(&self) -> (r: Self)
        ensures
            r@ == self@,
    {
        match self {
            ObjectPath::TreeRoot { collection } => ObjectPath::TreeRoot {
                collection: collection.clone(),
            },
            ObjectPath::Node { collection, node } => ObjectPath::Node {
                collection: collection.clone(),
                node: *node,
            },
            ObjectPath::CollectionRecord { collection } => ObjectPath::CollectionRecord {
                collection: collection.clone(),
            },
            ObjectPath::Other { path } => ObjectPath::Other { path: path.clone() },
        }
    }
}

impl ObjectPath {
    /// Reports whether two paths name the same object.
    pub fn same(&self, other: &Self) -> (r: bool)
        ensures
            r == (self@ == other@),
    {
        match (self, other) {
            (ObjectPath::TreeRoot { collection: a }, ObjectPath::TreeRoot { collection: b }) => {
                a.same(b)
            },
            (
                ObjectPath::Node { collection: a, node: x },
                ObjectPath::Node { collection: b, node: y },
            ) => a.same(b) && x.same(y),
            (
                ObjectPath::CollectionRecord { collection: a },
                ObjectPath::CollectionRecord { collection: b },
            ) => a.same(b),
            (ObjectPath::Other { path: a }, ObjectPath::Other { path: b }) => *a == *b,
            _ => false,
        }
    }

    /// Reports whether the path names a tree node.
    pub fn names_node(&self) -> (r: bool)
        ensures
            r == (self@ is TreeRoot || self@ is Node),
    {
        matches!(self, ObjectPath::TreeRoot { .. } | ObjectPath::Node { .. })
    }

    /// Reports whether the path names a collection record.
    pub fn names_record(&self) -> (r: bool)
        ensures
            r == self@ is CollectionRecord,
    {
        matches!(self, ObjectPath::CollectionRecord { .. })
    }
}

} // verus!
