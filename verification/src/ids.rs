//! Identifiers of databases, collections, nodes, structural intents and
//! transactions.

use vstd::prelude::*;

use crate::bytes;

verus! {

/// Length of a fixed-size identifier in bytes.
pub const ID_BYTES: usize = 16;

/// Copies the sixteen bytes of `raw` into an array.
fn to_array(raw: &[u8]) -> (r: [u8; 16])
    requires
        raw@.len() == 16,
    ensures
        r@ == raw@,
{
    let r: [u8; 16] = [
        raw[0], raw[1], raw[2], raw[3], raw[4], raw[5], raw[6], raw[7],
        raw[8], raw[9], raw[10], raw[11], raw[12], raw[13], raw[14], raw[15],
    ];
    proof {
        assert(r@ =~= raw@);
    }
    r
}

/// Identity of one database.
#[derive(Clone, Copy, Debug, PartialEq, Eq, Hash)]
pub struct DatabaseId {
    bytes: [u8; 16],
}

impl View for DatabaseId {
    type V = Seq<u8>;

    closed spec fn view(&self) -> Seq<u8> {
        self.bytes@
    }
}

impl DatabaseId {
    /// Wraps the identifier's bytes.
    pub fn from_bytes(bytes: [u8; 16]) -> (r: Self)
        ensures
            r@ == bytes@,
    {
        DatabaseId { bytes }
    }

    /// Returns the identifier's bytes.
    pub fn as_bytes(&self) -> (r: &[u8])
        ensures
            r@ == self@,
            r@.len() == ID_BYTES,
    {
        self.bytes.as_slice()
    }
}

/// Identity of one tree node.
#[derive(Clone, Copy, Debug, PartialEq, Eq, PartialOrd, Ord, Hash)]
pub struct NodeId {
    bytes: [u8; 16],
}

impl View for NodeId {
    type V = Seq<u8>;

    closed spec fn view(&self) -> Seq<u8> {
        self.bytes@
    }
}

impl NodeId {
    /// Wraps the identifier's bytes.
    pub fn from_bytes(bytes: [u8; 16]) -> (r: Self)
        ensures
            r@ == bytes@,
    {
        NodeId { bytes }
    }

    /// Reads an identifier, which has exactly sixteen bytes.
    pub fn from_slice(raw: &[u8]) -> (r: Option<Self>)
        ensures
            r is Some <==> raw@.len() == ID_BYTES,
            r matches Some(id) ==> id@ == raw@,
    {
        if raw.len() == ID_BYTES {
            Some(NodeId { bytes: to_array(raw) })
        } else {
            None
        }
    }

    /// Returns the identifier's bytes.
    pub fn as_bytes(&self) -> (r: &[u8])
        ensures
            r@ == self@,
            r@.len() == ID_BYTES,
    {
        self.bytes.as_slice()
    }

    /// Reports whether two identifiers are the same.
    pub fn same(&self, other: &Self) -> (r: bool)
        ensures
            r == (self@ == other@),
    {
        bytes::same(self.as_bytes(), other.as_bytes())
    }

    /// Identifiers have sixteen bytes, and those determine the identifier.
    pub proof fn lemma_view(a: Self, b: Self)
        ensures
            a@.len() == ID_BYTES,
            a@ == b@ ==> a == b,
    {
        if a@ == b@ {
            assert(a.bytes =~= b.bytes);
        }
    }
}

/// Identity of one structural operation on a tree.
#[derive(Clone, Copy, Debug, PartialEq, Eq, PartialOrd, Ord, Hash)]
pub struct StructuralIntentId {
    bytes: [u8; 16],
}

impl View for StructuralIntentId {
    type V = Seq<u8>;

    closed spec fn view(&self) -> Seq<u8> {
        self.bytes@
    }
}

impl StructuralIntentId {
    /// Wraps the identifier's bytes.
    pub fn from_bytes(bytes: [u8; 16]) -> (r: Self)
        ensures
            r@ == bytes@,
    {
        StructuralIntentId { bytes }
    }

    /// Reads an identifier, which has exactly sixteen bytes.
    pub fn from_slice(raw: &[u8]) -> (r: Option<Self>)
        ensures
            r is Some <==> raw@.len() == ID_BYTES,
            r matches Some(id) ==> id@ == raw@,
    {
        if raw.len() == ID_BYTES {
            Some(StructuralIntentId { bytes: to_array(raw) })
        } else {
            None
        }
    }

    /// Returns the identifier's bytes.
    pub fn as_bytes(&self) -> (r: &[u8])
        ensures
            r@ == self@,
            r@.len() == ID_BYTES,
    {
        self.bytes.as_slice()
    }

    /// Reports whether two identifiers are the same.
    pub fn same(&self, other: &Self) -> (r: bool)
        ensures
            r == (self@ == other@),
    {
        bytes::same(self.as_bytes(), other.as_bytes())
    }

    /// Identifiers have sixteen bytes, and those determine the identifier.
    pub proof fn lemma_view(a: Self, b: Self)
        ensures
            a@.len() == ID_BYTES,
            a@ == b@ ==> a == b,
    {
        if a@ == b@ {
            assert(a.bytes =~= b.bytes);
        }
    }
}

/// Incarnation of one collection.
#[derive(Clone, Copy, Debug, PartialEq, Eq, PartialOrd, Ord, Hash)]
pub struct CollectionId {
    bytes: [u8; 16],
}

impl View for CollectionId {
    type V = Seq<u8>;

    closed spec fn view(&self) -> Seq<u8> {
        self.bytes@
    }
}

impl CollectionId {
    /// Wraps the identifier's bytes.
    pub fn from_bytes(bytes: [u8; 16]) -> (r: Self)
        ensures
            r@ == bytes@,
    {
        CollectionId { bytes }
    }

    /// Reads an identifier, which has exactly sixteen bytes.
    pub fn from_slice(raw: &[u8]) -> (r: Option<Self>)
        ensures
            r is Some <==> raw@.len() == ID_BYTES,
            r matches Some(id) ==> id@ == raw@,
    {
        if raw.len() == ID_BYTES {
            Some(CollectionId { bytes: to_array(raw) })
        } else {
            None
        }
    }

    /// Returns the identifier's bytes.
    pub fn as_bytes(&self) -> (r: &[u8])
        ensures
            r@ == self@,
            r@.len() == ID_BYTES,
    {
        self.bytes.as_slice()
    }

    /// Reports whether two identifiers are the same.
    pub fn same(&self, other: &Self) -> (r: bool)
        ensures
            r == (self@ == other@),
    {
        bytes::same(self.as_bytes(), other.as_bytes())
    }

    /// Identifiers have sixteen bytes, and those determine the identifier.
    pub proof fn lemma_view(a: Self, b: Self)
        ensures
            a@.len() == ID_BYTES,
            a@ == b@ ==> a == b,
    {
        if a@ == b@ {
            assert(a.bytes =~= b.bytes);
        }
    }
}

/// Longest name of a child collection.
pub const MAX_COLLECTION_NAME_BYTES: usize = 255;

/// The identifier reserved for the root collection.
pub open spec fn root_collection() -> Seq<u8> {
    bytes::zeros(16)
}

impl CollectionId {
    /// Returns the identifier reserved for the root collection.
    pub fn root() -> (r: Self)
        ensures
            r@ == root_collection(),
    {
        let r = CollectionId { bytes: [0u8; 16] };
        proof {
            assert(r@ =~= root_collection());
        }
        r
    }

    /// Reports whether this is the identifier reserved for the root collection.
    pub fn is_root(&self) -> (r: bool)
        ensures
            r == (self@ == root_collection()),
    {
        self.same(&CollectionId::root())
    }
}

/// Length of the longest identifier that a transaction gets when it starts.
pub const MAX_GENERATED_TX_ID_BYTES: usize = 16;

/// Identity of one transaction: its priority, followed by what tells it apart
/// from others of the same priority. Short identifiers have no priority.
#[derive(Debug, PartialEq, Eq, PartialOrd, Ord, Hash)]
pub struct TxId {
    bytes: Vec<u8>,
}

impl View for TxId {
    type V = Seq<u8>;

    closed spec fn view(&self) -> Seq<u8> {
        self.bytes@
    }
}

impl Clone for TxId {
    fn clone(&self) -> (r: Self)
        ensures
            r@ == self@,
    {
        TxId { bytes: bytes::copy(self.bytes.as_slice()) }
    }
}

impl Default for TxId {
    /// The identifier of no transaction.
    fn default() -> (r: Self)
        ensures
            r@ == Seq::<u8>::empty(),
    {
        TxId { bytes: Vec::new() }
    }
}

/// The big-endian encoding of `x` in eight bytes.
pub open spec fn be64(x: u64) -> Seq<u8> {
    bytes::le64(x).reverse()
}

/// `a` has priority over `b`: both have a priority, and that of `a` is earlier;
/// among equal priorities the identifiers decide.
pub open spec fn has_priority(a: Seq<u8>, b: Seq<u8>) -> bool {
    a.len() >= 8 && b.len() >= 8 && bytes::lt(a, b)
}

impl TxId {
    /// Wraps the identifier's bytes.
    pub fn from_bytes(bytes: Vec<u8>) -> (r: Self)
        ensures
            r@ == bytes@,
    {
        TxId { bytes }
    }

    /// Makes an identifier with the given start time as its priority.
    pub fn with_priority(nanos: u64, name: &[u8]) -> (r: Self)
        ensures
            r@ == be64(nanos) + bytes::padded(
                name@,
                if name@.len() < 8 {
                    8
                } else {
                    name@.len() as int
                },
            ),
    {
        let little: Vec<u8> = bytes::to_le64(nanos);
        proof {
            bytes::lemma_le64();
        }
        let mut id: Vec<u8> = Vec::new();
        let mut i: usize = 8;
        while i > 0
            invariant
                i <= 8,
                little@ == bytes::le64(nanos),
                little@.len() == 8,
                id@ == little@.reverse().take(8 - i),
            decreases i,
        {
            i = i - 1;
            id.push(little[i]);
            proof {
                assert(id@ =~= little@.reverse().take(8 - i));
            }
        }
        let mut tail: Vec<u8> = bytes::copy(name);
        let width: usize = if name.len() < 8 {
            8
        } else {
            name.len()
        };
        bytes::pad(&mut tail, width);
        bytes::append(&mut id, tail.as_slice());
        proof {
            assert(little@.reverse().take(8) =~= be64(nanos));
        }
        TxId { bytes: id }
    }

    /// Returns the identifier's bytes.
    pub fn as_bytes(&self) -> (r: &[u8])
        ensures
            r@ == self@,
    {
        self.bytes.as_slice()
    }

    /// Reports whether this is the identifier of no transaction.
    pub fn is_empty(&self) -> (r: bool)
        ensures
            r == (self@.len() == 0),
    {
        self.bytes.len() == 0
    }

    /// Reports whether two identifiers are the same.
    pub fn same(&self, other: &Self) -> (r: bool)
        ensures
            r == (self@ == other@),
    {
        bytes::same(self.as_bytes(), other.as_bytes())
    }

    /// Reports whether this transaction is older, and so has priority.
    pub fn older(&self, other: &Self) -> (r: bool)
        ensures
            r == has_priority(self@, other@),
    {
        self.bytes.len() >= 8 && other.bytes.len() >= 8 && bytes::precedes(
            self.as_bytes(),
            other.as_bytes(),
        )
    }
}

impl crate::sorted::Keyed for NodeId {
    open spec fn key(&self) -> Seq<u8> {
        self@
    }
}

impl crate::sorted::Stored for NodeId {
    type Model = Seq<u8>;

    open spec fn model(&self) -> Seq<u8> {
        self@
    }

    proof fn lemma_model(&self) {
    }

    fn key_bytes(&self) -> (r: &[u8]) {
        self.as_bytes()
    }
}

impl crate::sorted::Keyed for TxId {
    open spec fn key(&self) -> Seq<u8> {
        self@
    }
}

impl crate::sorted::Stored for TxId {
    type Model = Seq<u8>;

    open spec fn model(&self) -> Seq<u8> {
        self@
    }

    proof fn lemma_model(&self) {
    }

    fn key_bytes(&self) -> (r: &[u8]) {
        self.as_bytes()
    }
}

/// The identifiers of several transactions.
pub open spec fn tx_views(ids: Seq<TxId>) -> Seq<Seq<u8>> {
    ids.map_values(|id: TxId| id@)
}

/// Copies several identifiers.
pub fn copy_ids(ids: &Vec<TxId>) -> (r: Vec<TxId>)
    ensures
        tx_views(r@) == tx_views(ids@),
        r@.len() == ids@.len(),
{
    let mut r: Vec<TxId> = Vec::new();
    let mut i: usize = 0;
    while i < ids.len()
        invariant
            i <= ids@.len(),
            r@.len() == i,
            forall|j: int| 0 <= j < i ==> r@[j]@ == ids@[j]@,
        decreases ids@.len() - i,
    {
        r.push(ids[i].clone());
        i = i + 1;
    }
    proof {
        assert(tx_views(r@) =~= tx_views(ids@));
    }
    r
}

/// Law: an earlier start time has priority over a later one.
pub proof fn law_earlier_start_has_priority(a: u64, b: u64, x: Seq<u8>, y: Seq<u8>)
    requires
        a < b,
    ensures
        has_priority(be64(a) + x, be64(b) + y),
{
    bytes::lemma_le64();
    lemma_be64_order(a, b);
    let p = be64(a);
    let q = be64(b);
    reveal(bytes::lt);
    let n = choose|n: int| bytes::lt_at(p, q, n);
    assert(bytes::lt_at(p, q, n));
    assert(bytes::lt_at(p + x, q + y, n));
}

/// Big-endian encodings are ordered like the numbers.
proof fn lemma_be64_order(a: u64, b: u64)
    requires
        a < b,
    ensures
        bytes::lt(be64(a), be64(b)),
{
    reveal(bytes::le64);
    let p = be64(a);
    let q = be64(b);
    bytes::lemma_total(p, q);
    bytes::lemma_le64();
    bytes::lemma_lt_irreflexive(p);
    if p == q {
        assert(bytes::le64(a) =~= p.reverse());
        assert(bytes::le64(b) =~= q.reverse());
        assert(false);
    } else if bytes::lt(q, p) {
        reveal(bytes::lt);
        let n = choose|n: int| bytes::lt_at(q, p, n);
        assert(bytes::lt_at(q, p, n));
        let x = bytes::le64(a);
        let y = bytes::le64(b);
        assert forall|i: int| 7 - n < i < 8 implies x[i] == y[i] by {
            assert(p[7 - i] == x[i]);
            assert(q[7 - i] == y[i]);
            assert(q[7 - i] == p[7 - i]);
        }
        assert(p[n] == x[7 - n] && q[n] == y[7 - n]);
        lemma_le64_order(a, b, 7 - n);
    }
}

/// The highest differing byte decides.
proof fn lemma_le64_order(a: u64, b: u64, k: int)
    requires
        0 <= k < 8,
        forall|i: int| k < i < 8 ==> bytes::le64(a)[i] == bytes::le64(b)[i],
        bytes::le64(b)[k] < bytes::le64(a)[k],
    ensures
        b < a,
{
    reveal(bytes::le64);
    reveal(bytes::le64_value);
    bytes::lemma_le64();
    let x = bytes::le64(a);
    let y = bytes::le64(b);
    assert(a == bytes::le64_value(x));
    assert(b == bytes::le64_value(y));
    assert(k == 7 || x[7] == y[7]);
    assert(k >= 6 || x[6] == y[6]);
    assert(k >= 5 || x[5] == y[5]);
    assert(k >= 4 || x[4] == y[4]);
    assert(k >= 3 || x[3] == y[3]);
    assert(k >= 2 || x[2] == y[2]);
    assert(k >= 1 || x[1] == y[1]);
    if k == 0 {
    } else if k == 1 {
    } else if k == 2 {
    } else if k == 3 {
    } else if k == 4 {
    } else if k == 5 {
    } else if k == 6 {
    } else {
    }
}

/// Law: priority orders transactions strictly, by their bytes; one whose name is
/// too short to hold its start has none, and yields to none.
pub proof fn law_priority_is_an_order(a: Seq<u8>, b: Seq<u8>, c: Seq<u8>)
    ensures
        !has_priority(a, a),
        has_priority(a, b) ==> !has_priority(b, a),
        has_priority(a, b) && has_priority(b, c) ==> has_priority(a, c),
        a.len() < 8 || b.len() < 8 ==> !has_priority(a, b),
        a.len() >= 8 && b.len() >= 8 && a != b ==> has_priority(a, b) || has_priority(b, a),
        has_priority(a, b) ==> bytes::lt(a, b),
{
    bytes::lemma_lt_irreflexive(a);
    bytes::lemma_total(a, b);
    if has_priority(a, b) {
        bytes::lemma_lt_asymmetric(a, b);
        if has_priority(b, c) {
            bytes::lemma_lt_transitive(a, b, c);
        }
    }
}

} // verus!
