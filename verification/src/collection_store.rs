//! Collection records: the directory of child collections and the
//! coordination of its lifecycle and topology.

use vstd::prelude::*;

use crate::bindings::{self, Binding, BindingFault, BindingView, Bindings};
use crate::cached_store::{CasResult, Observation};
use crate::error::StorageError;
use crate::node_store;
use crate::ids::{self, CollectionId, TxId};
use crate::leaf;
use crate::lock::{self, LockType, LockView, SharedExclusiveLock};
use crate::node::laws;
use crate::node::locks;
use crate::node::tree_node;
use crate::proto::{self, LockMessage, PairMessage};
use crate::sorted;
use crate::wire;

verus! {

/// A collection record.
pub struct RecordView {
    /// The directory of child collections.
    pub children: Seq<BindingView>,
    /// The lock coordinating the directory.
    pub directory_lock: LockView,
    /// Advances with every committed directory mutation batch.
    pub directory_version: u64,
    /// The transaction freezing the collection's topology.
    pub topology_freeze: Option<Seq<u8>>,
    /// Structural operations that joined the topology, in ascending order.
    pub topology_participants: Seq<Seq<u8>>,
}

impl RecordView {
    /// The directory, its lock and the participants are valid.
    pub open spec fn valid(self) -> bool {
        &&& bindings::directory_valid(self.children)
        &&& self.directory_lock.valid()
        &&& self.directory_lock.typ != LockType::Create
        &&& lock::ascending(self.topology_participants)
    }

    /// A record without bindings and holders.
    pub open spec fn fresh() -> RecordView {
        RecordView {
            children: Seq::empty(),
            directory_lock: LockView::unlocked(),
            directory_version: 0,
            topology_freeze: None,
            topology_participants: Seq::empty(),
        }
    }

    /// The record without transient coordination holders.
    pub open spec fn content(self) -> RecordView {
        RecordView {
            directory_lock: LockView::unlocked(),
            topology_freeze: None,
            topology_participants: Seq::empty(),
            ..self
        }
    }

    /// Nobody but `id` freezes the topology.
    pub open spec fn open_to(self, id: Seq<u8>) -> bool {
        self.topology_freeze is None || self.topology_freeze == Some(id)
    }
}

/// The fields of a persisted record: bindings in field 1, directory lock in 2,
/// directory version in 3, topology freeze in 4, participants in 5.
pub open spec fn record_fields(record: RecordView) -> Seq<wire::FieldView> {
    bindings::bindings_part(1, record.children) + (tree_node::lock_part(2, record.directory_lock)
        + (wire::nonzero(3, record.directory_version as nat) + (wire::nonempty(
        4,
        tree_node::or_empty(record.topology_freeze),
    ) + wire::repeated(5, record.topology_participants))))
}

/// The bytes of a persisted record.
pub open spec fn record_bytes(record: RecordView) -> Seq<u8> {
    wire::message_bytes(record_fields(record))
}

/// A record as persisted.
pub struct RecordMessageView {
    /// The bindings.
    pub children: Seq<proto::PairMessageView>,
    /// The directory lock.
    pub directory_lock: proto::LockMessageView,
    /// The directory version.
    pub directory_version: nat,
    /// The topology freeze, empty for none.
    pub topology_freeze: Seq<u8>,
    /// The participants.
    pub topology_participants: Seq<Seq<u8>>,
}

/// A record as persisted.
#[derive(Debug)]
struct RecordMessage {
    children: Vec<PairMessage>,
    directory_lock: LockMessage,
    directory_version: u64,
    topology_freeze: Vec<u8>,
    topology_participants: Vec<Vec<u8>>,
}

impl View for RecordMessage {
    type V = RecordMessageView;

    closed spec fn view(&self) -> RecordMessageView {
        RecordMessageView {
            children: proto::pair_message_views(self.children@),
            directory_lock: self.directory_lock@,
            directory_version: self.directory_version as nat,
            topology_freeze: self.topology_freeze@,
            topology_participants: crate::bytes::views(self.topology_participants@),
        }
    }
}

/// Reads a record.
pub open spec fn record_message(fields: Seq<wire::FieldView>) -> Option<RecordMessageView> {
    let children = wire::occurrences(fields, 1);
    let version = wire::occurrences(fields, 3);
    let freeze = wire::occurrences(fields, 4);
    let participants = wire::occurrences(fields, 5);
    if wire::all_bytes(children) && wire::all_numbers(version) && wire::all_bytes(freeze)
        && wire::all_bytes(participants) {
        match (
            proto::pair_messages(wire::byte_strings(children), 1),
            proto::embedded_lock(fields, 2, 1),
        ) {
            (Some(children), Some(directory_lock)) => Some(
                RecordMessageView {
                    children,
                    directory_lock,
                    directory_version: wire::last_number(version),
                    topology_freeze: wire::last_bytes(freeze),
                    topology_participants: wire::byte_strings(participants),
                },
            ),
            _ => None,
        }
    } else {
        None
    }
}

/// Reads the bytes of a record.
pub open spec fn parse_record(b: Seq<u8>) -> Option<RecordMessageView> {
    match wire::parse_fields(b, 0) {
        Some(fields) => record_message(fields),
        None => None,
    }
}

/// Byte strings that are not empty.
pub open spec fn is_nonempty() -> spec_fn(Seq<u8>) -> bool {
    |id: Seq<u8>| id.len() > 0
}

/// What is wrong with a record's binding, in words.
pub open spec fn record_fault(fault: BindingFault) -> Seq<char> {
    match fault {
        BindingFault::Name => "collection record contains an invalid child name"@,
        BindingFault::Id => "collection record contains an invalid child ID"@,
        BindingFault::Reserved => "collection record binds a child to the reserved root ID"@,
        BindingFault::Duplicate => "collection record contains a duplicate child name"@,
    }
}

/// Says what is wrong with a record's binding.
fn record_error(fault: BindingFault) -> (r: StorageError)
    ensures
        r.says(record_fault(fault)),
{
    match fault {
        BindingFault::Name => StorageError::other(
            "collection record contains an invalid child name",
        ),
        BindingFault::Id => StorageError::other("collection record contains an invalid child ID"),
        BindingFault::Reserved => StorageError::other(
            "collection record binds a child to the reserved root ID",
        ),
        BindingFault::Duplicate => StorageError::other(
            "collection record contains a duplicate child name",
        ),
    }
}

/// The record that a persisted one stands for, or what is wrong with it.
pub open spec fn record_of(message: RecordMessageView) -> Result<RecordView, Seq<char>> {
    match bindings::bindings_of(message.children) {
        Err(fault) => Err(record_fault(fault)),
        Ok(children) => if tree_node::is_shared_exclusive(message.directory_lock) {
            Ok(
                RecordView {
                    children,
                    directory_lock: lock::lock_of(
                        message.directory_lock.number,
                        message.directory_lock.holders,
                    )->0,
                    directory_version: message.directory_version as u64,
                    topology_freeze: tree_node::if_nonempty(message.topology_freeze),
                    topology_participants: lock::arranged(
                        message.topology_participants.filter(is_nonempty()),
                    ),
                },
            )
        } else {
            Err("collection record has an invalid directory lock"@)
        },
    }
}

/// A collection record: the directory of child collections and the
/// coordination of its lifecycle and topology.
#[derive(Debug, PartialEq, Eq)]
pub struct CollectionRecord {
    children: Bindings,
    directory_lock: SharedExclusiveLock,
    directory_version: u64,
    topology_freeze: Option<TxId>,
    topology_participants: Vec<TxId>,
}

impl View for CollectionRecord {
    type V = RecordView;

    closed spec fn view(&self) -> RecordView {
        RecordView {
            children: self.children@,
            directory_lock: self.directory_lock@,
            directory_version: self.directory_version,
            topology_freeze: locks::tx_view(self.topology_freeze),
            topology_participants: ids::tx_views(self.topology_participants@),
        }
    }
}

impl Clone for CollectionRecord {
    fn clone(&self) -> (r: Self)
        ensures
            r@ == self@,
    {
        CollectionRecord {
            children: self.children.clone(),
            directory_lock: self.directory_lock.clone(),
            directory_version: self.directory_version,
            topology_freeze: match &self.topology_freeze {
                Some(id) => Some(id.clone()),
                None => None,
            },
            topology_participants: ids::copy_ids(&self.topology_participants),
        }
    }
}

impl Default for CollectionRecord {
    fn default() -> (r: Self)
        ensures
            r.wf(),
            r@ == RecordView::fresh(),
    {
        CollectionRecord::new()
    }
}

impl CollectionRecord {
    /// The directory, its lock and the participants are valid.
    pub open spec fn wf(&self) -> bool {
        self@.valid()
    }

    /// Creates an empty collection record with no child bindings.
    pub fn new() -> (r: Self)
        ensures
            r.wf(),
            r@ == RecordView::fresh(),
    {
        let r = CollectionRecord {
            children: Bindings::default(),
            directory_lock: SharedExclusiveLock::default(),
            directory_version: 0,
            topology_freeze: None,
            topology_participants: Vec::new(),
        };
        proof {
            assert(r@.topology_participants =~= Seq::<Seq<u8>>::empty());
        }
        r
    }

    /// Returns the incarnation bound to direct child `name`.
    pub fn child(&self, name: &[u8]) -> (r: Option<CollectionId>)
        requires
            self.wf(),
        ensures
            match sorted::get(self@.children, name@) {
                Some(binding) => r matches Some(id) && id@ == binding.id,
                None => r is None,
            },
    {
        self.children.child(name)
    }

    /// Adds a valid direct child binding, returning whether the name was
    /// vacant.
    pub fn add_child(&mut self, name: Vec<u8>, id: CollectionId) -> (r: Result<bool, StorageError>)
        requires
            old(self).wf(),
        ensures
            final(self).wf(),
            final(self)@ == (RecordView { children: final(self)@.children, ..old(self)@ }),
            bindings::added(old(self)@.children, final(self)@.children, name@, id@, r),
    {
        self.children.add_child(name, id)
    }

    /// Removes a direct child binding, returning its former incarnation.
    pub fn remove_child(&mut self, name: &[u8]) -> (r: Option<CollectionId>)
        requires
            old(self).wf(),
        ensures
            final(self).wf(),
            final(self)@ == (RecordView {
                children: sorted::drop(old(self)@.children, name@),
                ..old(self)@
            }),
            match sorted::get(old(self)@.children, name@) {
                Some(binding) => r matches Some(id) && id@ == binding.id,
                None => r is None,
            },
    {
        self.children.remove_child(name)
    }

    /// Returns the child bindings in name order.
    pub fn children(&self) -> (r: &Vec<Binding>)
        ensures
            sorted::models(r@) == self@.children,
            r@.len() == self@.children.len(),
    {
        self.children.list()
    }

    /// Returns the lock coordinating the direct-child directory.
    pub fn directory_lock(&self) -> (r: &SharedExclusiveLock)
        ensures
            r@ == self@.directory_lock,
            self.wf() ==> r.wf(),
    {
        &self.directory_lock
    }

    /// Returns the directory activity version.
    pub fn directory_version(&self) -> (r: u64)
        ensures
            r == self@.directory_version,
    {
        self.directory_version
    }

    /// Installs a shared directory holder.
    pub fn add_directory_reader(&mut self, id: TxId)
        requires
            old(self).wf(),
        ensures
            final(self).wf(),
            final(self)@ == (RecordView {
                directory_lock: final(self)@.directory_lock,
                ..old(self)@
            }),
            final(self)@.directory_lock.typ == LockType::Read,
            forall|k: Seq<u8>|
                final(self)@.directory_lock.holders.contains(k)
                    <==> old(self)@.directory_lock.holders.contains(k) || k == id@,
    {
        self.directory_lock.add_reader(id);
    }

    /// Installs an exclusive directory holder.
    pub fn set_directory_writer(&mut self, id: TxId)
        ensures
            final(self)@ == (RecordView {
                directory_lock: LockView::exclusive(LockType::Write, id@),
                ..old(self)@
            }),
            old(self).wf() ==> final(self).wf(),
    {
        self.directory_lock.set_writer(id);
    }

    /// Removes one directory holder.
    pub fn remove_directory_holder(&mut self, id: &TxId) -> (r: bool)
        requires
            old(self).wf(),
        ensures
            final(self).wf(),
            final(self)@ == (RecordView {
                directory_lock: final(self)@.directory_lock,
                ..old(self)@
            }),
            r == old(self)@.directory_lock.holders.contains(id@),
            forall|k: Seq<u8>|
                final(self)@.directory_lock.holders.contains(k)
                    <==> old(self)@.directory_lock.holders.contains(k) && k != id@,
            final(self)@.directory_lock.typ == if final(self)@.directory_lock.holders.len() == 0 {
                LockType::NoLock
            } else {
                old(self)@.directory_lock.typ
            },
            !r ==> final(self)@ == old(self)@,
    {
        self.directory_lock.remove(id)
    }

    /// Records one committed directory mutation batch.
    pub fn advance_directory_version(&mut self)
        ensures
            final(self)@ == (RecordView {
                directory_version: old(self)@.directory_version.wrapping_add(1),
                ..old(self)@
            }),
    {
        self.directory_version = self.directory_version.wrapping_add(1);
    }

    /// Returns the transaction currently freezing collection topology.
    pub fn topology_freeze(&self) -> (r: Option<&TxId>)
        ensures
            r is Some <==> self@.topology_freeze is Some,
            r matches Some(id) ==> self@.topology_freeze == Some(id@),
    {
        match &self.topology_freeze {
            Some(id) => Some(id),
            None => None,
        }
    }

    /// Reports whether nobody but `id` freezes the topology.
    fn is_open_to(&self, id: &TxId) -> (r: bool)
        ensures
            r == self@.open_to(id@),
    {
        match &self.topology_freeze {
            Some(holder) => holder.same(id),
            None => true,
        }
    }

    /// Installs a topology freeze if no other transaction owns it.
    pub fn set_topology_freeze(&mut self, id: TxId) -> (r: bool)
        ensures
            r == old(self)@.open_to(id@),
            final(self)@ == if r {
                RecordView { topology_freeze: Some(id@), ..old(self)@ }
            } else {
                old(self)@
            },
    {
        if !self.is_open_to(&id) {
            return false;
        }
        self.topology_freeze = Some(id);
        true
    }

    /// Clears a topology freeze owned by `id`.
    pub fn remove_topology_freeze(&mut self, id: &TxId) -> (r: bool)
        ensures
            r == (old(self)@.topology_freeze == Some(id@)),
            final(self)@ == if r {
                RecordView { topology_freeze: None, ..old(self)@ }
            } else {
                old(self)@
            },
    {
        let owned: bool = match &self.topology_freeze {
            Some(holder) => holder.same(id),
            None => false,
        };
        if owned {
            self.topology_freeze = None;
        }
        owned
    }

    /// Returns structural operations that joined collection topology, in
    /// ascending order.
    pub fn topology_participants(&self) -> (r: &Vec<TxId>)
        ensures
            ids::tx_views(r@) == self@.topology_participants,
    {
        &self.topology_participants
    }

    /// Joins collection topology unless a different transaction froze it.
    pub fn add_topology_participant(&mut self, id: TxId) -> (r: bool)
        requires
            old(self).wf(),
        ensures
            final(self).wf(),
            r == old(self)@.open_to(id@),
            final(self)@ == if r {
                RecordView {
                    topology_participants: sorted::put(old(self)@.topology_participants, id@),
                    ..old(self)@
                }
            } else {
                old(self)@
            },
    {
        if !self.is_open_to(&id) {
            return false;
        }
        proof {
            lock::lemma_ascending_is_sorted(self@.topology_participants);
            sorted::lemma_models(self.topology_participants@);
            lemma_tx_models(self.topology_participants@);
        }
        sorted::insert(&mut self.topology_participants, id);
        proof {
            lemma_tx_models(self.topology_participants@);
            lock::lemma_ascending_is_sorted(self@.topology_participants);
        }
        true
    }

    /// Removes a structural topology participant.
    pub fn remove_topology_participant(&mut self, id: &TxId) -> (r: bool)
        requires
            old(self).wf(),
        ensures
            final(self).wf(),
            r == old(self)@.topology_participants.contains(id@),
            final(self)@ == (RecordView {
                topology_participants: sorted::drop(old(self)@.topology_participants, id@),
                ..old(self)@
            }),
    {
        proof {
            lock::lemma_ascending_is_sorted(self@.topology_participants);
            sorted::lemma_models(self.topology_participants@);
            lemma_tx_models(self.topology_participants@);
            sorted::lemma_models_drop(self.topology_participants@, id@);
            lemma_get_holds(self@.topology_participants, id@);
        }
        let removed: bool = sorted::remove(
            &mut self.topology_participants,
            id.as_bytes(),
        ).is_some();
        proof {
            lemma_tx_models(self.topology_participants@);
            lock::lemma_ascending_is_sorted(self@.topology_participants);
        }
        removed
    }

    /// Encodes the record to its canonical body.
    pub fn encode(&self) -> (r: Vec<u8>)
        ensures
            r@ == record_bytes(self@),
    {
        let mut buf: Vec<u8> = Vec::new();
        self.children.encode_into(&mut buf, 1);
        tree_node::put_lock(
            &mut buf,
            2,
            self.directory_lock.lock_type(),
            self.directory_lock.holders(),
        );
        wire::put_nonzero(&mut buf, 3, self.directory_version);
        tree_node::put_tx(&mut buf, 4, self.topology_freeze());
        leaf::put_ids(&mut buf, 5, &self.topology_participants);
        proof {
            lemma_record_bytes(self@);
        }
        buf
    }

    /// Returns the canonical encoded size.
    pub fn encoded_len(&self) -> (r: usize)
        ensures
            r == record_bytes(self@).len(),
    {
        self.encode().len()
    }

    /// Returns the encoded size without transient coordination holders.
    pub fn content_encoded_len(&self) -> (r: usize)
        ensures
            r == record_bytes(self@.content()).len(),
    {
        let mut record = self.clone();
        record.directory_lock = SharedExclusiveLock::default();
        record.topology_freeze = None;
        record.topology_participants = Vec::new();
        proof {
            assert(record@.topology_participants =~= Seq::<Seq<u8>>::empty());
        }
        record.encoded_len()
    }

    /// Decodes a collection record from its body.
    pub fn decode(buf: &[u8]) -> (r: Result<Self, StorageError>)
        ensures
            match parse_record(buf@) {
                None => r matches Err(error) && error.wraps("unmarshalling collection record"@),
                Some(message) => match record_of(message) {
                    Ok(record) => r matches Ok(found) && found@ == record && found.wf(),
                    Err(text) => r matches Err(error) && error.says(text),
                },
            },
    {
        let message = match read_record(buf) {
            Err(error) => {
                return Err(StorageError::with_source("unmarshalling collection record", error));
            },
            Ok(message) => message,
        };
        let children = match Bindings::from_messages(&message.children) {
            Err(fault) => {
                return Err(record_error(fault));
            },
            Ok(children) => children,
        };
        let directory_lock = match SharedExclusiveLock::from_wire(
            message.directory_lock.number,
            message.directory_lock.holders,
        ) {
            Err(_) => {
                return Err(StorageError::other("collection record has an invalid directory lock"));
            },
            Ok(lock) => lock,
        };
        let topology_freeze = if message.topology_freeze.len() == 0 {
            None
        } else {
            Some(TxId::from_bytes(message.topology_freeze))
        };
        let topology_participants = participants_from(&message.topology_participants);
        Ok(
            CollectionRecord {
                children,
                directory_lock,
                directory_version: message.directory_version,
                topology_freeze,
                topology_participants,
            },
        )
    }
}

/// The fields of a record, one after the other.
proof fn lemma_record_bytes(r: RecordView)
    ensures
        record_bytes(r) == Seq::<u8>::empty() + wire::message_bytes(
            bindings::bindings_part(1, r.children),
        ) + wire::message_bytes(tree_node::lock_part(2, r.directory_lock)) + wire::message_bytes(
            wire::nonzero(3, r.directory_version as nat),
        ) + wire::message_bytes(wire::nonempty(4, tree_node::or_empty(r.topology_freeze)))
            + wire::message_bytes(wire::repeated(5, r.topology_participants)),
{
    let a = bindings::bindings_part(1, r.children);
    let b = tree_node::lock_part(2, r.directory_lock);
    let c = wire::nonzero(3, r.directory_version as nat);
    let d = wire::nonempty(4, tree_node::or_empty(r.topology_freeze));
    let e = wire::repeated(5, r.topology_participants);
    wire::lemma_message_concat(d, e);
    wire::lemma_message_concat(c, d + e);
    wire::lemma_message_concat(b, c + (d + e));
    wire::lemma_message_concat(a, b + (c + (d + e)));
    lemma_five(
        wire::message_bytes(a),
        wire::message_bytes(b),
        wire::message_bytes(c),
        wire::message_bytes(d),
        wire::message_bytes(e),
    );
}

/// Concatenation is associative.
proof fn lemma_five(a: Seq<u8>, b: Seq<u8>, c: Seq<u8>, d: Seq<u8>, e: Seq<u8>)
    ensures
        a + (b + (c + (d + e))) == Seq::<u8>::empty() + a + b + c + d + e,
{
    assert(a + (b + (c + (d + e))) =~= Seq::<u8>::empty() + a + b + c + d + e);
}

/// Identifiers stand for their bytes.
proof fn lemma_tx_models(list: Seq<TxId>)
    ensures
        sorted::models(list) == ids::tx_views(list),
{
    assert(sorted::models(list) =~= ids::tx_views(list));
}

/// An element is found when its key is there.
proof fn lemma_get_holds(list: Seq<Seq<u8>>, key: Seq<u8>)
    ensures
        sorted::get(list, key) is Some <==> list.contains(key),
{
    lock::lemma_ascending_is_sorted(list);
    assert(sorted::holds_key(list, key) <==> list.contains(key));
}

/// Puts the participants that are not empty in ascending order.
fn participants_from(list: &Vec<Vec<u8>>) -> (r: Vec<TxId>)
    ensures
        ids::tx_views(r@) == lock::arranged(crate::bytes::views(list@).filter(is_nonempty())),
        lock::ascending(ids::tx_views(r@)),
{
    let mut out: Vec<TxId> = Vec::new();
    let mut i: usize = 0;
    let ghost all = crate::bytes::views(list@);
    proof {
        reveal(Seq::filter);
        assert(all.take(0) =~= Seq::<Seq<u8>>::empty());
        assert(all.take(0).filter(is_nonempty()) =~= Seq::<Seq<u8>>::empty());
        sorted::lemma_put_all_step(Seq::<Seq<u8>>::empty(), all.take(0).filter(is_nonempty()));
        assert(ids::tx_views(out@) =~= Seq::<Seq<u8>>::empty());
    }
    while i < list.len()
        invariant
            i <= list@.len(),
            all == crate::bytes::views(list@),
            ids::tx_views(out@) == lock::arranged(all.take(i as int).filter(is_nonempty())),
        decreases list@.len() - i,
    {
        let ghost before = all.take(i as int).filter(is_nonempty());
        proof {
            reveal(Seq::filter);
            let now = all.take(i + 1);
            assert(now.drop_last() =~= all.take(i as int));
            assert(now.last() == list@[i as int]@);
            lock::lemma_arranged(before);
            lock::lemma_ascending_is_sorted(ids::tx_views(out@));
            lemma_tx_models(out@);
            sorted::lemma_models(out@);
        }
        if list[i].len() != 0 {
            let id = TxId::from_bytes(crate::bytes::copy(list[i].as_slice()));
            let ghost bytes = id@;
            sorted::insert(&mut out, id);
            proof {
                lemma_tx_models(out@);
                let after = before.push(bytes);
                assert(all.take(i + 1).filter(is_nonempty()) == after);
                sorted::lemma_put_all_step(Seq::<Seq<u8>>::empty(), after);
                assert(after.drop_last() =~= before);
            }
        }
        i = i + 1;
    }
    proof {
        assert(all.take(i as int) =~= all);
        lock::lemma_arranged(all.filter(is_nonempty()));
    }
    out
}

/// Reads a record.
fn read_record(buf: &[u8]) -> (r: Result<RecordMessage, String>)
    ensures
        match parse_record(buf@) {
            None => r is Err,
            Some(message) => r matches Ok(found) && found@ == message,
        },
{
    let fields = match wire::read_fields(buf, 0) {
        Err(error) => {
            return Err(error);
        },
        Ok(fields) => fields,
    };
    let payloads = match wire::pick_bytes(&fields, 1) {
        Err(error) => {
            return Err(error);
        },
        Ok(list) => list,
    };
    let directory_version: u64 = match wire::pick_number(&fields, 3) {
        Err(error) => {
            return Err(error);
        },
        Ok(version) => version,
    };
    let topology_freeze = match wire::pick_last_bytes(&fields, 4) {
        Err(error) => {
            return Err(error);
        },
        Ok(freeze) => freeze,
    };
    let topology_participants = match wire::pick_bytes(&fields, 5) {
        Err(error) => {
            return Err(error);
        },
        Ok(list) => list,
    };
    let children = match proto::read_pairs(&payloads, 1) {
        Err(error) => {
            return Err(error);
        },
        Ok(children) => children,
    };
    let directory_lock = match proto::read_embedded_lock(&fields, 2, 1) {
        Err(error) => {
            return Err(error);
        },
        Ok(lock) => lock,
    };
    Ok(
        RecordMessage {
            children,
            directory_lock,
            directory_version,
            topology_freeze,
            topology_participants,
        },
    )
}

/// Law: a record reads back from its bytes. An empty freeze or participant
/// does not name a transaction and is not persisted.
pub proof fn law_record_round_trip(record: RecordView)
    requires
        record.valid(),
        record.topology_freeze matches Some(id) ==> id.len() > 0,
        forall|i: int|
            0 <= i < record.topology_participants.len() ==> (
            #[trigger] record.topology_participants[i]).len() > 0,
        record_bytes(record).len() <= u64::MAX,
    ensures
        parse_record(record_bytes(record)) matches Some(message) && record_of(message) == Ok::<
            RecordView,
            Seq<char>,
        >(record),
{
    let fields = record_fields(record);
    let payloads = record.children.map_values(|b: BindingView| bindings::binding_bytes(b));
    let freeze = tree_node::or_empty(record.topology_freeze);
    let version = record.directory_version as nat;
    let a = bindings::bindings_part(1, record.children);
    let b = tree_node::lock_part(2, record.directory_lock);
    let c = wire::nonzero(3, version);
    let d = wire::nonempty(4, freeze);
    let e = wire::repeated(5, record.topology_participants);
    wire::lemma_repeated(1, payloads);
    wire::lemma_nonzero(3, version);
    wire::lemma_nonempty(4, freeze);
    wire::lemma_repeated(5, record.topology_participants);
    assert(wire::all_writable(b));
    assert(wire::carries(b, 2, laws::lock_values(record.directory_lock)));
    wire::lemma_writable_concat(d, e);
    wire::lemma_writable_concat(c, d + e);
    wire::lemma_writable_concat(b, c + (d + e));
    wire::lemma_writable_concat(a, b + (c + (d + e)));
    wire::law_written_message_is_read(fields, 0);
    wire::lemma_in_front(a, 1, wire::list_values(payloads), b + (c + (d + e)));
    wire::lemma_in_front(b, 2, laws::lock_values(record.directory_lock), c + (d + e));
    wire::lemma_in_front(c, 3, wire::number_values(version), d + e);
    wire::lemma_in_front(d, 4, wire::bytes_values(freeze), e);
    let ev = wire::list_values(record.topology_participants);
    wire::lemma_carries(e, 5, ev, 1);
    wire::lemma_carries(e, 5, ev, 2);
    wire::lemma_carries(e, 5, ev, 3);
    wire::lemma_carries(e, 5, ev, 4);
    wire::lemma_carries(e, 5, ev, 5);
    assert(wire::occurrences(fields, 1) =~= wire::list_values(payloads));
    assert(wire::occurrences(fields, 2) =~= laws::lock_values(record.directory_lock));
    assert(wire::occurrences(fields, 3) =~= wire::number_values(version));
    assert(wire::occurrences(fields, 4) =~= wire::bytes_values(freeze));
    assert(wire::occurrences(fields, 5) =~= ev);
    assert forall|i: int|
        0 <= i < record.children.len() implies #[trigger] bindings::binding_bytes(
        record.children[i],
    ).len() <= u64::MAX by {
        assert(fields[i] == wire::bytes_field(1, payloads[i]));
        wire::lemma_part_fits(fields, i);
    }
    bindings::lemma_binding_messages(record.children, 1);
    bindings::lemma_bindings_of(record.children);
    laws::lemma_lock_fits(fields, 2, record.directory_lock);
    laws::lemma_embedded_lock(fields, 2, record.directory_lock, 1);
    lock::lemma_arranged(record.topology_participants);
    sorted::lemma_filter_prefix(
        record.topology_participants,
        is_nonempty(),
        record.topology_participants.len() as int,
    );
    assert(record.topology_participants.take(record.topology_participants.len() as int)
        =~= record.topology_participants);
    let message = record_message(fields)->0;
    assert(record_message(fields) is Some);
    assert(tree_node::if_nonempty(message.topology_freeze) == record.topology_freeze);
}

/// The rules by which collection records are read and compare-and-swapped.
#[derive(Debug)]
pub struct CollectionStore;

impl CollectionStore {
    /// Returns the record of an observation with it. A missing record is an
    /// error.
    pub fn load_record(observed: Observation<CollectionRecord>) -> (r: Result<
        (CollectionRecord, Observation<CollectionRecord>),
        StorageError,
    >)
        ensures
            match observed@.value {
                Some(record) => r matches Ok((found, at)) && found@ == record@ && at == observed,
                None => r matches Err(error) && error is NotFound,
            },
    {
        let record = match observed.value() {
            Some(record) => Some((**record).clone()),
            None => None,
        };
        match record {
            Some(record) => Ok((record, observed)),
            None => Err(StorageError::NotFound),
        }
    }

    /// Reports whether a compare-and-swap of a record took effect. A record that
    /// is gone is one that has changed.
    pub fn store_record(result: Result<CasResult<CollectionRecord>, StorageError>) -> (r: Result<
        bool,
        StorageError,
    >)
        ensures
            match result {
                Ok(outcome) => r == Ok::<bool, StorageError>(outcome is Applied),
                Err(error) => if error is NotFound {
                    r == Ok::<bool, StorageError>(false)
                } else {
                    r == Err::<bool, StorageError>(error)
                },
            },
    {
        node_store::stored(result)
    }

    /// Returns the installed observation of a created record, or `None` when
    /// there was one already.
    pub fn create_record_observed(
        result: Result<CasResult<CollectionRecord>, StorageError>,
    ) -> (r: Result<Option<Observation<CollectionRecord>>, StorageError>)
        ensures
            match result {
                Ok(CasResult::Applied(receipt)) => r matches Ok(Some(observed)) && observed@
                    == receipt.state(),
                Ok(CasResult::Rejected) => r matches Ok(None),
                Err(error) => r matches Err(failure) && failure == error,
            },
    {
        node_store::created(result)
    }

    /// Reports whether a record was created.
    pub fn create_record(result: Result<CasResult<CollectionRecord>, StorageError>) -> (r: Result<
        bool,
        StorageError,
    >)
        ensures
            match result {
                Ok(outcome) => r == Ok::<bool, StorageError>(outcome is Applied),
                Err(error) => r == Err::<bool, StorageError>(error),
            },
    {
        match Self::create_record_observed(result) {
            Ok(observed) => Ok(observed.is_some()),
            Err(error) => Err(error),
        }
    }
}

/// Law: a frozen topology is open to the transaction that froze it and to no
/// other; one that is not frozen is open to all.
pub proof fn law_freeze_excludes_others(record: RecordView, id: Seq<u8>)
    ensures
        record.topology_freeze matches Some(holder) ==> (record.open_to(id) <==> holder == id),
        record.topology_freeze is None ==> record.open_to(id),
{
}

/// Law: the content of a record is what lasts: its children and the version of its
/// directory, without locks and without those who change its topology.
pub proof fn law_record_content_is_what_lasts(record: RecordView)
    ensures
        record.content().children == record.children,
        record.content().directory_version == record.directory_version,
        record.content().directory_lock.holders.len() == 0,
        record.content().topology_freeze is None,
        record.content().topology_participants.len() == 0,
{
}

/// Law: what is read is the record that stands there: its children, its lock, its
/// version, who froze it, and everyone who takes part in a change of topology.
pub proof fn law_read_record_is_what_stands_there(message: RecordMessageView, id: Seq<u8>)
    requires
        record_of(message) is Ok,
    ensures
        ({
            let record = record_of(message)->Ok_0;
            &&& bindings::bindings_of(message.children) == Ok::<
                Seq<bindings::BindingView>,
                BindingFault,
            >(record.children)
            &&& record.directory_version == message.directory_version as u64
            &&& record.topology_freeze == if message.topology_freeze.len() == 0 {
                None
            } else {
                Some(message.topology_freeze)
            }
            &&& record.topology_participants.contains(id) <==> id.len() > 0
                && message.topology_participants.contains(id)
            &&& lock::ascending(record.topology_participants)
            &&& record.directory_lock.typ != LockType::Create
            &&& forall|k: Seq<u8>| #[trigger]
                record.directory_lock.holders.contains(k)
                    <==> message.directory_lock.holders.contains(k)
        }),
{
    let some = message.topology_participants.filter(is_nonempty());
    lock::lemma_arranged(some);
    lock::lemma_arranged(message.directory_lock.holders);
    let all = message.topology_participants;
    if some.contains(id) {
        all.lemma_filter_contains_rev(is_nonempty(), id);
        all.lemma_filter_pred(is_nonempty(), some.index_of(id));
    }
    if all.contains(id) && id.len() > 0 {
        all.lemma_filter_contains(is_nonempty(), all.index_of(id));
    }
    let record = record_of(message)->Ok_0;
    assert forall|k: Seq<u8>| #[trigger] record.directory_lock.holders.contains(k)
        <==> message.directory_lock.holders.contains(k) by {
        assert(lock::arranged(message.directory_lock.holders).contains(k)
            <==> message.directory_lock.holders.contains(k));
    }
}

} // verus!
