//! Leaf bodies: the per-key coordination entries of a range of keys.

use vstd::prelude::*;

use crate::bytes;
use crate::error::StorageError;
use crate::ids::TxId;
use crate::lock::{self, EntryLockState, LockType, LockView};
use crate::proto::{self, EntryMessage};
use crate::sorted::{self, Keyed, Stored};
use crate::wire;

verus! {

/// What is known of a key's committed value.
pub enum CurrentView {
    /// No transaction has written the key.
    Unset,
    /// The value stands in the writer's transaction object.
    External {
        /// The transaction that wrote it.
        writer: Seq<u8>,
    },
    /// The value stands in the entry.
    Inline {
        /// The transaction that wrote it.
        writer: Seq<u8>,
        /// The value.
        value: Seq<u8>,
    },
    /// The key was deleted.
    Deleted {
        /// The transaction that deleted it.
        writer: Seq<u8>,
    },
}

/// A leaf entry.
#[verifier::ext_equal]
pub struct EntryView {
    /// The key.
    pub key: Seq<u8>,
    /// The lock on the key.
    pub lock: LockView,
    /// What is known of the committed value.
    pub current: CurrentView,
}

impl Keyed for EntryView {
    open spec fn key(&self) -> Seq<u8> {
        self.key
    }
}

/// What is known of a key's committed value.
#[derive(Debug, PartialEq, Eq)]
pub enum CurrentState {
    /// No transaction has written the key.
    Unset,
    /// The value stands in the writer's transaction object.
    External {
        /// The transaction that wrote it.
        writer: TxId,
    },
    /// The value stands in the entry.
    Inline {
        /// The transaction that wrote it.
        writer: TxId,
        /// The value.
        value: Vec<u8>,
    },
    /// The key was deleted.
    Deleted {
        /// The transaction that deleted it.
        writer: TxId,
    },
}

impl View for CurrentState {
    type V = CurrentView;

    open spec fn view(&self) -> CurrentView {
        match self {
            CurrentState::Unset => CurrentView::Unset,
            CurrentState::External { writer } => CurrentView::External { writer: writer@ },
            CurrentState::Inline { writer, value } => CurrentView::Inline {
                writer: writer@,
                value: value@,
            },
            CurrentState::Deleted { writer } => CurrentView::Deleted { writer: writer@ },
        }
    }
}

impl Clone for CurrentState {
    fn clone(&self) -> (r: Self)
        ensures
            r@ == self@,
    {
        match self {
            CurrentState::Unset => CurrentState::Unset,
            CurrentState::External { writer } => CurrentState::External { writer: writer.clone() },
            CurrentState::Inline { writer, value } => CurrentState::Inline {
                writer: writer.clone(),
                value: bytes::copy(value.as_slice()),
            },
            CurrentState::Deleted { writer } => CurrentState::Deleted { writer: writer.clone() },
        }
    }
}

/// The size of an inline value; zero for every other state.
pub open spec fn inline_size(current: CurrentView) -> nat {
    match current {
        CurrentView::Inline { writer, value } => value.len(),
        _ => 0,
    }
}

/// The key has a value.
pub open spec fn present(current: CurrentView) -> bool {
    current is External || current is Inline
}

impl CurrentState {
    /// Returns the size of the inline value; zero for every other state.
    pub fn inline_len(&self) -> (r: usize)
        ensures
            r == inline_size(self@),
    {
        match self {
            CurrentState::Inline { writer: _, value } => value.len(),
            _ => 0,
        }
    }

    /// Reports whether the key has a value.
    pub fn is_present(&self) -> (r: bool)
        ensures
            r == present(self@),
    {
        match self {
            CurrentState::External { writer: _ } => true,
            CurrentState::Inline { writer: _, value: _ } => true,
            _ => false,
        }
    }
}

/// A leaf entry: a key with its lock and what is known of its value.
#[derive(Debug, PartialEq, Eq)]
pub struct LeafEntry {
    /// The key.
    pub key: Vec<u8>,
    /// The lock on the key.
    pub lock: EntryLockState,
    /// What is known of the committed value.
    pub current: CurrentState,
}

impl View for LeafEntry {
    type V = EntryView;

    open spec fn view(&self) -> EntryView {
        EntryView { key: self.key@, lock: self.lock@, current: self.current@ }
    }
}

impl Clone for LeafEntry {
    fn clone(&self) -> (r: Self)
        ensures
            r@ == self@,
    {
        LeafEntry {
            key: bytes::copy(self.key.as_slice()),
            lock: self.lock.clone(),
            current: self.current.clone(),
        }
    }
}

impl Keyed for LeafEntry {
    open spec fn key(&self) -> Seq<u8> {
        self.key@
    }
}

impl Stored for LeafEntry {
    type Model = EntryView;

    open spec fn model(&self) -> EntryView {
        self@
    }

    proof fn lemma_model(&self) {
        let model = self.model();
        assert(model.key() == model.key);
        assert(model.key == self.key@);
    }

    fn key_bytes(&self) -> (r: &[u8]) {
        self.key.as_slice()
    }
}

/// The number under which a lock's type is persisted.
pub open spec fn lock_number(lock: LockView) -> nat {
    lock::lock_type_number(lock.typ) as nat
}

/// Returns the number under which a lock's type is persisted.
pub(crate) fn persisted_number(typ: LockType) -> (r: u64)
    ensures
        forall|lock: LockView| lock.typ == typ ==> r == #[trigger] lock_number(lock),
{
    lock::lock_type_to_proto(typ) as u64
}

/// The fields of a persisted current state.
pub open spec fn current_fields(current: CurrentView) -> Seq<wire::FieldView> {
    match current {
        CurrentView::Unset => Seq::empty(),
        CurrentView::External { writer } => wire::nonempty(1, writer) + wire::nonzero(2, 1),
        CurrentView::Inline { writer, value } => wire::nonempty(1, writer) + wire::nonzero(2, 2)
            + wire::nonempty(3, value),
        CurrentView::Deleted { writer } => wire::nonempty(1, writer) + wire::nonzero(2, 3),
    }
}

/// The field of a current state in its entry, left out for an unset one.
pub open spec fn current_part(current: CurrentView) -> Seq<wire::FieldView> {
    if current is Unset {
        Seq::empty()
    } else {
        seq![wire::bytes_field(4, wire::message_bytes(current_fields(current)))]
    }
}

/// The fields of a persisted leaf entry.
pub open spec fn entry_fields(entry: EntryView) -> Seq<wire::FieldView> {
    wire::nonempty(1, entry.key) + (wire::nonzero(2, lock_number(entry.lock)) + (wire::repeated(
        3,
        entry.lock.holders,
    ) + current_part(entry.current)))
}

/// The bytes of a persisted leaf entry.
pub open spec fn entry_bytes(entry: EntryView) -> Seq<u8> {
    wire::message_bytes(entry_fields(entry))
}

/// The fields of a persisted leaf.
pub open spec fn leaf_fields(entries: Seq<EntryView>) -> Seq<wire::FieldView> {
    wire::repeated(1, entries.map_values(|e: EntryView| entry_bytes(e)))
}

/// The bytes of a persisted leaf.
pub open spec fn leaf_bytes(entries: Seq<EntryView>) -> Seq<u8> {
    wire::message_bytes(leaf_fields(entries))
}

/// What is known of a key's value, as read back from a persisted state.
pub open spec fn current_of(message: Option<proto::CurrentMessageView>) -> Option<CurrentView> {
    match message {
        None => Some(CurrentView::Unset),
        Some(m) => if m.kind == 1 {
            Some(CurrentView::External { writer: m.writer })
        } else if m.kind == 2 {
            Some(CurrentView::Inline { writer: m.writer, value: m.value })
        } else if m.kind == 3 {
            Some(CurrentView::Deleted { writer: m.writer })
        } else {
            None
        },
    }
}

/// The entry that a persisted one stands for, or what is wrong with it.
pub open spec fn entry_of(message: proto::EntryMessageView) -> Result<EntryView, Seq<char>> {
    match lock::lock_of(message.lock.number, message.lock.holders) {
        None => Err("leaf entry has an invalid lock"@),
        Some(lock) => match current_of(message.current) {
            None => Err("leaf entry has an invalid current state"@),
            Some(current) => Ok(EntryView { key: message.key, lock, current }),
        },
    }
}

/// The leaf that persisted entries stand for, or what is wrong with the first
/// bad one. Of entries with the same key the last one counts.
pub open spec fn leaf_of(messages: Seq<proto::EntryMessageView>) -> Result<
    Seq<EntryView>,
    Seq<char>,
>
    decreases messages.len(),
{
    if messages.len() == 0 {
        Ok(Seq::empty())
    } else {
        match leaf_of(messages.drop_last()) {
            Err(text) => Err(text),
            Ok(entries) => match entry_of(messages.last()) {
                Err(text) => Err(text),
                Ok(entry) => Ok(sorted::put(entries, entry)),
            },
        }
    }
}

/// Every entry's lock is one that an entry can have.
pub open spec fn locks_valid(entries: Seq<EntryView>) -> bool {
    forall|i: int| 0 <= i < entries.len() ==> (#[trigger] entries[i]).lock.valid()
}

impl LeafEntry {
    /// The lock is one that an entry can have.
    pub open spec fn wf(&self) -> bool {
        self@.lock.valid()
    }

    /// Creates an unlocked entry of a key that nothing was written to.
    pub fn new(key: &[u8]) -> (r: Self)
        ensures
            r.wf(),
            r@ == (EntryView {
                key: key@,
                lock: LockView::unlocked(),
                current: CurrentView::Unset,
            }),
    {
        LeafEntry {
            key: bytes::copy(key),
            lock: EntryLockState::default(),
            current: CurrentState::Unset,
        }
    }

    /// Returns the entry with the given current state.
    pub fn with_current(self, current: CurrentState) -> (r: Self)
        ensures
            r@ == (EntryView { current: current@, ..self@ }),
            self.wf() ==> r.wf(),
    {
        LeafEntry { key: self.key, lock: self.lock, current }
    }

    /// Replaces all lock holders with one exclusive writer.
    pub fn replace_write_lock(&mut self, id: TxId)
        ensures
            final(self).wf(),
            final(self)@ == (EntryView {
                lock: LockView::exclusive(LockType::Write, id@),
                ..old(self)@
            }),
    {
        self.lock.replace_write(id);
    }

    /// Encodes the entry.
    pub fn encode(&self) -> (r: Vec<u8>)
        ensures
            r@ == entry_bytes(self@),
    {
        let mut buf: Vec<u8> = Vec::new();
        wire::put_nonempty(&mut buf, 1, self.key.as_slice());
        wire::put_nonzero(&mut buf, 2, persisted_number(self.lock.lock_type()));
        put_ids(&mut buf, 3, self.lock.holders());
        let current = encode_current(&self.current);
        let present: bool = match &self.current {
            CurrentState::Unset => false,
            _ => true,
        };
        proof {
            wire::lemma_single(wire::bytes_field(4, current@));
        }
        if present {
            wire::put_bytes(&mut buf, 4, current.as_slice());
        }
        proof {
            let a = wire::nonempty(1, self@.key);
            let b = wire::nonzero(2, lock_number(self@.lock));
            let c = wire::repeated(3, self@.lock.holders);
            let d = current_part(self@.current);
            wire::lemma_message_concat(a, b + (c + d));
            wire::lemma_message_concat(b, c + d);
            wire::lemma_message_concat(c, d);
            assert(buf@ =~= entry_bytes(self@));
        }
        buf
    }

    /// Returns the encoded size.
    pub fn encoded_len(&self) -> (r: usize)
        ensures
            r == entry_bytes(self@).len(),
    {
        self.encode().len()
    }
}

/// Appends a repeated field of transaction identifiers.
pub(crate) fn put_ids(buf: &mut Vec<u8>, tag: u32, ids: &Vec<TxId>)
    requires
        tag < 0x2000_0000,
    ensures
        final(buf)@ == old(buf)@ + wire::message_bytes(
            wire::repeated(tag as nat, crate::ids::tx_views(ids@)),
        ),
{
    let ghost was = buf@;
    let ghost all = wire::repeated(tag as nat, crate::ids::tx_views(ids@));
    let mut i: usize = 0;
    proof {
        assert(all.take(0) =~= Seq::<wire::FieldView>::empty());
        assert(was + wire::message_bytes(all.take(0)) =~= was);
    }
    while i < ids.len()
        invariant
            i <= ids@.len(),
            tag < 0x2000_0000,
            all == wire::repeated(tag as nat, crate::ids::tx_views(ids@)),
            buf@ == was + wire::message_bytes(all.take(i as int)),
        decreases ids@.len() - i,
    {
        wire::put_bytes(buf, tag, ids[i].as_bytes());
        proof {
            let now = all.take(i + 1);
            assert(now.drop_last() =~= all.take(i as int));
            assert(now.last() == wire::bytes_field(tag as nat, ids@[i as int]@));
            assert(buf@ =~= was + wire::message_bytes(now));
        }
        i = i + 1;
    }
    proof {
        assert(all.take(i as int) =~= all);
    }
}

/// Encodes a current state.
fn encode_current(current: &CurrentState) -> (r: Vec<u8>)
    ensures
        r@ == wire::message_bytes(current_fields(current@)),
{
    let mut buf: Vec<u8> = Vec::new();
    match current {
        CurrentState::Unset => {
            proof {
                wire::lemma_single(wire::bytes_field(1, Seq::empty()));
            }
        },
        CurrentState::External { writer } => {
            wire::put_nonempty(&mut buf, 1, writer.as_bytes());
            wire::put_nonzero(&mut buf, 2, 1);
            proof {
                wire::lemma_message_concat(wire::nonempty(1, writer@), wire::nonzero(2, 1));
            }
        },
        CurrentState::Inline { writer, value } => {
            wire::put_nonempty(&mut buf, 1, writer.as_bytes());
            wire::put_nonzero(&mut buf, 2, 2);
            wire::put_nonempty(&mut buf, 3, value.as_slice());
            proof {
                let a = wire::nonempty(1, writer@);
                let b = wire::nonzero(2, 2);
                wire::lemma_message_concat(a, b);
                wire::lemma_message_concat(a + b, wire::nonempty(3, value@));
            }
        },
        CurrentState::Deleted { writer } => {
            wire::put_nonempty(&mut buf, 1, writer.as_bytes());
            wire::put_nonzero(&mut buf, 2, 3);
            proof {
                wire::lemma_message_concat(wire::nonempty(1, writer@), wire::nonzero(2, 3));
            }
        },
    }
    proof {
        assert(buf@ =~= wire::message_bytes(current_fields(current@)));
    }
    buf
}

/// The size of an entry with a key of `key_len` bytes, one exclusive holder
/// and an external value, both transactions named by 16 bytes.
pub open spec fn worst_case_entry_size(key_len: nat) -> nat {
    (if key_len == 0 {
        0
    } else {
        wire::field_size(1, key_len)
    }) + 2 + wire::field_size(3, 16) + wire::field_size(4, wire::field_size(1, 16) + 2)
}

/// The parts of the size that do not depend on the key.
pub proof fn lemma_worst_case_parts()
    ensures
        wire::field_size(1, 16) == 18,
        wire::field_size(3, 16) == 18,
        wire::field_size(4, 20) == 22,
        wire::varint(16).len() == 1,
{
    assert(wire::varint(16).len() == 1);
    assert(wire::varint(20).len() == 1);
    assert(wire::varint(1nat * 8 + 2).len() == 1);
    assert(wire::varint(3nat * 8 + 2).len() == 1);
    assert(wire::varint(4nat * 8 + 2).len() == 1);
}

/// The worst case is the size of a real entry: one with an exclusive holder
/// and an external value, both transactions named by 16 bytes.
pub proof fn law_worst_case_entry(key: Seq<u8>, holder: Seq<u8>, writer: Seq<u8>, typ: LockType)
    requires
        holder.len() == 16,
        writer.len() == 16,
        typ == LockType::Write || typ == LockType::Create,
    ensures
        entry_bytes(
            EntryView {
                key,
                lock: LockView::exclusive(typ, holder),
                current: CurrentView::External { writer },
            },
        ).len() == worst_case_entry_size(key.len()),
{
    let current = CurrentView::External { writer };
    let lock = LockView::exclusive(typ, holder);
    let entry = EntryView { key, lock, current };
    lemma_worst_case_parts();
    let a = wire::nonempty(1, key);
    let b = wire::nonzero(2, lock_number(lock));
    let c = wire::repeated(3, lock.holders);
    let d = current_part(current);
    wire::lemma_message_concat(a, b + (c + d));
    wire::lemma_message_concat(b, c + d);
    wire::lemma_message_concat(c, d);
    wire::lemma_single(wire::bytes_field(1, key));
    wire::lemma_field_size(1, key);
    let n = lock_number(lock);
    wire::lemma_single(wire::number_field(2, n));
    assert(wire::varint(16).len() == 1);
    assert(wire::varint(n).len() == 1);
    assert(wire::field_bytes(wire::number_field(2, n)).len() == 2);
    assert(c =~= seq![wire::bytes_field(3, holder)]);
    wire::lemma_single(wire::bytes_field(3, holder));
    wire::lemma_field_size(3, holder);
    let p = wire::nonempty(1, writer);
    let q = wire::nonzero(2, 1);
    wire::lemma_message_concat(p, q);
    wire::lemma_single(wire::bytes_field(1, writer));
    wire::lemma_field_size(1, writer);
    wire::lemma_single(wire::number_field(2, 1));
    assert(wire::varint(1).len() == 1);
    assert(wire::field_bytes(wire::number_field(2, 1)).len() == 2);
    let inner = wire::message_bytes(current_fields(current));
    assert(inner.len() == 20);
    wire::lemma_single(wire::bytes_field(4, inner));
    wire::lemma_field_size(4, inner);
}

impl LeafEntry {
    /// Returns the encoded size of an entry with a key of `key_len` bytes and
    /// the largest coordination state: one exclusive holder and an external
    /// value.
    pub fn worst_case_encoded_len(key_len: usize) -> (r: usize)
        requires
            worst_case_entry_size(key_len as nat) <= usize::MAX,
        ensures
            r == worst_case_entry_size(key_len as nat),
    {
        proof {
            lemma_worst_case_parts();
            wire::lemma_field_size_bounds(1, key_len as nat);
            if key_len == 0 {
                assert(wire::varint(0).len() == 1);
            }
        }
        let key: usize = wire::nonempty_length_delimited_field(1, key_len);
        let holder: usize = wire::length_delimited_field(3, 16);
        let writer: usize = wire::length_delimited_field(1, 16);
        let current: usize = wire::length_delimited_field(4, writer + 2);
        key + 2 + holder + current
    }
}

/// The entries of a leaf, sorted by key.
#[derive(Debug, PartialEq, Eq)]
pub struct LeafBody {
    entries: Vec<LeafEntry>,
}

impl View for LeafBody {
    type V = Seq<EntryView>;

    closed spec fn view(&self) -> Seq<EntryView> {
        sorted::models(self.entries@)
    }
}

impl Clone for LeafBody {
    fn clone(&self) -> (r: Self)
        ensures
            r@ == self@,
            self.wf() ==> r.wf(),
    {
        let entries = copy_entries(&self.entries, 0, self.entries.len());
        proof {
            assert(self.entries@.subrange(0, self.entries@.len() as int) =~= self.entries@);
        }
        LeafBody { entries }
    }
}

/// Copies a range of entries.
fn copy_entries(entries: &Vec<LeafEntry>, from: usize, to: usize) -> (r: Vec<LeafEntry>)
    requires
        from <= to <= entries@.len(),
    ensures
        sorted::models(r@) == sorted::models(entries@.subrange(from as int, to as int)),
        r@.len() == to - from,
{
    let mut out: Vec<LeafEntry> = Vec::new();
    let mut i: usize = from;
    while i < to
        invariant
            from <= i <= to <= entries@.len(),
            out@.len() == i - from,
            forall|k: int| 0 <= k < out@.len() ==> (#[trigger] out@[k])@ == entries@[from + k]@,
        decreases to - i,
    {
        out.push(entries[i].clone());
        i = i + 1;
    }
    proof {
        assert(sorted::models(out@) =~= sorted::models(
            entries@.subrange(from as int, to as int),
        ));
    }
    out
}

/// Copies entries.
pub(crate) fn copy_all(entries: &Vec<LeafEntry>) -> (r: Vec<LeafEntry>)
    ensures
        sorted::models(r@) == sorted::models(entries@),
{
    proof {
        assert(entries@.subrange(0, entries@.len() as int) =~= entries@);
    }
    copy_entries(entries, 0, entries.len())
}

impl LeafBody {
    /// Keys increase strictly and every entry's lock is one that it can have.
    pub open spec fn wf(&self) -> bool {
        sorted::sorted(self@) && locks_valid(self@)
    }

    /// Creates an empty leaf.
    pub fn new() -> (r: Self)
        ensures
            r.wf(),
            r@ == Seq::<EntryView>::empty(),
    {
        let r = LeafBody { entries: Vec::new() };
        proof {
            assert(r@ =~= Seq::<EntryView>::empty());
        }
        r
    }

    /// Builds a leaf from entries in any order. Of entries with the same key
    /// the last one counts.
    pub fn from_entries(entries: Vec<LeafEntry>) -> (r: Self)
        requires
            locks_valid(sorted::models(entries@)),
        ensures
            r.wf(),
            r@ == sorted::put_all(Seq::empty(), sorted::models(entries@)),
    {
        let mut leaf = LeafBody::new();
        let mut i: usize = 0;
        let ghost all = sorted::models(entries@);
        proof {
            assert(all.take(0) =~= Seq::<EntryView>::empty());
            sorted::lemma_put_all_step(Seq::empty(), all.take(0));
        }
        while i < entries.len()
            invariant
                i <= entries@.len(),
                all == sorted::models(entries@),
                locks_valid(all),
                leaf.wf(),
                leaf@ == sorted::put_all(Seq::empty(), all.take(i as int)),
            decreases entries@.len() - i,
        {
            proof {
                sorted::lemma_put_all_step(Seq::empty(), all.take(i + 1));
                assert(all.take(i + 1).drop_last() =~= all.take(i as int));
                assert(all.take(i + 1).last() == entries@[i as int]@);
                assert(all[i as int].lock.valid());
            }
            leaf.insert(entries[i].clone());
            i = i + 1;
        }
        proof {
            assert(all.take(i as int) =~= all);
        }
        leaf
    }

    /// Puts an entry in its place; an entry with the same key leaves.
    pub fn insert(&mut self, entry: LeafEntry)
        requires
            old(self).wf(),
            entry.wf(),
        ensures
            final(self).wf(),
            final(self)@ == sorted::put(old(self)@, entry@),
    {
        proof {
            sorted::lemma_models(self.entries@);
            lemma_put_locks(self@, entry@);
        }
        sorted::insert(&mut self.entries, entry);
    }

    /// Removes the entry of a key and reports whether there was one.
    pub fn remove(&mut self, key: &[u8]) -> (r: bool)
        requires
            old(self).wf(),
        ensures
            final(self).wf(),
            final(self)@ == sorted::drop(old(self)@, key@),
            r == sorted::holds_key(old(self)@, key@),
    {
        proof {
            sorted::lemma_models(self.entries@);
            sorted::lemma_models_drop(self.entries@, key@);
            lemma_drop_locks(self@, key@);
        }
        sorted::remove(&mut self.entries, key).is_some()
    }

    /// Returns the entries in key order.
    pub fn entries(&self) -> (r: &Vec<LeafEntry>)
        ensures
            sorted::models(r@) == self@,
            r@.len() == self@.len(),
    {
        &self.entries
    }

    /// Returns the number of entries.
    pub fn len(&self) -> (r: usize)
        ensures
            r == self@.len(),
    {
        self.entries.len()
    }

    /// Reports whether there are no entries.
    pub fn is_empty(&self) -> (r: bool)
        ensures
            r == (self@.len() == 0),
    {
        self.entries.len() == 0
    }

    /// Returns the entry of a key.
    pub fn lookup(&self, key: &[u8]) -> (r: Option<&LeafEntry>)
        requires
            self.wf(),
        ensures
            match sorted::get(self@, key@) {
                Some(entry) => r matches Some(found) && found@ == entry,
                None => r is None,
            },
    {
        proof {
            sorted::lemma_models(self.entries@);
        }
        match sorted::locate(&self.entries, key) {
            Ok(i) => {
                proof {
                    sorted::lemma_models_place(self.entries@, key@, i as int, i + 1);
                    sorted::lemma_stands_at(self@, key@, i as int, i + 1);
                }
                Some(&self.entries[i])
            },
            Err(i) => {
                proof {
                    sorted::lemma_models_place(self.entries@, key@, i as int, i as int);
                    sorted::lemma_stands_at(self@, key@, i as int, i as int);
                }
                None
            },
        }
    }

    /// Reports whether a key has a value.
    pub fn holds_value(&self, key: &[u8]) -> (r: bool)
        requires
            self.wf(),
        ensures
            r == (sorted::get(self@, key@) matches Some(entry) && present(entry.current)),
    {
        match self.lookup(key) {
            Some(entry) => entry.current.is_present(),
            None => false,
        }
    }

    /// Splits the leaf at its median entry: keeps the lower entries and returns
    /// the upper ones with the first of their keys.
    pub fn split_off_median(&mut self) -> (r: (LeafBody, Vec<u8>))
        requires
            old(self).wf(),
            old(self)@.len() >= 2,
        ensures
            final(self).wf(),
            r.0.wf(),
            final(self)@ == old(self)@.take(old(self)@.len() as int / 2),
            r.0@ == old(self)@.skip(old(self)@.len() as int / 2),
            r.1@ == old(self)@[old(self)@.len() as int / 2].key,
    {
        let n: usize = self.entries.len();
        let mid: usize = n / 2;
        let key = bytes::copy(self.entries[mid].key.as_slice());
        let ghost all = self.entries@;
        let upper = copy_entries(&self.entries, mid, n);
        self.entries.truncate(mid);
        let r = LeafBody { entries: upper };
        proof {
            assert(self@ =~= sorted::models(all).take(mid as int));
            assert(r@ =~= sorted::models(all).skip(mid as int)) by {
                assert(sorted::models(all.subrange(mid as int, n as int)) =~= sorted::models(
                    all,
                ).skip(mid as int));
            }
            lemma_halves(sorted::models(all), mid as int);
            assert(sorted::models(all)[mid as int] == all[mid as int]@);
        }
        (r, key)
    }

    /// Keeps the entries with keys from `boundary` on.
    pub fn retain_from(&mut self, boundary: &[u8])
        requires
            old(self).wf(),
        ensures
            final(self).wf(),
            final(self)@ == old(self)@.filter(sorted::from_on(boundary@)),
    {
        proof {
            sorted::lemma_models(self.entries@);
        }
        let n: usize = self.entries.len();
        let place: usize = match sorted::locate(&self.entries, boundary) {
            Ok(i) => {
                proof {
                    sorted::lemma_models_place(self.entries@, boundary@, i as int, i + 1);
                    sorted::lemma_stands_at(self@, boundary@, i as int, i + 1);
                }
                i
            },
            Err(i) => {
                proof {
                    sorted::lemma_models_place(self.entries@, boundary@, i as int, i as int);
                    sorted::lemma_stands_at(self@, boundary@, i as int, i as int);
                }
                i
            },
        };
        let ghost all = self.entries@;
        self.entries = copy_entries(&self.entries, place, n);
        proof {
            assert(sorted::models(all.subrange(place as int, n as int)) =~= sorted::models(
                all,
            ).skip(place as int));
            lemma_halves(sorted::models(all), place as int);
        }
    }

    /// Encodes the leaf.
    pub fn encode(&self) -> (r: Vec<u8>)
        ensures
            r@ == leaf_bytes(self@),
    {
        let mut buf: Vec<u8> = Vec::new();
        let ghost all = leaf_fields(self@);
        let mut i: usize = 0;
        proof {
            assert(all.take(0) =~= Seq::<wire::FieldView>::empty());
        }
        while i < self.entries.len()
            invariant
                i <= self.entries@.len(),
                all == leaf_fields(self@),
                buf@ == wire::message_bytes(all.take(i as int)),
            decreases self.entries@.len() - i,
        {
            let entry = self.entries[i].encode();
            wire::put_bytes(&mut buf, 1, entry.as_slice());
            proof {
                let now = all.take(i + 1);
                assert(now.drop_last() =~= all.take(i as int));
                assert(now.last() == wire::bytes_field(1, entry@));
            }
            i = i + 1;
        }
        proof {
            assert(all.take(i as int) =~= all);
        }
        buf
    }

    /// Builds a leaf from persisted entries.
    pub fn from_messages(messages: &Vec<EntryMessage>) -> (r: Result<Self, StorageError>)
        ensures
            match leaf_of(proto::entry_message_views(messages@)) {
                Ok(entries) => r matches Ok(leaf) && leaf@ == entries && leaf.wf(),
                Err(text) => r matches Err(error) && error.says(text),
            },
    {
        let mut leaf = LeafBody::new();
        let mut i: usize = 0;
        let ghost all = proto::entry_message_views(messages@);
        proof {
            assert(all.take(0) =~= Seq::<proto::EntryMessageView>::empty());
        }
        while i < messages.len()
            invariant
                i <= messages@.len(),
                all == proto::entry_message_views(messages@),
                leaf.wf(),
                leaf_of(all.take(i as int)) == Ok::<Seq<EntryView>, Seq<char>>(leaf@),
            decreases messages@.len() - i,
        {
            proof {
                assert(all.take(i + 1).drop_last() =~= all.take(i as int));
                assert(all.take(i + 1).last() == messages@[i as int]@);
            }
            match entry_from_message(&messages[i]) {
                Err(error) => {
                    proof {
                        lemma_leaf_fails(all, i + 1);
                    }
                    return Err(error);
                },
                Ok(entry) => {
                    leaf.insert(entry);
                },
            }
            i = i + 1;
        }
        proof {
            assert(all.take(i as int) =~= all);
        }
        Ok(leaf)
    }
}

/// The first bad entry decides.
proof fn lemma_leaf_fails(messages: Seq<proto::EntryMessageView>, n: int)
    requires
        0 <= n <= messages.len(),
        leaf_of(messages.take(n)) is Err,
    ensures
        leaf_of(messages) == leaf_of(messages.take(n)),
    decreases messages.len(),
{
    if n == messages.len() {
        assert(messages.take(n) =~= messages);
    } else {
        assert(messages.drop_last().take(n) =~= messages.take(n));
        lemma_leaf_fails(messages.drop_last(), n);
    }
}

/// Builds an entry from a persisted one.
fn entry_from_message(message: &EntryMessage) -> (r: Result<LeafEntry, StorageError>)
    ensures
        match entry_of(message@) {
            Ok(entry) => r matches Ok(found) && found@ == entry && found.wf(),
            Err(text) => r matches Err(error) && error.says(text),
        },
{
    let lock = match EntryLockState::from_wire(
        message.lock.number,
        copy_list(&message.lock.holders),
    ) {
        Err(_) => {
            return Err(StorageError::other("leaf entry has an invalid lock"));
        },
        Ok(lock) => lock,
    };
    let current = match &message.current {
        None => CurrentState::Unset,
        Some(current) => {
            let writer = TxId::from_bytes(bytes::copy(current.writer.as_slice()));
            if current.kind == 1 {
                CurrentState::External { writer }
            } else if current.kind == 2 {
                CurrentState::Inline { writer, value: bytes::copy(current.value.as_slice()) }
            } else if current.kind == 3 {
                CurrentState::Deleted { writer }
            } else {
                return Err(StorageError::other("leaf entry has an invalid current state"));
            }
        },
    };
    Ok(LeafEntry { key: bytes::copy(message.key.as_slice()), lock, current })
}

/// Copies a list of byte strings.
pub(crate) fn copy_list(list: &Vec<Vec<u8>>) -> (r: Vec<Vec<u8>>)
    ensures
        bytes::views(r@) == bytes::views(list@),
{
    let mut out: Vec<Vec<u8>> = Vec::new();
    let mut i: usize = 0;
    while i < list.len()
        invariant
            i <= list@.len(),
            out@.len() == i,
            forall|k: int| 0 <= k < i ==> (#[trigger] out@[k])@ == list@[k]@,
        decreases list@.len() - i,
    {
        out.push(bytes::copy(list[i].as_slice()));
        i = i + 1;
    }
    proof {
        assert(bytes::views(out@) =~= bytes::views(list@));
    }
    out
}

/// Putting an entry keeps the locks valid.
proof fn lemma_put_locks(entries: Seq<EntryView>, entry: EntryView)
    requires
        sorted::sorted(entries),
        locks_valid(entries),
        entry.lock.valid(),
    ensures
        locks_valid(sorted::put(entries, entry)),
{
    let (i, j) = sorted::lemma_place(entries, entry.key);
    sorted::lemma_stands_at(entries, entry.key, i, j);
    let r = sorted::put(entries, entry);
    assert forall|k: int| 0 <= k < r.len() implies (#[trigger] r[k]).lock.valid() by {
        if k < i {
            assert(r[k] == entries[k]);
        } else if k > i {
            assert(r[k] == entries[k - 1 - i + j]);
        }
    }
}

/// Dropping an entry keeps the locks valid.
proof fn lemma_drop_locks(entries: Seq<EntryView>, key: Seq<u8>)
    requires
        sorted::sorted(entries),
        locks_valid(entries),
    ensures
        locks_valid(sorted::drop(entries, key)),
{
    let (i, j) = sorted::lemma_place(entries, key);
    sorted::lemma_stands_at(entries, key, i, j);
    let r = sorted::drop(entries, key);
    assert forall|k: int| 0 <= k < r.len() implies (#[trigger] r[k]).lock.valid() by {
        if k < i {
            assert(r[k] == entries[k]);
        } else {
            assert(r[k] == entries[k - i + j]);
        }
    }
}

/// Both parts of a valid leaf are valid.
proof fn lemma_halves(entries: Seq<EntryView>, mid: int)
    requires
        sorted::sorted(entries),
        locks_valid(entries),
        0 <= mid <= entries.len(),
    ensures
        sorted::sorted(entries.take(mid)),
        sorted::sorted(entries.skip(mid)),
        locks_valid(entries.take(mid)),
        locks_valid(entries.skip(mid)),
{
    let a = entries.take(mid);
    let b = entries.skip(mid);
    assert(forall|k: int| 0 <= k < a.len() ==> a[k] == entries[k]);
    assert(forall|k: int| 0 <= k < b.len() ==> b[k] == entries[k + mid]);
    assert forall|i: int, j: int| 0 <= i < j < b.len() implies bytes::lt(
        b[i].key(),
        b[j].key(),
    ) by {
        assert(bytes::lt(entries[i + mid].key(), entries[j + mid].key()));
    }
}

/// A current state as persisted.
pub open spec fn current_to_message(current: CurrentView) -> Option<proto::CurrentMessageView> {
    match current {
        CurrentView::Unset => None,
        CurrentView::External { writer } => Some(
            proto::CurrentMessageView { writer, kind: 1, value: Seq::empty() },
        ),
        CurrentView::Inline { writer, value } => Some(
            proto::CurrentMessageView { writer, kind: 2, value },
        ),
        CurrentView::Deleted { writer } => Some(
            proto::CurrentMessageView { writer, kind: 3, value: Seq::empty() },
        ),
    }
}

/// An entry as persisted.
pub open spec fn entry_to_message(entry: EntryView) -> proto::EntryMessageView {
    proto::EntryMessageView {
        key: entry.key,
        lock: proto::LockMessageView {
            number: lock_number(entry.lock) as i32,
            holders: entry.lock.holders,
        },
        current: current_to_message(entry.current),
    }
}

/// A current state reads back.
proof fn lemma_current_message(current: CurrentView)
    requires
        !(current is Unset),
    ensures
        proto::current_message(current_fields(current)) == current_to_message(current),
        wire::all_writable(current_fields(current)),
{
    let fields = current_fields(current);
    let (writer, kind, value): (Seq<u8>, nat, Seq<u8>) = match current {
        CurrentView::External { writer } => (writer, 1, Seq::empty()),
        CurrentView::Inline { writer, value } => (writer, 2, value),
        CurrentView::Deleted { writer } => (writer, 3, Seq::empty()),
        CurrentView::Unset => (Seq::empty(), 0, Seq::empty()),
    };
    let a = wire::nonempty(1, writer);
    let b = wire::nonzero(2, kind);
    let c = wire::nonempty(3, value);
    assert(fields =~= a + (b + c));
    wire::lemma_nonempty(1, writer);
    wire::lemma_nonzero(2, kind);
    wire::lemma_nonempty(3, value);
    wire::lemma_writable_concat(b, c);
    wire::lemma_writable_concat(a, b + c);
    wire::lemma_in_front(a, 1, wire::bytes_values(writer), b + c);
    wire::lemma_in_front(b, 2, wire::number_values(kind), c);
    wire::lemma_carries(c, 3, wire::bytes_values(value), 1);
    wire::lemma_carries(c, 3, wire::bytes_values(value), 2);
    wire::lemma_carries(c, 3, wire::bytes_values(value), 3);
    assert(wire::occurrences(fields, 1) =~= wire::bytes_values(writer));
    assert(wire::occurrences(fields, 2) =~= wire::number_values(kind));
    assert(wire::occurrences(fields, 3) =~= wire::bytes_values(value));
}

/// An entry reads back.
pub proof fn lemma_entry_message(entry: EntryView, depth: nat)
    requires
        entry_bytes(entry).len() <= u64::MAX,
    ensures
        wire::parse_fields(entry_bytes(entry), depth) == Some(entry_fields(entry)),
        proto::entry_message(entry_fields(entry), depth) == Some(entry_to_message(entry)),
{
    let fields = entry_fields(entry);
    let n = lock_number(entry.lock);
    let a = wire::nonempty(1, entry.key);
    let b = wire::nonzero(2, n);
    let c = wire::repeated(3, entry.lock.holders);
    let d = current_part(entry.current);
    let payload = wire::message_bytes(current_fields(entry.current));
    let dv = if entry.current is Unset {
        Seq::empty()
    } else {
        seq![wire::ValueView::Bytes(payload)]
    };
    assert(wire::carries(d, 4, dv));
    wire::lemma_nonempty(1, entry.key);
    wire::lemma_nonzero(2, n);
    wire::lemma_repeated(3, entry.lock.holders);
    wire::lemma_writable_concat(c, d);
    wire::lemma_writable_concat(b, c + d);
    wire::lemma_writable_concat(a, b + (c + d));
    wire::law_written_message_is_read(fields, depth);
    wire::lemma_in_front(a, 1, wire::bytes_values(entry.key), b + (c + d));
    wire::lemma_in_front(b, 2, wire::number_values(n), c + d);
    wire::lemma_in_front(c, 3, wire::list_values(entry.lock.holders), d);
    wire::lemma_carries(d, 4, dv, 1);
    wire::lemma_carries(d, 4, dv, 2);
    wire::lemma_carries(d, 4, dv, 3);
    wire::lemma_carries(d, 4, dv, 4);
    assert(wire::occurrences(fields, 1) =~= wire::bytes_values(entry.key));
    assert(wire::occurrences(fields, 2) =~= wire::number_values(n));
    assert(wire::occurrences(fields, 3) =~= wire::list_values(entry.lock.holders));
    assert(wire::occurrences(fields, 4) =~= dv);
    if entry.current is Unset {
        wire::lemma_embedded_absent(fields, 4, depth + 1);
        assert(proto::current_message(Seq::empty()) is Some) by {
            assert(wire::occurrences(Seq::empty(), 1).len() == 0);
            assert(wire::occurrences(Seq::empty(), 2).len() == 0);
            assert(wire::occurrences(Seq::empty(), 3).len() == 0);
        }
    } else {
        lemma_current_message(entry.current);
        let last = fields.len() - 1;
        assert(fields[last] == wire::bytes_field(4, payload));
        wire::lemma_part_fits(fields, last);
        wire::lemma_embedded_once(fields, 4, current_fields(entry.current), depth + 1);
    }
}

/// What an entry is persisted as stands for the entry.
pub proof fn lemma_entry_of(entry: EntryView)
    requires
        entry.lock.valid(),
    ensures
        entry_of(entry_to_message(entry)) == Ok::<EntryView, Seq<char>>(entry),
{
    lock::lemma_arranged(entry.lock.holders);
    lock::lemma_ascending(entry.lock.holders);
    let number = lock_number(entry.lock) as i32;
    let lock = lock::lock_of(number, entry.lock.holders);
    assert(lock == Some(entry.lock));
}

/// Law: a leaf reads back from its bytes.
pub proof fn law_leaf_round_trip(entries: Seq<EntryView>, depth: nat)
    requires
        sorted::sorted(entries),
        locks_valid(entries),
        leaf_bytes(entries).len() <= u64::MAX,
    ensures
        proto::leaf_message(leaf_bytes(entries), depth) == Some(
            entries.map_values(|e: EntryView| entry_to_message(e)),
        ),
        leaf_of(entries.map_values(|e: EntryView| entry_to_message(e))) == Ok::<
            Seq<EntryView>,
            Seq<char>,
        >(entries),
{
    let payloads = entries.map_values(|e: EntryView| entry_bytes(e));
    let fields = leaf_fields(entries);
    wire::lemma_repeated(1, payloads);
    wire::law_written_message_is_read(fields, depth);
    wire::lemma_carries(fields, 1, wire::list_values(payloads), 1);
    assert forall|i: int| 0 <= i < entries.len() implies #[trigger] entry_bytes(entries[i]).len()
        <= u64::MAX by {
        assert(fields[i] == wire::bytes_field(1, payloads[i]));
        wire::lemma_part_fits(fields, i);
    }
    lemma_entry_messages(entries, depth + 1);
    lemma_leaf_of(entries);
}

/// Entries read back one after the other.
proof fn lemma_entry_messages(entries: Seq<EntryView>, depth: nat)
    requires
        forall|i: int| 0 <= i < entries.len() ==> #[trigger] entry_bytes(entries[i]).len()
            <= u64::MAX,
    ensures
        proto::entry_messages(entries.map_values(|e: EntryView| entry_bytes(e)), depth) == Some(
            entries.map_values(|e: EntryView| entry_to_message(e)),
        ),
    decreases entries.len(),
{
    let payloads = entries.map_values(|e: EntryView| entry_bytes(e));
    let messages = entries.map_values(|e: EntryView| entry_to_message(e));
    if entries.len() == 0 {
        assert(messages =~= Seq::<proto::EntryMessageView>::empty());
    } else {
        let rest = entries.drop_last();
        let last = entries.last();
        assert forall|i: int| 0 <= i < rest.len() implies #[trigger] entry_bytes(rest[i]).len()
            <= u64::MAX by {
            assert(entry_bytes(entries[i]).len() <= u64::MAX);
        }
        lemma_entry_messages(rest, depth);
        assert(payloads.drop_last() =~= rest.map_values(|e: EntryView| entry_bytes(e)));
        assert(entry_bytes(entries[entries.len() - 1]).len() <= u64::MAX);
        lemma_entry_message(last, depth);
        assert(payloads.last() == entry_bytes(last));
        assert(messages =~= rest.map_values(|e: EntryView| entry_to_message(e)).push(
            entry_to_message(last),
        ));
    }
}

/// What sorted entries are persisted as stands for them.
proof fn lemma_leaf_of(entries: Seq<EntryView>)
    requires
        sorted::sorted(entries),
        locks_valid(entries),
    ensures
        leaf_of(entries.map_values(|e: EntryView| entry_to_message(e))) == Ok::<
            Seq<EntryView>,
            Seq<char>,
        >(entries),
    decreases entries.len(),
{
    let messages = entries.map_values(|e: EntryView| entry_to_message(e));
    if entries.len() == 0 {
        assert(entries =~= Seq::<EntryView>::empty());
    } else {
        let rest = entries.drop_last();
        let last = entries.last();
        lemma_halves(entries, entries.len() - 1);
        assert(entries.take(entries.len() - 1) =~= rest);
        lemma_leaf_of(rest);
        assert(messages.drop_last() =~= rest.map_values(|e: EntryView| entry_to_message(e)));
        assert(entries[entries.len() - 1].lock.valid());
        lemma_entry_of(last);
        assert(messages.last() == entry_to_message(last));
        assert(entries =~= rest + seq![last]);
        sorted::lemma_put_sorted(rest, seq![last]);
        sorted::lemma_put_all_step(rest, seq![last]);
        sorted::lemma_put_all_step(rest, Seq::<EntryView>::empty());
        assert(seq![last].drop_last() =~= Seq::<EntryView>::empty());
    }
}

/// Law: a key has a value when it was written, in the entry or elsewhere, and none
/// when it was deleted or never written; only a value in the entry takes room
/// there.
pub proof fn law_written_keys_have_values(writer: Seq<u8>, value: Seq<u8>)
    ensures
        present(CurrentView::External { writer }),
        present(CurrentView::Inline { writer, value }),
        !present(CurrentView::Deleted { writer }),
        !present(CurrentView::Unset),
        inline_size(CurrentView::Inline { writer, value }) == value.len(),
        inline_size(CurrentView::External { writer }) == 0,
        inline_size(CurrentView::Deleted { writer }) == 0,
        inline_size(CurrentView::Unset) == 0,
{
}

/// Law: of persisted entries with the same key the last one counts, and the others
/// are as they were.
pub proof fn law_last_entry_of_a_key_counts(
    messages: Seq<proto::EntryMessageView>,
    last: proto::EntryMessageView,
    key: Seq<u8>,
)
    requires
        leaf_of(messages.push(last)) is Ok,
    ensures
        leaf_of(messages) is Ok,
        entry_of(last) is Ok,
        entry_of(last)->Ok_0.key == last.key,
        sorted::sorted(leaf_of(messages)->Ok_0),
        sorted::sorted(leaf_of(messages.push(last))->Ok_0),
        sorted::get(leaf_of(messages.push(last))->Ok_0, key) == if key == last.key {
            Some(entry_of(last)->Ok_0)
        } else {
            sorted::get(leaf_of(messages)->Ok_0, key)
        },
{
    assert(messages.push(last).drop_last() =~= messages);
    lemma_leaf_of_sorted(messages);
    let entry = entry_of(last)->Ok_0;
    assert(entry.key() == entry.key);
    sorted::lemma_put(leaf_of(messages)->Ok_0, entry);
}

proof fn lemma_leaf_of_sorted(messages: Seq<proto::EntryMessageView>)
    ensures
        leaf_of(messages) matches Ok(entries) ==> sorted::sorted(entries),
    decreases messages.len(),
{
    if messages.len() > 0 {
        lemma_leaf_of_sorted(messages.drop_last());
        if leaf_of(messages) is Ok {
            sorted::lemma_put(
                leaf_of(messages.drop_last())->Ok_0,
                entry_of(messages.last())->Ok_0,
            );
        }
    }
}

} // verus!
