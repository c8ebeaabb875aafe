//! Protocol Buffers messages of the persisted coordination objects.
//!
//! A reader takes how many levels deep its message is embedded in others, which
//! bounds how deep unknown groups may nest in it.

use vstd::prelude::*;

use crate::bytes;
use crate::wire::{self, Field, FieldValue};

verus! {

/// An enumeration value: the low 32 bits of its varint.
pub open spec fn enum_number(n: nat) -> i32 {
    (n as u64) as i32
}

/// A lock: the number of its type and its holders.
pub struct LockMessageView {
    /// Number of the lock type.
    pub number: i32,
    /// Holders as persisted.
    pub holders: Seq<Seq<u8>>,
}

/// A lock as persisted.
#[derive(Debug)]
pub struct LockMessage {
    /// Number of the lock type.
    pub number: i32,
    /// Holders as persisted.
    pub holders: Vec<Vec<u8>>,
}

impl View for LockMessage {
    type V = LockMessageView;

    open spec fn view(&self) -> LockMessageView {
        LockMessageView { number: self.number, holders: bytes::views(self.holders@) }
    }
}

/// Reads a lock: type in field 1, holders in field 2.
pub open spec fn lock_message(fields: Seq<wire::FieldView>) -> Option<LockMessageView> {
    let number = wire::occurrences(fields, 1);
    let holders = wire::occurrences(fields, 2);
    if wire::all_numbers(number) && wire::all_bytes(holders) {
        Some(
            LockMessageView {
                number: enum_number(wire::last_number(number)),
                holders: wire::byte_strings(holders),
            },
        )
    } else {
        None
    }
}

/// Reads a lock.
pub fn read_lock(fields: &Vec<Field>) -> (r: Result<LockMessage, String>)
    ensures
        match lock_message(wire::field_views(fields@)) {
            Some(message) => r matches Ok(found) && found@ == message,
            None => r is Err,
        },
{
    match wire::pick_number(fields, 1) {
        Err(error) => Err(error),
        Ok(number) => match wire::pick_bytes(fields, 2) {
            Err(error) => Err(error),
            Ok(holders) => Ok(LockMessage { number: number as i32, holders }),
        },
    }
}

/// Reads an embedded lock.
pub open spec fn embedded_lock(fields: Seq<wire::FieldView>, tag: nat, depth: nat) -> Option<
    LockMessageView,
> {
    match wire::embedded(fields, tag, depth) {
        Some(inner) => lock_message(inner),
        None => None,
    }
}

/// Reads an embedded lock; an absent one has no type and no holders.
pub fn read_embedded_lock(fields: &Vec<Field>, tag: u32, depth: u32) -> (r: Result<
    LockMessage,
    String,
>)
    ensures
        match embedded_lock(wire::field_views(fields@), tag as nat, depth as nat) {
            Some(message) => r matches Ok(found) && found@ == message,
            None => r is Err,
        },
{
    match wire::read_embedded(fields, tag, depth) {
        Err(error) => Err(error),
        Ok(inner) => read_lock(&inner),
    }
}

/// The current state of a key as persisted.
pub struct CurrentMessageView {
    /// The transaction that wrote the state.
    pub writer: Seq<u8>,
    /// Number of the kind of state.
    pub kind: i32,
    /// An inline value.
    pub value: Seq<u8>,
}

/// The current state of a key as persisted.
#[derive(Debug)]
pub struct CurrentMessage {
    /// The transaction that wrote the state.
    pub writer: Vec<u8>,
    /// Number of the kind of state.
    pub kind: i32,
    /// An inline value.
    pub value: Vec<u8>,
}

impl View for CurrentMessage {
    type V = CurrentMessageView;

    open spec fn view(&self) -> CurrentMessageView {
        CurrentMessageView { writer: self.writer@, kind: self.kind, value: self.value@ }
    }
}

/// Reads a current state: writer in field 1, kind in field 2, value in field 3.
pub open spec fn current_message(fields: Seq<wire::FieldView>) -> Option<CurrentMessageView> {
    let writer = wire::occurrences(fields, 1);
    let kind = wire::occurrences(fields, 2);
    let value = wire::occurrences(fields, 3);
    if wire::all_bytes(writer) && wire::all_numbers(kind) && wire::all_bytes(value) {
        Some(
            CurrentMessageView {
                writer: wire::last_bytes(writer),
                kind: enum_number(wire::last_number(kind)),
                value: wire::last_bytes(value),
            },
        )
    } else {
        None
    }
}

/// Reads a current state.
pub fn read_current(fields: &Vec<Field>) -> (r: Result<CurrentMessage, String>)
    ensures
        match current_message(wire::field_views(fields@)) {
            Some(message) => r matches Ok(found) && found@ == message,
            None => r is Err,
        },
{
    match wire::pick_last_bytes(fields, 1) {
        Err(error) => Err(error),
        Ok(writer) => match wire::pick_number(fields, 2) {
            Err(error) => Err(error),
            Ok(kind) => match wire::pick_last_bytes(fields, 3) {
                Err(error) => Err(error),
                Ok(value) => Ok(CurrentMessage { writer, kind: kind as i32, value }),
            },
        },
    }
}

/// A leaf entry as persisted.
pub struct EntryMessageView {
    /// The key.
    pub key: Seq<u8>,
    /// The lock.
    pub lock: LockMessageView,
    /// The current state, if any.
    pub current: Option<CurrentMessageView>,
}

/// A leaf entry as persisted.
#[derive(Debug)]
pub struct EntryMessage {
    /// The key.
    pub key: Vec<u8>,
    /// The lock.
    pub lock: LockMessage,
    /// The current state, if any.
    pub current: Option<CurrentMessage>,
}

impl View for EntryMessage {
    type V = EntryMessageView;

    open spec fn view(&self) -> EntryMessageView {
        EntryMessageView {
            key: self.key@,
            lock: self.lock@,
            current: match self.current {
                Some(current) => Some(current@),
                None => None,
            },
        }
    }
}

/// Reads a leaf entry: key in field 1, lock type in field 2, holders in field
/// 3, current state in field 4.
pub open spec fn entry_message(fields: Seq<wire::FieldView>, depth: nat) -> Option<
    EntryMessageView,
> {
    let key = wire::occurrences(fields, 1);
    let number = wire::occurrences(fields, 2);
    let holders = wire::occurrences(fields, 3);
    if wire::all_bytes(key) && wire::all_numbers(number) && wire::all_bytes(holders) {
        match wire::embedded(fields, 4, depth + 1) {
            Some(inner) => match current_message(inner) {
                Some(current) => Some(
                    EntryMessageView {
                        key: wire::last_bytes(key),
                        lock: LockMessageView {
                            number: enum_number(wire::last_number(number)),
                            holders: wire::byte_strings(holders),
                        },
                        current: if wire::occurrences(fields, 4).len() == 0 {
                            None
                        } else {
                            Some(current)
                        },
                    },
                ),
                None => None,
            },
            None => None,
        }
    } else {
        None
    }
}

/// Reads a leaf entry.
pub fn read_entry(fields: &Vec<Field>, depth: u32) -> (r: Result<EntryMessage, String>)
    requires
        depth < u32::MAX,
    ensures
        match entry_message(wire::field_views(fields@), depth as nat) {
            Some(message) => r matches Ok(found) && found@ == message,
            None => r is Err,
        },
{
    let key = match wire::pick_last_bytes(fields, 1) {
        Err(error) => {
            return Err(error);
        },
        Ok(key) => key,
    };
    let number: u64 = match wire::pick_number(fields, 2) {
        Err(error) => {
            return Err(error);
        },
        Ok(number) => number,
    };
    let holders = match wire::pick_bytes(fields, 3) {
        Err(error) => {
            return Err(error);
        },
        Ok(holders) => holders,
    };
    let inner = match wire::read_embedded(fields, 4, depth + 1) {
        Err(error) => {
            return Err(error);
        },
        Ok(inner) => inner,
    };
    let current = match read_current(&inner) {
        Err(error) => {
            return Err(error);
        },
        Ok(current) => current,
    };
    let present: bool = wire::occurs(fields, 4);
    Ok(
        EntryMessage {
            key,
            lock: LockMessage { number: number as i32, holders },
            current: if present {
                Some(current)
            } else {
                None
            },
        },
    )
}

/// Reads leaf entries.
pub open spec fn entry_messages(payloads: Seq<Seq<u8>>, depth: nat) -> Option<Seq<EntryMessageView>>
    decreases payloads.len(),
{
    if payloads.len() == 0 {
        Some(Seq::empty())
    } else {
        match (
            entry_messages(payloads.drop_last(), depth),
            wire::parse_fields(payloads.last(), depth),
        ) {
            (Some(before), Some(fields)) => match entry_message(fields, depth) {
                Some(entry) => Some(before.push(entry)),
                None => None,
            },
            _ => None,
        }
    }
}

/// What several persisted entries are.
pub open spec fn entry_message_views(list: Seq<EntryMessage>) -> Seq<EntryMessageView> {
    list.map_values(|m: EntryMessage| m@)
}

proof fn lemma_entries_fail(payloads: Seq<Seq<u8>>, n: int, depth: nat)
    requires
        0 <= n <= payloads.len(),
        entry_messages(payloads.take(n), depth) is None,
    ensures
        entry_messages(payloads, depth) is None,
    decreases payloads.len(),
{
    if n == payloads.len() {
        assert(payloads.take(n) =~= payloads);
    } else {
        assert(payloads.drop_last().take(n) =~= payloads.take(n));
        lemma_entries_fail(payloads.drop_last(), n, depth);
    }
}

/// Reads leaf entries.
fn read_entries(payloads: &Vec<Vec<u8>>, depth: u32) -> (r: Result<Vec<EntryMessage>, String>)
    requires
        depth < u32::MAX,
    ensures
        match entry_messages(bytes::views(payloads@), depth as nat) {
            Some(list) => r matches Ok(found) && entry_message_views(found@) == list,
            None => r is Err,
        },
{
    let mut found: Vec<EntryMessage> = Vec::new();
    let mut i: usize = 0;
    let ghost all = bytes::views(payloads@);
    proof {
        assert(all.take(0) =~= Seq::<Seq<u8>>::empty());
        assert(entry_message_views(found@) =~= Seq::<EntryMessageView>::empty());
    }
    while i < payloads.len()
        invariant
            depth < u32::MAX,
            i <= payloads@.len(),
            all == bytes::views(payloads@),
            entry_messages(all.take(i as int), depth as nat) == Some(entry_message_views(found@)),
        decreases payloads@.len() - i,
    {
        let ghost was = found@;
        proof {
            assert(all.take(i + 1).drop_last() =~= all.take(i as int));
            assert(all.take(i + 1).last() == payloads@[i as int]@);
            if entry_messages(all.take(i + 1), depth as nat) is None {
                lemma_entries_fail(all, i + 1, depth as nat);
            }
        }
        let fields = match wire::read_fields(payloads[i].as_slice(), depth) {
            Err(error) => {
                return Err(error);
            },
            Ok(fields) => fields,
        };
        match read_entry(&fields, depth) {
            Err(error) => {
                return Err(error);
            },
            Ok(entry) => {
                found.push(entry);
                proof {
                    assert(entry_message_views(found@) =~= entry_message_views(was).push(entry@));
                }
            },
        }
        i = i + 1;
    }
    proof {
        assert(all.take(i as int) =~= all);
    }
    Ok(found)
}

/// Reads a leaf: entries in field 1.
pub open spec fn leaf_message(payload: Seq<u8>, depth: nat) -> Option<Seq<EntryMessageView>> {
    match wire::parse_fields(payload, depth) {
        Some(fields) => {
            let entries = wire::occurrences(fields, 1);
            if wire::all_bytes(entries) {
                entry_messages(wire::byte_strings(entries), depth + 1)
            } else {
                None
            }
        },
        None => None,
    }
}

/// Reads a leaf.
pub fn read_leaf(payload: &[u8], depth: u32) -> (r: Result<Vec<EntryMessage>, String>)
    requires
        depth < u32::MAX - 1,
    ensures
        match leaf_message(payload@, depth as nat) {
            Some(list) => r matches Ok(found) && entry_message_views(found@) == list,
            None => r is Err,
        },
{
    match wire::read_fields(payload, depth) {
        Err(error) => Err(error),
        Ok(fields) => match wire::pick_bytes(&fields, 1) {
            Err(error) => Err(error),
            Ok(list) => read_entries(&list, depth + 1),
        },
    }
}

/// A key bound to an identifier, as persisted: a separator and its child, or a
/// name and its collection.
pub struct PairMessageView {
    /// The key.
    pub key: Seq<u8>,
    /// The identifier.
    pub id: Seq<u8>,
}

/// A key bound to an identifier, as persisted.
#[derive(Debug)]
pub struct PairMessage {
    /// The key.
    pub key: Vec<u8>,
    /// The identifier.
    pub id: Vec<u8>,
}

impl View for PairMessage {
    type V = PairMessageView;

    open spec fn view(&self) -> PairMessageView {
        PairMessageView { key: self.key@, id: self.id@ }
    }
}

/// Reads a binding: key in field 1, identifier in field 2.
pub open spec fn pair_message(fields: Seq<wire::FieldView>) -> Option<PairMessageView> {
    let key = wire::occurrences(fields, 1);
    let id = wire::occurrences(fields, 2);
    if wire::all_bytes(key) && wire::all_bytes(id) {
        Some(PairMessageView { key: wire::last_bytes(key), id: wire::last_bytes(id) })
    } else {
        None
    }
}

/// Reads a binding.
pub fn read_pair(fields: &Vec<Field>) -> (r: Result<PairMessage, String>)
    ensures
        match pair_message(wire::field_views(fields@)) {
            Some(message) => r matches Ok(found) && found@ == message,
            None => r is Err,
        },
{
    match wire::pick_last_bytes(fields, 1) {
        Err(error) => Err(error),
        Ok(key) => match wire::pick_last_bytes(fields, 2) {
            Err(error) => Err(error),
            Ok(id) => Ok(PairMessage { key, id }),
        },
    }
}

/// Reads bindings of keys to identifiers.
pub open spec fn pair_messages(payloads: Seq<Seq<u8>>, depth: nat) -> Option<Seq<PairMessageView>>
    decreases payloads.len(),
{
    if payloads.len() == 0 {
        Some(Seq::empty())
    } else {
        match (
            pair_messages(payloads.drop_last(), depth),
            wire::parse_fields(payloads.last(), depth),
        ) {
            (Some(before), Some(fields)) => match pair_message(fields) {
                Some(pair) => Some(before.push(pair)),
                None => None,
            },
            _ => None,
        }
    }
}

/// What several persisted bindings are.
pub open spec fn pair_message_views(list: Seq<PairMessage>) -> Seq<PairMessageView> {
    list.map_values(|m: PairMessage| m@)
}

proof fn lemma_pairs_fail(payloads: Seq<Seq<u8>>, n: int, depth: nat)
    requires
        0 <= n <= payloads.len(),
        pair_messages(payloads.take(n), depth) is None,
    ensures
        pair_messages(payloads, depth) is None,
    decreases payloads.len(),
{
    if n == payloads.len() {
        assert(payloads.take(n) =~= payloads);
    } else {
        assert(payloads.drop_last().take(n) =~= payloads.take(n));
        lemma_pairs_fail(payloads.drop_last(), n, depth);
    }
}

/// Reads bindings of keys to identifiers.
pub fn read_pairs(payloads: &Vec<Vec<u8>>, depth: u32) -> (r: Result<Vec<PairMessage>, String>)
    ensures
        match pair_messages(bytes::views(payloads@), depth as nat) {
            Some(list) => r matches Ok(found) && pair_message_views(found@) == list,
            None => r is Err,
        },
{
    let mut found: Vec<PairMessage> = Vec::new();
    let mut i: usize = 0;
    let ghost all = bytes::views(payloads@);
    proof {
        assert(all.take(0) =~= Seq::<Seq<u8>>::empty());
        assert(pair_message_views(found@) =~= Seq::<PairMessageView>::empty());
    }
    while i < payloads.len()
        invariant
            i <= payloads@.len(),
            all == bytes::views(payloads@),
            pair_messages(all.take(i as int), depth as nat) == Some(pair_message_views(found@)),
        decreases payloads@.len() - i,
    {
        let ghost was = found@;
        proof {
            assert(all.take(i + 1).drop_last() =~= all.take(i as int));
            assert(all.take(i + 1).last() == payloads@[i as int]@);
            if pair_messages(all.take(i + 1), depth as nat) is None {
                lemma_pairs_fail(all, i + 1, depth as nat);
            }
        }
        let fields = match wire::read_fields(payloads[i].as_slice(), depth) {
            Err(error) => {
                return Err(error);
            },
            Ok(fields) => fields,
        };
        match read_pair(&fields) {
            Err(error) => {
                return Err(error);
            },
            Ok(pair) => {
                found.push(pair);
                proof {
                    assert(pair_message_views(found@) =~= pair_message_views(was).push(pair@));
                }
            },
        }
        i = i + 1;
    }
    proof {
        assert(all.take(i as int) =~= all);
    }
    Ok(found)
}

/// Reads an index: bindings of separators to children in field 1.
pub open spec fn index_message(payload: Seq<u8>, depth: nat) -> Option<Seq<PairMessageView>> {
    match wire::parse_fields(payload, depth) {
        Some(fields) => {
            let pairs = wire::occurrences(fields, 1);
            if wire::all_bytes(pairs) {
                pair_messages(wire::byte_strings(pairs), depth + 1)
            } else {
                None
            }
        },
        None => None,
    }
}

/// Reads an index.
pub fn read_index(payload: &[u8], depth: u32) -> (r: Result<Vec<PairMessage>, String>)
    requires
        depth < u32::MAX,
    ensures
        match index_message(payload@, depth as nat) {
            Some(list) => r matches Ok(found) && pair_message_views(found@) == list,
            None => r is Err,
        },
{
    match wire::read_fields(payload, depth) {
        Err(error) => Err(error),
        Ok(fields) => match wire::pick_bytes(&fields, 1) {
            Err(error) => Err(error),
            Ok(list) => read_pairs(&list, depth + 1),
        },
    }
}

/// The body of a node as persisted.
pub enum BodyMessageView {
    /// A leaf with its entries.
    Leaf(Seq<EntryMessageView>),
    /// An index with its separators and children.
    Index(Seq<PairMessageView>),
}

/// The body of a node as persisted.
#[derive(Debug)]
pub enum BodyMessage {
    /// A leaf with its entries.
    Leaf(Vec<EntryMessage>),
    /// An index with its separators and children.
    Index(Vec<PairMessage>),
}

impl View for BodyMessage {
    type V = BodyMessageView;

    open spec fn view(&self) -> BodyMessageView {
        match self {
            BodyMessage::Leaf(list) => BodyMessageView::Leaf(entry_message_views(list@)),
            BodyMessage::Index(list) => BodyMessageView::Index(pair_message_views(list@)),
        }
    }
}

/// Adds a leaf occurrence to the body read so far: entries of the same kind
/// of body stand one after the other, another kind is replaced.
pub open spec fn with_leaf(
    body: Option<BodyMessageView>,
    more: Seq<EntryMessageView>,
) -> BodyMessageView {
    match body {
        Some(BodyMessageView::Leaf(list)) => BodyMessageView::Leaf(list + more),
        _ => BodyMessageView::Leaf(more),
    }
}

/// Adds an index occurrence to the body read so far.
pub open spec fn with_index(
    body: Option<BodyMessageView>,
    more: Seq<PairMessageView>,
) -> BodyMessageView {
    match body {
        Some(BodyMessageView::Index(list)) => BodyMessageView::Index(list + more),
        _ => BodyMessageView::Index(more),
    }
}

/// Reads the body of a node: a leaf in field 3 or an index in field 4,
/// whichever comes last.
pub open spec fn body_message(fields: Seq<wire::FieldView>, depth: nat) -> Option<
    Option<BodyMessageView>,
>
    decreases fields.len(),
{
    if fields.len() == 0 {
        Some(None)
    } else {
        match body_message(fields.drop_last(), depth) {
            None => None,
            Some(body) => if fields.last().tag == 3 {
                match fields.last().value {
                    wire::ValueView::Bytes(payload) => match leaf_message(payload, depth + 1) {
                        Some(more) => Some(Some(with_leaf(body, more))),
                        None => None,
                    },
                    _ => None,
                }
            } else if fields.last().tag == 4 {
                match fields.last().value {
                    wire::ValueView::Bytes(payload) => match index_message(payload, depth + 1) {
                        Some(more) => Some(Some(with_index(body, more))),
                        None => None,
                    },
                    _ => None,
                }
            } else {
                Some(body)
            },
        }
    }
}

proof fn lemma_body_fails(fields: Seq<wire::FieldView>, n: int, depth: nat)
    requires
        0 <= n <= fields.len(),
        body_message(fields.take(n), depth) is None,
    ensures
        body_message(fields, depth) is None,
    decreases fields.len(),
{
    if n == fields.len() {
        assert(fields.take(n) =~= fields);
    } else {
        assert(fields.drop_last().take(n) =~= fields.take(n));
        lemma_body_fails(fields.drop_last(), n, depth);
    }
}

/// What an optional body is.
pub open spec fn body_view(body: Option<BodyMessage>) -> Option<BodyMessageView> {
    match body {
        Some(body) => Some(body@),
        None => None,
    }
}

/// Adds a leaf occurrence to the body read so far.
fn add_leaf(body: Option<BodyMessage>, more: Vec<EntryMessage>) -> (r: BodyMessage)
    ensures
        r@ == with_leaf(body_view(body), entry_message_views(more@)),
{
    match body {
        Some(BodyMessage::Leaf(list)) => {
            let mut list = list;
            let mut more = more;
            let ghost before = list@;
            let ghost added = more@;
            list.append(&mut more);
            proof {
                assert(entry_message_views(list@) =~= entry_message_views(before)
                    + entry_message_views(added));
            }
            BodyMessage::Leaf(list)
        },
        _ => BodyMessage::Leaf(more),
    }
}

/// Adds an index occurrence to the body read so far.
fn add_index(body: Option<BodyMessage>, more: Vec<PairMessage>) -> (r: BodyMessage)
    ensures
        r@ == with_index(body_view(body), pair_message_views(more@)),
{
    match body {
        Some(BodyMessage::Index(list)) => {
            let mut list = list;
            let mut more = more;
            let ghost before = list@;
            let ghost added = more@;
            list.append(&mut more);
            proof {
                assert(pair_message_views(list@) =~= pair_message_views(before)
                    + pair_message_views(added));
            }
            BodyMessage::Index(list)
        },
        _ => BodyMessage::Index(more),
    }
}

/// Says that a body field has another wire type than declared.
fn wrong_body() -> String {
    String::from_str("failed to decode Protobuf message: Node.body: invalid wire type")
}

/// Reads the body of a node.
pub fn read_body(fields: &Vec<Field>, depth: u32) -> (r: Result<Option<BodyMessage>, String>)
    requires
        depth < u32::MAX - 2,
    ensures
        match body_message(wire::field_views(fields@), depth as nat) {
            Some(body) => r matches Ok(found) && body_view(found) == body,
            None => r is Err,
        },
{
    let mut body: Option<BodyMessage> = None;
    let mut i: usize = 0;
    let ghost all = wire::field_views(fields@);
    proof {
        assert(all.take(0) =~= Seq::<wire::FieldView>::empty());
    }
    while i < fields.len()
        invariant
            depth < u32::MAX - 2,
            i <= fields@.len(),
            all == wire::field_views(fields@),
            body_message(all.take(i as int), depth as nat) == Some(body_view(body)),
        decreases fields@.len() - i,
    {
        proof {
            assert(all.take(i + 1).drop_last() =~= all.take(i as int));
            assert(all.take(i + 1).last() == fields@[i as int]@);
            if body_message(all.take(i + 1), depth as nat) is None {
                lemma_body_fails(all, i + 1, depth as nat);
            }
        }
        if fields[i].tag == 3 {
            match &fields[i].value {
                FieldValue::Bytes(payload) => match read_leaf(payload.as_slice(), depth + 1) {
                    Err(error) => {
                        return Err(error);
                    },
                    Ok(more) => {
                        body = Some(add_leaf(body, more));
                    },
                },
                _ => {
                    return Err(wrong_body());
                },
            }
        } else if fields[i].tag == 4 {
            match &fields[i].value {
                FieldValue::Bytes(payload) => match read_index(payload.as_slice(), depth + 1) {
                    Err(error) => {
                        return Err(error);
                    },
                    Ok(more) => {
                        body = Some(add_index(body, more));
                    },
                },
                _ => {
                    return Err(wrong_body());
                },
            }
        }
        i = i + 1;
    }
    proof {
        assert(all.take(i as int) =~= all);
    }
    Ok(body)
}

/// A tree node as persisted.
pub struct NodeMessageView {
    /// Exclusive upper bound, empty for none.
    pub high_key: Seq<u8>,
    /// Right sibling, empty for none.
    pub right_sibling: Seq<u8>,
    /// The body, if any.
    pub body: Option<BodyMessageView>,
    /// The structural gate.
    pub structural_gate: LockMessageView,
    /// The membership lock.
    pub membership_lock: LockMessageView,
    /// The membership generation.
    pub membership_generation: nat,
    /// The drop intent, empty for none.
    pub drop_intent: Seq<u8>,
    /// Whether a merge emptied the node.
    pub drained: bool,
    /// The merge reservation, empty for none.
    pub merge_reservation: Seq<u8>,
    /// Inclusive lower bound.
    pub low_key: Seq<u8>,
}

/// A tree node as persisted.
#[derive(Debug)]
pub struct NodeMessage {
    /// Exclusive upper bound, empty for none.
    pub high_key: Vec<u8>,
    /// Right sibling, empty for none.
    pub right_sibling: Vec<u8>,
    /// The body, if any.
    pub body: Option<BodyMessage>,
    /// The structural gate.
    pub structural_gate: LockMessage,
    /// The membership lock.
    pub membership_lock: LockMessage,
    /// The membership generation.
    pub membership_generation: u64,
    /// The drop intent, empty for none.
    pub drop_intent: Vec<u8>,
    /// Whether a merge emptied the node.
    pub drained: bool,
    /// The merge reservation, empty for none.
    pub merge_reservation: Vec<u8>,
    /// Inclusive lower bound.
    pub low_key: Vec<u8>,
}

impl View for NodeMessage {
    type V = NodeMessageView;

    open spec fn view(&self) -> NodeMessageView {
        NodeMessageView {
            high_key: self.high_key@,
            right_sibling: self.right_sibling@,
            body: body_view(self.body),
            structural_gate: self.structural_gate@,
            membership_lock: self.membership_lock@,
            membership_generation: self.membership_generation as nat,
            drop_intent: self.drop_intent@,
            drained: self.drained,
            merge_reservation: self.merge_reservation@,
            low_key: self.low_key@,
        }
    }
}

/// The fields of a node other than its body and locks have their types.
pub open spec fn node_fields_typed(fields: Seq<wire::FieldView>) -> bool {
    &&& wire::all_bytes(wire::occurrences(fields, 1))
    &&& wire::all_bytes(wire::occurrences(fields, 2))
    &&& wire::all_numbers(wire::occurrences(fields, 7))
    &&& wire::all_bytes(wire::occurrences(fields, 8))
    &&& wire::all_numbers(wire::occurrences(fields, 9))
    &&& wire::all_bytes(wire::occurrences(fields, 10))
    &&& wire::all_bytes(wire::occurrences(fields, 11))
}

/// Reads a node: high key in field 1, right sibling in 2, body in 3 or 4,
/// structural gate in 5, membership lock in 6, membership generation in 7,
/// drop intent in 8, drained mark in 9, merge reservation in 10, low key in 11.
pub open spec fn node_message(fields: Seq<wire::FieldView>, depth: nat) -> Option<NodeMessageView> {
    if !node_fields_typed(fields) {
        None
    } else {
        match (
            body_message(fields, depth),
            embedded_lock(fields, 5, depth + 1),
            embedded_lock(fields, 6, depth + 1),
        ) {
            (Some(body), Some(structural_gate), Some(membership_lock)) => Some(
                NodeMessageView {
                    high_key: wire::last_bytes(wire::occurrences(fields, 1)),
                    right_sibling: wire::last_bytes(wire::occurrences(fields, 2)),
                    body,
                    structural_gate,
                    membership_lock,
                    membership_generation: wire::last_number(wire::occurrences(fields, 7)),
                    drop_intent: wire::last_bytes(wire::occurrences(fields, 8)),
                    drained: wire::last_number(wire::occurrences(fields, 9)) != 0,
                    merge_reservation: wire::last_bytes(wire::occurrences(fields, 10)),
                    low_key: wire::last_bytes(wire::occurrences(fields, 11)),
                },
            ),
            _ => None,
        }
    }
}

/// Reads a node.
pub fn read_node(fields: &Vec<Field>, depth: u32) -> (r: Result<NodeMessage, String>)
    requires
        depth < u32::MAX - 2,
    ensures
        match node_message(wire::field_views(fields@), depth as nat) {
            Some(message) => r matches Ok(found) && found@ == message,
            None => r is Err,
        },
{
    let high_key = match wire::pick_last_bytes(fields, 1) {
        Err(error) => {
            return Err(error);
        },
        Ok(found) => found,
    };
    let right_sibling = match wire::pick_last_bytes(fields, 2) {
        Err(error) => {
            return Err(error);
        },
        Ok(found) => found,
    };
    let body = match read_body(fields, depth) {
        Err(error) => {
            return Err(error);
        },
        Ok(found) => found,
    };
    let structural_gate = match read_embedded_lock(fields, 5, depth + 1) {
        Err(error) => {
            return Err(error);
        },
        Ok(found) => found,
    };
    let membership_lock = match read_embedded_lock(fields, 6, depth + 1) {
        Err(error) => {
            return Err(error);
        },
        Ok(found) => found,
    };
    let membership_generation: u64 = match wire::pick_number(fields, 7) {
        Err(error) => {
            return Err(error);
        },
        Ok(found) => found,
    };
    let drop_intent = match wire::pick_last_bytes(fields, 8) {
        Err(error) => {
            return Err(error);
        },
        Ok(found) => found,
    };
    let drained: u64 = match wire::pick_number(fields, 9) {
        Err(error) => {
            return Err(error);
        },
        Ok(found) => found,
    };
    let merge_reservation = match wire::pick_last_bytes(fields, 10) {
        Err(error) => {
            return Err(error);
        },
        Ok(found) => found,
    };
    let low_key = match wire::pick_last_bytes(fields, 11) {
        Err(error) => {
            return Err(error);
        },
        Ok(found) => found,
    };
    Ok(
        NodeMessage {
            high_key,
            right_sibling,
            body,
            structural_gate,
            membership_lock,
            membership_generation,
            drop_intent,
            drained: drained != 0,
            merge_reservation,
            low_key,
        },
    )
}

/// Reads the bytes of a node.
pub open spec fn parse_node(b: Seq<u8>, depth: nat) -> Option<NodeMessageView> {
    match wire::parse_fields(b, depth) {
        Some(fields) => node_message(fields, depth),
        None => None,
    }
}

/// Reads the bytes of a node.
pub fn read_node_bytes(buf: &[u8], depth: u32) -> (r: Result<NodeMessage, String>)
    requires
        depth < u32::MAX - 2,
    ensures
        match parse_node(buf@, depth as nat) {
            Some(message) => r matches Ok(found) && found@ == message,
            None => r is Err,
        },
{
    match wire::read_fields(buf, depth) {
        Err(error) => Err(error),
        Ok(fields) => read_node(&fields, depth),
    }
}

/// Law: parts of one body are joined, and a body of another kind takes the place
/// of the one before.
pub proof fn law_body_parts_are_joined(
    entries: Seq<EntryMessageView>,
    more_entries: Seq<EntryMessageView>,
    pairs: Seq<PairMessageView>,
    more_pairs: Seq<PairMessageView>,
)
    ensures
        with_leaf(None, entries) == BodyMessageView::Leaf(entries),
        with_leaf(Some(BodyMessageView::Leaf(entries)), more_entries) == BodyMessageView::Leaf(
            entries + more_entries,
        ),
        with_leaf(Some(BodyMessageView::Index(pairs)), entries) == BodyMessageView::Leaf(entries),
        with_index(None, pairs) == BodyMessageView::Index(pairs),
        with_index(Some(BodyMessageView::Index(pairs)), more_pairs) == BodyMessageView::Index(
            pairs + more_pairs,
        ),
        with_index(Some(BodyMessageView::Leaf(entries)), pairs) == BodyMessageView::Index(pairs),
{
}

} // verus!
