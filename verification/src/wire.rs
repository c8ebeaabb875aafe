//! Protocol Buffers wire format: varints, fields and messages as field lists.

use vstd::prelude::*;

use crate::bytes;

verus! {

/// The longest varint, in bytes.
pub const MAX_VARINT_BYTES: usize = 10;

/// The varint of a number: seven bits per byte, the lowest first, with the
/// high bit set in every byte but the last.
pub open spec fn varint(n: nat) -> Seq<u8>
    decreases n,
{
    if n < 128 {
        seq![n as u8]
    } else {
        seq![(n % 128 + 128) as u8] + varint(n / 128)
    }
}

/// Reads a varint of at most `limit` bytes: the number and the bytes behind
/// it. The last of ten bytes has room for one bit only.
pub open spec fn parse_varint_within(b: Seq<u8>, limit: nat) -> Option<(nat, Seq<u8>)>
    decreases limit,
{
    if limit == 0 || b.len() == 0 {
        None
    } else if b[0] < 128 {
        if limit == 1 && b[0] >= 2 {
            None
        } else {
            Some((b[0] as nat, b.skip(1)))
        }
    } else {
        match parse_varint_within(b.skip(1), (limit - 1) as nat) {
            Some((high, rest)) => Some(((b[0] - 128) as nat + 128 * high, rest)),
            None => None,
        }
    }
}

/// Reads a varint: the number and the bytes behind it.
pub open spec fn parse_varint(b: Seq<u8>) -> Option<(nat, Seq<u8>)> {
    parse_varint_within(b, 10)
}

/// Appends a varint with `prost::encoding::encode_varint`, which writes seven
/// bits per byte, the lowest first, with the high bit set in every byte but
/// the last.
#[verifier::external_body]
pub(crate) fn put_varint(buf: &mut Vec<u8>, value: u64)
    ensures
        final(buf)@ == old(buf)@ + varint(value as nat),
{
    prost::encoding::encode_varint(value, buf);
}

/// Reads a varint with `prost::encoding::decode_varint`, which takes at most
/// ten bytes, and of the tenth only its lowest bit. The bytes behind the
/// varint come back with the number. What the error text says is not claimed.
#[verifier::external_body]
pub(crate) fn take_varint(buf: &[u8]) -> (r: Result<(u64, &[u8]), String>)
    ensures
        match parse_varint(buf@) {
            Some((value, rest)) => {
                &&& r matches Ok(found)
                &&& found.0 == value
                &&& found.1@ == rest
            },
            None => r is Err,
        },
{
    let mut rest = buf;
    let value = prost::encoding::decode_varint(&mut rest).map_err(|e| e.to_string())?;
    Ok((value, rest))
}

/// The key that begins a group of field number one.
pub const START_GROUP: u8 = 11;

/// The key that ends a group of field number one.
pub const END_GROUP: u8 = 12;

/// How many bytes `prost::encoding::skip_field` passes over for a group of the
/// tag whose fields and end follow, or nothing when it reports malformed input.
pub uninterp spec fn skipped_group(tag: u32, b: Seq<u8>) -> Option<nat>;

/// How many bytes a field takes that is no group: a varint; eight or four bytes;
/// or a varint with as many bytes as it says. No other wire type begins a field.
pub open spec fn skipped_plain(wire_type: u64, b: Seq<u8>) -> Option<nat> {
    match (wire_type, parse_varint(b)) {
        (0, Some((_, rest))) => Some((b.len() - rest.len()) as nat),
        (1, _) => if b.len() >= 8 {
            Some(8)
        } else {
            None
        },
        (2, Some((len, rest))) => if len <= rest.len() {
            Some((b.len() - rest.len() + len) as nat)
        } else {
            None
        },
        (5, _) => if b.len() >= 4 {
            Some(4)
        } else {
            None
        },
        _ => None,
    }
}

/// How many bytes a field of the wire type and tag takes, or nothing when it is
/// malformed.
pub open spec fn skipped(wire_type: u64, tag: u32, b: Seq<u8>) -> Option<nat> {
    if wire_type == 3 {
        skipped_group(tag, b)
    } else {
        skipped_plain(wire_type, b)
    }
}

/// Passes over a field with `prost::encoding::skip_field`. The bytes behind it
/// come back: a suffix of those given. How far a group goes is only named; for
/// the other wire types it is stated. What the error text says is not claimed.
#[verifier::external_body]
pub(crate) fn skip(wire_type: u64, tag: u32, buf: &[u8]) -> (r: Result<&[u8], String>)
    ensures
        match (if wire_type == 3 {
            skipped_group(tag, buf@)
        } else {
            skipped_plain(wire_type, buf@)
        }) {
            Some(n) => {
                &&& r matches Ok(rest)
                &&& n <= buf@.len()
                &&& rest@ == buf@.skip(n as int)
            },
            None => r is Err,
        },
{
    let kind = prost::encoding::WireType::try_from(wire_type).map_err(|e| e.to_string())?;
    let mut rest = buf;
    let context = prost::encoding::DecodeContext::default();
    prost::encoding::skip_field(kind, tag, &mut rest, context).map_err(|e| e.to_string())?;
    Ok(rest)
}

/// Bytes inside groups, one in the other, of field number one.
pub open spec fn inside_groups(b: Seq<u8>, depth: nat) -> Seq<u8>
    decreases depth,
{
    if depth == 0 {
        b
    } else {
        seq![START_GROUP] + inside_groups(b, (depth - 1) as nat) + seq![END_GROUP]
    }
}

/// How many bytes are passed over for a field of a message that is embedded
/// `depth` levels deep. Groups nest only up to a limit, which the messages
/// around them count towards: a group is passed over when it also is inside as
/// many other groups.
pub open spec fn passed(wire_type: u64, tag: u32, b: Seq<u8>, depth: nat) -> Option<nat> {
    match skipped(wire_type, tag, b) {
        None => None,
        Some(n) => if wire_type == 3 && depth > 0 && skipped(
            3,
            1,
            inside_groups(varint(tag as nat * 8 + 3) + b.take(n as int), (depth - 1) as nat)
                + seq![END_GROUP],
        ) is None {
            None
        } else {
            Some(n)
        },
    }
}

/// Puts bytes inside groups.
fn put_inside_groups(b: Vec<u8>, depth: u32) -> (r: Vec<u8>)
    ensures
        r@ == inside_groups(b@, depth as nat),
{
    let mut r = b;
    let mut i: u32 = 0;
    while i < depth
        invariant
            i <= depth,
            r@ == inside_groups(b@, i as nat),
        decreases depth - i,
    {
        let ghost before = r@;
        r.insert(0, START_GROUP);
        r.push(END_GROUP);
        proof {
            assert(r@ =~= seq![START_GROUP] + before + seq![END_GROUP]);
        }
        i = i + 1;
    }
    r
}

/// Passes over a field of a message that is embedded `depth` levels deep.
fn pass(wire_type: u64, tag: u32, buf: &[u8], depth: u32) -> (r: Result<&[u8], String>)
    requires
        tag < 0x2000_0000,
    ensures
        match passed(wire_type, tag, buf@, depth as nat) {
            Some(n) => {
                &&& r matches Ok(rest)
                &&& n <= buf@.len()
                &&& rest@ == buf@.skip(n as int)
            },
            None => r is Err,
        },
{
    match skip(wire_type, tag, buf) {
        Err(error) => Err(error),
        Ok(rest) => {
            if wire_type == 3 && depth > 0 {
                let n: usize = buf.len() - rest.len();
                let mut field: Vec<u8> = Vec::new();
                put_varint(&mut field, tag as u64 * 8 + 3);
                bytes::append(&mut field, vstd::slice::slice_subrange(buf, 0, n));
                proof {
                    assert(field@ =~= varint(tag as nat * 8 + 3) + buf@.take(n as int));
                }
                let mut nested = put_inside_groups(field, depth - 1);
                nested.push(END_GROUP);
                proof {
                    assert(nested@ =~= inside_groups(
                        varint(tag as nat * 8 + 3) + buf@.take(n as int),
                        (depth - 1) as nat,
                    ) + seq![END_GROUP]);
                }
                match skip(3, 1, nested.as_slice()) {
                    Err(error) => {
                        return Err(error);
                    },
                    Ok(_) => {},
                }
            }
            Ok(rest)
        },
    }
}

/// What a field carries.
pub enum ValueView {
    /// A varint.
    Number(nat),
    /// A length-delimited byte string.
    Bytes(Seq<u8>),
    /// A fixed-width number or a group, which no message here has.
    Other,
}

/// One field of a message.
pub struct FieldView {
    /// The field number.
    pub tag: nat,
    /// What it carries.
    pub value: ValueView,
}

/// A varint field.
pub open spec fn number_field(tag: nat, value: nat) -> FieldView {
    FieldView { tag, value: ValueView::Number(value) }
}

/// A length-delimited field.
pub open spec fn bytes_field(tag: nat, value: Seq<u8>) -> FieldView {
    FieldView { tag, value: ValueView::Bytes(value) }
}

/// Reads one field: the field and the bytes behind it. A key is a varint of
/// at most 32 bits: the field number, then three bits of wire type.
pub open spec fn parse_field(b: Seq<u8>, depth: nat) -> Option<(FieldView, Seq<u8>)> {
    match parse_varint(b) {
        None => None,
        Some((key, rest)) => {
            let tag = key / 8;
            let wire_type = key % 8;
            if key > u32::MAX || tag == 0 {
                None
            } else if wire_type == 0 {
                match parse_varint(rest) {
                    None => None,
                    Some((value, rest)) => Some((number_field(tag, value), rest)),
                }
            } else if wire_type == 2 {
                match parse_varint(rest) {
                    None => None,
                    Some((len, rest)) => if len > rest.len() {
                        None
                    } else {
                        Some((bytes_field(tag, rest.take(len as int)), rest.skip(len as int)))
                    },
                }
            } else if wire_type == 1 || wire_type == 3 || wire_type == 5 {
                match passed(wire_type as u64, tag as u32, rest, depth) {
                    None => None,
                    Some(n) => Some(
                        (FieldView { tag, value: ValueView::Other }, rest.skip(n as int)),
                    ),
                }
            } else {
                None
            }
        },
    }
}

/// Reads the fields of a message that is embedded `depth` levels deep.
pub open spec fn parse_fields(b: Seq<u8>, depth: nat) -> Option<Seq<FieldView>>
    decreases b.len(),
{
    if b.len() == 0 {
        Some(Seq::empty())
    } else {
        match parse_field(b, depth) {
            Some((field, rest)) => if rest.len() < b.len() {
                match parse_fields(rest, depth) {
                    Some(more) => Some(seq![field] + more),
                    None => None,
                }
            } else {
                None
            },
            None => None,
        }
    }
}

/// The bytes of one field.
pub open spec fn field_bytes(field: FieldView) -> Seq<u8> {
    match field.value {
        ValueView::Number(value) => varint(field.tag * 8) + varint(value),
        ValueView::Bytes(value) => varint(field.tag * 8 + 2) + varint(value.len()) + value,
        ValueView::Other => Seq::empty(),
    }
}

/// The bytes of the fields of a message.
pub open spec fn message_bytes(fields: Seq<FieldView>) -> Seq<u8>
    decreases fields.len(),
{
    if fields.len() == 0 {
        Seq::empty()
    } else {
        message_bytes(fields.drop_last()) + field_bytes(fields.last())
    }
}

/// A field that can be written and read back.
pub open spec fn encodable(field: FieldView) -> bool {
    &&& 0 < field.tag < 0x2000_0000
    &&& match field.value {
        ValueView::Number(value) => value <= u64::MAX,
        ValueView::Bytes(value) => value.len() <= u64::MAX,
        ValueView::Other => false,
    }
}

/// The numbers that fit in varints of at most `limit` bytes, all bits used.
spec fn varint_bound(limit: nat) -> nat
    decreases limit,
{
    if limit == 0 {
        1
    } else {
        128 * varint_bound((limit - 1) as nat)
    }
}

/// A varint reads back.
proof fn lemma_varint_within(n: nat, rest: Seq<u8>, limit: nat)
    requires
        limit > 0,
        n < varint_bound(limit),
        n < 2 * varint_bound((limit - 1) as nat),
    ensures
        parse_varint_within(varint(n) + rest, limit) == Some((n, rest)),
        1 <= varint(n).len() <= limit,
    decreases limit,
{
    let b = varint(n) + rest;
    if n < 128 {
        assert(b.skip(1) =~= rest);
        if limit == 1 {
            assert(varint_bound(0) == 1);
        }
    } else {
        let low = n % 128;
        let high = n / 128;
        if limit == 1 {
            assert(varint_bound(0) == 1);
            assert(false);
        }
        assert(varint_bound(limit) == 128 * varint_bound((limit - 1) as nat));
        assert(varint_bound((limit - 1) as nat) == 128 * varint_bound((limit - 2) as nat));
        lemma_varint_within(high, rest, (limit - 1) as nat);
        assert(b.skip(1) =~= varint(high) + rest);
        assert(b[0] == low + 128);
    }
}

/// Every 64-bit number reads back from its varint.
pub proof fn lemma_varint(n: nat, rest: Seq<u8>)
    requires
        n <= u64::MAX,
    ensures
        parse_varint(varint(n) + rest) == Some((n, rest)),
        1 <= varint(n).len() <= 10,
{
    reveal_with_fuel(varint_bound, 11);
    assert(varint_bound(9) == 0x8000_0000_0000_0000nat);
    assert(varint_bound(10) == 128 * varint_bound(9));
    lemma_varint_within(n, rest, 10);
}

/// What reading a varint leaves is a proper suffix, and the number has 64 bits.
proof fn lemma_parse_within(b: Seq<u8>, limit: nat)
    requires
        limit > 0,
    ensures
        parse_varint_within(b, limit) matches Some((n, rest)) ==> {
            &&& rest.len() < b.len()
            &&& n < varint_bound(limit)
            &&& n < 2 * varint_bound((limit - 1) as nat)
        },
    decreases limit,
{
    if limit == 1 {
        assert(varint_bound(0) == 1);
        assert(varint_bound(1) == 128);
        assert(parse_varint_within(b.skip(1), 0) is None);
    } else {
        assert(varint_bound(limit) == 128 * varint_bound((limit - 1) as nat));
        assert(varint_bound((limit - 1) as nat) == 128 * varint_bound((limit - 2) as nat));
        assert(varint_bound((limit - 2) as nat) >= 1) by {
            lemma_bound_positive((limit - 2) as nat);
        }
        lemma_parse_within(b.skip(1), (limit - 1) as nat);
    }
}

proof fn lemma_bound_positive(limit: nat)
    ensures
        varint_bound(limit) >= 1,
    decreases limit,
{
    if limit > 0 {
        lemma_bound_positive((limit - 1) as nat);
    }
}

/// What reading a varint leaves is a proper suffix, and the number has 64 bits.
pub proof fn lemma_parse_varint(b: Seq<u8>)
    ensures
        parse_varint(b) matches Some((n, rest)) ==> rest.len() < b.len() && n <= u64::MAX,
{
    reveal_with_fuel(varint_bound, 11);
    assert(varint_bound(9) == 0x8000_0000_0000_0000nat);
    lemma_parse_within(b, 10);
}

/// A field reads back.
pub proof fn lemma_field(field: FieldView, rest: Seq<u8>, depth: nat)
    requires
        encodable(field),
    ensures
        parse_field(field_bytes(field) + rest, depth) == Some((field, rest)),
        field_bytes(field).len() > 0,
{
    let tag = field.tag;
    match field.value {
        ValueView::Number(value) => {
            let tail = varint(value) + rest;
            assert(field_bytes(field) + rest =~= varint(tag * 8) + tail);
            lemma_varint(tag * 8, tail);
            lemma_varint(value, rest);
            assert((tag * 8) / 8 == tag && (tag * 8) % 8 == 0);
        },
        ValueView::Bytes(value) => {
            let tail = value + rest;
            assert(field_bytes(field) + rest =~= varint(tag * 8 + 2) + (varint(value.len()) + tail));
            lemma_varint(tag * 8 + 2, varint(value.len()) + tail);
            lemma_varint(value.len(), tail);
            assert((tag * 8 + 2) / 8 == tag && (tag * 8 + 2) % 8 == 2);
            assert(tail.take(value.len() as int) =~= value);
            assert(tail.skip(value.len() as int) =~= rest);
        },
        ValueView::Other => {},
    }
}

/// The bytes of fields one after the other.
pub proof fn lemma_message_concat(a: Seq<FieldView>, b: Seq<FieldView>)
    ensures
        message_bytes(a + b) == message_bytes(a) + message_bytes(b),
    decreases b.len(),
{
    if b.len() == 0 {
        assert(a + b =~= a);
        assert(message_bytes(a) + message_bytes(b) =~= message_bytes(a));
    } else {
        assert((a + b).drop_last() =~= a + b.drop_last());
        assert((a + b).last() == b.last());
        lemma_message_concat(a, b.drop_last());
        assert(message_bytes(a + b) =~= message_bytes(a) + message_bytes(b));
    }
}

/// Law: the fields of a message read back from its bytes.
pub proof fn law_message_round_trip(fields: Seq<FieldView>, depth: nat)
    requires
        forall|i: int| 0 <= i < fields.len() ==> encodable(#[trigger] fields[i]),
    ensures
        parse_fields(message_bytes(fields), depth) == Some(fields),
    decreases fields.len(),
{
    if fields.len() > 0 {
        let first = fields[0];
        let more = fields.skip(1);
        assert(fields =~= seq![first] + more);
        lemma_message_concat(seq![first], more);
        assert(seq![first].drop_last() =~= Seq::<FieldView>::empty());
        assert(message_bytes(seq![first]) =~= field_bytes(first)) by {
            reveal_with_fuel(message_bytes, 2);
            assert(seq![first].last() == first);
        }
        let rest = message_bytes(more);
        lemma_field(first, rest, depth);
        assert forall|i: int| 0 <= i < more.len() implies encodable(#[trigger] more[i]) by {
            assert(more[i] == fields[i + 1]);
        }
        law_message_round_trip(more, depth);
    } else {
        assert(fields =~= Seq::<FieldView>::empty());
    }
}

/// What a field read from a message carries.
#[derive(Debug)]
pub enum FieldValue {
    /// A varint.
    Number(u64),
    /// A length-delimited byte string.
    Bytes(Vec<u8>),
    /// A fixed-width number or a group.
    Other,
}

impl View for FieldValue {
    type V = ValueView;

    open spec fn view(&self) -> ValueView {
        match self {
            FieldValue::Number(value) => ValueView::Number(*value as nat),
            FieldValue::Bytes(value) => ValueView::Bytes(value@),
            FieldValue::Other => ValueView::Other,
        }
    }
}

/// A field read from a message.
#[derive(Debug)]
pub struct Field {
    /// The field number.
    pub tag: u32,
    /// What it carries.
    pub value: FieldValue,
}

impl View for Field {
    type V = FieldView;

    open spec fn view(&self) -> FieldView {
        FieldView { tag: self.tag as nat, value: self.value@ }
    }
}

/// What several fields are.
pub open spec fn field_views(fields: Seq<Field>) -> Seq<FieldView> {
    fields.map_values(|f: Field| f@)
}

/// Says that the input ends too early.
fn underflow() -> String {
    String::from_str("failed to decode Protobuf message: buffer underflow")
}

/// Reads one field.
fn read_field(buf: &[u8], depth: u32) -> (r: Result<(Field, &[u8]), String>)
    ensures
        match parse_field(buf@, depth as nat) {
            Some((field, rest)) => {
                &&& r matches Ok(found)
                &&& found.0@ == field
                &&& found.1@ == rest
                &&& rest.len() < buf@.len()
            },
            None => r is Err,
        },
{
    proof {
        lemma_parse_varint(buf@);
    }
    match take_varint(buf) {
        Err(error) => Err(error),
        Ok((key, rest)) => {
            if key > 0xffff_ffff {
                return Err(
                    String::from_str("failed to decode Protobuf message: invalid key value"),
                );
            }
            let tag: u32 = (key / 8) as u32;
            let wire_type: u64 = key % 8;
            if tag == 0 {
                return Err(
                    String::from_str("failed to decode Protobuf message: invalid tag value: 0"),
                );
            }
            proof {
                lemma_parse_varint(rest@);
            }
            if wire_type == 0 {
                match take_varint(rest) {
                    Err(error) => Err(error),
                    Ok((value, rest)) => Ok((Field { tag, value: FieldValue::Number(value) }, rest)),
                }
            } else if wire_type == 2 {
                match take_varint(rest) {
                    Err(error) => Err(error),
                    Ok((len, rest)) => {
                        let available: usize = rest.len();
                        if len > available as u64 {
                            return Err(underflow());
                        }
                        let n: usize = len as usize;
                        let payload = bytes::copy(vstd::slice::slice_subrange(rest, 0, n));
                        let behind = vstd::slice::slice_subrange(rest, n, available);
                        proof {
                            assert(payload@ =~= rest@.take(n as int));
                            assert(behind@ =~= rest@.skip(n as int));
                        }
                        Ok((Field { tag, value: FieldValue::Bytes(payload) }, behind))
                    },
                }
            } else if wire_type == 1 || wire_type == 3 || wire_type == 5 {
                match pass(wire_type, tag, rest, depth) {
                    Err(error) => Err(error),
                    Ok(behind) => Ok((Field { tag, value: FieldValue::Other }, behind)),
                }
            } else {
                Err(String::from_str("failed to decode Protobuf message: invalid wire type"))
            }
        },
    }
}

/// Reads the fields of a message that is embedded `depth` levels deep.
pub fn read_fields(buf: &[u8], depth: u32) -> (r: Result<Vec<Field>, String>)
    ensures
        match parse_fields(buf@, depth as nat) {
            Some(fields) => r matches Ok(found) && field_views(found@) == fields,
            None => r is Err,
        },
{
    let mut found: Vec<Field> = Vec::new();
    let mut rest: &[u8] = buf;
    proof {
        assert(field_views(found@) =~= Seq::<FieldView>::empty());
        assert(parse_fields(buf@, depth as nat) matches Some(more) ==> field_views(found@) + more =~= more);
    }
    while rest.len() > 0
        invariant
            match parse_fields(rest@, depth as nat) {
                Some(more) => parse_fields(buf@, depth as nat) == Some(field_views(found@) + more),
                None => parse_fields(buf@, depth as nat) is None,
            },
        decreases rest@.len(),
    {
        let ghost was = found@;
        match read_field(rest, depth) {
            Err(error) => {
                return Err(error);
            },
            Ok((field, behind)) => {
                let ghost view = field@;
                found.push(field);
                proof {
                    assert(field_views(found@) =~= field_views(was).push(view));
                    if let Some(more) = parse_fields(behind@, depth as nat) {
                        assert(field_views(was) + (seq![view] + more) =~= field_views(found@)
                            + more);
                    }
                }
                rest = behind;
            },
        }
    }
    proof {
        assert(field_views(found@) + Seq::<FieldView>::empty() =~= field_views(found@));
    }
    Ok(found)
}

/// What the fields with one number carry, in order.
pub open spec fn occurrences(fields: Seq<FieldView>, tag: nat) -> Seq<ValueView>
    decreases fields.len(),
{
    if fields.len() == 0 {
        Seq::empty()
    } else {
        let before = occurrences(fields.drop_last(), tag);
        if fields.last().tag == tag {
            before.push(fields.last().value)
        } else {
            before
        }
    }
}

/// Occurrences in fields one after the other.
pub proof fn lemma_occurrences_concat(a: Seq<FieldView>, b: Seq<FieldView>, tag: nat)
    ensures
        occurrences(a + b, tag) == occurrences(a, tag) + occurrences(b, tag),
    decreases b.len(),
{
    if b.len() == 0 {
        assert(a + b =~= a);
        assert(occurrences(a, tag) + occurrences(b, tag) =~= occurrences(a, tag));
    } else {
        assert((a + b).drop_last() =~= a + b.drop_last());
        assert((a + b).last() == b.last());
        lemma_occurrences_concat(a, b.drop_last(), tag);
        assert(occurrences(a + b, tag) =~= occurrences(a, tag) + occurrences(b, tag));
    }
}

/// Every value is a byte string.
pub open spec fn all_bytes(values: Seq<ValueView>) -> bool {
    forall|i: int| 0 <= i < values.len() ==> (#[trigger] values[i]) is Bytes
}

/// Every value is a number.
pub open spec fn all_numbers(values: Seq<ValueView>) -> bool {
    forall|i: int| 0 <= i < values.len() ==> (#[trigger] values[i]) is Number
}

/// The byte strings among the values.
pub open spec fn byte_strings(values: Seq<ValueView>) -> Seq<Seq<u8>> {
    values.map_values(|v: ValueView| v->Bytes_0)
}

/// The last byte string, or the empty one.
pub open spec fn last_bytes(values: Seq<ValueView>) -> Seq<u8> {
    if values.len() == 0 {
        Seq::empty()
    } else {
        values.last()->Bytes_0
    }
}

/// The last number, or zero.
pub open spec fn last_number(values: Seq<ValueView>) -> nat {
    if values.len() == 0 {
        0
    } else {
        values.last()->Number_0
    }
}

/// Says that a field has another wire type than its message declares.
fn wrong_wire_type() -> String {
    String::from_str("failed to decode Protobuf message: invalid wire type")
}

/// Collects the byte strings that a field carries.
pub fn pick_bytes(fields: &Vec<Field>, tag: u32) -> (r: Result<Vec<Vec<u8>>, String>)
    ensures
        ({
            let found = occurrences(field_views(fields@), tag as nat);
            &&& r is Ok <==> all_bytes(found)
            &&& r matches Ok(list) ==> bytes::views(list@) == byte_strings(found)
        }),
{
    let mut list: Vec<Vec<u8>> = Vec::new();
    let mut i: usize = 0;
    let ghost all = field_views(fields@);
    proof {
        assert(occurrences(all.take(0), tag as nat) =~= Seq::<ValueView>::empty());
        assert(bytes::views(list@) =~= byte_strings(occurrences(all.take(0), tag as nat)));
    }
    while i < fields.len()
        invariant
            i <= fields@.len(),
            all == field_views(fields@),
            all_bytes(occurrences(all.take(i as int), tag as nat)),
            bytes::views(list@) == byte_strings(occurrences(all.take(i as int), tag as nat)),
        decreases fields@.len() - i,
    {
        let ghost before = occurrences(all.take(i as int), tag as nat);
        let ghost was = list@;
        proof {
            assert(all.take(i + 1).drop_last() =~= all.take(i as int));
            assert(all.take(i + 1).last() == fields@[i as int]@);
        }
        if fields[i].tag == tag {
            match &fields[i].value {
                FieldValue::Bytes(value) => {
                    list.push(bytes::copy(value.as_slice()));
                    proof {
                        let now = occurrences(all.take(i + 1), tag as nat);
                        assert(now == before.push(ValueView::Bytes(value@)));
                        assert(bytes::views(list@) =~= bytes::views(was).push(value@));
                        assert(byte_strings(now) =~= byte_strings(before).push(value@));
                    }
                },
                _ => {
                    proof {
                        lemma_occurrence_stays(all, i as int, tag as nat);
                    }
                    return Err(wrong_wire_type());
                },
            }
        }
        i = i + 1;
    }
    proof {
        assert(all.take(i as int) =~= all);
    }
    Ok(list)
}

/// A field's value is among the occurrences.
proof fn lemma_occurrence_stays(fields: Seq<FieldView>, i: int, tag: nat)
    requires
        0 <= i < fields.len(),
        fields[i].tag == tag,
    ensures
        occurrences(fields, tag).contains(fields[i].value),
{
    let a = fields.take(i + 1);
    let b = fields.skip(i + 1);
    assert(fields =~= a + b);
    lemma_occurrences_concat(a, b, tag);
    let x = occurrences(a, tag);
    assert(a.last() == fields[i]);
    assert(x[x.len() - 1] == fields[i].value);
    assert((x + occurrences(b, tag))[x.len() - 1] == fields[i].value);
}

/// Returns the last number that a field carries, or zero.
pub fn pick_number(fields: &Vec<Field>, tag: u32) -> (r: Result<u64, String>)
    ensures
        ({
            let found = occurrences(field_views(fields@), tag as nat);
            &&& r is Ok <==> all_numbers(found)
            &&& r matches Ok(number) ==> number == last_number(found)
        }),
{
    let mut last: u64 = 0;
    let mut i: usize = 0;
    let ghost all = field_views(fields@);
    proof {
        assert(occurrences(all.take(0), tag as nat) =~= Seq::<ValueView>::empty());
    }
    while i < fields.len()
        invariant
            i <= fields@.len(),
            all == field_views(fields@),
            all_numbers(occurrences(all.take(i as int), tag as nat)),
            last == last_number(occurrences(all.take(i as int), tag as nat)),
        decreases fields@.len() - i,
    {
        proof {
            assert(all.take(i + 1).drop_last() =~= all.take(i as int));
            assert(all.take(i + 1).last() == fields@[i as int]@);
        }
        if fields[i].tag == tag {
            match &fields[i].value {
                FieldValue::Number(value) => {
                    last = *value;
                },
                _ => {
                    proof {
                        lemma_occurrence_stays(all, i as int, tag as nat);
                    }
                    return Err(wrong_wire_type());
                },
            }
        }
        i = i + 1;
    }
    proof {
        assert(all.take(i as int) =~= all);
    }
    Ok(last)
}

/// Returns the last of several byte strings, or the empty one.
pub fn last_of(list: Vec<Vec<u8>>) -> (r: Vec<u8>)
    ensures
        r@ == if list@.len() == 0 {
            Seq::<u8>::empty()
        } else {
            list@.last()@
        },
{
    let n: usize = list.len();
    if n == 0 {
        Vec::new()
    } else {
        bytes::copy(list[n - 1].as_slice())
    }
}

/// Returns the last byte string that a field carries, or the empty one.
pub fn pick_last_bytes(fields: &Vec<Field>, tag: u32) -> (r: Result<Vec<u8>, String>)
    ensures
        ({
            let found = occurrences(field_views(fields@), tag as nat);
            &&& r is Ok <==> all_bytes(found)
            &&& r matches Ok(value) ==> value@ == last_bytes(found)
        }),
{
    match pick_bytes(fields, tag) {
        Err(error) => Err(error),
        Ok(list) => {
            proof {
                let found = occurrences(field_views(fields@), tag as nat);
                assert(bytes::views(list@).len() == list@.len());
                if list@.len() > 0 {
                    assert(bytes::views(list@)[list@.len() - 1] == list@.last()@);
                    assert(byte_strings(found)[found.len() - 1] == found.last()->Bytes_0);
                }
            }
            Ok(last_of(list))
        },
    }
}

/// Reads the occurrences of one embedded message: their fields stand one
/// after the other.
pub open spec fn parse_merged(payloads: Seq<Seq<u8>>, depth: nat) -> Option<Seq<FieldView>>
    decreases payloads.len(),
{
    if payloads.len() == 0 {
        Some(Seq::empty())
    } else {
        match (parse_merged(payloads.drop_last(), depth), parse_fields(payloads.last(), depth)) {
            (Some(a), Some(b)) => Some(a + b),
            _ => None,
        }
    }
}

/// Reads the occurrences of one embedded message.
pub fn read_merged(payloads: &Vec<Vec<u8>>, depth: u32) -> (r: Result<Vec<Field>, String>)
    ensures
        match parse_merged(bytes::views(payloads@), depth as nat) {
            Some(fields) => r matches Ok(found) && field_views(found@) == fields,
            None => r is Err,
        },
{
    let mut found: Vec<Field> = Vec::new();
    let mut i: usize = 0;
    let ghost all = bytes::views(payloads@);
    proof {
        assert(all.take(0) =~= Seq::<Seq<u8>>::empty());
        assert(field_views(found@) =~= Seq::<FieldView>::empty());
    }
    while i < payloads.len()
        invariant
            i <= payloads@.len(),
            all == bytes::views(payloads@),
            parse_merged(all.take(i as int), depth as nat) == Some(field_views(found@)),
        decreases payloads@.len() - i,
    {
        let ghost was = found@;
        proof {
            assert(all.take(i + 1).drop_last() =~= all.take(i as int));
            assert(all.take(i + 1).last() == payloads@[i as int]@);
        }
        match read_fields(payloads[i].as_slice(), depth) {
            Err(error) => {
                proof {
                    lemma_merged_fails(all, i + 1, depth as nat);
                }
                return Err(error);
            },
            Ok(more) => {
                let mut more = more;
                let ghost added = more@;
                found.append(&mut more);
                proof {
                    assert(found@ =~= was + added);
                    assert(field_views(found@) =~= field_views(was) + field_views(added));
                }
            },
        }
        i = i + 1;
    }
    proof {
        assert(all.take(i as int) =~= all);
    }
    Ok(found)
}

/// When the first payloads do not read, all of them do not.
proof fn lemma_merged_fails(payloads: Seq<Seq<u8>>, n: int, depth: nat)
    requires
        0 <= n <= payloads.len(),
        parse_merged(payloads.take(n), depth) is None,
    ensures
        parse_merged(payloads, depth) is None,
    decreases payloads.len(),
{
    if n == payloads.len() {
        assert(payloads.take(n) =~= payloads);
    } else {
        assert(payloads.drop_last().take(n) =~= payloads.take(n));
        lemma_merged_fails(payloads.drop_last(), n, depth);
    }
}

/// A number field that is left out when it is zero.
pub open spec fn nonzero(tag: nat, value: nat) -> Seq<FieldView> {
    if value == 0 {
        Seq::empty()
    } else {
        seq![number_field(tag, value)]
    }
}

/// A bytes field that is left out when it is empty.
pub open spec fn nonempty(tag: nat, value: Seq<u8>) -> Seq<FieldView> {
    if value.len() == 0 {
        Seq::empty()
    } else {
        seq![bytes_field(tag, value)]
    }
}

/// A repeated bytes field.
pub open spec fn repeated(tag: nat, values: Seq<Seq<u8>>) -> Seq<FieldView> {
    values.map_values(|v: Seq<u8>| bytes_field(tag, v))
}

/// The bytes of a message with one field.
pub proof fn lemma_single(field: FieldView)
    ensures
        message_bytes(seq![field]) == field_bytes(field),
        message_bytes(Seq::<FieldView>::empty()) == Seq::<u8>::empty(),
{
    reveal_with_fuel(message_bytes, 2);
    assert(seq![field].drop_last() =~= Seq::<FieldView>::empty());
    assert(seq![field].last() == field);
    assert(Seq::<u8>::empty() + field_bytes(field) =~= field_bytes(field));
}

/// Appends a number field.
pub fn put_number(buf: &mut Vec<u8>, tag: u32, value: u64)
    requires
        tag < 0x2000_0000,
    ensures
        final(buf)@ == old(buf)@ + field_bytes(number_field(tag as nat, value as nat)),
{
    let ghost was = buf@;
    put_varint(buf, tag as u64 * 8);
    put_varint(buf, value);
    proof {
        assert(buf@ =~= was + field_bytes(number_field(tag as nat, value as nat)));
    }
}

/// Appends a bytes field.
pub fn put_bytes(buf: &mut Vec<u8>, tag: u32, value: &[u8])
    requires
        tag < 0x2000_0000,
    ensures
        final(buf)@ == old(buf)@ + field_bytes(bytes_field(tag as nat, value@)),
{
    let ghost was = buf@;
    put_varint(buf, tag as u64 * 8 + 2);
    put_varint(buf, value.len() as u64);
    bytes::append(buf, value);
    proof {
        assert(buf@ =~= was + field_bytes(bytes_field(tag as nat, value@)));
    }
}

/// Appends a number field unless the number is zero.
pub fn put_nonzero(buf: &mut Vec<u8>, tag: u32, value: u64)
    requires
        tag < 0x2000_0000,
    ensures
        final(buf)@ == old(buf)@ + message_bytes(nonzero(tag as nat, value as nat)),
{
    let ghost was = buf@;
    proof {
        lemma_single(number_field(tag as nat, value as nat));
    }
    if value != 0 {
        put_number(buf, tag, value);
    }
    proof {
        assert(buf@ =~= was + message_bytes(nonzero(tag as nat, value as nat)));
    }
}

/// Appends a bytes field unless the byte string is empty.
pub fn put_nonempty(buf: &mut Vec<u8>, tag: u32, value: &[u8])
    requires
        tag < 0x2000_0000,
    ensures
        final(buf)@ == old(buf)@ + message_bytes(nonempty(tag as nat, value@)),
{
    let ghost was = buf@;
    proof {
        lemma_single(bytes_field(tag as nat, value@));
    }
    if value.len() != 0 {
        put_bytes(buf, tag, value);
    }
    proof {
        assert(buf@ =~= was + message_bytes(nonempty(tag as nat, value@)));
    }
}

/// Reads the fields of an embedded message.
pub open spec fn embedded(fields: Seq<FieldView>, tag: nat, depth: nat) -> Option<Seq<FieldView>> {
    let found = occurrences(fields, tag);
    if all_bytes(found) {
        parse_merged(byte_strings(found), depth)
    } else {
        None
    }
}

/// Reads the fields of an embedded message, which has none when it is absent.
pub fn read_embedded(fields: &Vec<Field>, tag: u32, depth: u32) -> (r: Result<Vec<Field>, String>)
    ensures
        match embedded(field_views(fields@), tag as nat, depth as nat) {
            Some(inner) => r matches Ok(found) && field_views(found@) == inner,
            None => r is Err,
        },
{
    match pick_bytes(fields, tag) {
        Err(error) => Err(error),
        Ok(list) => read_merged(&list, depth),
    }
}

/// Reports whether a field occurs.
pub fn occurs(fields: &Vec<Field>, tag: u32) -> (r: bool)
    ensures
        r == (occurrences(field_views(fields@), tag as nat).len() > 0),
{
    let mut i: usize = 0;
    let ghost all = field_views(fields@);
    proof {
        assert(all.take(0) =~= Seq::<FieldView>::empty());
    }
    while i < fields.len()
        invariant
            i <= fields@.len(),
            all == field_views(fields@),
            occurrences(all.take(i as int), tag as nat).len() == 0,
        decreases fields@.len() - i,
    {
        if fields[i].tag == tag {
            proof {
                lemma_occurrence_stays(all, i as int, tag as nat);
            }
            return true;
        }
        proof {
            assert(all.take(i + 1).drop_last() =~= all.take(i as int));
            assert(all.take(i + 1).last() == fields@[i as int]@);
        }
        i = i + 1;
    }
    proof {
        assert(all.take(i as int) =~= all);
    }
    false
}

/// Returns the length of a varint with `prost::encoding::encoded_len_varint`,
/// which gives the number of bytes that `encode_varint` writes.
#[verifier::external_body]
pub(crate) fn varint_len(value: u64) -> (r: usize)
    ensures
        r == varint(value as nat).len(),
{
    prost::encoding::encoded_len_varint(value)
}

/// The size of a length-delimited field around a payload of `len` bytes.
pub open spec fn field_size(tag: nat, len: nat) -> nat {
    varint(tag * 8 + 2).len() + varint(len).len() + len
}

/// Returns the size of a length-delimited field around a payload of `len`
/// bytes.
pub fn length_delimited_field(tag: u32, len: usize) -> (r: usize)
    requires
        0 < tag < 0x2000_0000,
        field_size(tag as nat, len as nat) <= usize::MAX,
    ensures
        r == field_size(tag as nat, len as nat),
{
    let key: usize = varint_len(tag as u64 * 8 + 2);
    let prefix: usize = varint_len(len as u64);
    key + prefix + len
}

/// Returns the size of a length-delimited field, which is left out when its
/// payload is empty.
pub fn nonempty_length_delimited_field(tag: u32, len: usize) -> (r: usize)
    requires
        0 < tag < 0x2000_0000,
        field_size(tag as nat, len as nat) <= usize::MAX,
    ensures
        r == if len == 0 {
            0
        } else {
            field_size(tag as nat, len as nat)
        },
{
    if len == 0 {
        0
    } else {
        length_delimited_field(tag, len)
    }
}

/// The size of a length-delimited field is the length of its bytes.
pub proof fn lemma_field_size(tag: nat, value: Seq<u8>)
    ensures
        field_bytes(bytes_field(tag, value)).len() == field_size(tag, value.len()),
{
}

/// A longer payload makes a larger field; small keys and lengths take few
/// bytes.
pub proof fn lemma_field_size_bounds(tag: nat, len: nat)
    requires
        0 < tag < 16,
        len <= u64::MAX,
    ensures
        len + 2 <= field_size(tag, len) <= len + 11,
{
    lemma_varint(len, Seq::empty());
    assert(varint(tag * 8 + 2).len() == 1);
}

/// Longer varints belong to greater numbers.
pub proof fn lemma_varint_monotone(a: nat, b: nat)
    requires
        a <= b,
    ensures
        varint(a).len() <= varint(b).len(),
        varint(a).len() >= 1,
    decreases b,
{
    if b >= 128 && a >= 128 {
        assert(a / 128 <= b / 128);
        lemma_varint_monotone(a / 128, b / 128);
    } else if b >= 128 {
        lemma_varint_monotone(b / 128, b / 128);
    }
}

/// A field other than a fixed-width number or a group, with a valid number.
pub open spec fn writable(field: FieldView) -> bool {
    &&& 0 < field.tag < 0x2000_0000
    &&& match field.value {
        ValueView::Number(value) => value <= u64::MAX,
        ValueView::Bytes(_) => true,
        ValueView::Other => false,
    }
}

/// Every field is writable.
pub open spec fn all_writable(fields: Seq<FieldView>) -> bool {
    forall|i: int| 0 <= i < fields.len() ==> writable(#[trigger] fields[i])
}

/// The fields of a message of addressable size can be written and read back.
pub proof fn lemma_encodable(fields: Seq<FieldView>)
    requires
        all_writable(fields),
        message_bytes(fields).len() <= u64::MAX,
    ensures
        forall|i: int| 0 <= i < fields.len() ==> encodable(#[trigger] fields[i]),
        forall|i: int|
            0 <= i < fields.len() ==> field_bytes(#[trigger] fields[i]).len() <= message_bytes(
                fields,
            ).len(),
    decreases fields.len(),
{
    if fields.len() > 0 {
        let rest = fields.drop_last();
        assert forall|i: int| 0 <= i < rest.len() implies writable(#[trigger] rest[i]) by {
            assert(rest[i] == fields[i]);
        }
        lemma_encodable(rest);
        assert forall|i: int| 0 <= i < fields.len() implies encodable(#[trigger] fields[i])
            && field_bytes(fields[i]).len() <= message_bytes(fields).len() by {
            if i < rest.len() {
                assert(rest[i] == fields[i]);
            } else {
                assert(writable(fields[i]));
            }
        }
    }
}

/// Law: the fields of a message of addressable size read back from its bytes.
pub proof fn law_written_message_is_read(fields: Seq<FieldView>, depth: nat)
    requires
        all_writable(fields),
        message_bytes(fields).len() <= u64::MAX,
    ensures
        parse_fields(message_bytes(fields), depth) == Some(fields),
{
    lemma_encodable(fields);
    law_message_round_trip(fields, depth);
}

/// Fields that all have one number, and what they carry.
pub open spec fn carries(fields: Seq<FieldView>, tag: nat, values: Seq<ValueView>) -> bool {
    &&& fields.len() == values.len()
    &&& forall|i: int|
        0 <= i < fields.len() ==> (#[trigger] fields[i]).tag == tag && fields[i].value == values[i]
}

/// Occurrences among fields that all have one number.
pub proof fn lemma_carries(fields: Seq<FieldView>, tag: nat, values: Seq<ValueView>, other: nat)
    requires
        carries(fields, tag, values),
    ensures
        occurrences(fields, other) == if other == tag {
            values
        } else {
            Seq::empty()
        },
    decreases fields.len(),
{
    if fields.len() > 0 {
        let rest = fields.drop_last();
        assert(forall|i: int| 0 <= i < rest.len() ==> rest[i] == fields[i]);
        lemma_carries(rest, tag, values.drop_last(), other);
        assert(values.drop_last().push(values.last()) =~= values);
        assert(fields[fields.len() - 1].tag == tag);
    } else {
        assert(values =~= Seq::<ValueView>::empty());
    }
}

/// Occurrences when fields that all have one number stand in front of others.
pub proof fn lemma_in_front(
    fields: Seq<FieldView>,
    tag: nat,
    values: Seq<ValueView>,
    rest: Seq<FieldView>,
)
    requires
        carries(fields, tag, values),
    ensures
        forall|other: nat| #[trigger]
            occurrences(fields + rest, other) == if other == tag {
                values + occurrences(rest, other)
            } else {
                occurrences(rest, other)
            },
{
    assert forall|other: nat| #[trigger]
        occurrences(fields + rest, other) == if other == tag {
            values + occurrences(rest, other)
        } else {
            occurrences(rest, other)
        } by {
        lemma_occurrences_concat(fields, rest, other);
        lemma_carries(fields, tag, values, other);
        assert(Seq::<ValueView>::empty() + occurrences(rest, other) =~= occurrences(rest, other));
    }
}

/// What an optional number field carries.
pub open spec fn number_values(value: nat) -> Seq<ValueView> {
    if value == 0 {
        Seq::empty()
    } else {
        seq![ValueView::Number(value)]
    }
}

/// What an optional bytes field carries.
pub open spec fn bytes_values(value: Seq<u8>) -> Seq<ValueView> {
    if value.len() == 0 {
        Seq::empty()
    } else {
        seq![ValueView::Bytes(value)]
    }
}

/// What a repeated bytes field carries.
pub open spec fn list_values(values: Seq<Seq<u8>>) -> Seq<ValueView> {
    values.map_values(|v: Seq<u8>| ValueView::Bytes(v))
}

/// An optional number field reads back.
pub proof fn lemma_nonzero(tag: nat, value: nat)
    requires
        0 < tag < 0x2000_0000,
        value <= u64::MAX,
    ensures
        carries(nonzero(tag, value), tag, number_values(value)),
        all_numbers(number_values(value)),
        last_number(number_values(value)) == value,
        all_writable(nonzero(tag, value)),
{
}

/// An optional bytes field reads back.
pub proof fn lemma_nonempty(tag: nat, value: Seq<u8>)
    requires
        0 < tag < 0x2000_0000,
    ensures
        carries(nonempty(tag, value), tag, bytes_values(value)),
        all_bytes(bytes_values(value)),
        last_bytes(bytes_values(value)) == value,
        all_writable(nonempty(tag, value)),
{
    if value.len() == 0 {
        assert(value =~= Seq::<u8>::empty());
    }
}

/// A repeated bytes field reads back.
pub proof fn lemma_repeated(tag: nat, values: Seq<Seq<u8>>)
    requires
        0 < tag < 0x2000_0000,
    ensures
        carries(repeated(tag, values), tag, list_values(values)),
        all_bytes(list_values(values)),
        byte_strings(list_values(values)) == values,
        all_writable(repeated(tag, values)),
{
    assert(byte_strings(list_values(values)) =~= values);
}

/// Fields one after the other are writable when both are.
pub proof fn lemma_writable_concat(a: Seq<FieldView>, b: Seq<FieldView>)
    requires
        all_writable(a),
        all_writable(b),
    ensures
        all_writable(a + b),
{
    assert forall|i: int| 0 <= i < (a + b).len() implies writable(#[trigger] (a + b)[i]) by {
        if i < a.len() {
            assert((a + b)[i] == a[i]);
        } else {
            assert((a + b)[i] == b[i - a.len()]);
        }
    }
}

/// One occurrence of an embedded message reads back.
pub proof fn lemma_embedded_once(fields: Seq<FieldView>, tag: nat, inner: Seq<FieldView>, depth: nat)
    requires
        occurrences(fields, tag) == seq![ValueView::Bytes(message_bytes(inner))],
        all_writable(inner),
        message_bytes(inner).len() <= u64::MAX,
    ensures
        embedded(fields, tag, depth) == Some(inner),
{
    let found = occurrences(fields, tag);
    let payloads = byte_strings(found);
    assert(payloads =~= seq![message_bytes(inner)]);
    law_written_message_is_read(inner, depth);
    reveal_with_fuel(parse_merged, 2);
    assert(payloads.drop_last() =~= Seq::<Seq<u8>>::empty());
    assert(payloads.last() == message_bytes(inner));
    assert(Seq::<FieldView>::empty() + inner =~= inner);
}

/// An absent embedded message has no fields.
pub proof fn lemma_embedded_absent(fields: Seq<FieldView>, tag: nat, depth: nat)
    requires
        occurrences(fields, tag).len() == 0,
    ensures
        embedded(fields, tag, depth) == Some(Seq::<FieldView>::empty()),
{
    assert(byte_strings(occurrences(fields, tag)) =~= Seq::<Seq<u8>>::empty());
}

/// A field takes no more bytes than its message.
pub proof fn lemma_part_fits(fields: Seq<FieldView>, i: int)
    requires
        all_writable(fields),
        message_bytes(fields).len() <= u64::MAX,
        0 <= i < fields.len(),
        fields[i].value is Bytes,
    ensures
        fields[i].value->Bytes_0.len() <= message_bytes(fields).len(),
{
    lemma_encodable(fields);
    assert(field_bytes(fields[i]).len() <= message_bytes(fields).len());
}

/// Returns the size of a length-delimited field around a payload of `len`
/// bytes, unless it exceeds the address space.
pub fn checked_field(tag: u32, len: usize) -> (r: Option<usize>)
    requires
        0 < tag < 0x2000_0000,
    ensures
        r is Some <==> field_size(tag as nat, len as nat) <= usize::MAX,
        r matches Some(size) ==> size == field_size(tag as nat, len as nat),
{
    proof {
        lemma_varint(tag as nat * 8 + 2, Seq::empty());
        lemma_varint(len as nat, Seq::empty());
    }
    let overhead: usize = varint_len(tag as u64 * 8 + 2) + varint_len(len as u64);
    len.checked_add(overhead)
}

/// Law: of several values of a field the last one counts, and a field without a
/// value is empty or zero.
pub proof fn law_last_value_counts(values: Seq<ValueView>, last: ValueView)
    ensures
        last matches ValueView::Bytes(b) ==> last_bytes(values.push(last)) == b,
        last matches ValueView::Number(n) ==> last_number(values.push(last)) == n,
        last_bytes(Seq::empty()) == Seq::<u8>::empty(),
        last_number(Seq::empty()) == 0,
{
}

/// Law: the values of a field are those under its number, in the order in which
/// they stand; fields under other numbers are passed over.
pub proof fn law_values_of_a_field(fields: Seq<FieldView>, last: FieldView, tag: nat)
    ensures
        occurrences(fields.push(last), tag) == if last.tag == tag {
            occurrences(fields, tag).push(last.value)
        } else {
            occurrences(fields, tag)
        },
        occurrences(Seq::empty(), tag).len() == 0,
{
    assert(fields.push(last).drop_last() =~= fields);
}

/// Law: a message that comes in parts is their fields, one part behind the other.
pub proof fn law_message_parts_are_joined(payloads: Seq<Seq<u8>>, last: Seq<u8>, depth: nat)
    ensures
        parse_merged(payloads.push(last), depth) == (match (
            parse_merged(payloads, depth),
            parse_fields(last, depth),
        ) {
            (Some(before), Some(more)) => Some(before + more),
            _ => None,
        }),
{
    assert(payloads.push(last).drop_last() =~= payloads);
}

} // verus!
