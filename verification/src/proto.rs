//! Schema-less protobuf wire parsing and the CSHead frame header.

use vstd::prelude::*;
use vstd::bytes::{
    spec_u32_from_le_bytes, spec_u32_to_le_bytes, spec_u64_from_le_bytes, spec_u64_to_le_bytes,
    u32_from_le_bytes, u64_from_le_bytes,
};

use crate::bytes::copy_range;

verus! {

/// A field value as it appears on the wire, before any interpretation.
#[derive(Debug, Clone)]
pub enum RawValue {
    Varint(u64),
    Fixed32(u32),
    Fixed64(u64),
    Bytes(Vec<u8>),
}

/// Mathematical value of a [`RawValue`].
pub enum FieldValue {
    Varint(u64),
    Fixed32(u32),
    Fixed64(u64),
    Bytes(Seq<u8>),
}

impl View for RawValue {
    type V = FieldValue;

    open spec fn view(&self) -> FieldValue {
        match self {
            RawValue::Varint(v) => FieldValue::Varint(*v),
            RawValue::Fixed32(v) => FieldValue::Fixed32(*v),
            RawValue::Fixed64(v) => FieldValue::Fixed64(*v),
            RawValue::Bytes(b) => FieldValue::Bytes(b@),
        }
    }
}

/// The integer payload of a varint field, if the value is one.
pub open spec fn varint_of(v: FieldValue) -> Option<u64> {
    match v {
        FieldValue::Varint(x) => Some(x),
        _ => None,
    }
}

impl RawValue {
    pub fn as_varint(&self) -> (r: Option<u64>)
        ensures
            r == varint_of(self@),
    {
        match self {
            RawValue::Varint(v) => Some(*v),
            _ => None,
        }
    }

    /// The varint payload truncated to its low 32 bits, read as signed.
    pub fn as_i32(&self) -> (r: Option<i32>)
        ensures
            r == (match varint_of(self@) {
                Some(v) => Some(v as i32),
                None => None,
            }),
    {
        match self.as_varint() {
            Some(v) => Some(#[verifier::truncate] (v as i32)),
            None => None,
        }
    }

    /// The varint payload truncated to its low 32 bits.
    pub fn as_u32(&self) -> (r: Option<u32>)
        ensures
            r == (match varint_of(self@) {
                Some(v) => Some(v as u32),
                None => None,
            }),
    {
        match self.as_varint() {
            Some(v) => Some(#[verifier::truncate] (v as u32)),
            None => None,
        }
    }

    /// Whether the varint payload is nonzero.
    pub fn as_bool(&self) -> (r: Option<bool>)
        ensures
            r == (match varint_of(self@) {
                Some(v) => Some(v != 0),
                None => None,
            }),
    {
        match self.as_varint() {
            Some(v) => Some(v != 0),
            None => None,
        }
    }
}

/// Most bytes a varint may span.
pub const MAX_VARINT_LEN: usize = 10;

/// The low seven bits of `b`, placed at bit `7 * i`.
pub open spec fn varint_digit(b: u8, i: int) -> u64 {
    ((b & 0x7f) as u64) << ((7 * i) as u64)
}

/// The value of base-128 little-endian digits: the low seven bits of byte `i`
/// are bits `7 * i ..` of the result.
pub open spec fn varint_value(digits: Seq<u8>) -> u64
    decreases digits.len(),
{
    if digits.len() == 0 {
        0
    } else {
        varint_value(digits.drop_last()) | varint_digit(digits.last(), digits.len() - 1)
    }
}

/// Number of bytes of the varint at position `i` onwards: one past the first
/// byte without its high bit, looking no further than the first ten bytes.
pub open spec fn varint_len_from(data: Seq<u8>, i: int) -> Option<int>
    decreases MAX_VARINT_LEN - i,
{
    if i < 0 || i >= MAX_VARINT_LEN || i >= data.len() {
        None
    } else if data[i] & 0x80 == 0 {
        Some(i + 1)
    } else {
        varint_len_from(data, i + 1)
    }
}

/// The varint at the start of `data` and the number of bytes it spans.
pub open spec fn varint_at(data: Seq<u8>) -> Option<(u64, int)> {
    match varint_len_from(data, 0) {
        Some(n) => Some((varint_value(data.take(n)), n)),
        None => None,
    }
}

proof fn lemma_varint_len_bounds(data: Seq<u8>, i: int)
    requires
        0 <= i,
    ensures
        varint_len_from(data, i) matches Some(n) ==> i < n <= data.len() && n <= MAX_VARINT_LEN,
    decreases MAX_VARINT_LEN - i,
{
    if i < MAX_VARINT_LEN && i < data.len() && data[i] & 0x80 != 0 {
        lemma_varint_len_bounds(data, i + 1);
    }
}

/// A varint starting at `data[0]` spans between one and ten bytes of `data`.
pub proof fn lemma_varint_at_bounds(data: Seq<u8>)
    ensures
        varint_at(data) matches Some((_, n)) ==> 1 <= n <= data.len() && n <= MAX_VARINT_LEN,
{
    lemma_varint_len_bounds(data, 0);
}

proof fn lemma_varint_len_shape(data: Seq<u8>, i: int)
    requires
        0 <= i,
    ensures
        varint_len_from(data, i) is None <==> forall|j: int|
            i <= j < data.len() && j < MAX_VARINT_LEN ==> #[trigger] data[j] & 0x80 != 0,
        varint_len_from(data, i) matches Some(n) ==> i < n && data[n - 1] & 0x80 == 0 && forall|j: int|
            i <= j < n - 1 ==> #[trigger] data[j] & 0x80 != 0,
    decreases MAX_VARINT_LEN - i,
{
    if i < MAX_VARINT_LEN && i < data.len() && data[i] & 0x80 != 0 {
        lemma_varint_len_shape(data, i + 1);
    }
}

/// A varint is read from `data` exactly when one of its first ten bytes is
/// below `0x80`; it then ends at the first such byte, and its value is the
/// low seven bits of each of its bytes, least significant group first.
pub proof fn lemma_varint_at_shape(data: Seq<u8>)
    ensures
        varint_at(data) is None <==> forall|j: int| 0 <= j < data.len() && j < MAX_VARINT_LEN ==> #[trigger] data[j] >= 0x80,
        varint_at(data) matches Some((v, n)) ==> {
            &&& data[n - 1] < 0x80
            &&& forall|j: int| 0 <= j < n - 1 ==> #[trigger] data[j] >= 0x80
            &&& v == varint_value(data.take(n))
        },
{
    lemma_varint_len_shape(data, 0);
    assert forall|b: u8| (b & 0x80 == 0) <==> b < 0x80 by {
        assert((b & 0x80 == 0) <==> b < 0x80) by (bit_vector);
    }
}

/// Decode a single base-128 varint. Returns `(value, bytes_consumed)`.
fn read_varint(data: &[u8]) -> (r: Option<(u64, usize)>)
    ensures
        r == (match varint_at(data@) {
            Some((v, n)) => Some((v, n as usize)),
            None => None,
        }),
{
    let mut result: u64 = 0;
    let mut i: usize = 0;
    while i < data.len() && i < MAX_VARINT_LEN
        invariant
            i <= MAX_VARINT_LEN,
            i <= data.len(),
            result == varint_value(data@.take(i as int)),
            varint_len_from(data@, 0) == varint_len_from(data@, i as int),
        decreases MAX_VARINT_LEN - i,
    {
        let byte = data[i];
        let bits = (byte & 0x7f) as u64;
        let shift = 7 * (i as u64);
        assert(data@.take(i + 1).drop_last() =~= data@.take(i as int));
        result = result | (bits << shift);
        assert(result == varint_value(data@.take(i + 1)));
        if byte & 0x80 == 0 {
            return Some((result, i + 1));
        }
        i += 1;
    }
    None
}

/// Largest field number protobuf allows.
pub const MAX_FIELD_NUMBER: u32 = 0x1FFF_FFFF;

/// One field at the start of `data`: its number, its value and how many bytes
/// it spans.  The field number is the tag shifted right by three, and must
/// lie in `1..=MAX_FIELD_NUMBER`; the low three bits of the tag select the
/// wire type.
pub open spec fn field_at(data: Seq<u8>) -> Option<(u32, FieldValue, int)> {
    match varint_at(data) {
        None => None,
        Some((tag, n)) => {
            let number = (tag >> 3) as u32;
            let wire_type = tag & 7;
            let rest = data.skip(n);
            if tag >> 3 == 0 || tag >> 3 > MAX_FIELD_NUMBER as u64 {
                None
            } else if wire_type == 0 {
                match varint_at(rest) {
                    Some((v, m)) => Some((number, FieldValue::Varint(v), n + m)),
                    None => None,
                }
            } else if wire_type == 1 {
                if rest.len() < 8 {
                    None
                } else {
                    Some((number, FieldValue::Fixed64(spec_u64_from_le_bytes(rest.take(8))), n + 8))
                }
            } else if wire_type == 2 {
                match varint_at(rest) {
                    Some((len, m)) => if len > rest.len() - m {
                        None
                    } else {
                        Some((number, FieldValue::Bytes(rest.subrange(m, m + len)), n + m + len))
                    },
                    None => None,
                }
            } else if wire_type == 5 {
                if rest.len() < 4 {
                    None
                } else {
                    Some((number, FieldValue::Fixed32(spec_u32_from_le_bytes(rest.take(4))), n + 4))
                }
            } else {
                None
            }
        },
    }
}

/// A field spans at least one and at most all of the bytes it was read from.
pub proof fn lemma_field_at_bounds(data: Seq<u8>)
    ensures
        field_at(data) matches Some((_, _, n)) ==> 0 < n <= data.len(),
{
    lemma_varint_at_bounds(data);
    if let Some((tag, n)) = varint_at(data) {
        lemma_varint_at_bounds(data.skip(n));
    }
}

/// The fields of a protobuf message in wire order, or `None` when any field
/// breaks the wire format.
pub open spec fn fields_of(data: Seq<u8>) -> Option<Seq<(u32, FieldValue)>>
    decreases data.len(),
{
    if data.len() == 0 {
        Some(seq![])
    } else {
        match field_at(data) {
            None => None,
            Some((number, value, n)) => {
                proof {
                    lemma_field_at_bounds(data);
                }
                match fields_of(data.skip(n)) {
                    Some(rest) => Some(seq![(number, value)] + rest),
                    None => None,
                }
            },
        }
    }
}

/// The mathematical value of a parsed field list.
pub open spec fn fields_view(fields: Seq<(u32, RawValue)>) -> Seq<(u32, FieldValue)> {
    fields.map_values(|f: (u32, RawValue)| (f.0, f.1@))
}

/// `known` followed by the fields of `rest`, or `None` if `rest` is malformed.
pub open spec fn append_fields(
    known: Seq<(u32, FieldValue)>,
    rest: Option<Seq<(u32, FieldValue)>>,
) -> Option<Seq<(u32, FieldValue)>> {
    match rest {
        Some(r) => Some(known + r),
        None => None,
    }
}

/// Read the field that starts at `data[cursor]`; returns it with the
/// position just after it.
fn read_field(data: &[u8], cursor: usize) -> (r: Option<(u32, RawValue, usize)>)
    requires
        cursor <= data.len(),
    ensures
        match r {
            Some((num, v, end)) => field_at(data@.skip(cursor as int)) == Some(
                (num, v@, end - cursor),
            ),
            None => field_at(data@.skip(cursor as int)) is None,
        },
{
    let ghost rest0 = data@.skip(cursor as int);
    let (tag, n) = match read_varint(&data[cursor..data.len()]) {
        Some(x) => x,
        None => {
            assert(data@.subrange(cursor as int, data@.len() as int) =~= rest0);
            return None;
        },
    };
    assert(data@.subrange(cursor as int, data@.len() as int) =~= rest0);
    proof {
        lemma_varint_at_bounds(rest0);
    }
    let mut cursor = cursor + n;
    if tag >> 3 == 0 || tag >> 3 > MAX_FIELD_NUMBER as u64 {
        return None;
    }
    let field_number = (tag >> 3) as u32;
    let wire_type = tag & 7;
    let ghost rest = rest0.skip(n as int);
    assert(rest =~= data@.skip(cursor as int));
    if wire_type == 0 {
        assert(data@.subrange(cursor as int, data@.len() as int) =~= rest);
        let (v, m) = match read_varint(&data[cursor..data.len()]) {
            Some(x) => x,
            None => return None,
        };
        proof {
            lemma_varint_at_bounds(rest);
        }
        Some((field_number, RawValue::Varint(v), cursor + m))
    } else if wire_type == 1 {
        if data.len() - cursor < 8 {
            return None;
        }
        let v = u64_from_le_bytes(&data[cursor..cursor + 8]);
        assert(data@.subrange(cursor as int, cursor + 8) =~= rest.take(8));
        Some((field_number, RawValue::Fixed64(v), cursor + 8))
    } else if wire_type == 2 {
        assert(data@.subrange(cursor as int, data@.len() as int) =~= rest);
        let (len, m) = match read_varint(&data[cursor..data.len()]) {
            Some(x) => x,
            None => return None,
        };
        proof {
            lemma_varint_at_bounds(rest);
        }
        cursor = cursor + m;
        let remaining = data.len() - cursor;
        if len > remaining as u64 {
            return None;
        }
        let len = len as usize;
        let bytes = copy_range(data, cursor, cursor + len);
        assert(bytes@ =~= rest.subrange(m as int, m + len));
        Some((field_number, RawValue::Bytes(bytes), cursor + len))
    } else if wire_type == 5 {
        if data.len() - cursor < 4 {
            return None;
        }
        let v = u32_from_le_bytes(&data[cursor..cursor + 4]);
        assert(data@.subrange(cursor as int, cursor + 4) =~= rest.take(4));
        Some((field_number, RawValue::Fixed32(v), cursor + 4))
    } else {
        None
    }
}

/// Parse `data` as a protobuf message (no schema).
///
/// Returns `None` if any wire-format rule is violated, making it usable as a
/// lightweight "does this look like protobuf?" check.
pub fn parse_raw_proto(data: &[u8]) -> (r: Option<Vec<(u32, RawValue)>>)
    ensures
        match r {
            Some(fields) => fields_of(data@) == Some(fields_view(fields@)),
            None => fields_of(data@) is None,
        },
{
    let mut fields: Vec<(u32, RawValue)> = Vec::new();
    let mut cursor: usize = 0;
    assert(data@.skip(0) =~= data@);
    assert(fields_view(fields@) =~= seq![]);
    while cursor < data.len()
        invariant
            cursor <= data.len(),
            fields_of(data@) == append_fields(fields_view(fields@), fields_of(data@.skip(cursor as int))),
        decreases data.len() - cursor,
    {
        let ghost rest = data@.skip(cursor as int);
        proof {
            lemma_field_at_bounds(rest);
        }
        match read_field(data, cursor) {
            None => {
                return None;
            },
            Some((number, value, next)) => {
                let ghost before = fields_view(fields@);
                assert(rest.skip(next - cursor) =~= data@.skip(next as int));
                fields.push((number, value));
                assert(fields_view(fields@) =~= before + seq![(number, value@)]);
                assert(before + (seq![(number, value@)] + fields_of(data@.skip(next as int))->0)
                    =~= (before + seq![(number, value@)]) + fields_of(data@.skip(next as int))->0);
                cursor = next;
            },
        }
    }
    assert(data@.skip(cursor as int) =~= seq![]);
    assert(fields_view(fields@) + seq![] =~= fields_view(fields@));
    Some(fields)
}

/// Decoded representation of the CSHead protobuf (head section of every frame).
///
/// ```proto
/// message CSHead {
///     int32  msgid              = 1;
///     uint64 up_seqid           = 2;
///     uint64 down_seqid         = 3;
///     uint32 total_pack_count   = 4;
///     uint32 current_pack_index = 5;
///     bool   is_compress        = 6;
///     uint32 checksum           = 7;
/// }
/// ```
#[derive(Debug, Clone, Copy, PartialEq, Eq, Structural)]
pub struct CsHead {
    pub msgid: i32,
    pub up_seqid: u64,
    pub down_seqid: u64,
    pub total_pack_count: u32,
    pub current_pack_index: u32,
    pub is_compress: bool,
    pub checksum: u32,
}

/// The header with every field at its protobuf default.
pub open spec fn default_cshead() -> CsHead {
    CsHead {
        msgid: 0,
        up_seqid: 0,
        down_seqid: 0,
        total_pack_count: 0,
        current_pack_index: 0,
        is_compress: false,
        checksum: 0,
    }
}

impl Default for CsHead {
    fn default() -> (h: Self)
        ensures
            h == default_cshead(),
    {
        CsHead {
            msgid: 0,
            up_seqid: 0,
            down_seqid: 0,
            total_pack_count: 0,
            current_pack_index: 0,
            is_compress: false,
            checksum: 0,
        }
    }
}

/// `head` updated by one field.  Fields 1 to 7 must be varints and set the
/// corresponding member (32-bit members keep the low 32 bits); other field
/// numbers are ignored.
pub open spec fn cshead_with(head: CsHead, number: u32, value: FieldValue) -> Option<CsHead> {
    if 1 <= number <= 7 {
        match varint_of(value) {
            None => None,
            Some(v) => Some(
                if number == 1 {
                    CsHead { msgid: v as i32, ..head }
                } else if number == 2 {
                    CsHead { up_seqid: v, ..head }
                } else if number == 3 {
                    CsHead { down_seqid: v, ..head }
                } else if number == 4 {
                    CsHead { total_pack_count: v as u32, ..head }
                } else if number == 5 {
                    CsHead { current_pack_index: v as u32, ..head }
                } else if number == 6 {
                    CsHead { is_compress: v != 0, ..head }
                } else {
                    CsHead { checksum: v as u32, ..head }
                },
            ),
        }
    } else {
        Some(head)
    }
}

/// `head` updated by each field in order, so that a later occurrence of a
/// field overrides an earlier one.
pub open spec fn cshead_with_all(head: CsHead, fields: Seq<(u32, FieldValue)>) -> Option<CsHead>
    decreases fields.len(),
{
    if fields.len() == 0 {
        Some(head)
    } else {
        match cshead_with(head, fields[0].0, fields[0].1) {
            None => None,
            Some(h) => cshead_with_all(h, fields.drop_first()),
        }
    }
}

/// The CSHead encoded by `data`: `None` when the wire format is invalid,
/// when a known field is not a varint, or when field 1 (msgid) is absent.
pub open spec fn cshead_of(data: Seq<u8>) -> Option<CsHead> {
    match fields_of(data) {
        None => None,
        Some(fields) => if exists|i: int| 0 <= i < fields.len() && #[trigger] fields[i].0 == 1 {
            cshead_with_all(default_cshead(), fields)
        } else {
            None
        },
    }
}

/// Attempt to decode `data` as a CSHead.
///
/// Returns `None` when:
///   - the wire format is invalid, or
///   - field 1 (msgid) is absent (required field by convention).
pub fn parse_cshead(data: &[u8]) -> (r: Option<CsHead>)
    ensures
        r == cshead_of(data@),
{
    let fields = match parse_raw_proto(data) {
        Some(f) => f,
        None => return None,
    };
    let ghost all = fields_view(fields@);
    let mut head = CsHead::default();
    let mut has_msgid = false;
    let mut i: usize = 0;
    assert(all.skip(0) =~= all);
    while i < fields.len()
        invariant
            i <= fields.len(),
            all == fields_view(fields@),
            fields_of(data@) == Some(all),
            cshead_with_all(default_cshead(), all) == cshead_with_all(head, all.skip(i as int)),
            has_msgid == exists|j: int| 0 <= j < i && #[trigger] all[j].0 == 1,
        decreases fields.len() - i,
    {
        let number = fields[i].0;
        let value = &fields[i].1;
        assert(all[i as int] == (number, value@));
        assert(all.skip(i as int).drop_first() =~= all.skip(i + 1));
        assert(all.skip(i as int)[0] == (number, value@));
        assert(cshead_with_all(head, all.skip(i as int)) == match cshead_with(head, number, value@) {
            None => None,
            Some(h) => cshead_with_all(h, all.skip(i + 1)),
        });
        if number == 1 {
            head.msgid = match value.as_i32() {
                Some(v) => v,
                None => return None,
            };
            has_msgid = true;
        } else if number == 2 {
            head.up_seqid = match value.as_varint() {
                Some(v) => v,
                None => return None,
            };
        } else if number == 3 {
            head.down_seqid = match value.as_varint() {
                Some(v) => v,
                None => return None,
            };
        } else if number == 4 {
            head.total_pack_count = match value.as_u32() {
                Some(v) => v,
                None => return None,
            };
        } else if number == 5 {
            head.current_pack_index = match value.as_u32() {
                Some(v) => v,
                None => return None,
            };
        } else if number == 6 {
            head.is_compress = match value.as_bool() {
                Some(v) => v,
                None => return None,
            };
        } else if number == 7 {
            head.checksum = match value.as_u32() {
                Some(v) => v,
                None => return None,
            };
        }
        i += 1;
    }
    if !has_msgid {
        return None;
    }
    assert(all.skip(i as int) =~= seq![]);
    Some(head)
}

/// The canonical varint encoding of `v`: seven bits per byte, least
/// significant first, the high bit set on every byte but the last.
pub open spec fn encode_varint(v: u64) -> Seq<u8>
    decreases v,
{
    if v < 128 {
        seq![v as u8]
    } else {
        proof {
            assert(v >= 128 ==> v >> 7 < v) by (bit_vector);
        }
        seq![((v & 0x7f) | 0x80) as u8] + encode_varint(v >> 7)
    }
}

proof fn lemma_encode_varint_len(v: u64, k: u64)
    requires
        1 <= k <= 9,
        v < (1u64 << (7 * k)),
    ensures
        1 <= encode_varint(v).len() <= k,
    decreases k,
{
    if v >= 128 {
        assert(v >= 128 && 1 <= k <= 9 && v < (1u64 << (7 * k)) ==> k >= 2 && (v >> 7) < (1u64 << ((7 * (
        k - 1)) as u64))) by (bit_vector);
        assert(v >= 128 ==> v >> 7 < v) by (bit_vector);
        lemma_encode_varint_len(v >> 7, (k - 1) as u64);
    }
}

proof fn lemma_encode_varint_len_any(v: u64)
    ensures
        1 <= encode_varint(v).len() <= MAX_VARINT_LEN,
{
    if v >= 128 {
        assert((v >> 7) < (1u64 << (7 * 9u64))) by (bit_vector);
        lemma_encode_varint_len(v >> 7, 9);
    }
}

proof fn lemma_encode_varint_bytes(v: u64)
    ensures
        forall|j: int| 0 <= j < encode_varint(v).len() - 1 ==> #[trigger] encode_varint(v)[j] & 0x80 != 0,
        encode_varint(v).last() & 0x80 == 0,
    decreases v,
{
    let e = encode_varint(v);
    if v < 128 {
        assert(v < 128 ==> (v as u8) & 0x80 == 0) by (bit_vector);
    } else {
        assert(v >= 128 ==> v >> 7 < v) by (bit_vector);
        lemma_encode_varint_bytes(v >> 7);
        let t = encode_varint(v >> 7);
        let b = ((v & 0x7f) | 0x80) as u8;
        assert(((((v & 0x7f) | 0x80) as u8) & 0x80) != 0) by (bit_vector);
        assert forall|j: int| 0 <= j < e.len() - 1 implies #[trigger] e[j] & 0x80 != 0 by {
            if j > 0 {
                assert(e[j] == t[j - 1]);
            }
        }
        assert(e.last() == t.last());
    }
}

proof fn lemma_varint_value_prepend(b: u8, t: Seq<u8>)
    requires
        t.len() <= 9,
    ensures
        varint_value(seq![b] + t) == ((b & 0x7f) as u64) | (varint_value(t) << 7u64),
    decreases t.len(),
{
    let s = seq![b] + t;
    if t.len() == 0 {
        assert(s.drop_last() =~= seq![]);
        assert(varint_value(s.drop_last()) == 0);
        let d = (b & 0x7f) as u64;
        assert(0u64 | (d << 0u64) == d | (0u64 << 7u64)) by (bit_vector);
    } else {
        let k = (t.len() - 1) as u64;
        let c = t.last();
        lemma_varint_value_prepend(b, t.drop_last());
        assert(s.drop_last() =~= seq![b] + t.drop_last());
        let x = varint_value(t.drop_last());
        let d = (c & 0x7f) as u64;
        let lo = (b & 0x7f) as u64;
        assert(k <= 8 ==> (lo | (x << 7u64)) | (d << (7 * (k + 1))) == lo | ((x | (d << (7 * k))) << 7u64))
            by (bit_vector);
    }
}

/// The varint encoding of `v`, followed by anything, reads back as `v`
/// spanning exactly the encoding.
pub proof fn lemma_varint_roundtrip(v: u64, rest: Seq<u8>)
    ensures
        varint_at(encode_varint(v) + rest) == Some((v, encode_varint(v).len() as int)),
    decreases v,
{
    let e = encode_varint(v);
    let data = e + rest;
    lemma_encode_varint_len_any(v);
    lemma_encode_varint_bytes(v);
    lemma_len_from_terminated(data, 0, e.len() as int);
    assert(data.take(e.len() as int) =~= e);
    lemma_varint_value_encode(v);
}

proof fn lemma_varint_value_encode(v: u64)
    ensures
        varint_value(encode_varint(v)) == v,
    decreases v,
{
    if v < 128 {
        let s = seq![v as u8];
        assert(s.drop_last() =~= seq![]);
        assert(varint_value(s.drop_last()) == 0);
        assert(v < 128 ==> 0u64 | ((((v as u8) & 0x7f) as u64) << 0u64) == v) by (bit_vector);
    } else {
        assert(v >= 128 ==> v >> 7 < v) by (bit_vector);
        lemma_varint_value_encode(v >> 7);
        assert((v >> 7) < (1u64 << (7 * 9u64))) by (bit_vector);
        lemma_encode_varint_len(v >> 7, 9);
        let b = ((v & 0x7f) | 0x80) as u8;
        lemma_varint_value_prepend(b, encode_varint(v >> 7));
        assert((((((v & 0x7f) | 0x80) as u8) & 0x7f) as u64) | ((v >> 7) << 7u64) == v) by (bit_vector);
    }
}

proof fn lemma_len_from_terminated(data: Seq<u8>, i: int, n: int)
    requires
        0 <= i < n <= MAX_VARINT_LEN,
        n <= data.len(),
        forall|j: int| 0 <= j < n - 1 ==> #[trigger] data[j] & 0x80 != 0,
        data[n - 1] & 0x80 == 0,
    ensures
        varint_len_from(data, i) == Some(n),
    decreases n - i,
{
    if i < n - 1 {
        lemma_len_from_terminated(data, i + 1, n);
    }
}

/// The wire type protobuf uses for a value.
pub open spec fn wire_type_of(v: FieldValue) -> u64 {
    match v {
        FieldValue::Varint(_) => 0,
        FieldValue::Fixed64(_) => 1,
        FieldValue::Bytes(_) => 2,
        FieldValue::Fixed32(_) => 5,
    }
}

/// The wire encoding of one field: its tag as a varint, then the value.
pub open spec fn encode_field(number: u32, v: FieldValue) -> Seq<u8> {
    let tag = encode_varint(((number as u64) << 3u64) | wire_type_of(v));
    tag + match v {
        FieldValue::Varint(x) => encode_varint(x),
        FieldValue::Fixed64(x) => spec_u64_to_le_bytes(x),
        FieldValue::Bytes(b) => encode_varint(b.len() as u64) + b,
        FieldValue::Fixed32(x) => spec_u32_to_le_bytes(x),
    }
}

/// The wire encoding of a message with `fields`, in order.
pub open spec fn encode_fields(fields: Seq<(u32, FieldValue)>) -> Seq<u8>
    decreases fields.len(),
{
    if fields.len() == 0 {
        seq![]
    } else {
        encode_field(fields[0].0, fields[0].1) + encode_fields(fields.drop_first())
    }
}

/// A field protobuf can carry: a valid field number and a payload whose
/// length fits in a varint.
pub open spec fn encodable_field(number: u32, v: FieldValue) -> bool {
    &&& 1 <= number <= MAX_FIELD_NUMBER
    &&& v matches FieldValue::Bytes(b) ==> b.len() <= u64::MAX
}

proof fn lemma_field_roundtrip(number: u32, v: FieldValue, rest: Seq<u8>)
    requires
        encodable_field(number, v),
    ensures
        field_at(encode_field(number, v) + rest) == Some((number, v, encode_field(number, v).len() as int)),
{
    let wt = wire_type_of(v);
    let tag = ((number as u64) << 3u64) | wt;
    let tag_bytes = encode_varint(tag);
    let body = match v {
        FieldValue::Varint(x) => encode_varint(x),
        FieldValue::Fixed64(x) => spec_u64_to_le_bytes(x),
        FieldValue::Bytes(b) => encode_varint(b.len() as u64) + b,
        FieldValue::Fixed32(x) => spec_u32_to_le_bytes(x),
    };
    let data = encode_field(number, v) + rest;
    assert(data =~= tag_bytes + (body + rest));
    lemma_varint_roundtrip(tag, body + rest);
    let n = tag_bytes.len() as int;
    assert(data.skip(n) =~= body + rest);
    assert(wt <= 7);
    assert(number <= 0x1FFF_FFFF && wt <= 7 ==> (((((number as u64) << 3u64) | wt) >> 3u64) as u32) == number
        && ((((number as u64) << 3u64) | wt) & 7u64) == wt
        && ((((number as u64) << 3u64) | wt) >> 3u64) == number as u64) by (bit_vector);
    match v {
        FieldValue::Varint(x) => {
            lemma_varint_roundtrip(x, rest);
        },
        FieldValue::Fixed64(x) => {
            vstd::bytes::lemma_auto_spec_u64_to_from_le_bytes();
            assert(spec_u64_to_le_bytes(x).len() == 8);
            assert((body + rest).take(8) =~= spec_u64_to_le_bytes(x));
        },
        FieldValue::Bytes(b) => {
            let len_bytes = encode_varint(b.len() as u64);
            assert(body + rest =~= len_bytes + (b + rest));
            lemma_varint_roundtrip(b.len() as u64, b + rest);
            let m = len_bytes.len() as int;
            assert((body + rest).subrange(m, m + b.len()) =~= b);
        },
        FieldValue::Fixed32(x) => {
            vstd::bytes::lemma_auto_spec_u32_to_from_le_bytes();
            assert(spec_u32_to_le_bytes(x).len() == 4);
            assert((body + rest).take(4) =~= spec_u32_to_le_bytes(x));
        },
    }
}

/// Parsing the encoding of well-formed fields gives back exactly those
/// fields, in order.
pub proof fn lemma_fields_roundtrip(fields: Seq<(u32, FieldValue)>)
    requires
        forall|i: int| 0 <= i < fields.len() ==> #[trigger] encodable_field(fields[i].0, fields[i].1),
    ensures
        fields_of(encode_fields(fields)) == Some(fields),
    decreases fields.len(),
{
    if fields.len() == 0 {
        assert(encode_fields(fields) =~= seq![]);
        assert(fields =~= seq![]);
    } else {
        let first = encode_field(fields[0].0, fields[0].1);
        let tail = fields.drop_first();
        assert forall|i: int| 0 <= i < tail.len() implies #[trigger] encodable_field(tail[i].0, tail[i].1) by {
            assert(tail[i] == fields[i + 1]);
            assert(encodable_field(fields[i + 1].0, fields[i + 1].1));
        }
        assert(encodable_field(fields[0].0, fields[0].1));
        lemma_fields_roundtrip(tail);
        let data = encode_fields(fields);
        assert(data == first + encode_fields(tail));
        lemma_field_roundtrip(fields[0].0, fields[0].1, encode_fields(tail));
        lemma_encode_varint_len_any(((fields[0].0 as u64) << 3u64) | wire_type_of(fields[0].1));
        assert(data.len() > 0);
        assert(data.skip(first.len() as int) =~= encode_fields(tail));
        assert(seq![(fields[0].0, fields[0].1)] + tail =~= fields);
    }
}

/// The fields that encode a header, in field-number order: `int32` msgid
/// sign-extended to 64 bits, the flag as 0 or 1, the others as they are.
pub open spec fn cshead_fields(h: CsHead) -> Seq<(u32, FieldValue)> {
    seq![
        (1u32, FieldValue::Varint(h.msgid as i64 as u64)),
        (2u32, FieldValue::Varint(h.up_seqid)),
        (3u32, FieldValue::Varint(h.down_seqid)),
        (4u32, FieldValue::Varint(h.total_pack_count as u64)),
        (5u32, FieldValue::Varint(h.current_pack_index as u64)),
        (6u32, FieldValue::Varint(if h.is_compress { 1u64 } else { 0u64 })),
        (7u32, FieldValue::Varint(h.checksum as u64)),
    ]
}

/// A header encoded as protobuf parses back to the same header.
pub proof fn lemma_cshead_roundtrip(h: CsHead)
    ensures
        cshead_of(encode_fields(cshead_fields(h))) == Some(h),
{
    let fs = cshead_fields(h);
    assert forall|i: int| 0 <= i < fs.len() implies #[trigger] encodable_field(fs[i].0, fs[i].1) by {}
    lemma_fields_roundtrip(fs);
    assert(fs[0].0 == 1);
    let m = h.msgid;
    assert((((m as i64) as u64) as i32) == m) by (bit_vector);
    let a = h.total_pack_count;
    let b = h.current_pack_index;
    let c = h.checksum;
    assert(((a as u64) as u32) == a && ((b as u64) as u32) == b && ((c as u64) as u32) == c) by (bit_vector);
    let d = default_cshead();
    let h1 = CsHead { msgid: m, ..d };
    let h2 = CsHead { up_seqid: h.up_seqid, ..h1 };
    let h3 = CsHead { down_seqid: h.down_seqid, ..h2 };
    let h4 = CsHead { total_pack_count: a, ..h3 };
    let h5 = CsHead { current_pack_index: b, ..h4 };
    let h6 = CsHead { is_compress: h.is_compress, ..h5 };
    let h7 = CsHead { checksum: c, ..h6 };
    assert(h7 == h);
    let t1 = fs.drop_first();
    let t2 = t1.drop_first();
    let t3 = t2.drop_first();
    let t4 = t3.drop_first();
    let t5 = t4.drop_first();
    let t6 = t5.drop_first();
    let t7 = t6.drop_first();
    assert(t7.len() == 0);
    assert(cshead_with_all(h7, t7) == Some(h));
    assert(cshead_with_all(h6, t6) == Some(h));
    assert(cshead_with_all(h5, t5) == Some(h));
    assert(cshead_with_all(h4, t4) == Some(h));
    assert(cshead_with_all(h3, t3) == Some(h));
    assert(cshead_with_all(h2, t2) == Some(h));
    assert(cshead_with_all(h1, t1) == Some(h));
    assert(cshead_with_all(d, fs) == Some(h));
}

/// The value of the last field numbered `k` in `fs`, if there is one.
pub open spec fn last_field(fs: Seq<(u32, FieldValue)>, k: u32) -> Option<FieldValue>
    decreases fs.len(),
{
    if fs.len() == 0 {
        None
    } else {
        match last_field(fs.drop_first(), k) {
            Some(v) => Some(v),
            None => if fs[0].0 == k {
                Some(fs[0].1)
            } else {
                None
            },
        }
    }
}

/// Every field numbered 1 to 7 in `fs` is a varint.
pub open spec fn header_fields_are_varints(fs: Seq<(u32, FieldValue)>) -> bool {
    forall|i: int| 0 <= i < fs.len() && 1 <= #[trigger] fs[i].0 <= 7 ==> fs[i].1 is Varint
}

/// The varint payload of the last field numbered `k`, or `dflt`.
pub open spec fn last_varint(fs: Seq<(u32, FieldValue)>, k: u32, dflt: u64) -> u64 {
    match last_field(fs, k) {
        Some(FieldValue::Varint(v)) => v,
        _ => dflt,
    }
}

/// `h` with each member 1 to 7 taken from the last field of that number in
/// `fs`, cast to the member's type (`msgid` as `i32`, the counts and the
/// checksum as `u32`, `is_compress` as `v != 0`).
pub open spec fn header_from_fields(h: CsHead, fs: Seq<(u32, FieldValue)>) -> CsHead {
    CsHead {
        msgid: match last_field(fs, 1) {
            Some(FieldValue::Varint(v)) => v as i32,
            _ => h.msgid,
        },
        up_seqid: last_varint(fs, 2, h.up_seqid),
        down_seqid: last_varint(fs, 3, h.down_seqid),
        total_pack_count: match last_field(fs, 4) {
            Some(FieldValue::Varint(v)) => v as u32,
            _ => h.total_pack_count,
        },
        current_pack_index: match last_field(fs, 5) {
            Some(FieldValue::Varint(v)) => v as u32,
            _ => h.current_pack_index,
        },
        is_compress: match last_field(fs, 6) {
            Some(FieldValue::Varint(v)) => v != 0,
            _ => h.is_compress,
        },
        checksum: match last_field(fs, 7) {
            Some(FieldValue::Varint(v)) => v as u32,
            _ => h.checksum,
        },
    }
}

proof fn lemma_last_field_varint(fs: Seq<(u32, FieldValue)>, k: u32)
    requires
        header_fields_are_varints(fs),
        1 <= k <= 7,
    ensures
        last_field(fs, k) matches Some(v) ==> v is Varint,
    decreases fs.len(),
{
    if fs.len() > 0 {
        let rest = fs.drop_first();
        assert forall|i: int| 0 <= i < rest.len() && 1 <= #[trigger] rest[i].0 <= 7 implies rest[i].1 is Varint by {
            assert(rest[i] == fs[i + 1]);
        }
        lemma_last_field_varint(rest, k);
        assert(1 <= fs[0].0 <= 7 ==> fs[0].1 is Varint);
    }
}

proof fn lemma_cshead_with_all_fields(h: CsHead, fs: Seq<(u32, FieldValue)>)
    ensures
        header_fields_are_varints(fs) ==> cshead_with_all(h, fs) == Some(header_from_fields(h, fs)),
        !header_fields_are_varints(fs) ==> cshead_with_all(h, fs) is None,
    decreases fs.len(),
{
    if fs.len() > 0 {
        let rest = fs.drop_first();
        assert(header_fields_are_varints(fs) ==> header_fields_are_varints(rest)) by {
            if header_fields_are_varints(fs) {
                assert forall|i: int| 0 <= i < rest.len() && 1 <= #[trigger] rest[i].0 <= 7 implies rest[i].1 is Varint by {
                    assert(rest[i] == fs[i + 1]);
                }
            }
        }
        if header_fields_are_varints(fs) {
            assert(1 <= fs[0].0 <= 7 ==> fs[0].1 is Varint);
            let h1 = cshead_with(h, fs[0].0, fs[0].1)->0;
            lemma_cshead_with_all_fields(h1, rest);
            let a = header_from_fields(h1, rest);
            let b = header_from_fields(h, fs);
            let n = fs[0].0;
            assert forall|k: u32| #[trigger] last_field(fs, k) == match last_field(rest, k) {
                Some(v) => Some(v),
                None => if n == k {
                    Some(fs[0].1)
                } else {
                    None
                },
            } by {}
            lemma_last_field_varint(rest, 1);
            lemma_last_field_varint(rest, 2);
            lemma_last_field_varint(rest, 3);
            lemma_last_field_varint(rest, 4);
            lemma_last_field_varint(rest, 5);
            lemma_last_field_varint(rest, 6);
            lemma_last_field_varint(rest, 7);
            if 1 <= n <= 7 {
                let v = fs[0].1->Varint_0;
                assert(fs[0].1 == FieldValue::Varint(v));
                assert(varint_of(fs[0].1) == Some(v));
            } else {
                assert(h1 == h);
            }
            assert(a.msgid == b.msgid);
            assert(a.up_seqid == b.up_seqid);
            assert(a.down_seqid == b.down_seqid);
            assert(a.total_pack_count == b.total_pack_count);
            assert(a.current_pack_index == b.current_pack_index);
            assert(a.is_compress == b.is_compress);
            assert(a.checksum == b.checksum);
        } else {
            let i = choose|i: int| 0 <= i < fs.len() && 1 <= #[trigger] fs[i].0 <= 7 && !(fs[i].1 is Varint);
            if i > 0 {
                assert(rest[i - 1] == fs[i]);
                assert(!header_fields_are_varints(rest));
                match cshead_with(h, fs[0].0, fs[0].1) {
                    Some(h1) => lemma_cshead_with_all_fields(h1, rest),
                    None => {},
                }
            }
        }
    }
}

/// A well-formed message is a header exactly when it has a field 1 and
/// every field numbered 1 to 7 is a varint; each header member is then the
/// last field of its number, cast to the member's type, or 0 / `false` when
/// there is none.
pub proof fn lemma_cshead_fields(data: Seq<u8>)
    requires
        fields_of(data) is Some,
    ensures
        ({
            let fs = fields_of(data)->0;
            &&& cshead_of(data) is Some <==> (exists|i: int| 0 <= i < fs.len() && #[trigger] fs[i].0 == 1)
                && header_fields_are_varints(fs)
            &&& cshead_of(data) is Some ==> cshead_of(data)->0 == header_from_fields(default_cshead(), fs)
        }),
{
    lemma_cshead_with_all_fields(default_cshead(), fields_of(data)->0);
}

} // verus!
