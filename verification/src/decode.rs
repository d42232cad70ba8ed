//! Schema-guided decoding of frame bodies into displayable values.

use vstd::prelude::*;
use vstd::utf8::{decode_utf8, valid_utf8};

use std::collections::HashMap;

use crate::bytes::copy_range;
use crate::proto::{FieldValue, RawValue, fields_of, parse_raw_proto, fields_view, lemma_field_at_bounds, field_at};
use crate::text::chars_of;

verus! {

/// One field in a decoded body message.
#[derive(Debug)]
pub struct DecodedField {
    pub number: u32,
    pub name: Option<String>,
    pub value: DecodedValue,
}

/// The display value of a single protobuf field.
#[derive(Debug)]
pub enum DecodedValue {
    Uint(u64),
    Int(i64),
    Bool(bool),
    Text(String),
    Bytes(Vec<u8>),
    Nested(Vec<DecodedField>),
}

/// Mathematical value of a [`DecodedValue`].
pub enum DecodedSpec {
    Uint(u64),
    Int(i64),
    Bool(bool),
    Text(Seq<char>),
    Bytes(Seq<u8>),
    Nested(Seq<DecodedFieldSpec>),
}

/// Mathematical value of a [`DecodedField`].
pub struct DecodedFieldSpec {
    pub number: u32,
    pub name: Option<Seq<char>>,
    pub value: DecodedSpec,
}

/// The mathematical value of an optional string.
pub open spec fn opt_string_view(s: Option<String>) -> Option<Seq<char>> {
    match s {
        Some(x) => Some(x@),
        None => None,
    }
}

/// The mathematical value of a decoded value.
pub open spec fn value_spec(v: DecodedValue) -> DecodedSpec
    decreases v, 0int,
{
    match v {
        DecodedValue::Uint(x) => DecodedSpec::Uint(x),
        DecodedValue::Int(x) => DecodedSpec::Int(x),
        DecodedValue::Bool(x) => DecodedSpec::Bool(x),
        DecodedValue::Text(s) => DecodedSpec::Text(s@),
        DecodedValue::Bytes(b) => DecodedSpec::Bytes(b@),
        DecodedValue::Nested(fs) => DecodedSpec::Nested(fields_spec(fs@)),
    }
}

/// The mathematical value of a list of decoded fields.
pub open spec fn fields_spec(fs: Seq<DecodedField>) -> Seq<DecodedFieldSpec>
    decreases fs, 0int,
{
    if fs.len() == 0 {
        seq![]
    } else {
        let last = fs[fs.len() - 1];
        fields_spec(fs.subrange(0, fs.len() - 1)).push(
            DecodedFieldSpec { number: last.number, name: opt_string_view(last.name), value: value_spec(last.value) },
        )
    }
}

broadcast use vstd::std_specs::hash::group_hash_axioms;

/// Unicode general category Cc: U+0000 to U+001F and U+007F to U+009F.
pub open spec fn is_control(c: char) -> bool {
    (c as u32) <= 0x1f || (0x7f <= (c as u32) && (c as u32) <= 0x9f)
}

/// A character that may appear in a field shown as text: anything but a
/// control character, except newline, carriage return and tab.
pub open spec fn is_text_char(c: char) -> bool {
    !is_control(c) || c == '\n' || c == '\r' || c == '\t'
}

/// Every character of `chars` may appear in text.
pub open spec fn is_text(chars: Seq<char>) -> bool {
    forall|i: int| 0 <= i < chars.len() ==> #[trigger] is_text_char(chars[i])
}

/// How many payload bytes a wire value carries (zero for numbers).
pub open spec fn value_size(v: FieldValue) -> nat {
    match v {
        FieldValue::Bytes(b) => b.len(),
        _ => 0,
    }
}

/// Every value in `fields` carries fewer than `bound` payload bytes.
pub open spec fn all_smaller(fields: Seq<(u32, FieldValue)>, bound: nat) -> bool {
    forall|i: int| 0 <= i < fields.len() ==> value_size(#[trigger] fields[i].1) < bound
}

/// The display value of a wire value.  Numbers are shown as unsigned
/// integers.  A length-delimited payload is shown as text when it is UTF-8
/// made of text characters, else as a nested message when it is a non-empty
/// well-formed protobuf message with at least one field, else as bytes.
pub open spec fn decoded_value(v: FieldValue) -> DecodedSpec
    decreases value_size(v), 1nat, 0nat,
{
    match v {
        FieldValue::Varint(u) => DecodedSpec::Uint(u),
        FieldValue::Fixed32(u) => DecodedSpec::Uint(u as u64),
        FieldValue::Fixed64(u) => DecodedSpec::Uint(u),
        FieldValue::Bytes(b) => {
            if valid_utf8(b) && is_text(decode_utf8(b)) {
                DecodedSpec::Text(decode_utf8(b))
            } else if b.len() > 0 && fields_of(b) is Some && fields_of(b)->0.len() > 0 {
                proof {
                    lemma_fields_smaller(b);
                }
                DecodedSpec::Nested(nested_fields(fields_of(b)->0, b.len()))
            } else {
                DecodedSpec::Bytes(b)
            }
        },
    }
}

/// The unnamed display fields of the fields of a nested message whose
/// payload is `bound` bytes long.
pub open spec fn nested_fields(fields: Seq<(u32, FieldValue)>, bound: nat) -> Seq<DecodedFieldSpec>
    decreases bound, 0nat, fields.len(),
    when all_smaller(fields, bound)
{
    if fields.len() == 0 {
        seq![]
    } else {
        let last = fields[fields.len() - 1];
        let init = fields.subrange(0, fields.len() - 1);
        proof {
            assert forall|i: int| 0 <= i < init.len() implies value_size(#[trigger] init[i].1) < bound by {
                assert(init[i] == fields[i]);
            }
        }
        nested_fields(init, bound).push(
            DecodedFieldSpec { number: last.0, name: None, value: decoded_value(last.1) },
        )
    }
}

proof fn lemma_field_at_smaller(data: Seq<u8>)
    ensures
        field_at(data) matches Some((_, v, n)) ==> value_size(v) < n,
{
    crate::proto::lemma_varint_at_bounds(data);
    if let Some((tag, n)) = crate::proto::varint_at(data) {
        crate::proto::lemma_varint_at_bounds(data.skip(n));
    }
}

/// Every payload inside a well-formed message is shorter than the message.
pub proof fn lemma_fields_smaller(data: Seq<u8>)
    ensures
        fields_of(data) matches Some(fs) ==> all_smaller(fs, data.len()),
    decreases data.len(),
{
    if data.len() > 0 {
        lemma_field_at_bounds(data);
        lemma_field_at_smaller(data);
        if let Some((number, value, n)) = field_at(data) {
            lemma_fields_smaller(data.skip(n));
            if let Some(fs) = fields_of(data) {
                let rest = fields_of(data.skip(n))->0;
                assert(fs == seq![(number, value)] + rest);
                assert forall|i: int| 0 <= i < fs.len() implies value_size(#[trigger] fs[i].1) < data.len() by {
                    if i > 0 {
                        assert(fs[i] == rest[i - 1]);
                    }
                }
            }
        }
    }
}

/// Converts `bytes` to a string if they are UTF-8 (`std::str::from_utf8`).
/// Trusted to succeed exactly on valid UTF-8 and to decode it.
#[verifier::external_body]
fn str_from_utf8(bytes: &[u8]) -> (r: Option<&str>)
    ensures
        r is Some <==> valid_utf8(bytes@),
        r matches Some(s) ==> s@ == decode_utf8(bytes@),
{
    match std::str::from_utf8(bytes) {
        Ok(s) => Some(s),
        Err(_) => None,
    }
}

fn is_text_char_exec(c: char) -> (b: bool)
    ensures
        b == is_text_char(c),
{
    let code = c as u32;
    !(code <= 0x1f || (0x7f <= code && code <= 0x9f)) || c == '\n' || c == '\r' || c == '\t'
}

fn all_text(chars: &Vec<char>) -> (b: bool)
    ensures
        b == is_text(chars@),
{
    let mut i: usize = 0;
    while i < chars.len()
        invariant
            i <= chars.len(),
            forall|j: int| 0 <= j < i ==> #[trigger] is_text_char(chars@[j]),
        decreases chars.len() - i,
    {
        if !is_text_char_exec(chars[i]) {
            return false;
        }
        i += 1;
    }
    true
}

proof fn lemma_fields_spec_push(fs: Seq<DecodedField>, f: DecodedField)
    ensures
        fields_spec(fs.push(f)) == fields_spec(fs).push(
            DecodedFieldSpec { number: f.number, name: opt_string_view(f.name), value: value_spec(f.value) },
        ),
{
    assert(fs.push(f).subrange(0, fs.len() as int) =~= fs);
}

impl DecodedValue {
    /// The display value of a wire value; length-delimited payloads are
    /// tried as text, then as a nested message, then kept as bytes.
    pub fn from_raw(v: &RawValue) -> (r: DecodedValue)
        ensures
            value_spec(r) == decoded_value(v@),
        decreases value_size(v@),
    {
        match v {
            RawValue::Varint(u) => DecodedValue::Uint(*u),
            RawValue::Fixed32(u) => DecodedValue::Uint(*u as u64),
            RawValue::Fixed64(u) => DecodedValue::Uint(*u),
            RawValue::Bytes(bytes) => {
                if let Some(s) = str_from_utf8(bytes.as_slice()) {
                    let chars = chars_of(s);
                    if all_text(&chars) {
                        return DecodedValue::Text(s.to_owned());
                    }
                }
                if bytes.len() > 0 {
                    if let Some(raw) = parse_raw_proto(bytes.as_slice()) {
                        if raw.len() > 0 {
                            let ghost fs = fields_view(raw@);
                            proof {
                                lemma_fields_smaller(bytes@);
                            }
                            let mut out: Vec<DecodedField> = Vec::new();
                            let mut i: usize = 0;
                            assert(fs.subrange(0, 0) =~= seq![]);
                            while i < raw.len()
                                invariant
                                    i <= raw.len(),
                                    fs == fields_view(raw@),
                                    all_smaller(fs, bytes@.len()),
                                    value_size(v@) == bytes@.len(),
                                    fields_spec(out@) == nested_fields(fs.subrange(0, i as int), bytes@.len()),
                                decreases raw.len() - i,
                            {
                                let number = raw[i].0;
                                assert(fs[i as int] == (number, raw[i as int].1@));
                                assert(value_size(fs[i as int].1) < bytes@.len());
                                let value = DecodedValue::from_raw(&raw[i].1);
                                let field = DecodedField { number, name: None, value };
                                proof {
                                    lemma_fields_spec_push(out@, field);
                                    let sub = fs.subrange(0, i + 1);
                                    assert(sub.subrange(0, i as int) =~= fs.subrange(0, i as int));
                                    assert(all_smaller(sub, bytes@.len())) by {
                                        assert forall|j: int| 0 <= j < sub.len() implies value_size(#[trigger] sub[j].1) < bytes@.len() by {
                                            assert(sub[j] == fs[j]);
                                        }
                                    }
                                    assert(all_smaller(fs.subrange(0, i as int), bytes@.len())) by {
                                        let pre = fs.subrange(0, i as int);
                                        assert forall|j: int| 0 <= j < pre.len() implies value_size(#[trigger] pre[j].1) < bytes@.len() by {
                                            assert(pre[j] == fs[j]);
                                        }
                                    }
                                }
                                out.push(field);
                                i += 1;
                            }
                            assert(fs.subrange(0, i as int) =~= fs);
                            return DecodedValue::Nested(out);
                        }
                    }
                }
                let copy = copy_range(bytes.as_slice(), 0, bytes.len());
                assert(copy@ =~= bytes@);
                DecodedValue::Bytes(copy)
            },
        }
    }
}

impl From<u64> for DecodedValue {
    fn from(v: u64) -> (r: DecodedValue) {
        DecodedValue::Uint(v)
    }
}

impl vstd::std_specs::convert::FromSpecImpl<u64> for DecodedValue {
    open spec fn obeys_from_spec() -> bool {
        true
    }

    open spec fn from_spec(v: u64) -> DecodedValue {
        DecodedValue::Uint(v)
    }
}

impl From<i64> for DecodedValue {
    fn from(v: i64) -> (r: DecodedValue) {
        DecodedValue::Int(v)
    }
}

impl vstd::std_specs::convert::FromSpecImpl<i64> for DecodedValue {
    open spec fn obeys_from_spec() -> bool {
        true
    }

    open spec fn from_spec(v: i64) -> DecodedValue {
        DecodedValue::Int(v)
    }
}

impl From<bool> for DecodedValue {
    fn from(v: bool) -> (r: DecodedValue) {
        DecodedValue::Bool(v)
    }
}

impl vstd::std_specs::convert::FromSpecImpl<bool> for DecodedValue {
    open spec fn obeys_from_spec() -> bool {
        true
    }

    open spec fn from_spec(v: bool) -> DecodedValue {
        DecodedValue::Bool(v)
    }
}

/// The mathematical value of an optional field-name table.
pub open spec fn names_view(names: Option<&HashMap<u32, String>>) -> Option<Map<u32, String>> {
    match names {
        Some(m) => Some(m@),
        None => None,
    }
}

/// The name the table gives to field `number`, if any.
pub open spec fn field_name(names: Option<Map<u32, String>>, number: u32) -> Option<Seq<char>> {
    match names {
        Some(m) => if m.contains_key(number) {
            Some(m[number]@)
        } else {
            None
        },
        None => None,
    }
}

/// The display fields of a message body with fields `raw`, named by `names`.
pub open spec fn body_fields(raw: Seq<(u32, FieldValue)>, names: Option<Map<u32, String>>) -> Seq<DecodedFieldSpec> {
    Seq::new(
        raw.len(),
        |i: int| DecodedFieldSpec { number: raw[i].0, name: field_name(names, raw[i].0), value: decoded_value(raw[i].1) },
    )
}

fn lookup_name(names: Option<&HashMap<u32, String>>, number: u32) -> (r: Option<String>)
    ensures
        opt_string_view(r) == field_name(names_view(names), number),
{
    match names {
        Some(m) => match m.get(&number) {
            Some(name) => Some(name.clone()),
            None => None,
        },
        None => None,
    }
}

/// Decode a raw body blob into a list of typed fields.
///
/// If `field_names` is provided, field numbers are mapped to names.
/// For length-delimited values we heuristically try: UTF-8 string -> nested
/// proto -> raw bytes (in that order).
pub fn decode_body(data: &[u8], field_names: Option<&HashMap<u32, String>>) -> (r: Option<Vec<DecodedField>>)
    ensures
        match r {
            Some(fs) => fields_of(data@) is Some && fields_spec(fs@) == body_fields(
                fields_of(data@)->0,
                names_view(field_names),
            ),
            None => fields_of(data@) is None,
        },
{
    let raw = match parse_raw_proto(data) {
        Some(r) => r,
        None => return None,
    };
    let ghost all = fields_view(raw@);
    let ghost names = names_view(field_names);
    let mut out: Vec<DecodedField> = Vec::new();
    let mut i: usize = 0;
    assert(body_fields(all.subrange(0, 0), names) =~= seq![]);
    while i < raw.len()
        invariant
            i <= raw.len(),
            all == fields_view(raw@),
            names == names_view(field_names),
            fields_spec(out@) == body_fields(all.subrange(0, i as int), names),
        decreases raw.len() - i,
    {
        let number = raw[i].0;
        let name = lookup_name(field_names, number);
        let value = DecodedValue::from_raw(&raw[i].1);
        let field = DecodedField { number, name, value };
        proof {
            lemma_fields_spec_push(out@, field);
            assert(body_fields(all.subrange(0, i + 1), names) =~= body_fields(all.subrange(0, i as int), names).push(
                DecodedFieldSpec { number, name: opt_string_view(field.name), value: value_spec(field.value) },
            ));
        }
        out.push(field);
        i += 1;
    }
    assert(all.subrange(0, i as int) =~= all);
    Some(out)
}

/// A payload is shown as text exactly when it is UTF-8 and none of its
/// characters is a control character (U+0000 to U+001F, U+007F to U+009F)
/// other than newline, carriage return and tab; the text is then its
/// decoded characters.
pub proof fn lemma_text_payloads(b: Seq<u8>)
    ensures
        decoded_value(FieldValue::Bytes(b)) is Text <==> valid_utf8(b) && forall|i: int|
            0 <= i < decode_utf8(b).len() ==> {
                let c = #[trigger] decode_utf8(b)[i];
                ||| (c as u32) > 0x1f && ((c as u32) < 0x7f || (c as u32) > 0x9f)
                ||| c == '\n'
                ||| c == '\r'
                ||| c == '\t'
            },
        decoded_value(FieldValue::Bytes(b)) matches DecodedSpec::Text(t) ==> t == decode_utf8(b) && forall|i: int|
            0 <= i < t.len() ==> {
                let c = #[trigger] t[i];
                ||| (c as u32) > 0x1f && ((c as u32) < 0x7f || (c as u32) > 0x9f)
                ||| c == '\n'
                ||| c == '\r'
                ||| c == '\t'
            },
{
    let t = decode_utf8(b);
    assert(is_text(t) <==> forall|i: int|
        0 <= i < t.len() ==> {
            let c = #[trigger] t[i];
            ||| (c as u32) > 0x1f && ((c as u32) < 0x7f || (c as u32) > 0x9f)
            ||| c == '\n'
            ||| c == '\r'
            ||| c == '\t'
        }) by {
        if is_text(t) {
            assert forall|i: int| 0 <= i < t.len() implies {
                let c = #[trigger] t[i];
                ||| (c as u32) > 0x1f && ((c as u32) < 0x7f || (c as u32) > 0x9f)
                ||| c == '\n'
                ||| c == '\r'
                ||| c == '\t'
            } by {
                assert(is_text_char(t[i]));
            }
        }
    }
    if valid_utf8(b) && !is_text(t) {
        if b.len() > 0 && fields_of(b) is Some && fields_of(b)->0.len() > 0 {
            lemma_fields_smaller(b);
        }
    }
}

} // verus!
