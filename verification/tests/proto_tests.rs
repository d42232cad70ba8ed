use oxidized_relay::proto::{parse_cshead, parse_raw_proto, CsHead, RawValue};

fn varint(mut v: u64) -> Vec<u8> {
    let mut out = Vec::new();
    loop {
        let b = (v & 0x7f) as u8;
        v >>= 7;
        if v == 0 {
            out.push(b);
            return out;
        }
        out.push(b | 0x80);
    }
}

fn varint_field(number: u32, v: u64) -> Vec<u8> {
    let mut out = varint(((number as u64) << 3) | 0);
    out.extend(varint(v));
    out
}

fn bytes_field(number: u32, payload: &[u8]) -> Vec<u8> {
    let mut out = varint(((number as u64) << 3) | 2);
    out.extend(varint(payload.len() as u64));
    out.extend_from_slice(payload);
    out
}

fn describe(fields: &[(u32, RawValue)]) -> Vec<String> {
    fields.iter().map(|(n, v)| format!("{}={:?}", n, v)).collect()
}

#[test]
fn parse_raw_proto_varint_field() {
    let fields = parse_raw_proto(&[0x08, 0x96, 0x01]).unwrap();
    assert_eq!(describe(&fields), vec!["1=Varint(150)"]);
}

#[test]
fn parse_raw_proto_all_wire_types() {
    let mut data = vec![0x08, 0x01];
    data.extend_from_slice(&[0x11, 1, 2, 3, 4, 5, 6, 7, 8]);
    data.extend_from_slice(&[0x1a, 0x03, b'a', b'b', b'c']);
    data.extend_from_slice(&[0x25, 0x78, 0x56, 0x34, 0x12]);
    let fields = parse_raw_proto(&data).unwrap();
    assert_eq!(
        describe(&fields),
        vec![
            "1=Varint(1)".to_string(),
            format!("2=Fixed64({})", 0x0807060504030201u64),
            "3=Bytes([97, 98, 99])".to_string(),
            format!("4=Fixed32({})", 0x12345678u32),
        ]
    );
}

#[test]
fn parse_raw_proto_empty_message() {
    assert_eq!(parse_raw_proto(&[]).unwrap().len(), 0);
}

#[test]
fn parse_raw_proto_keeps_repeated_fields_in_order() {
    let mut data = varint_field(5, 1);
    data.extend(varint_field(5, 2));
    data.extend(varint_field(1, 3));
    let fields = parse_raw_proto(&data).unwrap();
    assert_eq!(describe(&fields), vec!["5=Varint(1)", "5=Varint(2)", "1=Varint(3)"]);
}

#[test]
fn parse_raw_proto_rejects_group_wire_types() {
    assert!(parse_raw_proto(&[0x0b]).is_none());
    assert!(parse_raw_proto(&[0x0c]).is_none());
    assert!(parse_raw_proto(&[0x0e, 0x00]).is_none());
    assert!(parse_raw_proto(&[0x0f, 0x00]).is_none());
}

#[test]
fn parse_raw_proto_rejects_field_zero() {
    assert!(parse_raw_proto(&[0x00, 0x01]).is_none());
    assert!(parse_raw_proto(&[0x02, 0x00]).is_none());
}

#[test]
fn parse_raw_proto_rejects_too_large_field_number() {
    // Field number 2^29 is one past the largest allowed.
    let data = varint_field(1 << 29, 1);
    assert!(parse_raw_proto(&data).is_none());
    let ok = varint_field((1 << 29) - 1, 1);
    assert_eq!(describe(&parse_raw_proto(&ok).unwrap()), vec![format!("{}=Varint(1)", (1u32 << 29) - 1)]);
}

#[test]
fn parse_raw_proto_rejects_truncated_input() {
    assert!(parse_raw_proto(&[0x08]).is_none());
    assert!(parse_raw_proto(&[0x08, 0x80]).is_none());
    assert!(parse_raw_proto(&[0x11, 1, 2, 3, 4, 5, 6, 7]).is_none());
    assert!(parse_raw_proto(&[0x15, 1, 2, 3]).is_none());
    assert!(parse_raw_proto(&[0x1a, 0x04, 1, 2, 3]).is_none());
    assert!(parse_raw_proto(&[0x1a]).is_none());
}

#[test]
fn parse_raw_proto_longest_varint() {
    let mut data = vec![0x08];
    data.extend_from_slice(&[0xff; 9]);
    data.push(0x01);
    let fields = parse_raw_proto(&data).unwrap();
    assert_eq!(describe(&fields), vec![format!("1={:?}", RawValue::Varint(u64::MAX))]);
}

#[test]
fn parse_raw_proto_rejects_varint_over_ten_bytes() {
    let mut data = vec![0x08];
    data.extend_from_slice(&[0x80; 10]);
    data.push(0x01);
    assert!(parse_raw_proto(&data).is_none());
}

#[test]
fn parse_raw_proto_huge_length_is_rejected() {
    let mut data = vec![0x0a];
    data.extend(varint(u64::MAX));
    assert!(parse_raw_proto(&data).is_none());
}

#[test]
fn raw_value_accessors() {
    let v = RawValue::Varint(0x1_0000_0005);
    assert_eq!(v.as_varint(), Some(0x1_0000_0005));
    assert_eq!(v.as_u32(), Some(5));
    assert_eq!(v.as_i32(), Some(5));
    assert_eq!(v.as_bool(), Some(true));

    let m = RawValue::Varint(0xFFFF_FFFF);
    assert_eq!(m.as_i32(), Some(-1));
    assert_eq!(m.as_u32(), Some(u32::MAX));

    let z = RawValue::Varint(0);
    assert_eq!(z.as_bool(), Some(false));

    for other in [RawValue::Fixed32(1), RawValue::Fixed64(1), RawValue::Bytes(vec![1])] {
        assert_eq!(other.as_varint(), None);
        assert_eq!(other.as_i32(), None);
        assert_eq!(other.as_u32(), None);
        assert_eq!(other.as_bool(), None);
    }
}

#[test]
fn cshead_default_is_all_zero() {
    let h = CsHead::default();
    assert_eq!(
        h,
        CsHead {
            msgid: 0,
            up_seqid: 0,
            down_seqid: 0,
            total_pack_count: 0,
            current_pack_index: 0,
            is_compress: false,
            checksum: 0,
        }
    );
}

#[test]
fn parse_cshead_full_header() {
    let mut data = varint_field(1, 1001);
    data.extend(varint_field(2, 7));
    data.extend(varint_field(3, 9));
    data.extend(varint_field(4, 3));
    data.extend(varint_field(5, 2));
    data.extend(varint_field(6, 1));
    data.extend(varint_field(7, 0xCBF43926));
    let h = parse_cshead(&data).unwrap();
    assert_eq!(
        h,
        CsHead {
            msgid: 1001,
            up_seqid: 7,
            down_seqid: 9,
            total_pack_count: 3,
            current_pack_index: 2,
            is_compress: true,
            checksum: 0xCBF43926,
        }
    );
}

#[test]
fn parse_cshead_only_msgid() {
    let h = parse_cshead(&varint_field(1, 42)).unwrap();
    assert_eq!(h, CsHead { msgid: 42, ..CsHead::default() });
}

#[test]
fn parse_cshead_requires_msgid() {
    let mut data = varint_field(2, 7);
    data.extend(varint_field(7, 1));
    assert_eq!(parse_cshead(&data), None);
    assert_eq!(parse_cshead(&[]), None);
}

#[test]
fn parse_cshead_rejects_non_varint_known_field() {
    let mut data = varint_field(1, 5);
    data.extend(bytes_field(3, &[1, 2]));
    assert_eq!(parse_cshead(&data), None);
    let data = bytes_field(1, &[1]);
    assert_eq!(parse_cshead(&data), None);
}

#[test]
fn parse_cshead_ignores_unknown_fields() {
    let mut data = bytes_field(9, b"extra");
    data.extend(varint_field(1, 3));
    data.extend_from_slice(&[0x85, 0x01, 1, 2, 3, 4]); // field 16, fixed32
    let h = parse_cshead(&data).unwrap();
    assert_eq!(h, CsHead { msgid: 3, ..CsHead::default() });
}

#[test]
fn parse_cshead_negative_msgid() {
    // int32 -5 is sent as a ten-byte varint of its 64-bit two's complement.
    let data = varint_field(1, (-5i64) as u64);
    assert_eq!(data.len(), 11);
    assert_eq!(parse_cshead(&data).unwrap().msgid, -5);
}

#[test]
fn parse_cshead_truncates_wide_values() {
    let mut data = varint_field(1, 0x1_0000_0002);
    data.extend(varint_field(4, 0x2_0000_0003));
    data.extend(varint_field(7, 0x3_0000_0004));
    let h = parse_cshead(&data).unwrap();
    assert_eq!((h.msgid, h.total_pack_count, h.checksum), (2, 3, 4));
}

#[test]
fn parse_cshead_later_field_wins() {
    let mut data = varint_field(1, 1);
    data.extend(varint_field(2, 10));
    data.extend(varint_field(1, 2));
    data.extend(varint_field(2, 20));
    let h = parse_cshead(&data).unwrap();
    assert_eq!((h.msgid, h.up_seqid), (2, 20));
}

#[test]
fn parse_cshead_invalid_wire_format() {
    let mut data = varint_field(1, 1);
    data.push(0x0b);
    assert_eq!(parse_cshead(&data), None);
}

#[test]
fn parse_raw_proto_rejects_field_number_past_32_bits() {
    // Field number 2^32 + 1 must not be taken as field 1.
    assert!(parse_raw_proto(&[0x88, 0x80, 0x80, 0x80, 0x80, 0x01, 0x00]).is_none());
    let data = varint_field(1, 0);
    assert_eq!(describe(&parse_raw_proto(&data).unwrap()), vec!["1=Varint(0)"]);
}
