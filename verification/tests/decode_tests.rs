use std::collections::HashMap;

use oxidized_relay::decode::{decode_body, DecodedField, DecodedValue};
use oxidized_relay::proto::RawValue;

fn show(v: &DecodedValue) -> String {
    format!("{:?}", v)
}

fn show_fields(fs: &[DecodedField]) -> String {
    format!("{:?}", fs)
}

#[test]
fn from_raw_numbers_are_unsigned() {
    assert!(matches!(DecodedValue::from_raw(&RawValue::Varint(7)), DecodedValue::Uint(7)));
    assert!(matches!(DecodedValue::from_raw(&RawValue::Fixed32(0xFFFF_FFFF)), DecodedValue::Uint(0xFFFF_FFFF)));
    assert!(matches!(DecodedValue::from_raw(&RawValue::Fixed64(u64::MAX)), DecodedValue::Uint(u64::MAX)));
}

#[test]
fn from_raw_text() {
    let v = DecodedValue::from_raw(&RawValue::Bytes(b"hello, world".to_vec()));
    match v {
        DecodedValue::Text(s) => assert_eq!(s, "hello, world"),
        other => panic!("expected text, got {:?}", other),
    }
}

#[test]
fn from_raw_text_allows_newline_tab_return() {
    let v = DecodedValue::from_raw(&RawValue::Bytes(b"a\tb\r\nc".to_vec()));
    assert_eq!(show(&v), show(&DecodedValue::Text("a\tb\r\nc".to_string())));
}

#[test]
fn from_raw_unicode_text() {
    let s = "héllo → 世界";
    let v = DecodedValue::from_raw(&RawValue::Bytes(s.as_bytes().to_vec()));
    assert_eq!(show(&v), show(&DecodedValue::Text(s.to_string())));
}

#[test]
fn from_raw_empty_bytes_is_empty_text() {
    let v = DecodedValue::from_raw(&RawValue::Bytes(vec![]));
    assert_eq!(show(&v), show(&DecodedValue::Text(String::new())));
}

#[test]
fn from_raw_control_bytes_become_nested_message() {
    // 0x08 is a control character, so this is not text; it parses as field 1 = 1.
    let v = DecodedValue::from_raw(&RawValue::Bytes(vec![0x08, 0x01]));
    match v {
        DecodedValue::Nested(fields) => {
            assert_eq!(fields.len(), 1);
            assert_eq!(fields[0].number, 1);
            assert!(fields[0].name.is_none());
            assert!(matches!(fields[0].value, DecodedValue::Uint(1)));
        }
        other => panic!("expected nested, got {:?}", other),
    }
}

#[test]
fn from_raw_nested_inside_nested() {
    // field 2 = bytes [0x08, 0x05] (itself field 1 = 5), then field 3 = 0x7f.
    let inner = vec![0x12, 0x02, 0x08, 0x05, 0x18, 0x7f];
    let v = DecodedValue::from_raw(&RawValue::Bytes(inner));
    match v {
        DecodedValue::Nested(fields) => {
            assert_eq!(fields.len(), 2);
            assert_eq!(fields[0].number, 2);
            match &fields[0].value {
                DecodedValue::Nested(deep) => {
                    assert_eq!(deep.len(), 1);
                    assert_eq!(deep[0].number, 1);
                    assert!(matches!(deep[0].value, DecodedValue::Uint(5)));
                }
                other => panic!("expected nested, got {:?}", other),
            }
            assert_eq!(fields[1].number, 3);
            assert!(matches!(fields[1].value, DecodedValue::Uint(0x7f)));
        }
        other => panic!("expected nested, got {:?}", other),
    }
}

#[test]
fn from_raw_invalid_utf8_and_not_proto_is_bytes() {
    let v = DecodedValue::from_raw(&RawValue::Bytes(vec![0xff, 0xfe]));
    match v {
        DecodedValue::Bytes(b) => assert_eq!(b, vec![0xff, 0xfe]),
        other => panic!("expected bytes, got {:?}", other),
    }
    let v = DecodedValue::from_raw(&RawValue::Bytes(vec![0x01]));
    assert!(matches!(v, DecodedValue::Bytes(ref b) if b == &vec![0x01]));
}

#[test]
fn decoded_value_from_plain_values() {
    assert!(matches!(DecodedValue::from(9u64), DecodedValue::Uint(9)));
    assert!(matches!(DecodedValue::from(-9i64), DecodedValue::Int(-9)));
    assert!(matches!(DecodedValue::from(true), DecodedValue::Bool(true)));
}

#[test]
fn decode_body_names_fields_from_table() {
    let mut names = HashMap::new();
    names.insert(1u32, "account".to_string());
    names.insert(3u32, "unused".to_string());
    let body = [0x08, 0x2a, 0x12, 0x02, b'o', b'k'];
    let fields = decode_body(&body, Some(&names)).unwrap();
    assert_eq!(fields.len(), 2);
    assert_eq!(fields[0].number, 1);
    assert_eq!(fields[0].name.as_deref(), Some("account"));
    assert!(matches!(fields[0].value, DecodedValue::Uint(42)));
    assert_eq!(fields[1].number, 2);
    assert_eq!(fields[1].name, None);
    assert!(matches!(fields[1].value, DecodedValue::Text(ref s) if s == "ok"));
}

#[test]
fn decode_body_without_table() {
    let fields = decode_body(&[0x08, 0x2a], None).unwrap();
    assert_eq!(show_fields(&fields), show_fields(&[DecodedField {
        number: 1,
        name: None,
        value: DecodedValue::Uint(42),
    }]));
}

#[test]
fn decode_body_empty_and_invalid() {
    assert_eq!(decode_body(&[], None).unwrap().len(), 0);
    assert!(decode_body(&[0x0b], None).is_none());
    assert!(decode_body(&[0x08], None).is_none());
}
