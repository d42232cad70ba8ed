use oxidized_relay::decode::{DecodedField, DecodedValue};
use oxidized_relay::display::{field_key, hex_dump, push_decimal, push_hex_lower};
use oxidized_relay::tcp::{IpAddress, StreamKey};

fn v4(a: u8, b: u8, c: u8, d: u8) -> IpAddress {
    IpAddress::V4(u32::from_be_bytes([a, b, c, d]))
}

fn v6(groups: [u16; 8]) -> IpAddress {
    let mut n: u128 = 0;
    for g in groups {
        n = (n << 16) | g as u128;
    }
    IpAddress::V6(n)
}

fn label_of(ip: IpAddress) -> String {
    let k = StreamKey::new(ip, 1, v4(0, 0, 0, 0), 2);
    let l = k.label();
    l.strip_suffix(" → 0.0.0.0:2").unwrap().strip_suffix(":1").unwrap().to_string()
}

#[test]
fn label_ipv4() {
    let k = StreamKey::new(v4(192, 168, 1, 10), 443, v4(10, 0, 0, 1), 50000);
    assert_eq!(k.label(), "192.168.1.10:443 → 10.0.0.1:50000");
}

#[test]
fn label_ipv4_extremes() {
    let k = StreamKey::new(v4(255, 255, 255, 255), 65535, v4(0, 0, 0, 0), 0);
    assert_eq!(k.label(), "255.255.255.255:65535 → 0.0.0.0:0");
}

#[test]
fn label_ipv6_forms() {
    assert_eq!(label_of(v6([0; 8])), "::");
    assert_eq!(label_of(v6([0, 0, 0, 0, 0, 0, 0, 1])), "::1");
    assert_eq!(label_of(v6([0x2001, 0xdb8, 0, 0, 0, 0, 0, 1])), "2001:db8::1");
    assert_eq!(label_of(v6([0x2001, 0xdb8, 0, 1, 0, 0, 0, 1])), "2001:db8:0:1::1");
    assert_eq!(label_of(v6([0x2001, 0xdb8, 0, 0, 1, 0, 0, 1])), "2001:db8::1:0:0:1");
    assert_eq!(label_of(v6([0xfe80, 0, 0, 0, 0x1ff, 0xfe23, 0x4567, 0x890a])), "fe80::1ff:fe23:4567:890a");
    assert_eq!(label_of(v6([1, 0, 2, 3, 4, 5, 6, 7])), "1:0:2:3:4:5:6:7");
    assert_eq!(label_of(v6([1, 2, 3, 4, 5, 6, 7, 0])), "1:2:3:4:5:6:7:0");
    assert_eq!(label_of(v6([1, 2, 3, 4, 5, 6, 0, 0])), "1:2:3:4:5:6::");
    assert_eq!(label_of(v6([0xffff; 8])), "ffff:ffff:ffff:ffff:ffff:ffff:ffff:ffff");
}

#[test]
fn label_ipv6_mapped_ipv4() {
    assert_eq!(label_of(v6([0, 0, 0, 0, 0, 0xffff, 0xc000, 0x0201])), "::ffff:192.0.2.1");
}

#[test]
fn label_full_ipv6() {
    let k = StreamKey::new(v6([0x2001, 0xdb8, 0, 0, 0, 0, 0, 1]), 443, v6([0, 0, 0, 0, 0, 0, 0, 1]), 8080);
    assert_eq!(k.label(), "2001:db8::1:443 → ::1:8080");
}

#[test]
fn hex_dump_one_line() {
    assert_eq!(hex_dump(b"AB\x00 ~", 4), "    41 42 00 20 7E  AB. ~");
}

#[test]
fn hex_dump_two_lines() {
    let data: Vec<u8> = (0x30..0x42u8).collect();
    assert_eq!(
        hex_dump(&data, 2),
        "  30 31 32 33 34 35 36 37 38 39 3A 3B 3C 3D 3E 3F  0123456789:;<=>?\n  40 41  @A"
    );
}

#[test]
fn hex_dump_trims_trailing_spaces() {
    // The text column of a lone space byte ends in a space, which is trimmed.
    assert_eq!(hex_dump(b" ", 0), "20");
    assert_eq!(hex_dump(&[], 4), "");
}

#[test]
fn hex_dump_non_printable_bytes() {
    assert_eq!(hex_dump(&[0x7f, 0x80, 0xff, 0x0a], 0), "7F 80 FF 0A  ....");
}

#[test]
fn field_key_named_and_unnamed() {
    let named = DecodedField { number: 12, name: Some("level".to_string()), value: DecodedValue::Uint(1) };
    assert_eq!(field_key(&named), "level (12)");
    let unnamed = DecodedField { number: 7, name: None, value: DecodedValue::Bool(true) };
    assert_eq!(field_key(&unnamed), "field_7");
}

#[test]
fn push_decimal_and_hex() {
    let mut out = vec![];
    push_decimal(&mut out, 0);
    out.push(' ');
    push_decimal(&mut out, u64::MAX);
    assert_eq!(out.iter().collect::<String>(), "0 18446744073709551615");
    let mut hex = vec![];
    push_hex_lower(&mut hex, 0);
    hex.push(' ');
    push_hex_lower(&mut hex, 0xdb8);
    assert_eq!(hex.iter().collect::<String>(), "0 db8");
}
