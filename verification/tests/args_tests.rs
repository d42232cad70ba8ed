use oxidized_relay::args::{decode_iv, decode_key, msgid_map_from_lines, HexError, KeyError};

const KEY_HEX: &str = "000102030405060708090a0b0c0d0e0f101112131415161718191a1b1c1d1e1f";

#[test]
fn decode_key_valid() {
    let k = decode_key(KEY_HEX).unwrap();
    let want: Vec<u8> = (0..32u8).collect();
    assert_eq!(k.to_vec(), want);
}

#[test]
fn decode_key_upper_case_and_whitespace() {
    let text = format!("  \t{}\n", KEY_HEX.to_uppercase());
    let k = decode_key(&text).unwrap();
    assert_eq!(k[31], 0x1f);
    assert_eq!(k[10], 0x0a);
}

#[test]
fn decode_key_wrong_length() {
    assert_eq!(decode_key(&KEY_HEX[..62]), Err(KeyError::WrongLength { expected: 32, got: 31 }));
    assert_eq!(decode_key(""), Err(KeyError::WrongLength { expected: 32, got: 0 }));
    let long = format!("{}00", KEY_HEX);
    assert_eq!(decode_key(&long), Err(KeyError::WrongLength { expected: 32, got: 33 }));
}

#[test]
fn decode_key_odd_length() {
    assert_eq!(decode_key("abc"), Err(KeyError::Hex(HexError::OddLength)));
}

#[test]
fn decode_key_invalid_character() {
    let mut bad = KEY_HEX.to_string();
    bad.replace_range(6..7, "g");
    assert_eq!(decode_key(&bad), Err(KeyError::Hex(HexError::InvalidHexCharacter { c: 'g', index: 6 })));
    // Inner whitespace is not trimmed.
    assert_eq!(decode_key("00 1"), Err(KeyError::Hex(HexError::InvalidHexCharacter { c: ' ', index: 2 })));
}

#[test]
fn decode_iv_valid_and_wrong_length() {
    let iv = decode_iv("000000000000004a00000000").unwrap();
    assert_eq!(iv, [0, 0, 0, 0, 0, 0, 0, 0x4a, 0, 0, 0, 0]);
    assert_eq!(decode_iv("00000000000000000000"), Err(KeyError::WrongLength { expected: 12, got: 10 }));
    assert_eq!(decode_iv(KEY_HEX), Err(KeyError::WrongLength { expected: 12, got: 32 }));
    assert_eq!(decode_iv("0"), Err(KeyError::Hex(HexError::OddLength)));
}

#[test]
fn msgid_map_from_lines_joins_non_blank_lines() {
    let content = "1001:LoginReq\n\n   1002:MoveReq  \r\n\t\n1003:Chat";
    assert_eq!(msgid_map_from_lines(content), "1001:LoginReq,1002:MoveReq,1003:Chat");
}

#[test]
fn msgid_map_from_lines_edge_cases() {
    assert_eq!(msgid_map_from_lines(""), "");
    assert_eq!(msgid_map_from_lines("\n\n  \n"), "");
    assert_eq!(msgid_map_from_lines("7:A\n"), "7:A");
    assert_eq!(msgid_map_from_lines("a b\n c "), "a b,c");
}
