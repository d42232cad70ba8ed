use chacha20::cipher::{KeyIvInit, StreamCipher, StreamCipherSeek};
use chacha20::ChaCha20;

use oxidized_relay::analysis::{analyze_stream, keystream_needed, summarize, FrameReport, Summary};
use oxidized_relay::decode::DecodedValue;
use oxidized_relay::proto::CsHead;
use oxidized_relay::schema::{DescriptorSet, FieldDescriptor, FileDescriptor, MessageDescriptor, Schema};

const KEY: [u8; 32] = [0x11; 32];
const IV: [u8; 12] = [0x22; 12];

fn varint(mut v: u64) -> Vec<u8> {
    let mut out = Vec::new();
    loop {
        let b = (v & 0x7f) as u8;
        v >>= 7;
        if v == 0 {
            out.push(b);
            return out;
        }
        out.push(b | 0x80);
    }
}

fn head(msgid: u64, checksum: u32) -> Vec<u8> {
    let mut out = vec![0x08];
    out.extend(varint(msgid));
    out.push(0x38);
    out.extend(varint(checksum as u64));
    out
}

fn frame(head: &[u8], body: &[u8]) -> Vec<u8> {
    let mut out = vec![head.len() as u8, (body.len() & 0xff) as u8, (body.len() >> 8) as u8];
    out.extend_from_slice(head);
    out.extend_from_slice(body);
    out
}

/// Encrypts `head ++ body` at keystream offset `position` and frames it.
fn encrypted_frame(head: &[u8], body: &[u8], position: u64) -> Vec<u8> {
    let mut blob = head.to_vec();
    blob.extend_from_slice(body);
    let mut c = ChaCha20::new((&KEY).into(), (&IV).into());
    c.seek(position);
    c.apply_keystream(&mut blob);
    frame(&blob[..head.len()], &blob[head.len()..])
}

fn crc(data: &[u8]) -> u32 {
    crc32fast::hash(data)
}

fn schema() -> Schema {
    let set = DescriptorSet {
        files: vec![FileDescriptor {
            package: String::new(),
            messages: vec![MessageDescriptor {
                name: "LoginRsp".to_string(),
                fields: vec![FieldDescriptor { number: 1, name: "code".to_string() }],
                nested: vec![],
            }],
        }],
    };
    Schema::load(&set, "7:LoginRsp").unwrap()
}

#[test]
fn crc_check_uses_crc32_ieee() {
    // CRC-32/IEEE check value of "123456789".
    let body = b"123456789";
    let data = frame(&head(1, 0xCBF43926), body);
    let reports = analyze_stream(&data, &KEY, &IV, 1, None);
    assert_eq!(reports.len(), 1);
    assert_eq!(reports[0].cshead.unwrap().checksum, 0xCBF43926);
    assert!(reports[0].crc_ok);

    let bad = frame(&head(1, 0xCBF43927), body);
    let reports = analyze_stream(&bad, &KEY, &IV, 1, None);
    assert!(!reports[0].crc_ok);
}

#[test]
fn analyze_stream_plaintext_then_encrypted_frames() {
    let body0 = [0x08u8, 0x2a];
    let head0 = head(7, crc(&body0));
    let body1 = [0x08u8, 0x01, 0x12, 0x02, b'h', b'i'];
    let head1 = head(8, crc(&body1));
    let body2 = [0x08u8, 0x05];
    let head2 = head(7, crc(&body2));

    let mut data = frame(&head0, &body0);
    data.extend(encrypted_frame(&head1, &body1, 64));
    let used = (head1.len() + body1.len()) as u64;
    data.extend(encrypted_frame(&head2, &body2, 64 + used));

    let s = schema();
    let reports = analyze_stream(&data, &KEY, &IV, 1, Some(&s));
    assert_eq!(reports.len(), 3);

    assert_eq!(reports[0].index, 0);
    assert!(reports[0].is_plaintext);
    assert_eq!(reports[0].head, head0);
    assert_eq!(reports[0].body, body0.to_vec());
    assert_eq!(reports[0].cshead, Some(CsHead { msgid: 7, checksum: crc(&body0), ..CsHead::default() }));
    assert!(reports[0].crc_ok);
    assert_eq!(reports[0].msg_type.as_deref(), Some("LoginRsp"));
    let f0 = reports[0].body_fields.as_ref().unwrap();
    assert_eq!(f0.len(), 1);
    assert_eq!(f0[0].name.as_deref(), Some("code"));
    assert!(matches!(f0[0].value, DecodedValue::Uint(42)));

    assert_eq!(reports[1].index, 1);
    assert!(!reports[1].is_plaintext);
    assert_eq!(reports[1].head, head1);
    assert_eq!(reports[1].body, body1.to_vec());
    assert!(reports[1].crc_ok);
    assert_eq!(reports[1].msg_type, None);
    let f1 = reports[1].body_fields.as_ref().unwrap();
    assert_eq!(f1.len(), 2);
    assert_eq!(f1[0].name, None);
    assert!(matches!(f1[1].value, DecodedValue::Text(ref t) if t == "hi"));

    assert_eq!(reports[2].index, 2);
    assert_eq!(reports[2].head, head2);
    assert_eq!(reports[2].body, body2.to_vec());
    assert_eq!(reports[2].cshead.unwrap().msgid, 7);
    assert!(reports[2].crc_ok);
}

#[test]
fn analyze_stream_without_plaintext_frames() {
    let body = [0x08u8, 0x03];
    let h = head(5, crc(&body));
    let data = encrypted_frame(&h, &body, 64);
    let reports = analyze_stream(&data, &KEY, &IV, 0, None);
    assert_eq!(reports.len(), 1);
    assert!(!reports[0].is_plaintext);
    assert_eq!(reports[0].head, h);
    assert_eq!(reports[0].cshead.unwrap().msgid, 5);
}

#[test]
fn analyze_stream_invalid_head_reports_no_fields() {
    // Head [0x0b] is a group wire type: not a CSHead.
    let data = frame(&[0x0b], &[0x08, 0x01]);
    let reports = analyze_stream(&data, &KEY, &IV, 1, None);
    assert_eq!(reports.len(), 1);
    assert_eq!(reports[0].cshead, None);
    assert!(!reports[0].crc_ok);
    assert!(reports[0].body_fields.is_none());
    assert!(reports[0].msg_type.is_none());
    assert_eq!(reports[0].head, vec![0x0b]);
}

#[test]
fn analyze_stream_body_not_protobuf() {
    let body = [0x0bu8];
    let data = frame(&head(2, crc(&body)), &body);
    let reports = analyze_stream(&data, &KEY, &IV, 1, None);
    assert!(reports[0].cshead.is_some());
    assert!(reports[0].crc_ok);
    assert!(reports[0].body_fields.is_none());
}

#[test]
fn analyze_stream_no_frames() {
    assert!(analyze_stream(&[0, 0, 0], &KEY, &IV, 1, None).is_empty());
}

fn report(valid: bool, crc_ok: bool) -> FrameReport {
    FrameReport {
        index: 0,
        is_plaintext: false,
        head: vec![],
        body: vec![],
        cshead: if valid { Some(CsHead::default()) } else { None },
        crc_ok,
        msg_type: None,
        body_fields: None,
    }
}

#[test]
fn summarize_counts_frames() {
    let reports = vec![report(true, true), report(false, false), report(true, false), report(true, false)];
    let s = summarize(&reports);
    assert_eq!(s, Summary { total: 4, valid: 1, invalid: 1, crc_fail: 2 });
}

#[test]
fn summary_combine_adds_counts() {
    let a = Summary { total: 4, valid: 3, invalid: 1, crc_fail: 2 };
    let b = Summary { total: 2, valid: 1, invalid: 1, crc_fail: 0 };
    assert_eq!(a.combine(&b), Summary { total: 6, valid: 4, invalid: 2, crc_fail: 2 });
    assert_eq!(Summary::new().combine(&a), a);
    assert_eq!(Summary::new(), Summary { total: 0, valid: 0, invalid: 0, crc_fail: 0 });
}

#[test]
fn keystream_needed_counts_encrypted_frames_only() {
    let mut data = frame(&[1, 2], &[3]);
    data.extend(frame(&[4], &[5, 6, 7]));
    data.extend(frame(&[8, 9, 10], &[]));
    assert_eq!(keystream_needed(&data, 0), 3 + 4 + 3);
    assert_eq!(keystream_needed(&data, 1), 4 + 3);
    assert_eq!(keystream_needed(&data, 5), 0);
    assert_eq!(keystream_needed(&[], 0), 0);
}

/// The bitwise CRC-32/IEEE (reflected, polynomial 0xEDB88320) that the
/// library's specification describes.
fn bitwise_crc(data: &[u8]) -> u32 {
    let mut c: u32 = 0xFFFF_FFFF;
    for &b in data {
        c ^= b as u32;
        for _ in 0..8 {
            c = if c & 1 == 1 { (c >> 1) ^ 0xEDB8_8320 } else { c >> 1 };
        }
    }
    !c
}

#[test]
fn crc_specification_agrees_with_crc32fast() {
    assert_eq!(bitwise_crc(b"123456789"), 0xCBF43926);
    let inputs: Vec<Vec<u8>> = vec![vec![], vec![0], vec![0xff; 7], (0..=255u8).collect(), b"hello".to_vec()];
    for d in inputs {
        assert_eq!(bitwise_crc(&d), crc32fast::hash(&d));
    }
}
