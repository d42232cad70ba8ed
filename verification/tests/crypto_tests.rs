use chacha20::cipher::{KeyIvInit, StreamCipher, StreamCipherSeek};
use chacha20::ChaCha20;

use oxidized_relay::crypto::{FrameCrypto, FIRST_BLOCK_OFFSET};

fn rfc_key() -> [u8; 32] {
    let mut k = [0u8; 32];
    for (i, b) in k.iter_mut().enumerate() {
        *b = i as u8;
    }
    k
}

fn rfc_nonce() -> [u8; 12] {
    [0, 0, 0, 0, 0, 0, 0, 0x4a, 0, 0, 0, 0]
}

fn reference(key: &[u8; 32], nonce: &[u8; 12], position: u64, data: &[u8]) -> Vec<u8> {
    let mut out = data.to_vec();
    let mut c = ChaCha20::new(key.into(), nonce.into());
    c.seek(position);
    c.apply_keystream(&mut out);
    out
}

#[test]
fn decrypt_frame_matches_rfc7539_vector() {
    // RFC 7539 section 2.4.2: block counter 1, i.e. byte offset 64.
    let mut data = b"Ladies and Gentl".to_vec();
    let mut c = FrameCrypto::new(&rfc_key(), &rfc_nonce());
    c.decrypt_frame(&mut data);
    assert_eq!(
        data,
        vec![0x6e, 0x2e, 0x35, 0x9a, 0x25, 0x68, 0xf9, 0x80, 0x41, 0xba, 0x07, 0x28, 0xdd, 0x0d, 0x69, 0x81]
    );
}

#[test]
fn decrypt_frame_starts_at_block_one() {
    let key = [7u8; 32];
    let iv = [9u8; 12];
    let plain: Vec<u8> = (0..100u8).collect();
    let mut data = plain.clone();
    let mut c = FrameCrypto::new(&key, &iv);
    c.decrypt_frame(&mut data);
    assert_ne!(data, plain);
    assert_eq!(data, reference(&key, &iv, FIRST_BLOCK_OFFSET, &plain));
}

#[test]
fn decrypt_frame_keystream_is_continuous() {
    let key = [1u8; 32];
    let iv = [2u8; 12];
    let a: Vec<u8> = (0..37u8).collect();
    let b: Vec<u8> = (100..190u8).collect();
    let mut c = FrameCrypto::new(&key, &iv);
    let mut da = a.clone();
    let mut db = b.clone();
    c.decrypt_frame(&mut da);
    c.decrypt_frame(&mut db);

    let mut whole = a.clone();
    whole.extend_from_slice(&b);
    let mut fresh = FrameCrypto::new(&key, &iv);
    fresh.decrypt_frame(&mut whole);
    assert_eq!(&whole[..a.len()], &da[..]);
    assert_eq!(&whole[a.len()..], &db[..]);
}

#[test]
fn decrypt_frame_twice_gives_back_the_input() {
    let key = [3u8; 32];
    let iv = [4u8; 12];
    let plain = b"some frame bytes".to_vec();
    let mut data = plain.clone();
    FrameCrypto::new(&key, &iv).decrypt_frame(&mut data);
    FrameCrypto::new(&key, &iv).decrypt_frame(&mut data);
    assert_eq!(data, plain);
}

#[test]
fn decrypt_frame_empty_consumes_nothing() {
    let key = [5u8; 32];
    let iv = [6u8; 12];
    let mut c = FrameCrypto::new(&key, &iv);
    let mut empty: Vec<u8> = vec![];
    c.decrypt_frame(&mut empty);
    assert!(empty.is_empty());
    let mut data = vec![0u8; 8];
    c.decrypt_frame(&mut data);
    assert_eq!(data, reference(&key, &iv, 64, &[0u8; 8]));
}
