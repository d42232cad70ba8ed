//! Per-direction ChaCha20 (RFC 7539) decryption with one continuous keystream.

use vstd::prelude::*;

use chacha20::cipher::{KeyIvInit, StreamCipher, StreamCipherSeek};
use chacha20::ChaCha20;

verus! {

/// Number of keystream bytes the 32-bit block counter of the `chacha20`
/// crate can address: `u32::MAX` blocks of 64 bytes.
pub const KEYSTREAM_LEN: u64 = 274877906880;

/// Byte offset of block 1, where the session keystream starts (block 0 is
/// reserved by the AEAD-style construction).
pub const FIRST_BLOCK_OFFSET: u64 = 64;

/// The byte at absolute offset `position` of the RFC 7539 ChaCha20 keystream
/// for `key` and `nonce` (block counter starting at 0).
pub uninterp spec fn chacha20_keystream_byte(key: Seq<u8>, nonce: Seq<u8>, position: int) -> u8;

/// `data` XOR'd with the keystream of `key` and `nonce`, starting at byte
/// offset `position`.
pub open spec fn keystream_xor(key: Seq<u8>, nonce: Seq<u8>, position: int, data: Seq<u8>) -> Seq<u8> {
    Seq::new(data.len(), |i: int| data[i] ^ chacha20_keystream_byte(key, nonce, position + i))
}

/// Builds `chacha20::ChaCha20` from `key` and `nonce` (`KeyIvInit::new`),
/// positions it at byte `position` (`StreamCipherSeek::seek`) and XORs the
/// keystream into `data` (`StreamCipher::apply_keystream`).  Trusted to do
/// exactly that: byte `i` of `data` is XOR'd with keystream byte
/// `position + i`.  The crate panics once the 32-bit block counter would run
/// out, which `requires` excludes.
#[verifier::external_body]
fn chacha20_apply_at(key: &[u8; 32], nonce: &[u8; 12], position: u64, data: &mut [u8])
    requires
        position + old(data)@.len() <= KEYSTREAM_LEN,
    ensures
        final(data)@.len() == old(data)@.len(),
        forall|i: int|
            0 <= i < old(data)@.len() ==> #[trigger] final(data)@[i] == old(data)@[i]
                ^ chacha20_keystream_byte(key@, nonce@, position + i),
{
    let mut cipher = ChaCha20::new(chacha20::Key::from_slice(key), chacha20::Nonce::from_slice(nonce));
    cipher.seek(position);
    cipher.apply_keystream(data);
}

/// Per-session ChaCha20 decryption state.
///
/// One keystream per `(key, nonce)` pair, starting at block 1 (byte offset
/// 64), consumed contiguously by every frame passed to [`FrameCrypto::decrypt_frame`],
/// in the order the frames were sent.
pub struct FrameCrypto {
    key: [u8; 32],
    nonce: [u8; 12],
    position: u64,
}

impl FrameCrypto {
    /// The session key.
    pub closed spec fn key(&self) -> Seq<u8> {
        self.key@
    }

    /// The nonce.
    pub closed spec fn nonce(&self) -> Seq<u8> {
        self.nonce@
    }

    /// Offset of the next keystream byte to use.
    pub closed spec fn position(&self) -> int {
        self.position as int
    }

    /// Build a fresh crypto state positioned at the first encrypted byte
    /// (block 1 / offset 64).
    pub fn new(key: &[u8; 32], iv: &[u8; 12]) -> (c: Self)
        ensures
            c.key() == key@,
            c.nonce() == iv@,
            c.position() == FIRST_BLOCK_OFFSET,
    {
        FrameCrypto { key: *key, nonce: *iv, position: FIRST_BLOCK_OFFSET }
    }

    /// Decrypt `data` in place, advancing the keystream by `data.len()` bytes.
    pub fn decrypt_frame(&mut self, data: &mut [u8])
        requires
            old(self).position() + old(data)@.len() <= KEYSTREAM_LEN,
        ensures
            final(data)@ == keystream_xor(old(self).key(), old(self).nonce(), old(self).position(), old(data)@),
            final(self).key() == old(self).key(),
            final(self).nonce() == old(self).nonce(),
            final(self).position() == old(self).position() + old(data)@.len(),
    {
        if data.len() == 0 {
            assert(keystream_xor(self.key@, self.nonce@, self.position as int, data@) =~= data@);
            return;
        }
        chacha20_apply_at(&self.key, &self.nonce, self.position, data);
        assert(data@ =~= keystream_xor(self.key@, self.nonce@, self.position as int, old(data)@));
        self.position = self.position + data.len() as u64;
    }
}

proof fn lemma_xor_twice(a: u8, b: u8)
    ensures
        (a ^ b) ^ b == a,
{
    assert((a ^ b) ^ b == a) by (bit_vector);
}

/// Decryption undoes encryption: XOR'ing the same keystream twice gives the
/// original bytes back.
pub proof fn lemma_keystream_xor_involution(key: Seq<u8>, nonce: Seq<u8>, position: int, data: Seq<u8>)
    ensures
        keystream_xor(key, nonce, position, keystream_xor(key, nonce, position, data)) == data,
{
    let once = keystream_xor(key, nonce, position, data);
    assert forall|i: int| 0 <= i < data.len() implies #[trigger] keystream_xor(key, nonce, position, once)[i] == data[i] by {
        lemma_xor_twice(data[i], chacha20_keystream_byte(key, nonce, position + i));
    }
    assert(keystream_xor(key, nonce, position, once) =~= data);
}

/// The keystream is continuous: decrypting two frames one after the other
/// is the same as decrypting their concatenation in one go.
pub proof fn lemma_keystream_xor_split(key: Seq<u8>, nonce: Seq<u8>, position: int, a: Seq<u8>, b: Seq<u8>)
    ensures
        keystream_xor(key, nonce, position, a + b) == keystream_xor(key, nonce, position, a)
            + keystream_xor(key, nonce, position + a.len(), b),
{
    let lhs = keystream_xor(key, nonce, position, a + b);
    let rhs = keystream_xor(key, nonce, position, a) + keystream_xor(key, nonce, position + a.len(), b);
    assert forall|i: int| 0 <= i < lhs.len() implies lhs[i] == rhs[i] by {
        if i >= a.len() {
            assert((a + b)[i] == b[i - a.len()]);
            assert(position + a.len() + (i - a.len()) == position + i);
        }
    }
    assert(lhs =~= rhs);
}

} // verus!
