//! Command-line settings and the parsing of the key, IV and msgid map given
//! on them.

use vstd::prelude::*;
use vstd::string::StrSliceExecFns;
use vstd::utf8::encode_utf8;

use crate::text::{chars_of, push_char, split, trim, trim_range};

verus! {

/// Settings of one run.
#[derive(Debug)]
pub struct Args {
    /// Input PCAP file (.pcap format; convert .pcapng first with tshark).
    pub pcap: String,
    /// Session key, hex string, 64 chars (32 bytes).
    pub key: Option<String>,
    /// Server encryption IV/nonce, hex string, 24 chars (12 bytes).
    pub iv: Option<String>,
    /// Only process TCP streams where one endpoint is this IP address.
    pub host: Option<String>,
    /// Path to a .proto file used to name body fields.
    pub proto: Option<String>,
    /// Path to a file of `msgid:TypeName` lines.
    pub msgid_map: Option<String>,
    /// Also print frames whose CSHead cannot be parsed.
    pub show_invalid: bool,
    /// Dump the decrypted bytes of every frame.
    pub raw: bool,
    /// Treat this many leading frames per stream as plaintext.
    pub plaintext_frames: usize,
}

/// Why hex text could not be decoded.
#[derive(Debug, Clone, Copy, PartialEq, Eq, Structural)]
pub enum HexError {
    /// A byte that is not a hex digit, at that byte index.
    InvalidHexCharacter { c: char, index: usize },
    /// An odd number of hex digits.
    OddLength,
    /// The decoded length does not fit the destination.
    InvalidStringLength,
}

/// The value of a hex digit (`0-9`, `a-f`, `A-F`).
pub open spec fn hex_digit(b: u8) -> Option<u8> {
    if 0x30 <= b <= 0x39 {
        Some((b - 0x30) as u8)
    } else if 0x61 <= b <= 0x66 {
        Some((b - 0x61 + 10) as u8)
    } else if 0x41 <= b <= 0x46 {
        Some((b - 0x41 + 10) as u8)
    } else {
        None
    }
}

/// Index of the first byte from `i` on that is not a hex digit.
pub open spec fn first_non_hex(s: Seq<u8>, i: int) -> Option<int>
    decreases s.len() - i,
{
    if i < 0 || i >= s.len() {
        None
    } else if hex_digit(s[i]) is None {
        Some(i)
    } else {
        first_non_hex(s, i + 1)
    }
}

/// Hex text decoded two digits per byte, high digit first: an odd length is
/// an error, else the first byte that is not a hex digit is.
pub open spec fn hex_decode_spec(s: Seq<u8>) -> Result<Seq<u8>, HexError> {
    if s.len() % 2 == 1 {
        Err(HexError::OddLength)
    } else {
        match first_non_hex(s, 0) {
            Some(k) => Err(HexError::InvalidHexCharacter { c: s[k] as char, index: k as usize }),
            None => Ok(
                Seq::new(
                    s.len() / 2,
                    |i: int| (hex_digit(s[2 * i])->0 * 16 + hex_digit(s[2 * i + 1])->0) as u8,
                ),
            ),
        }
    }
}

/// `hex::decode`.  Trusted to decode as `hex_decode_spec` says, which is
/// what the crate's source does: odd length first, then the first invalid
/// digit in byte order.
#[verifier::external_body]
fn hex_decode(data: &[u8]) -> (r: Result<Vec<u8>, HexError>)
    ensures
        match r {
            Ok(v) => hex_decode_spec(data@) == Ok::<_, HexError>(v@),
            Err(e) => hex_decode_spec(data@) == Err::<Seq<u8>, _>(e),
        },
{
    match hex::decode(data) {
        Ok(v) => Ok(v),
        Err(hex::FromHexError::InvalidHexCharacter { c, index }) => Err(HexError::InvalidHexCharacter { c, index }),
        Err(hex::FromHexError::OddLength) => Err(HexError::OddLength),
        Err(hex::FromHexError::InvalidStringLength) => Err(HexError::InvalidStringLength),
    }
}

/// Why a key or IV was refused.
#[derive(Debug, Clone, Copy, PartialEq, Eq, Structural)]
pub enum KeyError {
    /// The text is not hex.
    Hex(HexError),
    /// The text decodes to the wrong number of bytes.
    WrongLength { expected: usize, got: usize },
}

/// The bytes given by hex text `text`, trimmed, if there are `n` of them.
pub open spec fn decode_secret(text: Seq<char>, n: nat) -> Result<Seq<u8>, KeyError> {
    match hex_decode_spec(encode_utf8(trim(text))) {
        Err(e) => Err(KeyError::Hex(e)),
        Ok(bytes) => if bytes.len() == n {
            Ok(bytes)
        } else {
            Err(KeyError::WrongLength { expected: n as usize, got: bytes.len() as usize })
        },
    }
}

fn decode_hex_trimmed(text: &str) -> (r: Result<Vec<u8>, HexError>)
    ensures
        match r {
            Ok(v) => hex_decode_spec(encode_utf8(trim(text@))) == Ok::<_, HexError>(v@),
            Err(e) => hex_decode_spec(encode_utf8(trim(text@))) == Err::<Seq<u8>, _>(e),
        },
{
    let chars = chars_of(text);
    let (a, b) = trim_range(chars.as_slice(), 0, chars.len());
    assert(chars@.subrange(0, chars@.len() as int) =~= text@);
    let trimmed = text.substring_char(a, b);
    hex_decode(trimmed.as_bytes())
}

/// Parse a 32-byte session key from 64 hex digits (surrounding whitespace
/// ignored).
pub fn decode_key(text: &str) -> (r: Result<[u8; 32], KeyError>)
    ensures
        match r {
            Ok(k) => decode_secret(text@, 32) == Ok::<_, KeyError>(k@),
            Err(e) => decode_secret(text@, 32) == Err::<Seq<u8>, _>(e),
        },
{
    let bytes = match decode_hex_trimmed(text) {
        Ok(b) => b,
        Err(e) => return Err(KeyError::Hex(e)),
    };
    if bytes.len() != 32 {
        return Err(KeyError::WrongLength { expected: 32, got: bytes.len() });
    }
    let mut key = [0u8; 32];
    let mut i: usize = 0;
    while i < 32
        invariant
            i <= 32,
            bytes@.len() == 32,
            forall|j: int| 0 <= j < i ==> key@[j] == bytes@[j],
        decreases 32 - i,
    {
        key[i] = bytes[i];
        i += 1;
    }
    assert(key@ =~= bytes@);
    Ok(key)
}

/// Parse a 12-byte IV from 24 hex digits (surrounding whitespace ignored).
pub fn decode_iv(text: &str) -> (r: Result<[u8; 12], KeyError>)
    ensures
        match r {
            Ok(k) => decode_secret(text@, 12) == Ok::<_, KeyError>(k@),
            Err(e) => decode_secret(text@, 12) == Err::<Seq<u8>, _>(e),
        },
{
    let bytes = match decode_hex_trimmed(text) {
        Ok(b) => b,
        Err(e) => return Err(KeyError::Hex(e)),
    };
    if bytes.len() != 12 {
        return Err(KeyError::WrongLength { expected: 12, got: bytes.len() });
    }
    let mut iv = [0u8; 12];
    let mut i: usize = 0;
    while i < 12
        invariant
            i <= 12,
            bytes@.len() == 12,
            forall|j: int| 0 <= j < i ==> iv@[j] == bytes@[j],
        decreases 12 - i,
    {
        iv[i] = bytes[i];
        i += 1;
    }
    assert(iv@ =~= bytes@);
    Ok(iv)
}

/// The trimmed, non-blank lines among `pieces`, in order.
pub open spec fn kept_lines(pieces: Seq<Seq<char>>) -> Seq<Seq<char>>
    decreases pieces.len(),
{
    if pieces.len() == 0 {
        seq![]
    } else {
        let rest = kept_lines(pieces.drop_last());
        let t = trim(pieces.last());
        if t.len() == 0 {
            rest
        } else {
            rest.push(t)
        }
    }
}

/// `items` joined with `sep` between consecutive items.
pub open spec fn join_with(items: Seq<Seq<char>>, sep: char) -> Seq<char>
    decreases items.len(),
{
    if items.len() == 0 {
        seq![]
    } else if items.len() == 1 {
        items[0]
    } else {
        join_with(items.drop_last(), sep).push(sep) + items.last()
    }
}

/// The msgid map as one comma-separated string: the trimmed non-blank lines
/// of `content`, joined with commas.
pub open spec fn msgid_map_text(content: Seq<char>) -> Seq<char> {
    join_with(kept_lines(split(content, '\n')), ',')
}

/// Convert a multi-line `msgid:TypeName` file to the comma-separated form
/// that [`crate::schema::Schema::load`] takes.
pub fn msgid_map_from_lines(content: &str) -> (r: String)
    ensures
        r@ == msgid_map_text(content@),
{
    let chars = chars_of(content);
    let ghost s = chars@;
    let mut out = String::new();
    let mut a: usize = 0;
    let mut any = false;
    let ghost mut done: Seq<Seq<char>> = seq![];
    assert(s.skip(0) =~= s);
    loop
        invariant
            a <= chars.len(),
            s == chars@,
            s == content@,
            any == (kept_lines(done).len() > 0),
            split(s, '\n') == done + split(s.skip(a as int), '\n'),
            out@ == join_with(kept_lines(done), ','),
        decreases chars.len() - a,
    {
        let ghost rest = s.skip(a as int);
        assert(chars@.subrange(a as int, chars.len() as int) =~= rest);
        let found = crate::text::find_char(chars.as_slice(), a, chars.len(), '\n');
        proof {
            crate::text::lemma_find_from_bounds(rest, '\n', 0);
        }
        let (b, last) = match found {
            Some(b) => (b, false),
            None => (chars.len(), true),
        };
        let ghost piece = chars@.subrange(a as int, b as int);
        proof {
            if last {
                assert(piece =~= rest);
            } else {
                assert(piece =~= rest.take(b - a));
                assert(rest.skip(b - a + 1) =~= s.skip(b + 1));
            }
        }
        let (p0, p1) = trim_range(chars.as_slice(), a, b);
        proof {
            assert(done.push(piece).drop_last() =~= done);
        }
        if p0 < p1 {
            let ghost before = out@;
            if any {
                push_char(&mut out, ',');
            }
            let mut i = p0;
            while i < p1
                invariant
                    p0 <= i <= p1 <= chars.len(),
                    out@ == (if kept_lines(done).len() > 0 { before.push(',') } else { before }) + chars@.subrange(
                        p0 as int,
                        i as int,
                    ),
                decreases p1 - i,
            {
                push_char(&mut out, chars[i]);
                i += 1;
                assert(out@ =~= (if kept_lines(done).len() > 0 { before.push(',') } else { before }) + chars@.subrange(
                    p0 as int,
                    i as int,
                ));
            }
            proof {
                let kept = kept_lines(done);
                let t = chars@.subrange(p0 as int, p1 as int);
                assert(kept_lines(done.push(piece)) == kept.push(t));
                if kept.len() > 0 {
                    assert(kept.push(t).drop_last() =~= kept);
                    assert(out@ =~= join_with(kept.push(t), ','));
                } else {
                    assert(out@ =~= join_with(kept.push(t), ','));
                }
            }
            any = true;
        } else {
            assert(kept_lines(done.push(piece)) == kept_lines(done));
        }
        proof {
            done = done.push(piece);
        }
        if last {
            assert(split(s, '\n') =~= done);
            return out;
        }
        proof {
            assert(split(s, '\n') =~= done + split(s.skip(b + 1), '\n'));
        }
        a = b + 1;
    }
}

} // verus!
