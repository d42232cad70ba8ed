//! Per-stream frame analysis: framing, decryption, CSHead parsing, CRC check
//! and body decoding, and the counts reported at the end of a run.

use vstd::prelude::*;

use std::collections::HashMap;

use crate::crypto::{FrameCrypto, FIRST_BLOCK_OFFSET, KEYSTREAM_LEN, keystream_xor};
use crate::decode::{DecodedField, body_fields, decode_body, fields_spec, names_view, opt_string_view};
use crate::frame::{FrameSpec, RawFrame, frames_of, parse_frames};
use crate::proto::{CsHead, cshead_of, fields_of, parse_cshead};
use crate::schema::Schema;

verus! {

/// One bit step of the reflected CRC-32 with polynomial `0xEDB88320`.
pub open spec fn crc32_bit(c: u32) -> u32 {
    if c & 1 == 1 {
        (c >> 1) ^ 0xEDB8_8320u32
    } else {
        c >> 1
    }
}

/// `k` bit steps of the CRC-32 register.
pub open spec fn crc32_bits(c: u32, k: nat) -> u32
    decreases k,
{
    if k == 0 {
        c
    } else {
        crc32_bits(crc32_bit(c), (k - 1) as nat)
    }
}

/// The CRC-32 register after taking in the bytes of `data`, low bit first.
pub open spec fn crc32_update(c: u32, data: Seq<u8>) -> u32
    decreases data.len(),
{
    if data.len() == 0 {
        c
    } else {
        crc32_update(crc32_bits(c ^ (data[0] as u32), 8), data.drop_first())
    }
}

/// The CRC-32/IEEE checksum of `data`: register starting at all ones, the
/// result inverted.
pub open spec fn crc32_ieee(data: Seq<u8>) -> u32 {
    !crc32_update(0xFFFF_FFFFu32, data)
}

/// `crc32fast::hash`: the CRC-32/IEEE checksum of `data`.  Trusted to
/// compute exactly that checksum.
#[verifier::external_body]
fn crc32(data: &[u8]) -> (r: u32)
    ensures
        r == crc32_ieee(data@),
{
    crc32fast::hash(data)
}

/// Everything learned about one frame of a stream.
pub struct FrameReport {
    /// Frame index within its stream (0-based).
    pub index: usize,
    /// Whether the frame was taken as plaintext (not decrypted).
    pub is_plaintext: bool,
    /// The head section after decryption.
    pub head: Vec<u8>,
    /// The body section after decryption.
    pub body: Vec<u8>,
    /// The parsed header, `None` when the head is not a valid CSHead.
    pub cshead: Option<CsHead>,
    /// Whether the CRC-32 of the body equals the header's checksum.
    pub crc_ok: bool,
    /// The schema's type name for the header's msgid.
    pub msg_type: Option<String>,
    /// The decoded body, `None` when the body is not a protobuf message.
    pub body_fields: Option<Vec<DecodedField>>,
}

/// Number of head and body bytes of a frame.
pub open spec fn frame_len(f: FrameSpec) -> int {
    f.head.len() as int + f.body.len() as int
}

/// A frame among the first `plaintext_frames` of its stream is plaintext.
pub open spec fn frame_is_plaintext(f: FrameSpec, plaintext_frames: int) -> bool {
    f.index < plaintext_frames
}

/// Keystream bytes consumed by the encrypted frames among `frames`.
pub open spec fn keystream_used(frames: Seq<FrameSpec>, plaintext_frames: int) -> int
    decreases frames.len(),
{
    if frames.len() == 0 {
        0
    } else {
        keystream_used(frames.drop_last(), plaintext_frames) + if frame_is_plaintext(frames.last(), plaintext_frames) {
            0
        } else {
            frame_len(frames.last())
        }
    }
}

/// Head and body bytes of all of `frames`.
pub open spec fn frames_len(frames: Seq<FrameSpec>) -> int
    decreases frames.len(),
{
    if frames.len() == 0 {
        0
    } else {
        frames_len(frames.drop_last()) + frame_len(frames.last())
    }
}

/// The head and body of frame `i` after decryption: plaintext frames are
/// left alone; an encrypted frame is XOR'd with the keystream right after
/// the bytes used by the encrypted frames before it, starting at block 1.
pub open spec fn decrypted_frame(
    key: Seq<u8>,
    nonce: Seq<u8>,
    frames: Seq<FrameSpec>,
    i: int,
    plaintext_frames: int,
) -> Seq<u8> {
    let f = frames[i];
    if frame_is_plaintext(f, plaintext_frames) {
        f.head + f.body
    } else {
        keystream_xor(
            key,
            nonce,
            FIRST_BLOCK_OFFSET + keystream_used(frames.take(i), plaintext_frames),
            f.head + f.body,
        )
    }
}

/// The mathematical value of the schema table in use, if any.
pub open spec fn schema_table(schema: Option<&Schema>) -> Option<Map<i32, (String, HashMap<u32, String>)>> {
    match schema {
        Some(s) => Some(s.messages@),
        None => None,
    }
}

/// The schema entry for `msgid`, if there is one.
pub open spec fn schema_entry(
    table: Option<Map<i32, (String, HashMap<u32, String>)>>,
    msgid: i32,
) -> Option<(String, HashMap<u32, String>)> {
    match table {
        Some(m) => if m.contains_key(msgid) {
            Some(m[msgid])
        } else {
            None
        },
        None => None,
    }
}

/// What the analysis reports for frame `i` of `frames`.
pub open spec fn report_correct(
    r: FrameReport,
    key: Seq<u8>,
    nonce: Seq<u8>,
    frames: Seq<FrameSpec>,
    i: int,
    plaintext_frames: int,
    table: Option<Map<i32, (String, HashMap<u32, String>)>>,
) -> bool {
    let f = frames[i];
    let dec = decrypted_frame(key, nonce, frames, i, plaintext_frames);
    &&& r.index == f.index
    &&& r.is_plaintext == frame_is_plaintext(f, plaintext_frames)
    &&& r.head@ == dec.take(f.head.len() as int)
    &&& r.body@ == dec.skip(f.head.len() as int)
    &&& r.cshead == cshead_of(r.head@)
    &&& r.crc_ok == (r.cshead matches Some(h) && crc32_ieee(r.body@) == h.checksum)
    &&& match r.cshead {
        None => r.msg_type is None && r.body_fields is None,
        Some(h) => {
            let entry = schema_entry(table, h.msgid);
            let names = match entry {
                Some(e) => Some(e.1@),
                None => None,
            };
            &&& opt_string_view(r.msg_type) == match entry {
                Some(e) => Some(e.0@),
                None => None::<Seq<char>>,
            }
            &&& match r.body_fields {
                None => fields_of(r.body@) is None,
                Some(fs) => fields_of(r.body@) is Some && fields_spec(fs@) == body_fields(
                    fields_of(r.body@)->0,
                    names,
                ),
            }
        },
    }
}

proof fn lemma_frames_len_bound(data: Seq<u8>, index: int)
    ensures
        frames_len(frames_of(data, index)) <= data.len(),
        frames_of(data, index).len() <= data.len(),
    decreases data.len(),
{
    let fs = frames_of(data, index);
    if data.len() <= 3 {
    } else if !crate::frame::frame_fits(data) {
        lemma_frames_len_bound(data.drop_first(), index);
    } else {
        let hl = data[0] as int;
        let total = 3 + hl + crate::frame::body_len_at(data);
        let rest = frames_of(data.skip(total), index + 1);
        lemma_frames_len_bound(data.skip(total), index + 1);
        let first = FrameSpec { index, head: data.subrange(3, 3 + hl), body: data.subrange(3 + hl, total) };
        assert(fs == seq![first] + rest);
        lemma_frames_len_prepend(first, rest);
    }
}

proof fn lemma_frames_len_prepend(first: FrameSpec, rest: Seq<FrameSpec>)
    ensures
        frames_len(seq![first] + rest) == frame_len(first) + frames_len(rest),
    decreases rest.len(),
{
    if rest.len() > 0 {
        lemma_frames_len_prepend(first, rest.drop_last());
        assert((seq![first] + rest).drop_last() =~= seq![first] + rest.drop_last());
        assert((seq![first] + rest).last() == rest.last());
    } else {
        assert((seq![first] + rest).drop_last() =~= seq![]);
        assert((seq![first] + rest).last() == first);
        assert(frames_len(seq![]) == 0);
    }
}

proof fn lemma_used_prefix(frames: Seq<FrameSpec>, i: int, plaintext_frames: int)
    requires
        0 <= i <= frames.len(),
    ensures
        0 <= keystream_used(frames.take(i), plaintext_frames) <= frames_len(frames.take(i)),
        frames_len(frames.take(i)) <= frames_len(frames),
    decreases frames.len() - i,
{
    lemma_used_all(frames.take(i), plaintext_frames);
    if i < frames.len() {
        lemma_used_prefix(frames, i + 1, plaintext_frames);
        assert(frames.take(i + 1).drop_last() =~= frames.take(i));
    } else {
        assert(frames.take(i) =~= frames);
        lemma_used_all(frames, plaintext_frames);
    }
}

proof fn lemma_used_all(frames: Seq<FrameSpec>, plaintext_frames: int)
    ensures
        0 <= keystream_used(frames, plaintext_frames) <= frames_len(frames),
    decreases frames.len(),
{
    if frames.len() > 0 {
        lemma_used_all(frames.drop_last(), plaintext_frames);
    }
}

proof fn lemma_used_monotone(frames: Seq<FrameSpec>, i: int, plaintext_frames: int)
    requires
        0 <= i <= frames.len(),
    ensures
        keystream_used(frames.take(i), plaintext_frames) <= keystream_used(frames, plaintext_frames),
    decreases frames.len() - i,
{
    if i < frames.len() {
        lemma_used_monotone(frames, i + 1, plaintext_frames);
        assert(frames.take(i + 1).drop_last() =~= frames.take(i));
    } else {
        assert(frames.take(i) =~= frames);
    }
}

/// How many keystream bytes the analysis of `data` uses: the head and body
/// bytes of every frame from index `plaintext_frames` on.
pub fn keystream_needed(data: &[u8], plaintext_frames: usize) -> (n: u128)
    ensures
        n == keystream_used(frames_of(data@, 0), plaintext_frames as int),
{
    let frames = parse_frames(data);
    let ghost fs = frames_of(data@, 0);
    proof {
        lemma_frames_len_bound(data@, 0);
    }
    let dlen = data.len();
    let mut n: u128 = 0;
    let mut i: usize = 0;
    while i < frames.len()
        invariant
            i <= frames.len(),
            dlen == data@.len(),
            fs == frames@.map_values(|f: RawFrame| f@),
            frames_len(fs) <= data@.len(),
            n == keystream_used(fs.take(i as int), plaintext_frames as int),
        decreases frames.len() - i,
    {
        proof {
            lemma_used_prefix(fs, i + 1, plaintext_frames as int);
            assert(fs.take(i + 1).drop_last() =~= fs.take(i as int));
            assert(fs[i as int] == frames@[i as int]@);
        }
        if frames[i].index >= plaintext_frames {
            assert(fs.take(i + 1).last() == fs[i as int]);
            assert(n + frames@[i as int].head@.len() + frames@[i as int].body@.len() == keystream_used(
                fs.take(i + 1),
                plaintext_frames as int,
            ));
            assert(dlen <= u64::MAX);
            n = n + frames[i].head.len() as u128 + frames[i].body.len() as u128;
        }
        i += 1;
    }
    assert(fs.take(i as int) =~= fs);
    n
}

fn concat_bytes(a: &[u8], b: &[u8]) -> (out: Vec<u8>)
    ensures
        out@ == a@ + b@,
{
    let mut out: Vec<u8> = Vec::with_capacity(a.len());
    out.extend_from_slice(a);
    out.extend_from_slice(b);
    assert(out@ =~= a@ + b@);
    out
}

/// Analyze every frame of one direction of a TCP stream.
///
/// The first `plaintext_frames` frames are taken as plaintext; all others
/// are decrypted with one continuous keystream for `key` and `iv`, in frame
/// order.  Each frame's head is parsed as a CSHead; frames with a valid
/// header get their CRC checked and their body decoded, with field names
/// from `schema` when it knows the msgid.
pub fn analyze_stream(
    data: &[u8],
    key: &[u8; 32],
    iv: &[u8; 12],
    plaintext_frames: usize,
    schema: Option<&Schema>,
) -> (reports: Vec<FrameReport>)
    requires
        FIRST_BLOCK_OFFSET + keystream_used(frames_of(data@, 0), plaintext_frames as int) <= KEYSTREAM_LEN,
    ensures
        reports@.len() == frames_of(data@, 0).len(),
        forall|i: int|
            0 <= i < reports@.len() ==> #[trigger] report_correct(
                reports@[i],
                key@,
                iv@,
                frames_of(data@, 0),
                i,
                plaintext_frames as int,
                schema_table(schema),
            ),
{
    let frames = parse_frames(data);
    let ghost fs = frames_of(data@, 0);
    proof {
        lemma_frames_len_bound(data@, 0);
    }
    let mut crypto = FrameCrypto::new(key, iv);
    let mut reports: Vec<FrameReport> = Vec::new();
    let mut i: usize = 0;
    while i < frames.len()
        invariant
            i <= frames.len(),
            fs == frames_of(data@, 0),
            fs == frames@.map_values(|f: RawFrame| f@),
            frames_len(fs) <= data@.len(),
            FIRST_BLOCK_OFFSET + keystream_used(fs, plaintext_frames as int) <= KEYSTREAM_LEN,
            reports@.len() == i,
            crypto.key() == key@,
            crypto.nonce() == iv@,
            crypto.position() == FIRST_BLOCK_OFFSET + keystream_used(fs.take(i as int), plaintext_frames as int),
            forall|j: int|
                0 <= j < i ==> #[trigger] report_correct(
                    reports@[j],
                    key@,
                    iv@,
                    fs,
                    j,
                    plaintext_frames as int,
                    schema_table(schema),
                ),
        decreases frames.len() - i,
    {
        let frame = &frames[i];
        let ghost f = fs[i as int];
        assert(f == frame@);
        let is_plaintext = frame.index < plaintext_frames;
        let mut combined = concat_bytes(frame.head.as_slice(), frame.body.as_slice());
        proof {
            lemma_used_prefix(fs, i as int, plaintext_frames as int);
            lemma_used_prefix(fs, i + 1, plaintext_frames as int);
            lemma_used_monotone(fs, i + 1, plaintext_frames as int);
            assert(fs.take(i + 1).drop_last() =~= fs.take(i as int));
        }
        if !is_plaintext {
            crypto.decrypt_frame(combined.as_mut_slice());
        }
        let hl = frame.head.len();
        let head = crate::bytes::copy_range(combined.as_slice(), 0, hl);
        let body = crate::bytes::copy_range(combined.as_slice(), hl, combined.len());
        let ghost dec = decrypted_frame(key@, iv@, fs, i as int, plaintext_frames as int);
        assert(combined@ == dec);
        assert(head@ =~= dec.take(hl as int));
        assert(body@ =~= dec.skip(hl as int));
        let cshead = parse_cshead(head.as_slice());
        let report = match cshead {
            None => FrameReport {
                index: frame.index,
                is_plaintext,
                head,
                body,
                cshead: None,
                crc_ok: false,
                msg_type: None,
                body_fields: None,
            },
            Some(h) => {
                let computed = crc32(body.as_slice());
                let crc_ok = computed == h.checksum;
                let entry = match schema {
                    Some(s) => s.get(h.msgid),
                    None => None,
                };
                let (msg_type, field_names) = match entry {
                    Some(e) => (Some(e.0.clone()), Some(&e.1)),
                    None => (None, None),
                };
                let body_fields = decode_body(body.as_slice(), field_names);
                FrameReport {
                    index: frame.index,
                    is_plaintext,
                    head,
                    body,
                    cshead: Some(h),
                    crc_ok,
                    msg_type,
                    body_fields,
                }
            },
        };
        reports.push(report);
        i += 1;
    }
    reports
}

/// Frame counts over a run.
#[derive(Debug, Clone, Copy, PartialEq, Eq, Structural)]
pub struct Summary {
    /// Frames seen.
    pub total: usize,
    /// Frames with a valid CSHead whose CRC matches.
    pub valid: usize,
    /// Frames skipped because their head is not a valid CSHead.
    pub invalid: usize,
    /// Frames with a valid CSHead whose CRC does not match.
    pub crc_fail: usize,
}

/// Number of reports with a valid CSHead and a matching CRC.
pub open spec fn count_valid(reports: Seq<FrameReport>) -> nat
    decreases reports.len(),
{
    if reports.len() == 0 {
        0
    } else {
        count_valid(reports.drop_last()) + if reports.last().cshead is Some && reports.last().crc_ok {
            1nat
        } else {
            0nat
        }
    }
}

/// Number of reports with a valid CSHead and a failed CRC check.
pub open spec fn count_crc_fail(reports: Seq<FrameReport>) -> nat
    decreases reports.len(),
{
    if reports.len() == 0 {
        0
    } else {
        count_crc_fail(reports.drop_last()) + if reports.last().cshead is Some && !reports.last().crc_ok {
            1nat
        } else {
            0nat
        }
    }
}

/// Number of reports without a valid CSHead.
pub open spec fn count_invalid(reports: Seq<FrameReport>) -> nat
    decreases reports.len(),
{
    if reports.len() == 0 {
        0
    } else {
        count_invalid(reports.drop_last()) + if reports.last().cshead is None {
            1nat
        } else {
            0nat
        }
    }
}

proof fn lemma_counts_partition(reports: Seq<FrameReport>)
    ensures
        count_valid(reports) + count_crc_fail(reports) + count_invalid(reports) == reports.len(),
    decreases reports.len(),
{
    if reports.len() > 0 {
        lemma_counts_partition(reports.drop_last());
    }
}

/// Count the frames of one stream's reports: every frame is either valid,
/// a CRC failure or skipped.
pub fn summarize(reports: &[FrameReport]) -> (s: Summary)
    ensures
        s.total == reports@.len(),
        s.valid == count_valid(reports@),
        s.invalid == count_invalid(reports@),
        s.crc_fail == count_crc_fail(reports@),
        s.valid + s.invalid + s.crc_fail == s.total,
{
    let mut valid: usize = 0;
    let mut invalid: usize = 0;
    let mut crc_fail: usize = 0;
    let mut i: usize = 0;
    while i < reports.len()
        invariant
            i <= reports.len(),
            valid == count_valid(reports@.take(i as int)),
            invalid == count_invalid(reports@.take(i as int)),
            crc_fail == count_crc_fail(reports@.take(i as int)),
        decreases reports.len() - i,
    {
        proof {
            assert(reports@.take(i + 1).drop_last() =~= reports@.take(i as int));
            lemma_counts_partition(reports@.take(i as int));
        }
        match &reports[i].cshead {
            None => {
                invalid += 1;
            },
            Some(_) => {
                if reports[i].crc_ok {
                    valid += 1;
                } else {
                    crc_fail += 1;
                }
            },
        }
        i += 1;
    }
    assert(reports@.take(i as int) =~= reports@);
    proof {
        lemma_counts_partition(reports@);
    }
    Summary { total: reports.len(), valid, invalid, crc_fail }
}

impl Summary {
    /// A summary of no frames.
    pub fn new() -> (s: Summary)
        ensures
            s.total == 0 && s.valid == 0 && s.invalid == 0 && s.crc_fail == 0,
    {
        Summary { total: 0, valid: 0, invalid: 0, crc_fail: 0 }
    }

    /// The counts of `self` and `other` together.
    pub fn combine(&self, other: &Summary) -> (s: Summary)
        requires
            self.total + other.total <= usize::MAX,
            self.valid + other.valid <= usize::MAX,
            self.invalid + other.invalid <= usize::MAX,
            self.crc_fail + other.crc_fail <= usize::MAX,
        ensures
            s.total == self.total + other.total,
            s.valid == self.valid + other.valid,
            s.invalid == self.invalid + other.invalid,
            s.crc_fail == self.crc_fail + other.crc_fail,
    {
        Summary {
            total: self.total + other.total,
            valid: self.valid + other.valid,
            invalid: self.invalid + other.invalid,
            crc_fail: self.crc_fail + other.crc_fail,
        }
    }
}

} // verus!
