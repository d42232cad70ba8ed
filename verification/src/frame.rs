//! The length-prefixed wire framing: `[hl: u8] [bl: u16 LE] [head; hl] [body; bl]`.

use vstd::prelude::*;

use crate::bytes::copy_range;

verus! {

/// Largest head length accepted by the framing parser.
pub const MAX_HEAD_LEN: usize = 128;

/// A single raw (possibly still encrypted) frame parsed from a TCP byte stream.
#[derive(Debug)]
pub struct RawFrame {
    /// Frame index within its stream (0-based).
    pub index: usize,
    /// Raw bytes for the CSHead section (hl bytes).
    pub head: Vec<u8>,
    /// Raw bytes for the body section (bl bytes).
    pub body: Vec<u8>,
}

/// Mathematical value of a frame.
pub struct FrameSpec {
    pub index: int,
    pub head: Seq<u8>,
    pub body: Seq<u8>,
}

impl View for RawFrame {
    type V = FrameSpec;

    open spec fn view(&self) -> FrameSpec {
        FrameSpec { index: self.index as int, head: self.head@, body: self.body@ }
    }
}

/// The 16-bit little-endian body length stored at `data[1..3]`.
pub open spec fn body_len_at(data: Seq<u8>) -> int {
    data[1] as int + 256 * (data[2] as int)
}

/// True when `data` starts with a complete, acceptable frame header and payload.
pub open spec fn frame_fits(data: Seq<u8>) -> bool {
    let hl = data[0] as int;
    &&& 1 <= hl <= MAX_HEAD_LEN
    &&& 3 + hl + body_len_at(data) <= data.len()
}

/// The frames found in `data`, numbered from `index` on.  A position that does
/// not start an acceptable, complete frame is skipped one byte at a time; the
/// scan stops when no more than three bytes remain.
pub open spec fn frames_of(data: Seq<u8>, index: int) -> Seq<FrameSpec>
    decreases data.len(),
{
    if data.len() <= 3 {
        seq![]
    } else if !frame_fits(data) {
        frames_of(data.drop_first(), index)
    } else {
        let hl = data[0] as int;
        let total = 3 + hl + body_len_at(data);
        seq![FrameSpec { index, head: data.subrange(3, 3 + hl), body: data.subrange(3 + hl, total) }]
            + frames_of(data.skip(total), index + 1)
    }
}

/// Parse as many complete frames as possible from `data`.
///
/// Frames that would extend past the end of `data` are silently dropped
/// (they represent an incomplete trailing frame).
pub fn parse_frames(data: &[u8]) -> (frames: Vec<RawFrame>)
    ensures
        frames@.map_values(|f: RawFrame| f@) == frames_of(data@, 0),
{
    let mut frames: Vec<RawFrame> = Vec::new();
    let mut cursor: usize = 0;
    let mut index: usize = 0;
    let ghost all = frames_of(data@, 0);
    assert(data@.skip(0) =~= data@);

    while data.len() > 3 && cursor < data.len() - 3
        invariant
            cursor <= data.len(),
            index <= cursor,
            frames@.len() == index,
            all == frames@.map_values(|f: RawFrame| f@) + frames_of(data@.skip(cursor as int), index as int),
        decreases data.len() - cursor,
    {
        let ghost rest = data@.skip(cursor as int);
        let hl = data[cursor] as usize;
        let bl = data[cursor + 1] as usize + 256 * (data[cursor + 2] as usize);
        let total = hl + bl;
        assert(rest[0] == data@[cursor as int]);
        assert(rest[1] == data@[cursor + 1]);
        assert(rest[2] == data@[cursor + 2]);

        if hl == 0 || hl > MAX_HEAD_LEN || total > data.len() - cursor - 3 {
            assert(rest.drop_first() =~= data@.skip(cursor + 1));
            cursor += 1;
            continue;
        }

        let head = copy_range(data, cursor + 3, cursor + 3 + hl);
        let body = copy_range(data, cursor + 3 + hl, cursor + 3 + total);
        let frame = RawFrame { index, head, body };
        assert(frame@.head =~= rest.subrange(3, 3 + hl as int));
        assert(frame@.body =~= rest.subrange(3 + hl as int, 3 + total as int));
        assert(rest.skip(3 + total as int) =~= data@.skip(cursor + 3 + total));
        let ghost before = frames@.map_values(|f: RawFrame| f@);
        frames.push(frame);
        assert(frames@.map_values(|f: RawFrame| f@) =~= before.push(frame@));
        cursor += 3 + total;
        index += 1;
    }
    assert(frames_of(data@.skip(cursor as int), index as int) =~= seq![]);
    assert(all =~= frames@.map_values(|f: RawFrame| f@));
    frames
}

/// The wire encoding of one frame: the head length, the body length in
/// little-endian order, then head and body.
pub open spec fn encode_frame(head: Seq<u8>, body: Seq<u8>) -> Seq<u8> {
    seq![head.len() as u8, (body.len() % 256) as u8, (body.len() / 256) as u8] + head + body
}

/// The wire encoding of a sequence of `(head, body)` frames, one after the other.
pub open spec fn encode_frames(frames: Seq<(Seq<u8>, Seq<u8>)>) -> Seq<u8>
    decreases frames.len(),
{
    if frames.len() == 0 {
        seq![]
    } else {
        encode_frame(frames[0].0, frames[0].1) + encode_frames(frames.drop_first())
    }
}

/// A frame the wire format can carry and the parser accepts.
pub open spec fn encodable_frame(head: Seq<u8>, body: Seq<u8>) -> bool {
    &&& 1 <= head.len() <= MAX_HEAD_LEN
    &&& body.len() <= 0xFFFF
}

/// Parsing the encoding of well-formed frames gives back exactly those frames,
/// numbered consecutively from `index`.
pub proof fn lemma_parse_encoded_frames(frames: Seq<(Seq<u8>, Seq<u8>)>, index: int)
    requires
        forall|i: int| 0 <= i < frames.len() ==> #[trigger] encodable_frame(frames[i].0, frames[i].1),
    ensures
        frames_of(encode_frames(frames), index) == Seq::new(
            frames.len(),
            |i: int| FrameSpec { index: index + i, head: frames[i].0, body: frames[i].1 },
        ),
    decreases frames.len(),
{
    let expected = Seq::new(
        frames.len(),
        |i: int| FrameSpec { index: index + i, head: frames[i].0, body: frames[i].1 },
    );
    if frames.len() == 0 {
        assert(frames_of(encode_frames(frames), index) =~= expected);
    } else {
        let head = frames[0].0;
        let body = frames[0].1;
        assert(encodable_frame(head, body));
        let first = encode_frame(head, body);
        let tail = frames.drop_first();
        assert forall|i: int| 0 <= i < tail.len() implies #[trigger] encodable_frame(tail[i].0, tail[i].1) by {
            assert(tail[i] == frames[i + 1]);
            assert(encodable_frame(frames[i + 1].0, frames[i + 1].1));
        }
        lemma_parse_encoded_frames(tail, index + 1);
        let data = encode_frames(frames);
        assert(data == first + encode_frames(tail));
        assert(data[0] == head.len() as u8);
        assert(data[1] == (body.len() % 256) as u8);
        assert(data[2] == (body.len() / 256) as u8);
        assert(body_len_at(data) == body.len());
        assert(frame_fits(data));
        let total: int = 3 + head.len() as int + body.len() as int;
        let hl: int = head.len() as int;
        assert(data.subrange(3, 3 + hl) =~= head);
        assert(data.subrange(3 + hl, total) =~= body);
        assert(data.skip(total) =~= encode_frames(tail));
        let rest = frames_of(encode_frames(tail), index + 1);
        assert(frames_of(data, index) =~= seq![FrameSpec { index, head, body }] + rest);
        assert(frames_of(data, index) =~= expected);
    }
}

/// Where the frames found by [`frames_of`] start, as offsets into the
/// scanned bytes plus `base`.
pub open spec fn frame_offsets(data: Seq<u8>, base: int) -> Seq<int>
    decreases data.len(),
{
    if data.len() <= 3 {
        seq![]
    } else if !frame_fits(data) {
        frame_offsets(data.drop_first(), base + 1)
    } else {
        let total = 3 + data[0] as int + body_len_at(data);
        seq![base] + frame_offsets(data.skip(total), base + total)
    }
}

/// Frame `f` is laid out in `data` at offset `o`: the head length byte, the
/// little-endian body length, then head and body.
pub open spec fn frame_at(data: Seq<u8>, o: int, f: FrameSpec) -> bool {
    &&& 0 <= o
    &&& o + 3 + f.head.len() + f.body.len() <= data.len()
    &&& 1 <= f.head.len() <= MAX_HEAD_LEN
    &&& data[o] as int == f.head.len()
    &&& data[o + 1] as int + 256 * (data[o + 2] as int) == f.body.len()
    &&& f.head == data.subrange(o + 3, o + 3 + f.head.len())
    &&& f.body == data.subrange(o + 3 + f.head.len(), o + 3 + f.head.len() + f.body.len())
}

proof fn lemma_frames_laid_out(data: Seq<u8>, p: int, idx: int)
    requires
        0 <= p <= data.len(),
    ensures
        ({
            let fs = frames_of(data.skip(p), idx);
            let os = frame_offsets(data.skip(p), p);
            &&& os.len() == fs.len()
            &&& forall|i: int| 0 <= i < fs.len() ==> #[trigger] fs[i].index == idx + i
            &&& forall|i: int| 0 <= i < fs.len() ==> p <= #[trigger] os[i] && frame_at(data, os[i], fs[i])
            &&& forall|i: int|
                #![trigger os[i]]
                0 <= i < fs.len() - 1 ==> os[i] + 3 + fs[i].head.len() + fs[i].body.len() <= os[i + 1]
        }),
    decreases data.len() - p,
{
    let d = data.skip(p);
    if d.len() <= 3 {
    } else if !frame_fits(d) {
        assert(d.drop_first() =~= data.skip(p + 1));
        lemma_frames_laid_out(data, p + 1, idx);
        assert(frames_of(d, idx) == frames_of(data.skip(p + 1), idx));
        assert(frame_offsets(d, p) == frame_offsets(data.skip(p + 1), p + 1));
    } else {
        let hl = d[0] as int;
        let total = 3 + hl + body_len_at(d);
        assert(d.skip(total) =~= data.skip(p + total));
        lemma_frames_laid_out(data, p + total, idx + 1);
        let first = FrameSpec { index: idx, head: d.subrange(3, 3 + hl), body: d.subrange(3 + hl, total) };
        let rest = frames_of(data.skip(p + total), idx + 1);
        let ros = frame_offsets(data.skip(p + total), p + total);
        let fs = frames_of(d, idx);
        let os = frame_offsets(d, p);
        assert(fs == seq![first] + rest);
        assert(os == seq![p] + ros);
        assert(first.head =~= data.subrange(p + 3, p + 3 + hl));
        assert(first.body =~= data.subrange(p + 3 + hl, p + total));
        assert(d[0] == data[p] && d[1] == data[p + 1] && d[2] == data[p + 2]);
        assert(frame_at(data, p, first));
        assert forall|i: int| 0 <= i < fs.len() implies #[trigger] fs[i].index == idx + i by {
            if i > 0 {
                assert(fs[i] == rest[i - 1]);
            }
        }
        assert forall|i: int| 0 <= i < fs.len() implies p <= #[trigger] os[i] && frame_at(data, os[i], fs[i]) by {
            if i > 0 {
                assert(fs[i] == rest[i - 1] && os[i] == ros[i - 1]);
                assert(p + total <= ros[i - 1]);
            }
        }
        assert forall|i: int| 0 <= i < fs.len() - 1 implies os[i] + 3 + fs[i].head.len() + fs[i].body.len() <= #[trigger] os[i + 1] by {
            if i > 0 {
                assert(fs[i] == rest[i - 1] && os[i] == ros[i - 1] && os[i + 1] == ros[i]);
                assert(ros[i - 1] + 3 + rest[i - 1].head.len() + rest[i - 1].body.len() <= ros[i]);
            } else {
                assert(os[1] == ros[0]);
                assert(p + total <= ros[0]);
            }
        }
    }
}

/// The frames parsed from `data` are numbered 0, 1, 2, ...; each one lies
/// in `data` at its offset as the wire format says, and each one ends
/// before the next one starts.
pub proof fn lemma_frames_layout(data: Seq<u8>)
    ensures
        ({
            let fs = frames_of(data, 0);
            let os = frame_offsets(data, 0);
            &&& os.len() == fs.len()
            &&& forall|i: int| 0 <= i < fs.len() ==> #[trigger] fs[i].index == i
            &&& forall|i: int| 0 <= i < fs.len() ==> frame_at(data, #[trigger] os[i], fs[i])
            &&& forall|i: int|
                #![trigger os[i]]
                0 <= i < fs.len() - 1 ==> os[i] + 3 + fs[i].head.len() + fs[i].body.len() <= os[i + 1]
        }),
{
    assert(data.skip(0) =~= data);
    lemma_frames_laid_out(data, 0, 0);
}

proof fn lemma_frames_complete_from(data: Seq<u8>, p: int, idx: int, o: int)
    requires
        0 <= p <= o < data.len(),
        frame_fits(data.skip(o)),
        ({
            let fs = frames_of(data.skip(p), idx);
            let os = frame_offsets(data.skip(p), p);
            forall|k: int|
                0 <= k < fs.len() && #[trigger] os[k] < o ==> os[k] + 3 + fs[k].head.len() + fs[k].body.len() <= o
        }),
    ensures
        exists|k: int| 0 <= k < frames_of(data.skip(p), idx).len() && #[trigger] frame_offsets(data.skip(p), p)[k] == o,
    decreases o - p,
{
    lemma_frames_laid_out(data, p, idx);
    let d = data.skip(p);
    let fs = frames_of(d, idx);
    let os = frame_offsets(d, p);
    if p == o {
        assert(d.len() > 3);
        assert(os[0] == o);
    } else if d.len() <= 3 {
        assert(data.skip(o).len() < 3);
    } else if !frame_fits(d) {
        assert(d.drop_first() =~= data.skip(p + 1));
        assert(fs == frames_of(data.skip(p + 1), idx));
        assert(os == frame_offsets(data.skip(p + 1), p + 1));
        lemma_frames_complete_from(data, p + 1, idx, o);
    } else {
        let hl = d[0] as int;
        let total = 3 + hl + body_len_at(d);
        assert(d.skip(total) =~= data.skip(p + total));
        let rest = frames_of(data.skip(p + total), idx + 1);
        let ros = frame_offsets(data.skip(p + total), p + total);
        assert(fs == seq![FrameSpec { index: idx, head: d.subrange(3, 3 + hl), body: d.subrange(3 + hl, total) }] + rest);
        assert(os == seq![p] + ros);
        assert(os[0] == p && os[0] < o);
        assert(p + total <= o);
        assert forall|k: int| 0 <= k < rest.len() && #[trigger] ros[k] < o implies ros[k] + 3 + rest[k].head.len()
            + rest[k].body.len() <= o by {
            assert(os[k + 1] == ros[k] && fs[k + 1] == rest[k]);
        }
        lemma_frames_complete_from(data, p + total, idx + 1, o);
        let k = choose|k: int| 0 <= k < rest.len() && #[trigger] ros[k] == o;
        assert(os[k + 1] == o);
    }
}

/// No complete frame is lost: an offset that starts an acceptable, complete
/// frame and lies inside none of the frames found before it starts one of
/// the frames found.
pub proof fn lemma_frames_complete(data: Seq<u8>, o: int)
    requires
        0 <= o < data.len(),
        frame_fits(data.skip(o)),
        forall|k: int|
            0 <= k < frames_of(data, 0).len() && #[trigger] frame_offsets(data, 0)[k] < o ==> frame_offsets(data, 0)[k]
                + 3 + frames_of(data, 0)[k].head.len() + frames_of(data, 0)[k].body.len() <= o,
    ensures
        exists|k: int| 0 <= k < frames_of(data, 0).len() && #[trigger] frame_offsets(data, 0)[k] == o,
{
    assert(data.skip(0) =~= data);
    lemma_frames_complete_from(data, 0, 0, o);
}

/// Bytes that do not start a complete, acceptable frame contribute nothing:
/// the frames found are those found one byte further on.
pub proof fn lemma_frames_skip_junk(data: Seq<u8>, index: int)
    requires
        data.len() > 3,
        !(1 <= data[0] <= MAX_HEAD_LEN && 3 + data[0] + data[1] + 256 * data[2] <= data.len()),
    ensures
        frames_of(data, index) == frames_of(data.drop_first(), index),
{
}

} // verus!
