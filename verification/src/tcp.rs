//! Per-direction TCP byte-stream reassembly.

use vstd::prelude::*;

use std::collections::BTreeMap;

use crate::text::push_char;

verus! {

broadcast use {vstd::laws_cmp::group_laws_cmp, vstd::std_specs::btree::group_btree_axioms};

/// An IPv4 or IPv6 address, as its number in network order.
#[derive(Debug, Clone, Copy, PartialEq, Eq, Hash, Structural)]
pub enum IpAddress {
    V4(u32),
    V6(u128),
}

/// One direction of a TCP connection.
#[derive(Debug, Clone, Copy, PartialEq, Eq, Hash, Structural)]
pub struct StreamKey {
    pub src_ip: IpAddress,
    pub src_port: u16,
    pub dst_ip: IpAddress,
    pub dst_port: u16,
}

impl StreamKey {
    pub fn new(src_ip: IpAddress, src_port: u16, dst_ip: IpAddress, dst_port: u16) -> (k: Self)
        ensures
            k == (StreamKey { src_ip, src_port, dst_ip, dst_port }),
    {
        StreamKey { src_ip, src_port, dst_ip, dst_port }
    }
}

/// The reassembly state of one direction: the bytes delivered in order, the
/// next expected sequence number, and the segments held back because they
/// start beyond it.
pub struct StreamState {
    pub data: Seq<u8>,
    pub next_seq: Option<u32>,
    pub pending: Map<u32, Seq<u8>>,
}

/// `a` advanced by `b` modulo 2^32 (`u32::wrapping_add` of `b as u32`).
pub open spec fn seq_add(a: u32, b: int) -> u32 {
    vstd::wrapping::u32_specs::wrapping_add(a, b as u32)
}

/// The distance from `next` to `seq` as a signed 32-bit number: the
/// difference modulo 2^32, read as an `i32`.
pub open spec fn seq_diff(seq: u32, next: u32) -> i32 {
    vstd::wrapping::u32_specs::wrapping_sub(seq, next) as i32
}

/// The state after delivering every held-back segment that now starts
/// exactly at the next expected sequence number, one after the other.
pub open spec fn drain(st: StreamState) -> StreamState
    decreases st.pending.dom().len(),
    when st.pending.dom().finite()
{
    match st.next_seq {
        None => st,
        Some(n) => if st.pending.contains_key(n) {
            let seg = st.pending[n];
            drain(
                StreamState {
                    data: st.data + seg,
                    next_seq: Some(seq_add(n, seg.len() as int)),
                    pending: st.pending.remove(n),
                },
            )
        } else {
            st
        },
    }
}

/// The state after receiving `payload` at sequence number `seq`.
///
/// An empty payload changes nothing.  The first payload is delivered
/// whatever its sequence number.  A payload at the next expected number is
/// delivered; one beyond it (by less than 2^31) is held back, replacing any
/// segment held at the same number; one before it has its already delivered
/// part dropped and the rest, if any, delivered.  Each delivery is followed
/// by [`drain`].
pub open spec fn push_spec(st: StreamState, seq: u32, payload: Seq<u8>) -> StreamState {
    if payload.len() == 0 {
        st
    } else {
        match st.next_seq {
            None => drain(
                StreamState { data: st.data + payload, next_seq: Some(seq_add(seq, payload.len() as int)), pending: st.pending },
            ),
            Some(next) => {
                let diff = seq_diff(seq, next);
                if diff == 0 {
                    drain(
                        StreamState {
                            data: st.data + payload,
                            next_seq: Some(seq_add(seq, payload.len() as int)),
                            pending: st.pending,
                        },
                    )
                } else if diff > 0 {
                    StreamState { pending: st.pending.insert(seq, payload), ..st }
                } else if diff != i32::MIN && -diff < payload.len() {
                    let fresh = payload.skip(-diff as int);
                    drain(
                        StreamState {
                            data: st.data + fresh,
                            next_seq: Some(seq_add(next, fresh.len() as int)),
                            pending: st.pending,
                        },
                    )
                } else {
                    st
                }
            },
        }
    }
}

/// The mathematical value of the held-back segments.
pub open spec fn pending_view(m: Map<u32, Vec<u8>>) -> Map<u32, Seq<u8>> {
    Map::new(|k: u32| m.contains_key(k), |k: u32| m[k]@)
}

/// One directional TCP byte stream, with gap-tolerant reassembly.
pub struct TcpStream {
    pub key: StreamKey,
    /// Fully reassembled payload bytes in order.
    pub data: Vec<u8>,
    /// Next expected sequence number (absolute).
    next_seq: Option<u32>,
    /// Out-of-order segments keyed by sequence number.
    ooo: BTreeMap<u32, Vec<u8>>,
}

impl TcpStream {
    /// The reassembly state.
    pub closed spec fn state(&self) -> StreamState {
        StreamState { data: self.data@, next_seq: self.next_seq, pending: pending_view(self.ooo@) }
    }

    /// The direction this stream belongs to.
    pub closed spec fn stream_key(&self) -> StreamKey {
        self.key
    }

    /// The held-back segments are finitely many.
    pub closed spec fn well_formed(&self) -> bool {
        self.ooo@.dom().finite()
    }

    /// The bytes delivered in order so far.
    pub fn bytes(&self) -> (r: &[u8])
        ensures
            r@ == self.state().data,
    {
        self.data.as_slice()
    }

    /// A well-formed stream holds finitely many segments back.
    pub proof fn lemma_pending_finite(&self)
        requires
            self.well_formed(),
        ensures
            self.state().pending.dom().finite(),
    {
        assert(pending_view(self.ooo@).dom() =~= self.ooo@.dom());
    }

    pub fn new(key: StreamKey) -> (s: Self)
        ensures
            s.stream_key() == key,
            s.well_formed(),
            s.state() == (StreamState { data: seq![], next_seq: None, pending: Map::empty() }),
    {
        let s = TcpStream { key, data: Vec::new(), next_seq: None, ooo: BTreeMap::new() };
        assert(pending_view(s.ooo@) =~= Map::empty());
        s
    }

    fn drain_ooo(&mut self)
        requires
            old(self).well_formed(),
        ensures
            final(self).well_formed(),
            final(self).stream_key() == old(self).stream_key(),
            final(self).state() == drain(old(self).state()),
    {
        let ghost start = self.state();
        loop
            invariant
                self.well_formed(),
                self.key == old(self).key,
                start == old(self).state(),
                drain(self.state()) == drain(start),
                pending_view(self.ooo@).dom() == self.ooo@.dom(),
            decreases self.ooo@.dom().len(),
        {
            let next = match self.next_seq {
                Some(n) => n,
                None => {
                    assert(drain(self.state()) == self.state());
                    return;
                },
            };
            let ghost before = self.state();
            let ghost before_ooo = self.ooo@;
            match self.ooo.remove(&next) {
                Some(seg) => {
                    proof {
                        assert(before.pending.contains_key(next));
                        vstd::set::axiom_set_remove_len(self.ooo@.dom(), next);
                    }
                    let ghost seg_view = seg@;
                    self.next_seq = Some(next.wrapping_add(seg.len() as u32));
                    self.data.extend_from_slice(seg.as_slice());
                    proof {
                        assert(seg_view == before.pending[next]);
                        assert(self.data@ =~= before.data + seg_view);
                        assert(pending_view(self.ooo@) =~= before.pending.remove(next));
                        assert(self.next_seq == Some(seq_add(next, seg_view.len() as int)));
                    }
                },
                None => {
                    assert(!before.pending.contains_key(next));
                    assert(self.ooo@ =~= before_ooo);
                    assert(drain(self.state()) == self.state());
                    return;
                },
            }
        }
    }

    /// Add `payload`, received at sequence number `seq`, to the stream.
    pub fn push(&mut self, seq: u32, payload: &[u8])
        requires
            old(self).well_formed(),
        ensures
            final(self).well_formed(),
            final(self).stream_key() == old(self).stream_key(),
            final(self).state() == push_spec(old(self).state(), seq, payload@),
            final(self).state().data.take(old(self).state().data.len() as int) == old(self).state().data,
    {
        proof {
            self.lemma_pending_finite();
            lemma_push_extends(self.state(), seq, payload@);
        }
        if payload.len() == 0 {
            return;
        }
        let next = match self.next_seq {
            None => {
                self.data.extend_from_slice(payload);
                self.next_seq = Some(seq.wrapping_add(payload.len() as u32));
                assert(self.data@ =~= old(self).data@ + payload@);
                self.drain_ooo();
                return;
            },
            Some(n) => n,
        };
        let diff = seq.wrapping_sub(next) as i32;
        if diff == 0 {
            self.data.extend_from_slice(payload);
            self.next_seq = Some(seq.wrapping_add(payload.len() as u32));
            assert(self.data@ =~= old(self).data@ + payload@);
            self.drain_ooo();
        } else if diff > 0 {
            let ghost before = pending_view(self.ooo@);
            self.ooo.insert(seq, crate::bytes::copy_range(payload, 0, payload.len()));
            assert(payload@.subrange(0, payload@.len() as int) =~= payload@);
            assert(pending_view(self.ooo@) =~= before.insert(seq, payload@));
        } else if diff != i32::MIN && ((-diff) as usize) < payload.len() {
            let overlap = (-diff) as usize;
            let fresh = &payload[overlap..payload.len()];
            self.data.extend_from_slice(fresh);
            self.next_seq = Some(next.wrapping_add(fresh.len() as u32));
            assert(fresh@ =~= payload@.skip(overlap as int));
            assert(self.data@ =~= old(self).data@ + fresh@);
            self.drain_ooo();
        }
    }
}

/// The state of a direction nothing has been received on.
pub open spec fn empty_state() -> StreamState {
    StreamState { data: seq![], next_seq: None, pending: Map::empty() }
}

/// Each stream's state, by its key.
pub open spec fn states_of(streams: Seq<TcpStream>) -> Map<StreamKey, StreamState>
    decreases streams.len(),
{
    if streams.len() == 0 {
        Map::empty()
    } else {
        states_of(streams.drop_last()).insert(streams.last().stream_key(), streams.last().state())
    }
}

/// No two streams share a key, and every stream is well formed.
pub open spec fn streams_ok(streams: Seq<TcpStream>) -> bool {
    &&& forall|i: int, j: int|
        0 <= i < j < streams.len() ==> #[trigger] streams[i].stream_key() != #[trigger] streams[j].stream_key()
    &&& forall|i: int| 0 <= i < streams.len() ==> #[trigger] streams[i].well_formed()
}

proof fn lemma_states_of(streams: Seq<TcpStream>)
    requires
        streams_ok(streams),
    ensures
        forall|i: int|
            0 <= i < streams.len() ==> states_of(streams).contains_key(#[trigger] streams[i].stream_key())
                && states_of(streams)[streams[i].stream_key()] == streams[i].state(),
        forall|k: StreamKey|
            states_of(streams).contains_key(k) ==> exists|i: int|
                0 <= i < streams.len() && #[trigger] streams[i].stream_key() == k,
    decreases streams.len(),
{
    if streams.len() > 0 {
        let init = streams.drop_last();
        assert(streams_ok(init)) by {
            assert forall|i: int, j: int| 0 <= i < j < init.len() implies #[trigger] init[i].stream_key()
                != #[trigger] init[j].stream_key() by {
                assert(init[i] == streams[i] && init[j] == streams[j]);
            }
            assert forall|i: int| 0 <= i < init.len() implies #[trigger] init[i].well_formed() by {
                assert(init[i] == streams[i]);
            }
        }
        lemma_states_of(init);
        let n = streams.len() - 1;
        assert forall|i: int| 0 <= i < streams.len() implies states_of(streams).contains_key(
            #[trigger] streams[i].stream_key(),
        ) && states_of(streams)[streams[i].stream_key()] == streams[i].state() by {
            if i < n {
                assert(init[i] == streams[i]);
                assert(streams[i].stream_key() != streams[n].stream_key());
            }
        }
        assert forall|k: StreamKey| states_of(streams).contains_key(k) implies exists|i: int|
            0 <= i < streams.len() && #[trigger] streams[i].stream_key() == k by {
            if k != streams[n].stream_key() {
                let i = choose|i: int| 0 <= i < init.len() && #[trigger] init[i].stream_key() == k;
                assert(streams[i] == init[i]);
            }
        }
    }
}

proof fn lemma_states_of_update(streams: Seq<TcpStream>, i: int, s: TcpStream)
    requires
        0 <= i < streams.len(),
        s.stream_key() == streams[i].stream_key(),
        streams_ok(streams),
        s.well_formed(),
    ensures
        streams_ok(streams.update(i, s)),
        states_of(streams.update(i, s)) == states_of(streams).insert(s.stream_key(), s.state()),
{
    let after = streams.update(i, s);
    assert(streams_ok(after)) by {
        assert forall|a: int, b: int| 0 <= a < b < after.len() implies #[trigger] after[a].stream_key()
            != #[trigger] after[b].stream_key() by {
            assert(streams[a].stream_key() != streams[b].stream_key());
        }
    }
    lemma_states_of(streams);
    lemma_states_of(after);
    let lhs = states_of(after);
    let rhs = states_of(streams).insert(s.stream_key(), s.state());
    assert forall|k: StreamKey| lhs.contains_key(k) <==> rhs.contains_key(k) by {
        if lhs.contains_key(k) {
            let j = choose|j: int| 0 <= j < after.len() && #[trigger] after[j].stream_key() == k;
            if j != i {
                assert(after[j] == streams[j]);
                assert(states_of(streams).contains_key(streams[j].stream_key()));
            }
        }
        if rhs.contains_key(k) {
            if k == s.stream_key() {
                assert(after[i] == s);
                assert(lhs.contains_key(after[i].stream_key()));
            } else {
                let j = choose|j: int| 0 <= j < streams.len() && #[trigger] streams[j].stream_key() == k;
                assert(j != i);
                assert(after[j] == streams[j]);
                assert(lhs.contains_key(after[j].stream_key()));
            }
        }
    }
    assert forall|k: StreamKey| #[trigger] lhs.contains_key(k) implies lhs[k] == rhs[k] by {
        let j = choose|j: int| 0 <= j < after.len() && #[trigger] after[j].stream_key() == k;
        if j != i {
            assert(after[j] == streams[j]);
        }
    }
    assert(lhs =~= rhs);
}

/// All the TCP directions seen so far, each with its reassembly state.
pub struct TcpTracker {
    streams: Vec<TcpStream>,
}

impl TcpTracker {
    /// The state of every direction seen, by its key.
    pub closed spec fn states(&self) -> Map<StreamKey, StreamState> {
        states_of(self.streams@)
    }

    /// The directions seen, in the order each was first fed.
    pub closed spec fn keys(&self) -> Seq<StreamKey> {
        self.streams@.map_values(|s: TcpStream| s.stream_key())
    }

    /// The tracker's streams are distinct and well formed.
    pub closed spec fn well_formed(&self) -> bool {
        streams_ok(self.streams@)
    }

    pub fn new() -> (t: Self)
        ensures
            t.well_formed(),
            t.states() == Map::<StreamKey, StreamState>::empty(),
            t.keys() == Seq::<StreamKey>::empty(),
    {
        let t = TcpTracker { streams: Vec::new() };
        assert(t.keys() =~= Seq::<StreamKey>::empty());
        t
    }

    fn find(&self, key: &StreamKey) -> (r: Option<usize>)
        ensures
            match r {
                Some(i) => i < self.streams@.len() && self.streams@[i as int].stream_key() == *key,
                None => forall|j: int| 0 <= j < self.streams@.len() ==> #[trigger] self.streams@[j].stream_key() != *key,
            },
    {
        let mut i: usize = 0;
        while i < self.streams.len()
            invariant
                i <= self.streams.len(),
                forall|j: int| 0 <= j < i ==> #[trigger] self.streams@[j].stream_key() != *key,
            decreases self.streams.len() - i,
        {
            if self.streams[i].key == *key {
                return Some(i);
            }
            i += 1;
        }
        None
    }

    /// Add `payload`, received at sequence number `seq` on direction `key`.
    pub fn feed(&mut self, key: StreamKey, seq: u32, payload: &[u8])
        requires
            old(self).well_formed(),
        ensures
            final(self).well_formed(),
            final(self).states() == old(self).states().insert(
                key,
                push_spec(
                    if old(self).states().contains_key(key) {
                        old(self).states()[key]
                    } else {
                        empty_state()
                    },
                    seq,
                    payload@,
                ),
            ),
            final(self).keys() == if old(self).states().contains_key(key) {
                old(self).keys()
            } else {
                old(self).keys().push(key)
            },
    {
        proof {
            lemma_states_of(self.streams@);
        }
        let found = self.find(&key);
        if let Some(i) = found {
            let mut stream = self.streams.remove(i);
            stream.push(seq, payload);
            self.streams.insert(i, stream);
            proof {
                assert(self.streams@ =~= old(self).streams@.update(i as int, stream));
                lemma_states_of_update(old(self).streams@, i as int, stream);
                assert(self.keys() =~= old(self).keys());
            }
        } else {
            let mut stream = TcpStream::new(key);
            stream.push(seq, payload);
            proof {
                assert(!old(self).states().contains_key(key)) by {
                    if old(self).states().contains_key(key) {
                        let j = choose|j: int| 0 <= j < old(self).streams@.len() && #[trigger] old(self).streams@[j].stream_key() == key;
                    }
                }
            }
            self.streams.push(stream);
            proof {
                let after = self.streams@;
                assert(self.keys() =~= old(self).keys().push(key));
                assert(after.drop_last() =~= old(self).streams@);
                assert(streams_ok(after)) by {
                    assert forall|a: int, b: int| 0 <= a < b < after.len() implies #[trigger] after[a].stream_key()
                        != #[trigger] after[b].stream_key() by {
                        if b == after.len() - 1 {
                            assert(after[a] == old(self).streams@[a]);
                        } else {
                            assert(after[a] == old(self).streams@[a] && after[b] == old(self).streams@[b]);
                        }
                    }
                    assert forall|a: int| 0 <= a < after.len() implies #[trigger] after[a].well_formed() by {
                        if a < after.len() - 1 {
                            assert(after[a] == old(self).streams@[a]);
                        }
                    }
                }
            }
        }
    }

    /// Every stream, in the order its direction was first seen.
    pub fn streams(&self) -> (r: &[TcpStream])
        requires
            self.well_formed(),
        ensures
            r@.map_values(|s: TcpStream| s.stream_key()) == self.keys(),
            forall|i: int|
                0 <= i < r@.len() ==> self.states().contains_key(#[trigger] r@[i].stream_key())
                    && self.states()[r@[i].stream_key()] == r@[i].state(),
            forall|k: StreamKey|
                self.states().contains_key(k) ==> exists|i: int| 0 <= i < r@.len() && #[trigger] r@[i].stream_key() == k,
            forall|i: int, j: int|
                0 <= i < j < r@.len() ==> #[trigger] r@[i].stream_key() != #[trigger] r@[j].stream_key(),
            forall|i: int| 0 <= i < r@.len() ==> #[trigger] r@[i].well_formed(),
    {
        proof {
            lemma_states_of(self.streams@);
        }
        self.streams.as_slice()
    }
}

/// Draining only appends to the delivered bytes.
pub proof fn lemma_drain_extends(st: StreamState)
    requires
        st.pending.dom().finite(),
    ensures
        drain(st).data.take(st.data.len() as int) == st.data,
        st.data.len() <= drain(st).data.len(),
        drain(st).pending.dom().finite(),
    decreases st.pending.dom().len(),
{
    if let Some(n) = st.next_seq {
        if st.pending.contains_key(n) {
            let seg = st.pending[n];
            let next = StreamState {
                data: st.data + seg,
                next_seq: Some(seq_add(n, seg.len() as int)),
                pending: st.pending.remove(n),
            };
            vstd::set::axiom_set_remove_len(st.pending.dom(), n);
            lemma_drain_extends(next);
            assert(drain(st).data.take(next.data.len() as int).take(st.data.len() as int) =~= drain(st).data.take(st.data.len() as int));
            assert(next.data.take(st.data.len() as int) =~= st.data);
        }
    }
}

/// Receiving a segment never changes bytes already delivered: the old
/// delivered bytes are a prefix of the new ones.
pub proof fn lemma_push_extends(st: StreamState, seq: u32, payload: Seq<u8>)
    requires
        st.pending.dom().finite(),
    ensures
        push_spec(st, seq, payload).data.take(st.data.len() as int) == st.data,
        push_spec(st, seq, payload).pending.dom().finite(),
{
    if payload.len() > 0 {
        match st.next_seq {
            None => {
                let mid = StreamState { data: st.data + payload, next_seq: Some(seq_add(seq, payload.len() as int)), pending: st.pending };
                lemma_drain_extends(mid);
                assert(drain(mid).data.take(mid.data.len() as int).take(st.data.len() as int) =~= drain(mid).data.take(st.data.len() as int));
                assert(mid.data.take(st.data.len() as int) =~= st.data);
            },
            Some(next) => {
                let diff = seq_diff(seq, next);
                if diff == 0 {
                    let mid = StreamState { data: st.data + payload, next_seq: Some(seq_add(seq, payload.len() as int)), pending: st.pending };
                    lemma_drain_extends(mid);
                    assert(drain(mid).data.take(mid.data.len() as int).take(st.data.len() as int) =~= drain(mid).data.take(st.data.len() as int));
                    assert(mid.data.take(st.data.len() as int) =~= st.data);
                } else if diff > 0 {
                    assert(st.data.take(st.data.len() as int) =~= st.data);
                } else if diff != i32::MIN && -diff < payload.len() {
                    let fresh = payload.skip(-diff as int);
                    let mid = StreamState { data: st.data + fresh, next_seq: Some(seq_add(next, fresh.len() as int)), pending: st.pending };
                    lemma_drain_extends(mid);
                    assert(drain(mid).data.take(mid.data.len() as int).take(st.data.len() as int) =~= drain(mid).data.take(st.data.len() as int));
                    assert(mid.data.take(st.data.len() as int) =~= st.data);
                } else {
                    assert(st.data.take(st.data.len() as int) =~= st.data);
                }
            },
        }
    } else {
        assert(st.data.take(st.data.len() as int) =~= st.data);
    }
}

/// A segment that starts at the next expected sequence number, with nothing
/// held back, is delivered as it is.
pub proof fn lemma_push_in_order(st: StreamState, payload: Seq<u8>)
    requires
        st.next_seq is Some,
        st.pending == Map::<u32, Seq<u8>>::empty(),
        payload.len() > 0,
    ensures
        push_spec(st, st.next_seq->0, payload) == (StreamState {
            data: st.data + payload,
            next_seq: Some(seq_add(st.next_seq->0, payload.len() as int)),
            pending: st.pending,
        }),
{
    let n = st.next_seq->0;
    assert(seq_diff(n, n) == 0);
}

/// Segments may arrive out of order: receiving `b` (which follows `a`) before
/// `a` delivers the same bytes, and leaves the same state, as receiving `a`
/// then `b`.
pub proof fn lemma_push_reordered(st: StreamState, a: Seq<u8>, b: Seq<u8>)
    requires
        st.next_seq is Some,
        st.pending == Map::<u32, Seq<u8>>::empty(),
        0 < a.len() < 0x8000_0000,
        0 < b.len(),
    ensures
        ({
            let n = st.next_seq->0;
            let m = seq_add(n, a.len() as int);
            push_spec(push_spec(st, m, b), n, a) == push_spec(push_spec(st, n, a), m, b)
        }),
        ({
            let n = st.next_seq->0;
            let m = seq_add(n, a.len() as int);
            push_spec(push_spec(st, n, a), m, b).data == st.data + a + b
        }),
{
    let n = st.next_seq->0;
    let m = seq_add(n, a.len() as int);
    assert(seq_diff(m, n) == a.len() as i32);
    assert(seq_diff(m, n) > 0);
    assert(seq_diff(n, n) == 0);
    assert(seq_diff(m, m) == 0);
    let empty = Map::<u32, Seq<u8>>::empty();
    // Receiving `b` first holds it back.
    let held = push_spec(st, m, b);
    assert(held == StreamState { pending: empty.insert(m, b), ..st });
    // Then `a` is delivered, and `b` after it.
    let s1 = StreamState { data: st.data + a, next_seq: Some(m), pending: empty.insert(m, b) };
    let s2 = StreamState {
        data: st.data + a + b,
        next_seq: Some(seq_add(m, b.len() as int)),
        pending: empty.insert(m, b).remove(m),
    };
    assert(empty.insert(m, b).remove(m) =~= empty);
    assert(empty.insert(m, b).dom() =~= set![m]);
    assert(drain(s2) == s2);
    assert(drain(s1) == drain(s2));
    assert(push_spec(held, n, a) == drain(s1));
    // In order: `a` then `b`.
    lemma_push_in_order(st, a);
    let t1 = push_spec(st, n, a);
    assert(t1 == StreamState { data: st.data + a, next_seq: Some(m), pending: empty });
    lemma_push_in_order(t1, b);
    assert(push_spec(t1, m, b) == StreamState { data: st.data + a + b, next_seq: Some(seq_add(m, b.len() as int)), pending: empty });
}

/// A retransmitted segment that was already delivered changes nothing.
pub proof fn lemma_push_duplicate(st: StreamState, payload: Seq<u8>)
    requires
        st.next_seq is Some,
        st.pending == Map::<u32, Seq<u8>>::empty(),
        0 < payload.len() < 0x8000_0000,
    ensures
        ({
            let once = push_spec(st, st.next_seq->0, payload);
            push_spec(once, st.next_seq->0, payload) == once
        }),
{
    let n = st.next_seq->0;
    lemma_push_in_order(st, payload);
    let m = seq_add(n, payload.len() as int);
    let w = vstd::wrapping::u32_specs::wrapping_sub(n, m);
    assert(w as int == 0x1_0000_0000 - payload.len());
    assert(w >= 0x8000_0000 ==> (w as i32) as int == w as int - 0x1_0000_0000) by (bit_vector);
    assert(seq_diff(n, m) == -(payload.len() as int));
}

/// The payloads of `ps`, one after the other.
pub open spec fn concat_all(ps: Seq<Seq<u8>>) -> Seq<u8>
    decreases ps.len(),
{
    if ps.len() == 0 {
        seq![]
    } else {
        concat_all(ps.drop_last()) + ps.last()
    }
}

/// The sequence number at which payload `i` of `ps` starts, when payload 0
/// starts at `q0` and each one follows the one before it.
pub open spec fn seg_start(q0: u32, ps: Seq<Seq<u8>>, i: int) -> u32 {
    ((q0 as int + concat_all(ps.take(i)).len()) % 0x1_0000_0000) as u32
}

/// Payloads that tile a stretch of the sequence space shorter than 2^31:
/// at least one, none empty.
pub open spec fn tiling(ps: Seq<Seq<u8>>) -> bool {
    &&& ps.len() >= 1
    &&& forall|i: int| 0 <= i < ps.len() ==> #[trigger] ps[i].len() > 0
    &&& concat_all(ps).len() < 0x8000_0000
}

/// The state after pushing the payloads of `ps` at their sequence numbers,
/// in the order of the indices in `order`.
pub open spec fn push_segments(st: StreamState, q0: u32, ps: Seq<Seq<u8>>, order: Seq<int>) -> StreamState
    decreases order.len(),
{
    if order.len() == 0 {
        st
    } else {
        push_segments(push_spec(st, seg_start(q0, ps, order[0]), ps[order[0]]), q0, ps, order.drop_first())
    }
}

spec fn offset(ps: Seq<Seq<u8>>, i: int) -> int {
    concat_all(ps.take(i)).len() as int
}

proof fn lemma_offsets(ps: Seq<Seq<u8>>, i: int)
    requires
        tiling(ps),
        0 <= i <= ps.len(),
    ensures
        offset(ps, 0) == 0,
        i < ps.len() ==> offset(ps, i + 1) == offset(ps, i) + ps[i].len(),
        i < ps.len() ==> concat_all(ps.take(i + 1)) == concat_all(ps.take(i)) + ps[i],
        0 <= offset(ps, i) <= offset(ps, ps.len() as int),
        i < ps.len() ==> offset(ps, i) < offset(ps, ps.len() as int),
        offset(ps, ps.len() as int) == concat_all(ps).len(),
    decreases ps.len() - i,
{
    assert(ps.take(0) =~= seq![]);
    assert(ps.take(ps.len() as int) =~= ps);
    if i < ps.len() {
        assert(ps.take(i + 1).drop_last() =~= ps.take(i));
        assert(ps[i].len() > 0);
        lemma_offsets(ps, i + 1);
    }
}

proof fn lemma_offsets_increase(ps: Seq<Seq<u8>>, i: int, j: int)
    requires
        tiling(ps),
        0 <= i <= j <= ps.len(),
    ensures
        offset(ps, i) <= offset(ps, j),
        i < j ==> offset(ps, i) < offset(ps, j),
        offset(ps, j) - offset(ps, i) < 0x8000_0000,
    decreases j - i,
{
    lemma_offsets(ps, i);
    lemma_offsets(ps, j);
    if i < j {
        lemma_offsets_increase(ps, i + 1, j);
    }
}

proof fn lemma_seg_start_distinct(q0: u32, ps: Seq<Seq<u8>>, i: int, j: int)
    requires
        tiling(ps),
        0 <= i < j <= ps.len(),
    ensures
        seg_start(q0, ps, i) != seg_start(q0, ps, j),
        seq_diff(seg_start(q0, ps, j), seg_start(q0, ps, i)) == offset(ps, j) - offset(ps, i),
        seq_diff(seg_start(q0, ps, i), seg_start(q0, ps, j)) == offset(ps, i) - offset(ps, j),
{
    lemma_offsets_increase(ps, i, j);
    let a = q0 as int + offset(ps, i);
    let b = q0 as int + offset(ps, j);
    let si = seg_start(q0, ps, i);
    let sj = seg_start(q0, ps, j);
    let d = b - a;
    assert(0 < d < 0x8000_0000);
    assert(si == (a % 0x1_0000_0000) as u32);
    assert(sj == (b % 0x1_0000_0000) as u32);
    assert((a + d) % 0x1_0000_0000 == if a % 0x1_0000_0000 + d < 0x1_0000_0000 {
        a % 0x1_0000_0000 + d
    } else {
        a % 0x1_0000_0000 + d - 0x1_0000_0000
    }) by (nonlinear_arith)
        requires
            0 <= a,
            0 < d < 0x8000_0000,
    ;
    let w = vstd::wrapping::u32_specs::wrapping_sub(sj, si);
    assert(w as int == d);
    let v = vstd::wrapping::u32_specs::wrapping_sub(si, sj);
    assert(v as int == 0x1_0000_0000 - d);
    assert(v >= 0x8000_0000 ==> (v as i32) as int == v as int - 0x1_0000_0000) by (bit_vector);
}

proof fn lemma_seg_start_next(q0: u32, ps: Seq<Seq<u8>>, i: int)
    requires
        tiling(ps),
        0 <= i < ps.len(),
    ensures
        seq_add(seg_start(q0, ps, i), ps[i].len() as int) == seg_start(q0, ps, i + 1),
{
    lemma_offsets(ps, i);
    lemma_offsets_increase(ps, i + 1, ps.len() as int);
    let a = q0 as int + offset(ps, i);
    let l = ps[i].len() as int;
    assert(0 < l < 0x8000_0000);
    assert((a + l) % 0x1_0000_0000 == if a % 0x1_0000_0000 + l < 0x1_0000_0000 {
        a % 0x1_0000_0000 + l
    } else {
        a % 0x1_0000_0000 + l - 0x1_0000_0000
    }) by (nonlinear_arith)
        requires
            0 <= a,
            0 < l < 0x8000_0000,
    ;
}

spec fn first_gap(d: Set<int>, r: int, m: int) -> int
    decreases m - r,
{
    if r >= m || !d.contains(r) {
        r
    } else {
        first_gap(d, r + 1, m)
    }
}

spec fn held_index(q0: u32, ps: Seq<Seq<u8>>, d: Set<int>, r: int, key: u32) -> int {
    choose|j: int| r <= j < ps.len() && d.contains(j) && seg_start(q0, ps, j) == key
}

spec fn held_from(q0: u32, ps: Seq<Seq<u8>>, d: Set<int>, r: int) -> Map<u32, Seq<u8>> {
    Map::new(
        |key: u32| exists|j: int| r <= j < ps.len() && d.contains(j) && seg_start(q0, ps, j) == key,
        |key: u32| ps[held_index(q0, ps, d, r, key)],
    )
}

spec fn tiled_state(q0: u32, ps: Seq<Seq<u8>>, d: Set<int>, r: int) -> StreamState {
    StreamState {
        data: concat_all(ps.take(r)),
        next_seq: Some(seg_start(q0, ps, r)),
        pending: held_from(q0, ps, d, r),
    }
}

proof fn lemma_first_gap(d: Set<int>, r: int, m: int)
    requires
        r <= m,
    ensures
        r <= first_gap(d, r, m) <= m,
        forall|j: int| r <= j < first_gap(d, r, m) ==> d.contains(j),
        first_gap(d, r, m) < m ==> !d.contains(first_gap(d, r, m)),
    decreases m - r,
{
    if r < m && d.contains(r) {
        lemma_first_gap(d, r + 1, m);
    }
}

proof fn lemma_held_finite(q0: u32, ps: Seq<Seq<u8>>, d: Set<int>, r: int)
    ensures
        held_from(q0, ps, d, r).dom().finite(),
{
    let f = |j: int| seg_start(q0, ps, j);
    let lo = if r <= ps.len() { r } else { ps.len() as int };
    vstd::set_lib::lemma_int_range(lo, ps.len() as int);
    let range = vstd::set_lib::set_int_range(lo, ps.len() as int);
    range.lemma_map_finite(f);
    let big = range.map(f);
    let dom = held_from(q0, ps, d, r).dom();
    assert(big.intersect(dom) =~= dom) by {
        assert forall|key: u32| dom.contains(key) implies big.contains(key) by {
            let j = choose|j: int| r <= j < ps.len() && d.contains(j) && seg_start(q0, ps, j) == key;
            assert(range.contains(j) && f(j) == key);
        }
    }
    vstd::set::axiom_set_intersect_finite(big, dom);
}

proof fn lemma_held_lookup(q0: u32, ps: Seq<Seq<u8>>, d: Set<int>, r: int, j: int)
    requires
        tiling(ps),
        0 <= r <= j < ps.len(),
        d.contains(j),
    ensures
        held_from(q0, ps, d, r).contains_key(seg_start(q0, ps, j)),
        held_from(q0, ps, d, r)[seg_start(q0, ps, j)] == ps[j],
{
    let key = seg_start(q0, ps, j);
    let k = held_index(q0, ps, d, r, key);
    assert(r <= k < ps.len() && d.contains(k) && seg_start(q0, ps, k) == key);
    if k < j {
        lemma_seg_start_distinct(q0, ps, k, j);
    } else if j < k {
        lemma_seg_start_distinct(q0, ps, j, k);
    }
}

proof fn lemma_drain_tiled(q0: u32, ps: Seq<Seq<u8>>, d: Set<int>, r: int)
    requires
        tiling(ps),
        0 <= r <= ps.len(),
    ensures
        drain(tiled_state(q0, ps, d, r)) == tiled_state(q0, ps, d, first_gap(d, r, ps.len() as int)),
    decreases ps.len() - r,
{
    let m = ps.len() as int;
    let st = tiled_state(q0, ps, d, r);
    lemma_held_finite(q0, ps, d, r);
    let key = seg_start(q0, ps, r);
    if r < m && d.contains(r) {
        lemma_held_lookup(q0, ps, d, r, r);
        lemma_offsets(ps, r);
        lemma_seg_start_next(q0, ps, r);
        let next = StreamState {
            data: st.data + ps[r],
            next_seq: Some(seq_add(key, ps[r].len() as int)),
            pending: st.pending.remove(key),
        };
        assert(st.pending.remove(key) =~= held_from(q0, ps, d, r + 1)) by {
            let a = st.pending.remove(key);
            let b = held_from(q0, ps, d, r + 1);
            assert forall|k: u32| a.contains_key(k) <==> b.contains_key(k) by {
                if a.contains_key(k) {
                    let j = held_index(q0, ps, d, r, k);
                    if j == r {
                        assert(false);
                    }
                    assert(r + 1 <= j);
                }
                if b.contains_key(k) {
                    let j = held_index(q0, ps, d, r + 1, k);
                    lemma_seg_start_distinct(q0, ps, r, j);
                }
            }
            assert forall|k: u32| #[trigger] a.contains_key(k) implies a[k] == b[k] by {
                let j = held_index(q0, ps, d, r + 1, k);
                lemma_held_lookup(q0, ps, d, r, j);
                lemma_held_lookup(q0, ps, d, r + 1, j);
            }
        }
        assert(next == tiled_state(q0, ps, d, r + 1));
        lemma_drain_tiled(q0, ps, d, r + 1);
    } else {
        assert(!st.pending.contains_key(key)) by {
            if st.pending.contains_key(key) {
                let j = held_index(q0, ps, d, r, key);
                assert(r <= j < m && d.contains(j));
                assert(j != r);
                lemma_seg_start_distinct(q0, ps, r, j);
            }
        }
    }
}

proof fn lemma_held_same(q0: u32, ps: Seq<Seq<u8>>, d1: Set<int>, r1: int, d2: Set<int>, r2: int)
    requires
        tiling(ps),
        0 <= r1,
        0 <= r2,
        forall|j: int| 0 <= j < ps.len() ==> ((r1 <= j && d1.contains(j)) <==> (r2 <= j && d2.contains(j))),
    ensures
        held_from(q0, ps, d1, r1) == held_from(q0, ps, d2, r2),
{
    let a = held_from(q0, ps, d1, r1);
    let b = held_from(q0, ps, d2, r2);
    assert forall|k: u32| a.contains_key(k) <==> b.contains_key(k) by {
        if a.contains_key(k) {
            let j = held_index(q0, ps, d1, r1, k);
            assert(r2 <= j && d2.contains(j));
        }
        if b.contains_key(k) {
            let j = held_index(q0, ps, d2, r2, k);
            assert(r1 <= j && d1.contains(j));
        }
    }
    assert forall|k: u32| #[trigger] a.contains_key(k) implies a[k] == b[k] by {
        let j = held_index(q0, ps, d1, r1, k);
        lemma_held_lookup(q0, ps, d1, r1, j);
        lemma_held_lookup(q0, ps, d2, r2, j);
    }
    assert(a =~= b);
}

proof fn lemma_held_insert(q0: u32, ps: Seq<Seq<u8>>, d: Set<int>, r: int, j: int)
    requires
        tiling(ps),
        0 <= r <= j < ps.len(),
    ensures
        held_from(q0, ps, d.insert(j), r) == held_from(q0, ps, d, r).insert(seg_start(q0, ps, j), ps[j]),
{
    let a = held_from(q0, ps, d.insert(j), r);
    let b = held_from(q0, ps, d, r).insert(seg_start(q0, ps, j), ps[j]);
    lemma_held_lookup(q0, ps, d.insert(j), r, j);
    assert forall|k: u32| a.contains_key(k) <==> b.contains_key(k) by {
        if a.contains_key(k) {
            let i = held_index(q0, ps, d.insert(j), r, k);
            if i != j {
                assert(held_from(q0, ps, d, r).contains_key(seg_start(q0, ps, i)));
            }
        }
        if b.contains_key(k) && k != seg_start(q0, ps, j) {
            let i = held_index(q0, ps, d, r, k);
            assert(d.insert(j).contains(i));
        }
    }
    assert forall|k: u32| #[trigger] a.contains_key(k) implies a[k] == b[k] by {
        let i = held_index(q0, ps, d.insert(j), r, k);
        lemma_held_lookup(q0, ps, d.insert(j), r, i);
        if i != j {
            lemma_held_lookup(q0, ps, d, r, i);
            if i < j {
                lemma_seg_start_distinct(q0, ps, i, j);
            } else {
                lemma_seg_start_distinct(q0, ps, j, i);
            }
        }
    }
    assert(a =~= b);
}

proof fn lemma_first_gap_skip(d: Set<int>, r0: int, r: int, m: int)
    requires
        r0 <= r <= m,
        forall|j: int| r0 <= j < r ==> d.contains(j),
    ensures
        first_gap(d, r0, m) == first_gap(d, r, m),
    decreases r - r0,
{
    if r0 < r {
        lemma_first_gap_skip(d, r0 + 1, r, m);
    }
}

proof fn lemma_push_tiled(q0: u32, ps: Seq<Seq<u8>>, d: Set<int>, j: int)
    requires
        tiling(ps),
        d.contains(0),
        0 <= j < ps.len(),
    ensures
        push_spec(tiled_state(q0, ps, d, first_gap(d, 0, ps.len() as int)), seg_start(q0, ps, j), ps[j])
            == tiled_state(q0, ps, d.insert(j), first_gap(d.insert(j), 0, ps.len() as int)),
{
    let m = ps.len() as int;
    let k = first_gap(d, 0, m);
    lemma_first_gap(d, 0, m);
    let d2 = d.insert(j);
    lemma_first_gap(d2, 0, m);
    let st = tiled_state(q0, ps, d, k);
    assert(ps[j].len() > 0);
    lemma_offsets(ps, j);
    if j < k {
        assert(d.contains(j));
        assert(d2 =~= d);
        lemma_seg_start_distinct(q0, ps, j, k);
        lemma_offsets_increase(ps, j + 1, k);
        assert(push_spec(st, seg_start(q0, ps, j), ps[j]) == st);
        assert(st == tiled_state(q0, ps, d2, first_gap(d2, 0, m)));
    } else if j == k {
        assert(k < m);
        lemma_offsets(ps, k);
        lemma_seg_start_next(q0, ps, k);
        assert(forall|i: int| 0 <= i < k + 1 ==> d2.contains(i));
        lemma_first_gap_skip(d2, 0, k + 1, m);
        lemma_held_same(q0, ps, d, k, d2, k + 1);
        let mid = StreamState {
            data: st.data + ps[k],
            next_seq: Some(seq_add(seg_start(q0, ps, k), ps[k].len() as int)),
            pending: st.pending,
        };
        assert(mid == tiled_state(q0, ps, d2, k + 1));
        lemma_drain_tiled(q0, ps, d2, k + 1);
        assert(seq_diff(seg_start(q0, ps, k), seg_start(q0, ps, k)) == 0);
        assert(push_spec(st, seg_start(q0, ps, j), ps[j]) == drain(mid));
        assert(drain(mid) == tiled_state(q0, ps, d2, first_gap(d2, 0, m)));
    } else {
        lemma_seg_start_distinct(q0, ps, k, j);
        assert(k < m);
        assert(!d2.contains(k));
        assert(forall|i: int| 0 <= i < k ==> d2.contains(i));
        assert(first_gap(d2, 0, m) == k) by {
            lemma_first_gap_skip(d2, 0, k, m);
        }
        lemma_held_insert(q0, ps, d, k, j);
        lemma_offsets_increase(ps, k, j);
        assert(seq_diff(seg_start(q0, ps, j), seg_start(q0, ps, k)) > 0);
        assert(push_spec(st, seg_start(q0, ps, j), ps[j]) == StreamState {
            pending: st.pending.insert(seg_start(q0, ps, j), ps[j]),
            ..st
        });
        assert(push_spec(st, seg_start(q0, ps, j), ps[j]) == tiled_state(q0, ps, d2, k));
    }
}

/// The indices listed in `order`.
pub open spec fn listed(order: Seq<int>) -> Set<int> {
    Set::new(|x: int| exists|i: int| 0 <= i < order.len() && order[i] == x)
}

proof fn lemma_push_segments_tiled(q0: u32, ps: Seq<Seq<u8>>, d: Set<int>, order: Seq<int>)
    requires
        tiling(ps),
        d.contains(0),
        forall|i: int| 0 <= i < order.len() ==> 0 <= #[trigger] order[i] < ps.len(),
    ensures
        push_segments(tiled_state(q0, ps, d, first_gap(d, 0, ps.len() as int)), q0, ps, order) == tiled_state(
            q0,
            ps,
            d.union(listed(order)),
            first_gap(d.union(listed(order)), 0, ps.len() as int),
        ),
    decreases order.len(),
{
    let m = ps.len() as int;
    if order.len() == 0 {
        assert(d.union(listed(order)) =~= d);
    } else {
        let j = order[0];
        let rest = order.drop_first();
        lemma_push_tiled(q0, ps, d, j);
        assert forall|i: int| 0 <= i < rest.len() implies 0 <= #[trigger] rest[i] < ps.len() by {
            assert(rest[i] == order[i + 1]);
        }
        lemma_push_segments_tiled(q0, ps, d.insert(j), rest);
        assert(d.insert(j).union(listed(rest)) =~= d.union(listed(order))) by {
            assert forall|x: int| listed(order).contains(x) implies d.insert(j).union(listed(rest)).contains(x) by {
                let i = choose|i: int| 0 <= i < order.len() && order[i] == x;
                if i > 0 {
                    assert(rest[i - 1] == x);
                }
            }
            assert forall|x: int| listed(rest).contains(x) implies listed(order).contains(x) by {
                let i = choose|i: int| 0 <= i < rest.len() && rest[i] == x;
                assert(order[i + 1] == x);
            }
        }
    }
}

/// Payloads that tile a stretch of sequence numbers shorter than 2^31, each
/// starting where the one before it ends, are reassembled into their
/// concatenation whatever order the later ones arrive in (repeats
/// included), as long as the first one arrives first and every later one
/// arrives at least once; nothing is then held back.
pub proof fn lemma_push_any_order(q0: u32, ps: Seq<Seq<u8>>, order: Seq<int>)
    requires
        tiling(ps),
        forall|i: int| 0 <= i < order.len() ==> 0 <= #[trigger] order[i] < ps.len(),
        forall|j: int| 1 <= j < ps.len() ==> #[trigger] listed(order).contains(j),
    ensures
        ({
            let st = push_segments(push_spec(empty_state(), q0, ps[0]), q0, ps, order);
            &&& st.data == concat_all(ps)
            &&& st.next_seq == Some(seg_start(q0, ps, ps.len() as int))
            &&& st.pending == Map::<u32, Seq<u8>>::empty()
        }),
{
    let m = ps.len() as int;
    let d0 = Set::<int>::empty().insert(0);
    assert(ps[0].len() > 0);
    lemma_offsets(ps, 0);
    lemma_seg_start_next(q0, ps, 0);
    assert(seg_start(q0, ps, 0) == q0);
    assert(concat_all(ps.take(0)) =~= seq![]);
    assert(held_from(q0, ps, d0, 1) =~= Map::<u32, Seq<u8>>::empty());
    let start = StreamState { data: ps[0], next_seq: Some(seq_add(q0, ps[0].len() as int)), pending: Map::empty() };
    assert(start.data =~= concat_all(ps.take(1)));
    assert(start == tiled_state(q0, ps, d0, 1));
    lemma_drain_tiled(q0, ps, d0, 1);
    lemma_first_gap_skip(d0, 0, 1, m);
    assert(push_spec(empty_state(), q0, ps[0]) == drain(start));
    lemma_push_segments_tiled(q0, ps, d0, order);
    let d2 = d0.union(listed(order));
    lemma_first_gap(d2, 0, m);
    let k = first_gap(d2, 0, m);
    if k < m {
        assert(!d2.contains(k));
        if k >= 1 {
            assert(listed(order).contains(k));
        }
    }
    assert(k == m);
    assert(ps.take(m) =~= ps);
    assert(held_from(q0, ps, d2, m) =~= Map::<u32, Seq<u8>>::empty());
}

proof fn lemma_drain_settled(st: StreamState)
    requires
        st.pending.dom().finite(),
    ensures
        drain(st).next_seq matches Some(n) ==> !drain(st).pending.contains_key(n),
        st.next_seq is Some ==> drain(st).next_seq is Some,
    decreases st.pending.dom().len(),
{
    if let Some(n) = st.next_seq {
        if st.pending.contains_key(n) {
            let seg = st.pending[n];
            let next = StreamState {
                data: st.data + seg,
                next_seq: Some(seq_add(n, seg.len() as int)),
                pending: st.pending.remove(n),
            };
            vstd::set::axiom_set_remove_len(st.pending.dom(), n);
            lemma_drain_settled(next);
        }
    }
}

/// Every push leaves the stream settled: whatever arrives (in order, ahead,
/// overlapping what was delivered, or a repeat), a held-back segment that
/// has become next in line is delivered at once, so the stream never stalls
/// on a segment it already holds.  A fresh stream is settled.
pub proof fn lemma_push_settled(st: StreamState, seq: u32, payload: Seq<u8>)
    requires
        st.pending.dom().finite(),
        st.next_seq matches Some(n) ==> !st.pending.contains_key(n),
    ensures
        ({
            let r = push_spec(st, seq, payload);
            r.next_seq matches Some(n) ==> !r.pending.contains_key(n)
        }),
        empty_state().next_seq is None,
{
    if payload.len() > 0 {
        match st.next_seq {
            None => {
                lemma_drain_settled(StreamState {
                    data: st.data + payload,
                    next_seq: Some(seq_add(seq, payload.len() as int)),
                    pending: st.pending,
                });
            },
            Some(next) => {
                let diff = seq_diff(seq, next);
                if diff == 0 {
                    lemma_drain_settled(StreamState {
                        data: st.data + payload,
                        next_seq: Some(seq_add(seq, payload.len() as int)),
                        pending: st.pending,
                    });
                } else if diff > 0 {
                    assert(seq != next) by {
                        if seq == next {
                            assert(vstd::wrapping::u32_specs::wrapping_sub(seq, next) == 0);
                        }
                    }
                } else if diff != i32::MIN && -diff < payload.len() {
                    let fresh = payload.skip(-diff as int);
                    lemma_drain_settled(StreamState {
                        data: st.data + fresh,
                        next_seq: Some(seq_add(next, fresh.len() as int)),
                        pending: st.pending,
                    });
                }
            },
        }
    }
}

/// A segment that starts `k` bytes before the next expected sequence number
/// (`0 < k < 2^31`) counts only for its bytes from `k` on: it has the same
/// effect as those bytes arriving at the next expected number, and none at
/// all when it holds no more than `k` bytes.
pub proof fn lemma_push_overlap(st: StreamState, k: u32, payload: Seq<u8>)
    requires
        st.next_seq is Some,
        0 < k < 0x8000_0000,
        payload.len() > 0,
    ensures
        ({
            let n = st.next_seq->0;
            let s = vstd::wrapping::u32_specs::wrapping_sub(n, k);
            &&& k < payload.len() ==> push_spec(st, s, payload) == push_spec(st, n, payload.skip(k as int))
            &&& k >= payload.len() ==> push_spec(st, s, payload) == st
        }),
{
    let n = st.next_seq->0;
    let s = vstd::wrapping::u32_specs::wrapping_sub(n, k);
    let w = vstd::wrapping::u32_specs::wrapping_sub(s, n);
    assert(w as int == 0x1_0000_0000 - k);
    assert(w >= 0x8000_0000 ==> (w as i32) as int == w as int - 0x1_0000_0000) by (bit_vector);
    assert(seq_diff(s, n) == -(k as int));
    assert(seq_diff(n, n) == 0);
    if k < payload.len() {
        let fresh = payload.skip(k as int);
        assert(fresh.len() > 0);
    }
}

} // verus!
