use oxidized_relay::tcp::{IpAddress, StreamKey, TcpStream, TcpTracker};

fn key(a: u32, pa: u16, b: u32, pb: u16) -> StreamKey {
    StreamKey::new(IpAddress::V4(a), pa, IpAddress::V4(b), pb)
}

fn stream() -> TcpStream {
    TcpStream::new(key(1, 1000, 2, 80))
}

#[test]
fn push_in_order_appends() {
    let mut s = stream();
    s.push(100, b"abc");
    s.push(103, b"def");
    assert_eq!(s.data, b"abcdef".to_vec());
}

#[test]
fn push_first_segment_sets_start() {
    let mut s = stream();
    s.push(5000, b"xy");
    s.push(4000, b"zz");
    // 4000 is far behind 5002: entirely old data, ignored.
    assert_eq!(s.data, b"xy".to_vec());
}

#[test]
fn push_empty_payload_is_ignored() {
    let mut s = stream();
    s.push(10, b"");
    // Nothing was delivered, so the next segment still sets the start.
    s.push(50, b"a");
    s.push(51, b"b");
    assert_eq!(s.data, b"ab".to_vec());
}

#[test]
fn push_out_of_order_is_held_then_drained() {
    let mut s = stream();
    s.push(0, b"ab");
    s.push(4, b"ef");
    s.push(6, b"gh");
    assert_eq!(s.data, b"ab".to_vec());
    s.push(2, b"cd");
    assert_eq!(s.data, b"abcdefgh".to_vec());
}

#[test]
fn push_overlap_keeps_only_new_bytes() {
    let mut s = stream();
    s.push(10, b"hello");
    s.push(13, b"lo world");
    assert_eq!(s.data, b"hello world".to_vec());
}

#[test]
fn push_duplicate_is_ignored() {
    let mut s = stream();
    s.push(10, b"hello");
    s.push(10, b"hello");
    s.push(12, b"ll");
    assert_eq!(s.data, b"hello".to_vec());
}

#[test]
fn push_across_sequence_wraparound() {
    let mut s = stream();
    s.push(u32::MAX - 1, b"ab");
    s.push(0, b"cd");
    s.push(4, b"gh");
    s.push(2, b"ef");
    assert_eq!(s.data, b"abcdefgh".to_vec());
}

#[test]
fn push_held_segment_replaced_by_later_one() {
    let mut s = stream();
    s.push(0, b"a");
    s.push(2, b"xx");
    s.push(2, b"cd");
    s.push(1, b"b");
    assert_eq!(s.data, b"abcd".to_vec());
}

#[test]
fn tracker_keeps_directions_apart() {
    let mut t = TcpTracker::new();
    let ab = key(1, 1000, 2, 80);
    let ba = key(2, 80, 1, 1000);
    t.feed(ab, 1, b"GET ");
    t.feed(ba, 900, b"HTTP");
    t.feed(ab, 5, b"/");
    let streams = t.streams();
    assert_eq!(streams.len(), 2);
    assert_eq!(streams[0].key, ab);
    assert_eq!(streams[0].data, b"GET /".to_vec());
    assert_eq!(streams[1].key, ba);
    assert_eq!(streams[1].data, b"HTTP".to_vec());
}

#[test]
fn tracker_starts_empty() {
    let t = TcpTracker::new();
    assert!(t.streams().is_empty());
}

#[test]
fn stream_key_new_keeps_fields() {
    let k = StreamKey::new(IpAddress::V6(1), 1, IpAddress::V4(2), 2);
    assert_eq!(k.src_ip, IpAddress::V6(1));
    assert_eq!(k.src_port, 1);
    assert_eq!(k.dst_ip, IpAddress::V4(2));
    assert_eq!(k.dst_port, 2);
}

#[test]
fn bytes_are_the_delivered_data() {
    let mut s = stream();
    s.push(7, b"xy");
    s.push(10, b"held");
    assert_eq!(s.bytes(), b"xy");
    assert_eq!(s.bytes(), &s.data[..]);
}

fn permutations(items: &[usize]) -> Vec<Vec<usize>> {
    if items.len() <= 1 {
        return vec![items.to_vec()];
    }
    let mut out = vec![];
    for i in 0..items.len() {
        let mut rest = items.to_vec();
        let x = rest.remove(i);
        for mut p in permutations(&rest) {
            p.insert(0, x);
            out.push(p);
        }
    }
    out
}

#[test]
fn push_tiling_segments_in_any_order() {
    let parts: [&[u8]; 5] = [b"ab", b"cde", b"f", b"ghij", b"k"];
    let q0 = u32::MAX - 3;
    let mut starts = vec![q0];
    for p in &parts[..4] {
        let last = *starts.last().unwrap();
        starts.push(last.wrapping_add(p.len() as u32));
    }
    for order in permutations(&[1, 2, 3, 4]) {
        let mut s = stream();
        s.push(starts[0], parts[0]);
        for &i in &order {
            s.push(starts[i], parts[i]);
        }
        assert_eq!(s.data, b"abcdefghijk".to_vec());
        // Repeats change nothing.
        for &i in &order {
            s.push(starts[i], parts[i]);
        }
        assert_eq!(s.data, b"abcdefghijk".to_vec());
    }
}
