use oxidized_relay::frame::{parse_frames, RawFrame, MAX_HEAD_LEN};

fn frame_bytes(head: &[u8], body: &[u8]) -> Vec<u8> {
    let mut out = vec![head.len() as u8, (body.len() & 0xff) as u8, (body.len() >> 8) as u8];
    out.extend_from_slice(head);
    out.extend_from_slice(body);
    out
}

fn parts(frames: &[RawFrame]) -> Vec<(usize, Vec<u8>, Vec<u8>)> {
    frames.iter().map(|f| (f.index, f.head.clone(), f.body.clone())).collect()
}

#[test]
fn parse_frames_empty_input() {
    assert!(parse_frames(&[]).is_empty());
    assert!(parse_frames(&[1, 0, 0]).is_empty());
}

#[test]
fn parse_frames_single_frame() {
    let data = frame_bytes(&[0xaa, 0xbb], &[1, 2, 3]);
    let frames = parse_frames(&data);
    assert_eq!(parts(&frames), vec![(0, vec![0xaa, 0xbb], vec![1, 2, 3])]);
}

#[test]
fn parse_frames_smallest_frame() {
    // One head byte and an empty body: exactly four bytes.
    let frames = parse_frames(&[1, 0, 0, 0x7f]);
    assert_eq!(parts(&frames), vec![(0, vec![0x7f], vec![])]);
}

#[test]
fn parse_frames_numbers_consecutive_frames() {
    let mut data = frame_bytes(&[1], &[10, 11]);
    data.extend(frame_bytes(&[2, 3], &[]));
    data.extend(frame_bytes(&[4], &[12]));
    let frames = parse_frames(&data);
    assert_eq!(
        parts(&frames),
        vec![(0, vec![1], vec![10, 11]), (1, vec![2, 3], vec![]), (2, vec![4], vec![12])]
    );
}

#[test]
fn parse_frames_body_length_is_little_endian() {
    let body: Vec<u8> = (0..300u32).map(|i| (i % 251) as u8).collect();
    let data = frame_bytes(&[9], &body);
    assert_eq!(&data[1..3], &[0x2c, 0x01]);
    let frames = parse_frames(&data);
    assert_eq!(frames.len(), 1);
    assert_eq!(frames[0].body, body);
}

#[test]
fn parse_frames_skips_zero_head_length() {
    // A leading zero byte cannot start a frame; the parser moves on by one.
    let mut data = vec![0];
    data.extend(frame_bytes(&[5], &[6]));
    let frames = parse_frames(&data);
    assert_eq!(parts(&frames), vec![(0, vec![5], vec![6])]);
}

#[test]
fn parse_frames_skips_oversized_head_length() {
    let mut data = vec![(MAX_HEAD_LEN + 1) as u8];
    data.extend(frame_bytes(&[5], &[6]));
    let frames = parse_frames(&data);
    assert_eq!(parts(&frames), vec![(0, vec![5], vec![6])]);
}

#[test]
fn parse_frames_accepts_largest_head() {
    let head = vec![0x11u8; MAX_HEAD_LEN];
    let data = frame_bytes(&head, &[]);
    let frames = parse_frames(&data);
    assert_eq!(frames.len(), 1);
    assert_eq!(frames[0].head, head);
}

#[test]
fn parse_frames_drops_incomplete_trailing_frame() {
    let mut data = frame_bytes(&[1], &[2]);
    // Claims a 2-byte head and 100-byte body, but only 3 bytes follow.
    data.extend_from_slice(&[2, 100, 0, 0x90, 0x90, 0x90]);
    let frames = parse_frames(&data);
    assert_eq!(parts(&frames), vec![(0, vec![1], vec![2])]);
}

#[test]
fn parse_frames_resyncs_inside_incomplete_frame() {
    // The first header claims an oversized head; scanning one byte on finds
    // a complete frame at offset 1: hl = 1, bl = 0, head = [0x42].
    let data = [200, 1, 0, 0, 0x42];
    let frames = parse_frames(&data);
    assert_eq!(parts(&frames), vec![(0, vec![0x42], vec![])]);
}

#[test]
fn parse_frames_needs_more_than_three_bytes_left() {
    // After the first frame only three bytes remain, which never start a frame.
    let mut data = frame_bytes(&[1], &[]);
    data.extend_from_slice(&[1, 0, 0]);
    let frames = parse_frames(&data);
    assert_eq!(parts(&frames), vec![(0, vec![1], vec![])]);
}
