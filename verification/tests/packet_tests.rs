use oxidized_relay::packet::{
    capture_format, handle_packet, record_packet, CaptureFormat, LinkType, PacketError, PacketInfo,
};
use oxidized_relay::tcp::{IpAddress, StreamKey, TcpTracker};

const SRC: [u8; 4] = [192, 168, 0, 2];
const DST: [u8; 4] = [10, 1, 2, 3];

fn ipv4_tcp(src: [u8; 4], dst: [u8; 4], sport: u16, dport: u16, seq: u32, payload: &[u8]) -> Vec<u8> {
    let total = 20 + 20 + payload.len();
    let mut p = vec![0x45, 0x00, (total >> 8) as u8, (total & 0xff) as u8, 0x00, 0x01, 0x40, 0x00, 0x40, 0x06, 0x00, 0x00];
    p.extend_from_slice(&src);
    p.extend_from_slice(&dst);
    p.extend_from_slice(&sport.to_be_bytes());
    p.extend_from_slice(&dport.to_be_bytes());
    p.extend_from_slice(&seq.to_be_bytes());
    p.extend_from_slice(&[0, 0, 0, 0]);
    p.extend_from_slice(&[0x50, 0x18, 0xff, 0xff, 0x00, 0x00, 0x00, 0x00]);
    p.extend_from_slice(payload);
    p
}

fn ipv4_udp(src: [u8; 4], dst: [u8; 4], payload: &[u8]) -> Vec<u8> {
    let total = 20 + 8 + payload.len();
    let mut p = vec![0x45, 0x00, (total >> 8) as u8, (total & 0xff) as u8, 0x00, 0x01, 0x40, 0x00, 0x40, 0x11, 0x00, 0x00];
    p.extend_from_slice(&src);
    p.extend_from_slice(&dst);
    let ulen = 8 + payload.len();
    p.extend_from_slice(&[0x12, 0x34, 0x00, 0x35, (ulen >> 8) as u8, (ulen & 0xff) as u8, 0, 0]);
    p.extend_from_slice(payload);
    p
}

fn ethernet(ip: &[u8]) -> Vec<u8> {
    let mut f = vec![0x02, 0, 0, 0, 0, 1, 0x02, 0, 0, 0, 0, 2, 0x08, 0x00];
    f.extend_from_slice(ip);
    f
}

fn addr(b: [u8; 4]) -> IpAddress {
    IpAddress::V4(u32::from_be_bytes(b))
}

fn expected_key() -> StreamKey {
    StreamKey::new(addr(SRC), 40000, addr(DST), 443)
}

#[test]
fn handle_packet_raw_ip() {
    let mut t = TcpTracker::new();
    let pkt = ipv4_tcp(SRC, DST, 40000, 443, 1000, b"hello");
    assert_eq!(handle_packet(&pkt, LinkType::Raw, None, &mut t), Ok(()));
    let s = t.streams();
    assert_eq!(s.len(), 1);
    assert_eq!(s[0].key, expected_key());
    assert_eq!(s[0].data, b"hello".to_vec());
}

#[test]
fn handle_packet_ethernet_reassembles() {
    let mut t = TcpTracker::new();
    let second = ethernet(&ipv4_tcp(SRC, DST, 40000, 443, 1005, b" world"));
    let first = ethernet(&ipv4_tcp(SRC, DST, 40000, 443, 1000, b"hello"));
    assert_eq!(handle_packet(&first, LinkType::Ethernet, None, &mut t), Ok(()));
    assert_eq!(handle_packet(&second, LinkType::Ethernet, None, &mut t), Ok(()));
    assert_eq!(t.streams()[0].data, b"hello world".to_vec());
}

#[test]
fn handle_packet_loopback_header_is_skipped() {
    let mut t = TcpTracker::new();
    let mut pkt = vec![2, 0, 0, 0];
    pkt.extend(ipv4_tcp(SRC, DST, 40000, 443, 7, b"x"));
    assert_eq!(handle_packet(&pkt, LinkType::Null, None, &mut t), Ok(()));
    assert_eq!(handle_packet(&pkt, LinkType::Loop, None, &mut t), Ok(()));
    // The second copy is a duplicate of the first.
    assert_eq!(t.streams()[0].data, b"x".to_vec());
}

#[test]
fn handle_packet_short_loopback_is_ignored() {
    let mut t = TcpTracker::new();
    assert_eq!(handle_packet(&[2, 0, 0], LinkType::Null, None, &mut t), Ok(()));
    assert_eq!(handle_packet(&[], LinkType::Loop, None, &mut t), Ok(()));
    assert!(t.streams().is_empty());
}

#[test]
fn handle_packet_unsupported_link() {
    let mut t = TcpTracker::new();
    let pkt = ipv4_tcp(SRC, DST, 40000, 443, 1, b"a");
    assert_eq!(
        handle_packet(&pkt, LinkType::Other(147), None, &mut t),
        Err(PacketError::UnsupportedLink(LinkType::Other(147)))
    );
    assert!(t.streams().is_empty());
}

#[test]
fn handle_packet_slice_error() {
    let mut t = TcpTracker::new();
    let r = handle_packet(&[0x45, 0x00], LinkType::Raw, None, &mut t);
    assert!(matches!(r, Err(PacketError::Slice(ref m)) if !m.is_empty()));
    assert!(t.streams().is_empty());
}

#[test]
fn handle_packet_host_filter() {
    let pkt = ipv4_tcp(SRC, DST, 40000, 443, 1, b"abc");
    let mut t = TcpTracker::new();
    assert_eq!(handle_packet(&pkt, LinkType::Raw, Some(addr([1, 1, 1, 1])), &mut t), Ok(()));
    assert!(t.streams().is_empty());
    assert_eq!(handle_packet(&pkt, LinkType::Raw, Some(addr(DST)), &mut t), Ok(()));
    assert_eq!(t.streams().len(), 1);
    let mut u = TcpTracker::new();
    assert_eq!(handle_packet(&pkt, LinkType::Raw, Some(addr(SRC)), &mut u), Ok(()));
    assert_eq!(u.streams().len(), 1);
}

#[test]
fn handle_packet_ignores_empty_payload_and_udp() {
    let mut t = TcpTracker::new();
    let empty = ipv4_tcp(SRC, DST, 40000, 443, 1, b"");
    assert_eq!(handle_packet(&empty, LinkType::Raw, None, &mut t), Ok(()));
    let udp = ipv4_udp(SRC, DST, b"dns?");
    assert_eq!(handle_packet(&udp, LinkType::Raw, None, &mut t), Ok(()));
    assert!(t.streams().is_empty());
}

#[test]
fn record_packet_needs_addresses_and_tcp() {
    let mut t = TcpTracker::new();
    let no_ip = PacketInfo { addrs: None, tcp: Some((1, 2, 3, vec![1])) };
    record_packet(&no_ip, None, &mut t);
    let no_tcp = PacketInfo { addrs: Some((addr(SRC), addr(DST))), tcp: None };
    record_packet(&no_tcp, None, &mut t);
    assert!(t.streams().is_empty());
    let full = PacketInfo { addrs: Some((addr(SRC), addr(DST))), tcp: Some((40000, 443, 9, vec![7, 8])) };
    record_packet(&full, None, &mut t);
    assert_eq!(t.streams()[0].key, expected_key());
    assert_eq!(t.streams()[0].data, vec![7, 8]);
}

#[test]
fn capture_format_by_magic() {
    assert_eq!(capture_format(&[0xd4, 0xc3, 0xb2, 0xa1]), CaptureFormat::Pcap);
    assert_eq!(capture_format(&[0xa1, 0xb2, 0xc3, 0xd4]), CaptureFormat::Pcap);
    assert_eq!(capture_format(&[0x4d, 0x3c, 0xb2, 0xa1]), CaptureFormat::Pcap);
    assert_eq!(capture_format(&[0xa1, 0xb2, 0x3c, 0x4d]), CaptureFormat::Pcap);
    assert_eq!(capture_format(&[0x0a, 0x0d, 0x0d, 0x0a]), CaptureFormat::PcapNg);
    assert_eq!(capture_format(&[0x00, 0x00, 0x00, 0x00]), CaptureFormat::Unknown);
    assert_eq!(capture_format(&[0xd4, 0xc3, 0xb2, 0xa2]), CaptureFormat::Unknown);
}

#[test]
fn handle_packet_linux_cooked_capture() {
    let mut frame = vec![0x00, 0x00, 0x00, 0x01, 0x00, 0x06, 2, 0, 0, 0, 0, 1, 0, 0, 0x08, 0x00];
    frame.extend(ipv4_tcp(SRC, DST, 40000, 443, 77, b"sll"));
    let mut t = TcpTracker::new();
    assert_eq!(handle_packet(&frame, LinkType::LinuxSll, None, &mut t), Ok(()));
    assert_eq!(t.streams()[0].key, expected_key());
    assert_eq!(t.streams()[0].data, b"sll".to_vec());
}

#[test]
fn handle_packet_ipv6() {
    let src: [u8; 16] = [0x20, 0x01, 0x0d, 0xb8, 0, 0, 0, 0, 0, 0, 0, 0, 0, 0, 0, 1];
    let dst: [u8; 16] = [0, 0, 0, 0, 0, 0, 0, 0, 0, 0, 0, 0, 0, 0, 0, 2];
    let payload = b"v6";
    let plen = 20 + payload.len();
    let mut p = vec![0x60, 0, 0, 0, (plen >> 8) as u8, (plen & 0xff) as u8, 6, 64];
    p.extend_from_slice(&src);
    p.extend_from_slice(&dst);
    p.extend_from_slice(&1234u16.to_be_bytes());
    p.extend_from_slice(&80u16.to_be_bytes());
    p.extend_from_slice(&5u32.to_be_bytes());
    p.extend_from_slice(&[0, 0, 0, 0, 0x50, 0x18, 0xff, 0xff, 0, 0, 0, 0]);
    p.extend_from_slice(payload);
    let mut t = TcpTracker::new();
    assert_eq!(handle_packet(&p, LinkType::Raw, None, &mut t), Ok(()));
    let s = t.streams();
    assert_eq!(
        s[0].key,
        StreamKey::new(IpAddress::V6(u128::from_be_bytes(src)), 1234, IpAddress::V6(u128::from_be_bytes(dst)), 80)
    );
    assert_eq!(s[0].data, b"v6".to_vec());
}
