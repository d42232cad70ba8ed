//! Captured packets: which link layer they use, what the network and
//! transport layers say, and how TCP payloads reach the stream tracker.

use vstd::prelude::*;

use etherparse::NetSlice::{Ipv4, Ipv6};
use etherparse::SlicedPacket;
use etherparse::TransportSlice::Tcp;

use crate::tcp::IpAddress::{V4, V6};
use crate::tcp::{IpAddress, StreamKey, TcpTracker, empty_state, push_spec};

verus! {

/// The link-layer framing of a capture.
#[derive(Debug, Clone, Copy, PartialEq, Eq, Structural)]
pub enum LinkType {
    /// Ethernet II.
    Ethernet,
    /// Linux cooked capture.
    LinuxSll,
    /// BSD loopback (4-byte address-family header).
    Null,
    /// OpenBSD loopback (4-byte address-family header).
    Loop,
    /// Raw IP.
    Raw,
    /// Any other link type, by its pcap number.
    Other(u32),
}

/// What a captured packet says: its IP addresses, if it has an IP layer,
/// and its TCP ports, sequence number and payload, if it is TCP.
#[derive(Debug)]
pub struct PacketInfo {
    pub addrs: Option<(IpAddress, IpAddress)>,
    pub tcp: Option<(u16, u16, u32, Vec<u8>)>,
}

/// Mathematical value of a [`PacketInfo`].
pub struct PacketView {
    pub addrs: Option<(IpAddress, IpAddress)>,
    pub tcp: Option<(u16, u16, u32, Seq<u8>)>,
}

impl View for PacketInfo {
    type V = PacketView;

    open spec fn view(&self) -> PacketView {
        PacketView {
            addrs: self.addrs,
            tcp: match self.tcp {
                Some((a, b, c, d)) => Some((a, b, c, d@)),
                None => None,
            },
        }
    }
}

/// The mathematical value of a slicing result.
pub open spec fn sliced_view(r: Result<PacketInfo, String>) -> Result<PacketView, Seq<char>> {
    match r {
        Ok(p) => Ok(p@),
        Err(e) => Err(e@),
    }
}

/// What `etherparse` reads from an Ethernet II frame.
pub uninterp spec fn ethernet_packet(data: Seq<u8>) -> Result<PacketView, Seq<char>>;

/// What `etherparse` reads from a Linux cooked capture frame.
pub uninterp spec fn linux_sll_packet(data: Seq<u8>) -> Result<PacketView, Seq<char>>;

/// What `etherparse` reads from a raw IP packet.
pub uninterp spec fn ip_packet(data: Seq<u8>) -> Result<PacketView, Seq<char>>;

/// `etherparse::SlicedPacket::from_ethernet`, keeping the IP addresses and
/// the TCP segment; an error becomes its `Debug` text.  Trusted to depend on
/// the bytes alone.
#[verifier::external_body]
fn slice_ethernet(data: &[u8]) -> (r: Result<PacketInfo, String>)
    ensures
        sliced_view(r) == ethernet_packet(data@),
{
    let p = SlicedPacket::from_ethernet(data).map_err(|e| format!("{:?}", e))?;
    let addrs = match &p.net {
        Some(Ipv4(ip)) => Some((V4(ip.header().source_addr().into()), V4(ip.header().destination_addr().into()))),
        Some(Ipv6(ip)) => Some((V6(ip.header().source_addr().into()), V6(ip.header().destination_addr().into()))),
        _ => None,
    };
    let tcp = match &p.transport {
        Some(Tcp(t)) => Some((t.source_port(), t.destination_port(), t.sequence_number(), t.payload().to_vec())),
        _ => None,
    };
    Ok(PacketInfo { addrs, tcp })
}

/// `etherparse::SlicedPacket::from_linux_sll`, keeping the IP addresses and
/// the TCP segment; an error becomes its `Debug` text.  Trusted to depend on
/// the bytes alone.
#[verifier::external_body]
fn slice_linux_sll(data: &[u8]) -> (r: Result<PacketInfo, String>)
    ensures
        sliced_view(r) == linux_sll_packet(data@),
{
    let p = SlicedPacket::from_linux_sll(data).map_err(|e| format!("{:?}", e))?;
    let addrs = match &p.net {
        Some(Ipv4(ip)) => Some((V4(ip.header().source_addr().into()), V4(ip.header().destination_addr().into()))),
        Some(Ipv6(ip)) => Some((V6(ip.header().source_addr().into()), V6(ip.header().destination_addr().into()))),
        _ => None,
    };
    let tcp = match &p.transport {
        Some(Tcp(t)) => Some((t.source_port(), t.destination_port(), t.sequence_number(), t.payload().to_vec())),
        _ => None,
    };
    Ok(PacketInfo { addrs, tcp })
}

/// `etherparse::SlicedPacket::from_ip`, keeping the IP addresses and the TCP
/// segment; an error becomes its `Debug` text.  Trusted to depend on the
/// bytes alone.
#[verifier::external_body]
fn slice_ip(data: &[u8]) -> (r: Result<PacketInfo, String>)
    ensures
        sliced_view(r) == ip_packet(data@),
{
    let p = SlicedPacket::from_ip(data).map_err(|e| format!("{:?}", e))?;
    let addrs = match &p.net {
        Some(Ipv4(ip)) => Some((V4(ip.header().source_addr().into()), V4(ip.header().destination_addr().into()))),
        Some(Ipv6(ip)) => Some((V6(ip.header().source_addr().into()), V6(ip.header().destination_addr().into()))),
        _ => None,
    };
    let tcp = match &p.transport {
        Some(Tcp(t)) => Some((t.source_port(), t.destination_port(), t.sequence_number(), t.payload().to_vec())),
        _ => None,
    };
    Ok(PacketInfo { addrs, tcp })
}

/// Why a packet could not be read.
#[derive(Debug, PartialEq, Eq)]
pub enum PacketError {
    /// The bytes do not slice as the link type says (the parser's message).
    Slice(String),
    /// The capture's link type is not one this tool reads.
    UnsupportedLink(LinkType),
}

/// Whether a packet between `src` and `dst` passes the host filter.
pub open spec fn host_matches(filter: Option<IpAddress>, src: IpAddress, dst: IpAddress) -> bool {
    match filter {
        None => true,
        Some(h) => src == h || dst == h,
    }
}

/// The stream key and TCP segment a packet contributes, if any: it needs IP
/// addresses passing the filter and a TCP segment with a non-empty payload.
pub open spec fn contribution(p: PacketView, filter: Option<IpAddress>) -> Option<(StreamKey, u32, Seq<u8>)> {
    match (p.addrs, p.tcp) {
        (Some((src, dst)), Some((sp, dp, seq, payload))) => if host_matches(filter, src, dst) && payload.len() > 0 {
            Some((StreamKey { src_ip: src, src_port: sp, dst_ip: dst, dst_port: dp }, seq, payload))
        } else {
            None
        },
        _ => None,
    }
}

/// The tracker states after a packet's contribution, if any.
pub open spec fn states_after(
    states: Map<StreamKey, crate::tcp::StreamState>,
    c: Option<(StreamKey, u32, Seq<u8>)>,
) -> Map<StreamKey, crate::tcp::StreamState> {
    match c {
        None => states,
        Some((key, seq, payload)) => states.insert(
            key,
            push_spec(
                if states.contains_key(key) {
                    states[key]
                } else {
                    empty_state()
                },
                seq,
                payload,
            ),
        ),
    }
}

/// The directions in first-seen order after a packet's contribution, if any.
pub open spec fn keys_after(
    keys: Seq<StreamKey>,
    states: Map<StreamKey, crate::tcp::StreamState>,
    c: Option<(StreamKey, u32, Seq<u8>)>,
) -> Seq<StreamKey> {
    match c {
        Some((key, _, _)) => if states.contains_key(key) {
            keys
        } else {
            keys.push(key)
        },
        None => keys,
    }
}

/// Feed the TCP payload of a sliced packet to `tracker`, when its addresses
/// pass `host_filter` and the payload is not empty.
pub fn record_packet(info: &PacketInfo, host_filter: Option<IpAddress>, tracker: &mut TcpTracker)
    requires
        old(tracker).well_formed(),
    ensures
        final(tracker).well_formed(),
        final(tracker).states() == states_after(old(tracker).states(), contribution(info@, host_filter)),
        final(tracker).keys() == keys_after(
            old(tracker).keys(),
            old(tracker).states(),
            contribution(info@, host_filter),
        ),
{
    let (src_ip, dst_ip) = match info.addrs {
        Some(a) => a,
        None => return,
    };
    let matches_host = match host_filter {
        Some(host) => src_ip == host || dst_ip == host,
        None => true,
    };
    if !matches_host {
        return;
    }
    match &info.tcp {
        Some((src_port, dst_port, seq, payload)) => {
            if payload.len() == 0 {
                return;
            }
            let key = StreamKey::new(src_ip, *src_port, dst_ip, *dst_port);
            tracker.feed(key, *seq, payload.as_slice());
        },
        None => {},
    }
}

/// What slicing a captured frame of link type `link` gives: `None` for a
/// loopback frame too short to hold its 4-byte header (which is skipped).
pub open spec fn slice_for(link: LinkType, data: Seq<u8>) -> Option<Result<PacketView, Seq<char>>> {
    match link {
        LinkType::Ethernet => Some(ethernet_packet(data)),
        LinkType::LinuxSll => Some(linux_sll_packet(data)),
        LinkType::Null | LinkType::Loop => if data.len() < 4 {
            None
        } else {
            Some(ip_packet(data.skip(4)))
        },
        LinkType::Raw => Some(ip_packet(data)),
        LinkType::Other(_) => None,
    }
}

/// Slice one captured frame and feed its TCP payload, if any, to `tracker`.
pub fn handle_packet(
    data: &[u8],
    link: LinkType,
    host_filter: Option<IpAddress>,
    tracker: &mut TcpTracker,
) -> (r: Result<(), PacketError>)
    requires
        old(tracker).well_formed(),
    ensures
        final(tracker).well_formed(),
        link matches LinkType::Other(_) ==> r == Err::<(), _>(PacketError::UnsupportedLink(link))
            && final(tracker).states() == old(tracker).states() && final(tracker).keys() == old(tracker).keys(),
        !(link matches LinkType::Other(_)) ==> match slice_for(link, data@) {
            None => r is Ok && final(tracker).states() == old(tracker).states() && final(tracker).keys()
                == old(tracker).keys(),
            Some(Err(msg)) => r matches Err(PacketError::Slice(m)) && m@ == msg && final(tracker).states()
                == old(tracker).states() && final(tracker).keys() == old(tracker).keys(),
            Some(Ok(p)) => r is Ok && final(tracker).states() == states_after(
                old(tracker).states(),
                contribution(p, host_filter),
            ) && final(tracker).keys() == keys_after(
                old(tracker).keys(),
                old(tracker).states(),
                contribution(p, host_filter),
            ),
        },
{
    let sliced = match link {
        LinkType::Ethernet => slice_ethernet(data),
        LinkType::LinuxSll => slice_linux_sll(data),
        LinkType::Null | LinkType::Loop => {
            if data.len() < 4 {
                return Ok(());
            }
            assert(data@.subrange(4, data@.len() as int) =~= data@.skip(4));
            slice_ip(&data[4..data.len()])
        },
        LinkType::Raw => slice_ip(data),
        LinkType::Other(_) => return Err(PacketError::UnsupportedLink(link)),
    };
    match sliced {
        Err(e) => Err(PacketError::Slice(e)),
        Ok(info) => {
            record_packet(&info, host_filter, tracker);
            Ok(())
        },
    }
}

/// The container format of a capture file, from its first four bytes.
#[derive(Debug, Clone, Copy, PartialEq, Eq, Structural)]
pub enum CaptureFormat {
    /// Legacy pcap, either byte order, micro- or nanosecond timestamps.
    Pcap,
    /// pcapng, which must be converted first.
    PcapNg,
    /// Anything else.
    Unknown,
}

/// The container format a file starting with `magic` is in.
pub open spec fn format_of(magic: Seq<u8>) -> CaptureFormat {
    if magic == seq![0xd4u8, 0xc3, 0xb2, 0xa1] || magic == seq![0xa1u8, 0xb2, 0xc3, 0xd4] || magic == seq![
        0x4du8,
        0x3c,
        0xb2,
        0xa1,
    ] || magic == seq![0xa1u8, 0xb2, 0x3c, 0x4d] {
        CaptureFormat::Pcap
    } else if magic == seq![0x0au8, 0x0d, 0x0d, 0x0a] {
        CaptureFormat::PcapNg
    } else {
        CaptureFormat::Unknown
    }
}

/// Recognise the container format from the file's magic number.
pub fn capture_format(magic: &[u8; 4]) -> (f: CaptureFormat)
    ensures
        f == format_of(magic@),
{
    let m = *magic;
    let (a, b, c, d) = (m[0], m[1], m[2], m[3]);
    assert(magic@ =~= seq![a, b, c, d]);
    if (a == 0xd4 && b == 0xc3 && c == 0xb2 && d == 0xa1) || (a == 0xa1 && b == 0xb2 && c == 0xc3 && d == 0xd4)
        || (a == 0x4d && b == 0x3c && c == 0xb2 && d == 0xa1) || (a == 0xa1 && b == 0xb2 && c == 0x3c && d
        == 0x4d) {
        CaptureFormat::Pcap
    } else if a == 0x0a && b == 0x0d && c == 0x0d && d == 0x0a {
        CaptureFormat::PcapNg
    } else {
        proof {
            let s = seq![a, b, c, d];
            assert(s != seq![0xd4u8, 0xc3, 0xb2, 0xa1] && s != seq![0xa1u8, 0xb2, 0xc3, 0xd4] && s != seq![
                0x4du8,
                0x3c,
                0xb2,
                0xa1,
            ] && s != seq![0xa1u8, 0xb2, 0x3c, 0x4d] && s != seq![0x0au8, 0x0d, 0x0d, 0x0a]) by {
                if s == seq![0xd4u8, 0xc3, 0xb2, 0xa1] {
                    assert(s[0] == 0xd4 && s[1] == 0xc3 && s[2] == 0xb2 && s[3] == 0xa1);
                }
                if s == seq![0xa1u8, 0xb2, 0xc3, 0xd4] {
                    assert(s[0] == 0xa1 && s[1] == 0xb2 && s[2] == 0xc3 && s[3] == 0xd4);
                }
                if s == seq![0x4du8, 0x3c, 0xb2, 0xa1] {
                    assert(s[0] == 0x4d && s[1] == 0x3c && s[2] == 0xb2 && s[3] == 0xa1);
                }
                if s == seq![0xa1u8, 0xb2, 0x3c, 0x4d] {
                    assert(s[0] == 0xa1 && s[1] == 0xb2 && s[2] == 0x3c && s[3] == 0x4d);
                }
                if s == seq![0x0au8, 0x0d, 0x0d, 0x0a] {
                    assert(s[0] == 0x0a && s[1] == 0x0d && s[2] == 0x0d && s[3] == 0x0a);
                }
            }
        }
        CaptureFormat::Unknown
    }
}

} // verus!
