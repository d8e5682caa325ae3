//! Parse a captured frame into a [`Packet`]: strip the link header, then the IP and
//! UDP headers, yielding the endpoints, TTL, and a borrowed payload.
//!
//! A [`Packet`] borrows the capture buffer. A malformed frame is rejected with a
//! [`ParseError`] for the caller to log and skip, never a partial packet.

use crate::net::addr::{
    ipv4_from, ipv6_from, lemma_ipv4_from, lemma_ipv6_from, Ipv4Addr, Ipv6Addr, SocketAddr,
    SocketAddrV4, SocketAddrV6,
};
use crate::net::frame;
use crate::net::mac::{lemma_mac_from, mac_from, MacAddr};
use crate::net::{
    be16_at, host32, read_be16, HostFamilies, LinkType, DLT_NULL_HEADER_SIZE,
    ETHERNET_HEADER_SIZE, IPV4_HEADER_SIZE, IPV6_HEADER_SIZE, IP_PROTO_UDP, UDP_HEADER_SIZE,
};
use crate::text;
use vstd::prelude::*;

verus! {

/// A parsed UDP datagram: the endpoints, the TTL or hop limit to preserve on
/// re-emit, the L2 addresses (for filtering; none on `DLT_NULL`), and the payload
/// borrowed from the capture buffer.
#[derive(Clone, Copy, Debug, PartialEq, Eq)]
pub struct Packet<'a> {
    pub source: SocketAddr,
    pub dest: SocketAddr,
    pub ttl: u8,
    pub dst_mac: Option<MacAddr>,
    pub src_mac: Option<MacAddr>,
    pub payload: &'a [u8],
}

/// Why a captured frame could not be parsed into a [`Packet`].
#[derive(Clone, Copy, Debug, PartialEq, Eq, Structural)]
pub enum ParseError {
    /// The frame is shorter than a header it must contain.
    Truncated,
    /// The IP version nibble is neither 4 nor 6.
    BadIpVersion(u8),
    /// An IPv4 fragment: only whole datagrams are reflected.
    Fragmented,
    /// The L4 protocol (IPv4) or next header (IPv6) is not UDP.
    NotUdp(u8),
    /// A declared length field is inconsistent with the captured bytes.
    BadLength,
}

impl ParseError {
    /// The error in words.
    pub fn message(&self) -> (r: String)
        ensures
            r@ == match *self {
                ParseError::Truncated => "frame is truncated"@,
                ParseError::BadIpVersion(version) => "unsupported IP version "@ + text::decimal(
                    version as nat,
                ) + ""@,
                ParseError::Fragmented => "IPv4 fragment"@,
                ParseError::NotUdp(protocol) => "not a UDP datagram (IP protocol "@ + text::decimal(
                    protocol as nat,
                ) + ")"@,
                ParseError::BadLength => "inconsistent length field"@,
            },
    {
        match self {
            ParseError::Truncated => "frame is truncated".to_owned(),
            ParseError::BadIpVersion(version) => text::around(
                "unsupported IP version ",
                text::number(*version as u128).as_str(),
                "",
            ),
            ParseError::Fragmented => "IPv4 fragment".to_owned(),
            ParseError::NotUdp(protocol) => text::around(
                "not a UDP datagram (IP protocol ",
                text::number(*protocol as u128).as_str(),
                ")",
            ),
            ParseError::BadLength => "inconsistent length field".to_owned(),
        }
    }
}

/// What a packet holds, its payload as a sequence.
#[verifier::ext_equal]
pub struct PacketView {
    pub source: SocketAddr,
    pub dest: SocketAddr,
    pub ttl: u8,
    pub dst_mac: Option<MacAddr>,
    pub src_mac: Option<MacAddr>,
    pub payload: Seq<u8>,
}

impl<'a> View for Packet<'a> {
    type V = PacketView;

    open spec fn view(&self) -> PacketView {
        PacketView {
            source: self.source,
            dest: self.dest,
            ttl: self.ttl,
            dst_mac: self.dst_mac,
            src_mac: self.src_mac,
            payload: self.payload@,
        }
    }
}

/// A frame's link header taken apart: the L2 addresses and the L3 bytes.
#[verifier::ext_equal]
pub struct LinkParts {
    pub dst_mac: Option<MacAddr>,
    pub src_mac: Option<MacAddr>,
    pub l3: Seq<u8>,
}

/// The link header of `frame`.
pub open spec fn link_parts(link: LinkType, frame: Seq<u8>) -> Result<LinkParts, ParseError> {
    match link {
        LinkType::Ethernet => if frame.len() < 14 {
            Err(ParseError::Truncated)
        } else {
            Ok(
                LinkParts {
                    dst_mac: Some(mac_from(frame.subrange(0, 6))),
                    src_mac: Some(mac_from(frame.subrange(6, 12))),
                    l3: frame.skip(14),
                },
            )
        },
        LinkType::DltNull => if frame.len() < 4 {
            Err(ParseError::Truncated)
        } else {
            Ok(LinkParts { dst_mac: None, src_mac: None, l3: frame.skip(4) })
        },
    }
}

/// The ports and payload of a UDP datagram.
pub open spec fn udp_parts(l4: Seq<u8>) -> Result<(u16, u16, Seq<u8>), ParseError> {
    if l4.len() < 8 {
        Err(ParseError::Truncated)
    } else {
        let length = be16_at(l4, 4);
        if length < 8 || length > l4.len() {
            Err(ParseError::BadLength)
        } else {
            Ok((be16_at(l4, 0) as u16, be16_at(l4, 2) as u16, l4.subrange(8, length)))
        }
    }
}

/// The packet in an IPv4 header, its options and a UDP datagram.
pub open spec fn ipv4_parts(link: LinkParts) -> Result<PacketView, ParseError> {
    let l3 = link.l3;
    let header = (l3[0] % 16) * 4;
    let total = be16_at(l3, 2);
    if l3.len() < 20 {
        Err(ParseError::Truncated)
    } else if header < 20 || header > l3.len() {
        Err(ParseError::BadLength)
    } else if be16_at(l3, 6) % 0x4000 != 0 {
        Err(ParseError::Fragmented)
    } else if l3[9] != IP_PROTO_UDP {
        Err(ParseError::NotUdp(l3[9]))
    } else if total < header || total > l3.len() {
        Err(ParseError::BadLength)
    } else {
        match udp_parts(l3.subrange(header, total)) {
            Ok((sport, dport, payload)) => Ok(
                PacketView {
                    source: SocketAddr::V4(
                        SocketAddrV4 { ip: ipv4_from(l3.subrange(12, 16)), port: sport },
                    ),
                    dest: SocketAddr::V4(
                        SocketAddrV4 { ip: ipv4_from(l3.subrange(16, 20)), port: dport },
                    ),
                    ttl: l3[8],
                    dst_mac: link.dst_mac,
                    src_mac: link.src_mac,
                    payload,
                },
            ),
            Err(e) => Err(e),
        }
    }
}

/// The packet in an IPv6 base header and a UDP datagram. Extension headers are
/// unsupported: a next header other than UDP is rejected.
pub open spec fn ipv6_parts(link: LinkParts) -> Result<PacketView, ParseError> {
    let l3 = link.l3;
    let total = 40 + be16_at(l3, 4);
    if l3.len() < 40 {
        Err(ParseError::Truncated)
    } else if l3[6] != IP_PROTO_UDP {
        Err(ParseError::NotUdp(l3[6]))
    } else if total > l3.len() {
        Err(ParseError::BadLength)
    } else {
        match udp_parts(l3.subrange(40, total)) {
            Ok((sport, dport, payload)) => Ok(
                PacketView {
                    source: SocketAddr::V6(
                        SocketAddrV6 {
                            ip: ipv6_from(l3.subrange(8, 24)),
                            port: sport,
                            flowinfo: 0,
                            scope_id: 0,
                        },
                    ),
                    dest: SocketAddr::V6(
                        SocketAddrV6 {
                            ip: ipv6_from(l3.subrange(24, 40)),
                            port: dport,
                            flowinfo: 0,
                            scope_id: 0,
                        },
                    ),
                    ttl: l3[7],
                    dst_mac: link.dst_mac,
                    src_mac: link.src_mac,
                    payload,
                },
            ),
            Err(e) => Err(e),
        }
    }
}

/// The packet in `frame`. The IP version nibble, not the link layer's ethertype or
/// address family, decides the header layout.
pub open spec fn parsed(link: LinkType, frame: Seq<u8>) -> Result<PacketView, ParseError> {
    match link_parts(link, frame) {
        Err(e) => Err(e),
        Ok(parts) => if parts.l3.len() == 0 {
            Err(ParseError::Truncated)
        } else {
            let version = parts.l3[0] / 16;
            if version == 4 {
                ipv4_parts(parts)
            } else if version == 6 {
                ipv6_parts(parts)
            } else {
                Err(ParseError::BadIpVersion(version as u8))
            }
        },
    }
}

/// A frame's link header: its L2 addresses (absent on `DLT_NULL`) and the L3 bytes
/// that follow.
#[derive(Clone, Copy)]
struct LinkHeader<'a> {
    dst_mac: Option<MacAddr>,
    src_mac: Option<MacAddr>,
    l3: &'a [u8],
}

impl<'a> LinkHeader<'a> {
    spec fn parts(self) -> LinkParts {
        LinkParts { dst_mac: self.dst_mac, src_mac: self.src_mac, l3: self.l3@ }
    }
}

fn read_mac(s: &[u8], at: usize) -> (r: MacAddr)
    requires
        at + 6 <= s@.len(),
    ensures
        r == mac_from(s@.subrange(at as int, at + 6)),
{
    let n: usize = s.len();
    let r = MacAddr { octets: [s[at], s[at + 1], s[at + 2], s[at + 3], s[at + 4], s[at + 5]] };
    proof {
        assert(r@ =~= s@.subrange(at as int, at + 6));
        lemma_mac_from(r);
    }
    r
}

fn ipv4_addr(s: &[u8], at: usize) -> (r: Ipv4Addr)
    requires
        at + 4 <= s@.len(),
    ensures
        r == ipv4_from(s@.subrange(at as int, at + 4)),
{
    let n: usize = s.len();
    let r = Ipv4Addr { octets: [s[at], s[at + 1], s[at + 2], s[at + 3]] };
    proof {
        assert(r@ =~= s@.subrange(at as int, at + 4));
        lemma_ipv4_from(r);
    }
    r
}

fn ipv6_addr(s: &[u8], at: usize) -> (r: Ipv6Addr)
    requires
        at + 16 <= s@.len(),
    ensures
        r == ipv6_from(s@.subrange(at as int, at + 16)),
{
    let n: usize = s.len();
    let mut octets: [u8; 16] = [0; 16];
    for i in 0..16usize
        invariant
            n == s@.len(),
            at + 16 <= n,
            forall|j: int| 0 <= j < i ==> octets@[j] == s@[at + j],
    {
        octets[i] = s[at + i];
    }
    let r = Ipv6Addr { octets };
    proof {
        assert(r@ =~= s@.subrange(at as int, at + 16));
        lemma_ipv6_from(r);
    }
    r
}

/// Parse the `link_type` link header into its L2 addresses and the L3 bytes that
/// follow.
fn parse_link_header(link_type: LinkType, frame: &[u8]) -> (r: Result<LinkHeader<'_>, ParseError>)
    ensures
        match r {
            Ok(h) => link_parts(link_type, frame@) == Ok::<LinkParts, ParseError>(h.parts()),
            Err(e) => link_parts(link_type, frame@) == Err::<LinkParts, ParseError>(e),
        },
{
    let n: usize = frame.len();
    match link_type {
        LinkType::Ethernet => {
            if n < ETHERNET_HEADER_SIZE {
                return Err(ParseError::Truncated);
            }
            let l3 = vstd::slice::slice_subrange(frame, ETHERNET_HEADER_SIZE, n);
            assert(l3@ =~= frame@.skip(14));
            Ok(
                LinkHeader {
                    dst_mac: Some(read_mac(frame, 0)),
                    src_mac: Some(read_mac(frame, 6)),
                    l3,
                },
            )
        },
        LinkType::DltNull => {
            if n < DLT_NULL_HEADER_SIZE {
                return Err(ParseError::Truncated);
            }
            let l3 = vstd::slice::slice_subrange(frame, DLT_NULL_HEADER_SIZE, n);
            assert(l3@ =~= frame@.skip(4));
            Ok(LinkHeader { dst_mac: None, src_mac: None, l3 })
        },
    }
}

/// Parse a UDP header from `l4`, returning the ports and the payload trimmed to the
/// datagram's declared length.
fn parse_udp(l4: &[u8]) -> (r: Result<(u16, u16, &[u8]), ParseError>)
    ensures
        match r {
            Ok((sport, dport, payload)) => udp_parts(l4@) == Ok::<(u16, u16, Seq<u8>), ParseError>(
                (sport, dport, payload@),
            ),
            Err(e) => udp_parts(l4@) == Err::<(u16, u16, Seq<u8>), ParseError>(e),
        },
{
    let n: usize = l4.len();
    if n < UDP_HEADER_SIZE {
        return Err(ParseError::Truncated);
    }
    let src_port: u16 = read_be16(l4, 0);
    let dst_port: u16 = read_be16(l4, 2);
    let udp_len: usize = read_be16(l4, 4) as usize;
    if udp_len < UDP_HEADER_SIZE || udp_len > n {
        return Err(ParseError::BadLength);
    }
    Ok((src_port, dst_port, vstd::slice::slice_subrange(l4, UDP_HEADER_SIZE, udp_len)))
}

/// Parse an IPv4 datagram (header, options, then UDP) from `link`'s L3 bytes,
/// carrying its L2 addresses onto the [`Packet`].
fn parse_ipv4(link: LinkHeader<'_>) -> (r: Result<Packet<'_>, ParseError>)
    ensures
        match r {
            Ok(p) => ipv4_parts(link.parts()) == Ok::<PacketView, ParseError>(p@),
            Err(e) => ipv4_parts(link.parts()) == Err::<PacketView, ParseError>(e),
        },
{
    let l3 = link.l3;
    let n: usize = l3.len();
    if n < IPV4_HEADER_SIZE {
        return Err(ParseError::Truncated);
    }
    let header_len: usize = ((l3[0] % 16) * 4) as usize;
    if header_len < IPV4_HEADER_SIZE || header_len > n {
        return Err(ParseError::BadLength);
    }
    if read_be16(l3, 6) % 0x4000 != 0 {
        return Err(ParseError::Fragmented);
    }
    if l3[9] != IP_PROTO_UDP {
        return Err(ParseError::NotUdp(l3[9]));
    }
    let total_len: usize = read_be16(l3, 2) as usize;
    if total_len < header_len || total_len > n {
        return Err(ParseError::BadLength);
    }
    let src_ip = ipv4_addr(l3, 12);
    let dst_ip = ipv4_addr(l3, 16);
    let ttl: u8 = l3[8];
    match parse_udp(vstd::slice::slice_subrange(l3, header_len, total_len)) {
        Ok((src_port, dst_port, payload)) => Ok(
            Packet {
                source: SocketAddr::V4(SocketAddrV4::new(src_ip, src_port)),
                dest: SocketAddr::V4(SocketAddrV4::new(dst_ip, dst_port)),
                ttl,
                dst_mac: link.dst_mac,
                src_mac: link.src_mac,
                payload,
            },
        ),
        Err(e) => Err(e),
    }
}

/// Parse an IPv6 datagram (fixed base header, then UDP) from `link`'s L3 bytes,
/// carrying its L2 addresses onto the [`Packet`].
fn parse_ipv6(link: LinkHeader<'_>) -> (r: Result<Packet<'_>, ParseError>)
    ensures
        match r {
            Ok(p) => ipv6_parts(link.parts()) == Ok::<PacketView, ParseError>(p@),
            Err(e) => ipv6_parts(link.parts()) == Err::<PacketView, ParseError>(e),
        },
{
    let l3 = link.l3;
    let n: usize = l3.len();
    if n < IPV6_HEADER_SIZE {
        return Err(ParseError::Truncated);
    }
    if l3[6] != IP_PROTO_UDP {
        return Err(ParseError::NotUdp(l3[6]));
    }
    let total_len: usize = IPV6_HEADER_SIZE + read_be16(l3, 4) as usize;
    if total_len > n {
        return Err(ParseError::BadLength);
    }
    let src_ip = ipv6_addr(l3, 8);
    let dst_ip = ipv6_addr(l3, 24);
    let hop_limit: u8 = l3[7];
    match parse_udp(vstd::slice::slice_subrange(l3, IPV6_HEADER_SIZE, total_len)) {
        Ok((src_port, dst_port, payload)) => Ok(
            Packet {
                source: SocketAddr::V6(SocketAddrV6::new(src_ip, src_port, 0, 0)),
                dest: SocketAddr::V6(SocketAddrV6::new(dst_ip, dst_port, 0, 0)),
                ttl: hop_limit,
                dst_mac: link.dst_mac,
                src_mac: link.src_mac,
                payload,
            },
        ),
        Err(e) => Err(e),
    }
}

impl<'a> Packet<'a> {
    /// Parse one captured `frame` (framed as `link_type`) into a [`Packet`].
    ///
    /// # Errors
    /// A [`ParseError`] if the frame is truncated, not IPv4 or IPv6 UDP, an IPv4
    /// fragment, or carries an inconsistent length field.
    pub fn parse(link_type: LinkType, frame: &'a [u8]) -> (r: Result<Packet<'a>, ParseError>)
        ensures
            match r {
                Ok(p) => parsed(link_type, frame@) == Ok::<PacketView, ParseError>(p@),
                Err(e) => parsed(link_type, frame@) == Err::<PacketView, ParseError>(e),
            },
    {
        let link = match parse_link_header(link_type, frame) {
            Ok(h) => h,
            Err(e) => {
                return Err(e);
            },
        };
        if link.l3.len() == 0 {
            return Err(ParseError::Truncated);
        }
        let version: u8 = link.l3[0] / 16;
        if version == 4 {
            parse_ipv4(link)
        } else if version == 6 {
            parse_ipv6(link)
        } else {
            Err(ParseError::BadIpVersion(version))
        }
    }
}

/// What stands where in a built datagram.
proof fn lemma_datagram_fields(pseudo: Seq<u8>, src_port: u16, dst_port: u16, payload: Seq<u8>)
    requires
        payload.len() <= 65535 - 8,
    ensures
        ({
            let d = frame::datagram_bytes(pseudo, src_port, dst_port, payload);
            &&& d.len() == 8 + payload.len()
            &&& udp_parts(d) == Ok::<(u16, u16, Seq<u8>), ParseError>((src_port, dst_port, payload))
        }),
{
    let d = frame::datagram_bytes(pseudo, src_port, dst_port, payload);
    let bare = frame::bare_datagram(src_port, dst_port, payload);
    assert(bare.len() == 8 + payload.len());
    assert(d.len() == 8 + payload.len());
    assert(d[0] == (src_port as int / 256) as u8 && d[1] == (src_port as int % 256) as u8);
    assert(d[2] == (dst_port as int / 256) as u8 && d[3] == (dst_port as int % 256) as u8);
    assert(d[4] == ((8 + payload.len()) / 256) as u8 && d[5] == ((8 + payload.len()) % 256) as u8);
    assert(d.subrange(8, 8 + payload.len() as int) =~= payload);
}

/// What stands where in a built IPv4 header.
proof fn lemma_ipv4_header_fields(src: Seq<u8>, dst: Seq<u8>, ttl: u8, total: int)
    requires
        src.len() == 4,
        dst.len() == 4,
        0 <= total <= 65535,
    ensures
        ({
            let h = frame::ipv4_header_bytes(src, dst, ttl, total);
            &&& h.len() == 20
            &&& h[0] == 0x45
            &&& be16_at(h, 2) == total
            &&& be16_at(h, 6) == 0x4000
            &&& h[8] == ttl
            &&& h[9] == IP_PROTO_UDP
            &&& h.subrange(12, 16) == src
            &&& h.subrange(16, 20) == dst
        }),
{
    let h = frame::ipv4_header_bytes(src, dst, ttl, total);
    let bare = frame::bare_ipv4_header(src, dst, ttl, total);
    assert(bare.len() == 20);
    assert(h.subrange(12, 16) =~= src);
    assert(h.subrange(16, 20) =~= dst);
    assert(h[2] == (total / 256) as u8 && h[3] == (total % 256) as u8);
}

/// An IPv4 packet, with anything behind it, parses to what it was built of.
proof fn lemma_ipv4_round_trips(
    dst_mac: Option<MacAddr>,
    src_mac: Option<MacAddr>,
    src: SocketAddrV4,
    dst: SocketAddrV4,
    ttl: u8,
    payload: Seq<u8>,
    padding: Seq<u8>,
)
    requires
        payload.len() <= frame::max_v4_payload(),
    ensures
        ipv4_parts(
            LinkParts {
                dst_mac,
                src_mac,
                l3: frame::ipv4_udp_bytes(src, dst, ttl, payload) + padding,
            },
        ) == Ok::<PacketView, ParseError>(
            PacketView {
                source: SocketAddr::V4(src),
                dest: SocketAddr::V4(dst),
                ttl,
                dst_mac,
                src_mac,
                payload,
            },
        ),
        (frame::ipv4_udp_bytes(src, dst, ttl, payload) + padding).len() > 0,
        (frame::ipv4_udp_bytes(src, dst, ttl, payload) + padding)[0] == 0x45,
{
    let total = 28 + payload.len() as int;
    let h = frame::ipv4_header_bytes(src.ip@, dst.ip@, ttl, total);
    let pseudo = crate::net::checksum::pseudo_v4(src.ip@, dst.ip@, 8 + payload.len() as int);
    let d = frame::datagram_bytes(pseudo, src.port, dst.port, payload);
    let l3 = frame::ipv4_udp_bytes(src, dst, ttl, payload) + padding;
    lemma_ipv4_header_fields(src.ip@, dst.ip@, ttl, total);
    lemma_datagram_fields(pseudo, src.port, dst.port, payload);
    assert(l3 =~= h + d + padding);
    assert(forall|i: int| 0 <= i < 20 ==> l3[i] == h[i]);
    assert(be16_at(l3, 2) == be16_at(h, 2) && be16_at(l3, 6) == be16_at(h, 6));
    assert(l3.subrange(20, total) =~= d);
    assert(l3.subrange(12, 16) =~= h.subrange(12, 16));
    assert(l3.subrange(16, 20) =~= h.subrange(16, 20));
    lemma_ipv4_from(src.ip);
    lemma_ipv4_from(dst.ip);
}

/// An IPv6 packet, with anything behind it, parses to what it was built of.
proof fn lemma_ipv6_round_trips(
    dst_mac: Option<MacAddr>,
    src_mac: Option<MacAddr>,
    src: SocketAddrV6,
    dst: SocketAddrV6,
    hop_limit: u8,
    payload: Seq<u8>,
    padding: Seq<u8>,
)
    requires
        payload.len() <= frame::max_v6_payload(),
    ensures
        ipv6_parts(
            LinkParts {
                dst_mac,
                src_mac,
                l3: frame::ipv6_udp_bytes(src, dst, hop_limit, payload) + padding,
            },
        ) == Ok::<PacketView, ParseError>(
            PacketView {
                source: SocketAddr::V6(unscoped(src)),
                dest: SocketAddr::V6(unscoped(dst)),
                ttl: hop_limit,
                dst_mac,
                src_mac,
                payload,
            },
        ),
        (frame::ipv6_udp_bytes(src, dst, hop_limit, payload) + padding).len() > 0,
        (frame::ipv6_udp_bytes(src, dst, hop_limit, payload) + padding)[0] == 0x60,
{
    let length = 8 + payload.len() as int;
    let h = frame::ipv6_header_bytes(src.ip@, dst.ip@, hop_limit, length);
    let pseudo = crate::net::checksum::pseudo_v6(src.ip@, dst.ip@, length);
    let d = frame::datagram_bytes(pseudo, src.port, dst.port, payload);
    let l3 = frame::ipv6_udp_bytes(src, dst, hop_limit, payload) + padding;
    lemma_datagram_fields(pseudo, src.port, dst.port, payload);
    assert(h.len() == 40);
    assert(l3 =~= h + d + padding);
    assert(forall|i: int| 0 <= i < 40 ==> l3[i] == h[i]);
    assert(h[4] == (length / 256) as u8 && h[5] == (length % 256) as u8);
    assert(l3.subrange(40, 40 + length) =~= d);
    assert(l3.subrange(8, 24) =~= src.ip@);
    assert(l3.subrange(24, 40) =~= dst.ip@);
    lemma_ipv6_from(src.ip);
    lemma_ipv6_from(dst.ip);
}

/// `a` without flow information and scope, which a packet does not carry.
pub open spec fn unscoped(a: SocketAddrV6) -> SocketAddrV6 {
    SocketAddrV6 { ip: a.ip, port: a.port, flowinfo: 0, scope_id: 0 }
}

proof fn lemma_ethernet_parts(dst: MacAddr, src: MacAddr, ethertype: u16, l3: Seq<u8>)
    ensures
        link_parts(LinkType::Ethernet, frame::ethernet_header(dst, src, ethertype) + l3) == Ok::<
            LinkParts,
            ParseError,
        >(LinkParts { dst_mac: Some(dst), src_mac: Some(src), l3 }),
{
    let f = frame::ethernet_header(dst, src, ethertype) + l3;
    assert(f.subrange(0, 6) =~= dst@);
    assert(f.subrange(6, 12) =~= src@);
    assert(f.skip(14) =~= l3);
    lemma_mac_from(dst);
    lemma_mac_from(src);
}

/// A frame of a link header, an IPv4 or IPv6 packet and padding parses as the packet
/// and padding do.
proof fn lemma_parsed_from(
    link: LinkType,
    header: Seq<u8>,
    body: Seq<u8>,
    padding: Seq<u8>,
    parts: LinkParts,
)
    requires
        parts.l3 == body + padding,
        link_parts(link, header + (body + padding)) == Ok::<LinkParts, ParseError>(parts),
        parts.l3.len() > 0,
        parts.l3[0] == 0x45 || parts.l3[0] == 0x60,
    ensures
        parsed(link, header + body + padding) == if parts.l3[0] == 0x45 {
            ipv4_parts(parts)
        } else {
            ipv6_parts(parts)
        },
{
    assert(header + body + padding =~= header + (body + padding));
}

proof fn lemma_dlt_null_parts(header: Seq<u8>, l3: Seq<u8>)
    requires
        header.len() == 4,
    ensures
        link_parts(LinkType::DltNull, header + l3) == Ok::<LinkParts, ParseError>(
            LinkParts { dst_mac: None, src_mac: None, l3 },
        ),
{
    assert((header + l3).skip(4) =~= l3);
}

/// What the Ethernet IPv4 frame builder writes, the parser reads back, whatever
/// link padding follows the frame.
pub proof fn law_ethernet_ipv4_round_trips(
    dst_mac: MacAddr,
    src_mac: MacAddr,
    src: SocketAddrV4,
    dst: SocketAddrV4,
    ttl: u8,
    payload: Seq<u8>,
    padding: Seq<u8>,
)
    requires
        payload.len() <= frame::max_v4_payload(),
    ensures
        parsed(
            LinkType::Ethernet,
            frame::ethernet_header(dst_mac, src_mac, frame::IPV4_ETHERTYPE)
                + frame::ipv4_udp_bytes(src, dst, ttl, payload) + padding,
        ) == Ok::<PacketView, ParseError>(
            PacketView {
                source: SocketAddr::V4(src),
                dest: SocketAddr::V4(dst),
                ttl,
                dst_mac: Some(dst_mac),
                src_mac: Some(src_mac),
                payload,
            },
        ),
{
    let body = frame::ipv4_udp_bytes(src, dst, ttl, payload);
    let header = frame::ethernet_header(dst_mac, src_mac, frame::IPV4_ETHERTYPE);
    let l3 = body + padding;
    let parts = LinkParts { dst_mac: Some(dst_mac), src_mac: Some(src_mac), l3 };
    lemma_ethernet_parts(dst_mac, src_mac, frame::IPV4_ETHERTYPE, l3);
    lemma_ipv4_round_trips(Some(dst_mac), Some(src_mac), src, dst, ttl, payload, padding);
    lemma_parsed_from(LinkType::Ethernet, header, body, padding, parts);
}

/// What the Ethernet IPv6 frame builder writes, the parser reads back, whatever
/// link padding follows the frame.
pub proof fn law_ethernet_ipv6_round_trips(
    dst_mac: MacAddr,
    src_mac: MacAddr,
    src: SocketAddrV6,
    dst: SocketAddrV6,
    hop_limit: u8,
    payload: Seq<u8>,
    padding: Seq<u8>,
)
    requires
        payload.len() <= frame::max_v6_payload(),
    ensures
        parsed(
            LinkType::Ethernet,
            frame::ethernet_header(dst_mac, src_mac, frame::IPV6_ETHERTYPE)
                + frame::ipv6_udp_bytes(src, dst, hop_limit, payload) + padding,
        ) == Ok::<PacketView, ParseError>(
            PacketView {
                source: SocketAddr::V6(unscoped(src)),
                dest: SocketAddr::V6(unscoped(dst)),
                ttl: hop_limit,
                dst_mac: Some(dst_mac),
                src_mac: Some(src_mac),
                payload,
            },
        ),
{
    let body = frame::ipv6_udp_bytes(src, dst, hop_limit, payload);
    let header = frame::ethernet_header(dst_mac, src_mac, frame::IPV6_ETHERTYPE);
    let l3 = body + padding;
    let parts = LinkParts { dst_mac: Some(dst_mac), src_mac: Some(src_mac), l3 };
    lemma_ethernet_parts(dst_mac, src_mac, frame::IPV6_ETHERTYPE, l3);
    lemma_ipv6_round_trips(Some(dst_mac), Some(src_mac), src, dst, hop_limit, payload, padding);
    lemma_parsed_from(LinkType::Ethernet, header, body, padding, parts);
}

proof fn lemma_host32_len(order: crate::net::ByteOrder, n: u32)
    ensures
        host32(order, n).len() == 4,
{
}

proof fn lemma_dlt_null_ipv4(
    header: Seq<u8>,
    src: SocketAddrV4,
    dst: SocketAddrV4,
    ttl: u8,
    payload: Seq<u8>,
    padding: Seq<u8>,
)
    requires
        header.len() == 4,
        payload.len() <= frame::max_v4_payload(),
    ensures
        parsed(
            LinkType::DltNull,
            header + frame::ipv4_udp_bytes(src, dst, ttl, payload) + padding,
        ) == Ok::<PacketView, ParseError>(
            PacketView {
                source: SocketAddr::V4(src),
                dest: SocketAddr::V4(dst),
                ttl,
                dst_mac: None,
                src_mac: None,
                payload,
            },
        ),
{
    let body = frame::ipv4_udp_bytes(src, dst, ttl, payload);
    let l3 = body + padding;
    let parts = LinkParts { dst_mac: None, src_mac: None, l3 };
    lemma_dlt_null_parts(header, l3);
    lemma_ipv4_round_trips(None, None, src, dst, ttl, payload, padding);
    lemma_parsed_from(LinkType::DltNull, header, body, padding, parts);
}

proof fn lemma_dlt_null_ipv6(
    header: Seq<u8>,
    src: SocketAddrV6,
    dst: SocketAddrV6,
    hop_limit: u8,
    payload: Seq<u8>,
    padding: Seq<u8>,
)
    requires
        header.len() == 4,
        payload.len() <= frame::max_v6_payload(),
    ensures
        parsed(
            LinkType::DltNull,
            header + frame::ipv6_udp_bytes(src, dst, hop_limit, payload) + padding,
        ) == Ok::<PacketView, ParseError>(
            PacketView {
                source: SocketAddr::V6(unscoped(src)),
                dest: SocketAddr::V6(unscoped(dst)),
                ttl: hop_limit,
                dst_mac: None,
                src_mac: None,
                payload,
            },
        ),
{
    let body = frame::ipv6_udp_bytes(src, dst, hop_limit, payload);
    let l3 = body + padding;
    let parts = LinkParts { dst_mac: None, src_mac: None, l3 };
    lemma_dlt_null_parts(header, l3);
    lemma_ipv6_round_trips(None, None, src, dst, hop_limit, payload, padding);
    lemma_parsed_from(LinkType::DltNull, header, body, padding, parts);
}

/// What the `DLT_NULL` IPv4 frame builder writes, the parser reads back, with no L2
/// addresses, whatever link padding follows the frame.
pub proof fn law_dlt_null_ipv4_round_trips(
    host: HostFamilies,
    src: SocketAddrV4,
    dst: SocketAddrV4,
    ttl: u8,
    payload: Seq<u8>,
    padding: Seq<u8>,
)
    requires
        payload.len() <= frame::max_v4_payload(),
    ensures
        parsed(
            LinkType::DltNull,
            host32(host.order, host.inet) + frame::ipv4_udp_bytes(src, dst, ttl, payload) + padding,
        ) == Ok::<PacketView, ParseError>(
            PacketView {
                source: SocketAddr::V4(src),
                dest: SocketAddr::V4(dst),
                ttl,
                dst_mac: None,
                src_mac: None,
                payload,
            },
        ),
{
    let header = host32(host.order, host.inet);
    lemma_host32_len(host.order, host.inet);
    lemma_dlt_null_ipv4(header, src, dst, ttl, payload, padding);
}

/// What the `DLT_NULL` IPv6 frame builder writes, the parser reads back, with no L2
/// addresses, whatever link padding follows the frame.
pub proof fn law_dlt_null_ipv6_round_trips(
    host: HostFamilies,
    src: SocketAddrV6,
    dst: SocketAddrV6,
    hop_limit: u8,
    payload: Seq<u8>,
    padding: Seq<u8>,
)
    requires
        payload.len() <= frame::max_v6_payload(),
    ensures
        parsed(
            LinkType::DltNull,
            host32(host.order, host.inet6) + frame::ipv6_udp_bytes(src, dst, hop_limit, payload)
                + padding,
        ) == Ok::<PacketView, ParseError>(
            PacketView {
                source: SocketAddr::V6(unscoped(src)),
                dest: SocketAddr::V6(unscoped(dst)),
                ttl: hop_limit,
                dst_mac: None,
                src_mac: None,
                payload,
            },
        ),
{
    let header = host32(host.order, host.inet6);
    lemma_host32_len(host.order, host.inet6);
    lemma_dlt_null_ipv6(header, src, dst, hop_limit, payload, padding);
}

} // verus!
