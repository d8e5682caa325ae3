//! Laws of packets: where each field stands in the packets that are built, and which frames are
//! read as packets.

#[allow(unused_imports)]
use crate::laws::wire::{
    law_headers_sum_to_all_ones, law_ipv4_datagrams_verify, law_ipv6_datagrams_verify, weighed,
};
#[allow(unused_imports)]
use crate::net::addr::{IpAddr, Ipv4Addr, Ipv6Addr, SocketAddr, SocketAddrV4, SocketAddrV6};
#[allow(unused_imports)]
use crate::net::checksum::{
    checksum_of, header_words, law_datagram_field_ignored, law_header_field_ignored, pseudo_v4,
    pseudo_v6, udp_checksum_of,
};
#[allow(unused_imports)]
use crate::net::frame::{
    bare_datagram, bare_ipv4_header, datagram_bytes, ethernet_header, frame_error, ipv4_header_bytes,
    ipv4_udp_bytes, ipv6_header_bytes, ipv6_udp_bytes, max_v4_payload, max_v6_payload, packet_error,
    patched, FrameError,
};
#[allow(unused_imports)]
use crate::net::mac::{multicast_mac, MacAddr};
#[allow(unused_imports)]
use crate::net::packet::{
    ipv4_parts, ipv6_parts, link_parts, parsed, udp_parts, LinkParts, PacketView, ParseError,
};
#[allow(unused_imports)]
use crate::net::{be16, LinkType};
#[allow(unused_imports)]
use vstd::std_specs::cmp::PartialEqSpec;
use vstd::prelude::*;

verus! {

/// The number that two bytes write, the high byte first.
pub open spec fn two_bytes(s: Seq<u8>, i: int) -> int {
    256 * s[i] + s[i + 1]
}

proof fn lemma_datagram_layout(
    pseudo: Seq<u8>,
    src_port: u16,
    dst_port: u16,
    payload: Seq<u8>,
)
    requires
        payload.len() <= 65527,
    ensures
        ({
            let d = datagram_bytes(pseudo, src_port, dst_port, payload);
            &&& d.len() == 8 + payload.len()
            &&& two_bytes(d, 0) == src_port
            &&& two_bytes(d, 2) == dst_port
            &&& two_bytes(d, 4) == 8 + payload.len()
            &&& d.skip(8) == payload
            &&& two_bytes(d, 6) == udp_checksum_of(pseudo, d)
        }),
{
    let bare = bare_datagram(src_port, dst_port, payload);
    let d = datagram_bytes(pseudo, src_port, dst_port, payload);
    let c = udp_checksum_of(pseudo, bare) as int;
    assert(bare.len() == 8 + payload.len());
    assert(d.len() == bare.len());
    assert forall|i: int| 0 <= i < d.len() && i != 6 && i != 7 implies d[i] == bare[i] by {
        if i > 7 {
            assert(d[i] == bare.skip(8)[i - 8]);
        }
    }
    assert(d[6] == be16(c)[0] && d[7] == be16(c)[1]);
    law_datagram_field_ignored(pseudo, d, bare);
    assert(d.skip(8) =~= payload);
}

/// The layout of an IPv4 packet that carries a datagram: version 4 and five words, the whole
/// length, no identification, not to be fragmented, the time to live, the number of UDP, a checksum
/// under which the header sums to all ones, the two addresses; then the two ports, the datagram's
/// length, a checksum under which it verifies, and the payload.
#[verifier::spinoff_prover]
pub proof fn law_ipv4_packets(src: SocketAddrV4, dst: SocketAddrV4, ttl: u8, payload: Seq<u8>)
    requires
        payload.len() <= 65507,
    ensures
        ({
            let p = ipv4_udp_bytes(src, dst, ttl, payload);
            let udp = p.skip(20);
            &&& p.len() == 28 + payload.len()
            &&& p[0] == 69
            &&& p[1] == 0
            &&& two_bytes(p, 2) == p.len()
            &&& two_bytes(p, 4) == 0
            &&& p[6] == 64
            &&& p[7] == 0
            &&& p[8] == ttl
            &&& p[9] == 17
            &&& weighed(p.take(20)) % 65535 == 0
            &&& p.subrange(12, 16) == src.ip@
            &&& p.subrange(16, 20) == dst.ip@
            &&& two_bytes(p, 20) == src.port
            &&& two_bytes(p, 22) == dst.port
            &&& two_bytes(p, 24) == 8 + payload.len()
            &&& (weighed(src.ip@) + weighed(dst.ip@) + 17 + two_bytes(p, 24) + weighed(udp)) % 65535
                == 0
            &&& two_bytes(p, 26) > 0
            &&& p.skip(28) == payload
        }),
{
    let p = ipv4_udp_bytes(src, dst, ttl, payload);
    let n = 8 + payload.len() as int;
    let pseudo = pseudo_v4(src.ip@, dst.ip@, n);
    let header = ipv4_header_bytes(src.ip@, dst.ip@, ttl, 20 + n);
    let d = datagram_bytes(pseudo, src.port, dst.port, payload);
    lemma_datagram_layout(pseudo, src.port, dst.port, payload);
    lemma_ipv4_header_layout(src.ip@, dst.ip@, ttl, 20 + n);
    assert(p == header + d);
    assert(p.take(20) =~= header);
    assert(p.skip(20) =~= d);
    assert(p.subrange(12, 16) =~= header.subrange(12, 16));
    assert(p.subrange(16, 20) =~= header.subrange(16, 20));
    assert(p.skip(28) =~= d.skip(8));
    law_ipv4_datagrams_verify(src.ip@, dst.ip@, d);
}

proof fn lemma_ipv4_header_layout(src: Seq<u8>, dst: Seq<u8>, ttl: u8, total: int)
    requires
        src.len() == 4,
        dst.len() == 4,
        0 <= total <= 65535,
    ensures
        ({
            let h = ipv4_header_bytes(src, dst, ttl, total);
            &&& h.len() == 20
            &&& h[0] == 69
            &&& h[1] == 0
            &&& two_bytes(h, 2) == total
            &&& two_bytes(h, 4) == 0
            &&& h[6] == 64
            &&& h[7] == 0
            &&& h[8] == ttl
            &&& h[9] == 17
            &&& weighed(h) % 65535 == 0
            &&& h.subrange(12, 16) == src
            &&& h.subrange(16, 20) == dst
        }),
{
    let bare = bare_ipv4_header(src, dst, ttl, total);
    let h = ipv4_header_bytes(src, dst, ttl, total);
    let c = checksum_of(header_words(bare)) as int;
    assert(bare.len() == 20);
    assert(h.len() == 20);
    assert forall|i: int| 0 <= i < 20 && i != 10 && i != 11 implies h[i] == bare[i] by {
        if i > 11 {
            assert(h[i] == bare.skip(12)[i - 12]);
        }
    }
    assert(h[10] == be16(c)[0] && h[11] == be16(c)[1]);
    law_header_field_ignored(h, bare);
    law_headers_sum_to_all_ones(h);
    assert(h.subrange(12, 16) =~= src);
    assert(h.subrange(16, 20) =~= dst);
}

/// The layout of an IPv6 packet that carries a datagram: version 6 and nothing else in the first
/// four bytes, the datagram's length, the number of UDP, the hop limit, the two addresses; then the
/// two ports, the length, a checksum under which the datagram verifies, and the payload.
#[verifier::spinoff_prover]
pub proof fn law_ipv6_packets(
    src: SocketAddrV6,
    dst: SocketAddrV6,
    hop_limit: u8,
    payload: Seq<u8>,
)
    requires
        payload.len() <= 65527,
    ensures
        ({
            let p = ipv6_udp_bytes(src, dst, hop_limit, payload);
            let udp = p.skip(40);
            &&& p.len() == 48 + payload.len()
            &&& p[0] == 96
            &&& p[1] == 0
            &&& p[2] == 0
            &&& p[3] == 0
            &&& two_bytes(p, 4) == 8 + payload.len()
            &&& p[6] == 17
            &&& p[7] == hop_limit
            &&& p.subrange(8, 24) == src.ip@
            &&& p.subrange(24, 40) == dst.ip@
            &&& two_bytes(p, 40) == src.port
            &&& two_bytes(p, 42) == dst.port
            &&& two_bytes(p, 44) == 8 + payload.len()
            &&& (weighed(src.ip@) + weighed(dst.ip@) + 17 + two_bytes(p, 44) + weighed(udp)) % 65535
                == 0
            &&& two_bytes(p, 46) > 0
            &&& p.skip(48) == payload
        }),
{
    let p = ipv6_udp_bytes(src, dst, hop_limit, payload);
    let n = 8 + payload.len() as int;
    let pseudo = pseudo_v6(src.ip@, dst.ip@, n);
    let header = ipv6_header_bytes(src.ip@, dst.ip@, hop_limit, n);
    let d = datagram_bytes(pseudo, src.port, dst.port, payload);
    lemma_datagram_layout(pseudo, src.port, dst.port, payload);
    assert(header.len() == 40);
    assert(p == header + d);
    assert(p.skip(40) =~= d);
    assert(p.subrange(8, 24) =~= src.ip@);
    assert(p.subrange(24, 40) =~= dst.ip@);
    assert(p.skip(48) =~= d.skip(8));
    law_ipv6_datagrams_verify(src.ip@, dst.ip@, d);
}

/// An Ethernet header is the destination's six octets, the source's six, and the type in two bytes;
/// IPv4 is type 0x0800 and IPv6 0x86dd.
pub proof fn law_ethernet_headers(dst: MacAddr, src: MacAddr, ethertype: u16)
    ensures
        ({
            let h = ethernet_header(dst, src, ethertype);
            &&& h.len() == 14
            &&& h.take(6) == dst@
            &&& h.subrange(6, 12) == src@
            &&& two_bytes(h, 12) == ethertype
        }),
        crate::net::frame::IPV4_ETHERTYPE == 0x0800,
        crate::net::frame::IPV6_ETHERTYPE == 0x86dd,
{
    let h = ethernet_header(dst, src, ethertype);
    assert(h.take(6) =~= dst@);
    assert(h.subrange(6, 12) =~= src@);
}

/// A packet is written exactly where its payload fits into 16-bit lengths and the whole into the
/// room that there is; otherwise the error says which, and how much was needed.
pub proof fn law_packets_are_written_where_they_fit(
    l2: int,
    header: int,
    max: int,
    payload: int,
    available: int,
)
    requires
        0 <= l2 <= 14,
        0 <= header <= 40,
        0 <= payload,
        0 <= max <= 65527,
        payload <= usize::MAX - 62,
        0 <= available <= usize::MAX,
    ensures
        max_v4_payload() == 65507,
        max_v6_payload() == 65527,
        packet_error(header, max, payload, available) is None <==> payload <= max && header + 8
            + payload <= available,
        packet_error(header, max, payload, available) matches Some(
            FrameError::PayloadTooLarge { payload: p },
        ) ==> p == payload && payload > max,
        packet_error(header, max, payload, available) matches Some(
            FrameError::BufferTooSmall { needed, available: a },
        ) ==> needed == header + 8 + payload && a == available && a < needed,
        frame_error(l2, header, max, payload, available) is None <==> payload <= max && l2 + header
            + 8 + payload <= available,
        frame_error(l2, header, max, payload, available) matches Some(
            FrameError::PayloadTooLarge { payload: p },
        ) ==> p == payload && payload > max,
        frame_error(l2, header, max, payload, available) matches Some(
            FrameError::BufferTooSmall { needed, available: a },
        ) ==> (needed == l2 || needed == l2 + header + 8 + payload) && a == available && a < needed,
{
}

/// How long a link's header is.
pub open spec fn link_header(link: LinkType) -> int {
    match link {
        LinkType::Ethernet => 14,
        LinkType::DltNull => 4,
    }
}

/// The number of bytes that an IPv4 header claims for itself.
pub open spec fn ipv4_header_len(l3: Seq<u8>) -> int {
    l3[0] % 16 * 4
}

/// Whether the bytes behind a link header are an IPv4 packet with a whole datagram in it.
pub open spec fn is_ipv4_udp(l3: Seq<u8>) -> bool {
    let h = ipv4_header_len(l3);
    let total = two_bytes(l3, 2);
    &&& 20 <= l3.len()
    &&& l3[0] / 16 == 4
    &&& 20 <= h
    &&& two_bytes(l3, 6) % 0x4000 == 0
    &&& l3[9] == 17
    &&& h + 8 <= total <= l3.len()
    &&& 8 <= two_bytes(l3, h + 4) <= total - h
}

/// Whether the bytes behind a link header are an IPv6 packet with a whole datagram in it.
pub open spec fn is_ipv6_udp(l3: Seq<u8>) -> bool {
    let total = 40 + two_bytes(l3, 4);
    &&& 48 <= total <= l3.len()
    &&& l3[0] / 16 == 6
    &&& l3[6] == 17
    &&& 8 <= two_bytes(l3, 44) <= total - 40
}

/// A frame is read as a packet exactly where behind its link header stands an IPv4 or IPv6 packet
/// that is no fragment and carries one whole datagram.
#[verifier::spinoff_prover]
pub proof fn law_frames_are_read(link: LinkType, frame: Seq<u8>)
    ensures
        ({
            let l3 = frame.skip(link_header(link));
            parsed(link, frame) is Ok <==> frame.len() > link_header(link) && (is_ipv4_udp(l3)
                || is_ipv6_udp(l3))
        }),
{
    let at = link_header(link);
    if frame.len() > at {
        let l3 = frame.skip(at);
        let parts = link_parts(link, frame)->Ok_0;
        assert(parts.l3 == l3);
        if l3[0] / 16 == 4 {
            lemma_ipv4_read(parts);
        }
        if l3[0] / 16 == 6 {
            lemma_ipv6_read(parts);
        }
    }
}

#[verifier::spinoff_prover]
proof fn lemma_ipv4_read(parts: LinkParts)
    requires
        parts.l3.len() > 0,
        parts.l3[0] / 16 == 4,
    ensures
        ipv4_parts(parts) is Ok <==> is_ipv4_udp(parts.l3),
        ipv4_parts(parts) matches Ok(p) ==> {
            let l3 = parts.l3;
            let h = ipv4_header_len(l3);
            &&& p.source matches SocketAddr::V4(s) && s.ip@ == l3.subrange(12, 16) && s.port
                == two_bytes(l3, h)
            &&& p.dest matches SocketAddr::V4(d) && d.ip@ == l3.subrange(16, 20) && d.port
                == two_bytes(l3, h + 2)
            &&& p.ttl == l3[8]
            &&& p.payload == l3.subrange(h + 8, h + two_bytes(l3, h + 4))
            &&& p.dst_mac == parts.dst_mac
            &&& p.src_mac == parts.src_mac
        },
{
    let l3 = parts.l3;
    let h = ipv4_header_len(l3);
    let total = two_bytes(l3, 2);
    if 20 <= l3.len() && 20 <= h && h <= total <= l3.len() {
        let l4 = l3.subrange(h, total);
        if l4.len() >= 8 {
            assert(l4[0] == l3[h] && l4[1] == l3[h + 1] && l4[2] == l3[h + 2] && l4[3] == l3[h + 3]
                && l4[4] == l3[h + 4] && l4[5] == l3[h + 5]);
            let n = two_bytes(l3, h + 4);
            if 8 <= n <= l4.len() {
                assert(l4.subrange(8, n) =~= l3.subrange(h + 8, h + n));
            }
        }
    }
    if let Ok(p) = ipv4_parts(parts) {
        let a = l3.subrange(12, 16);
        let b = l3.subrange(16, 20);
        assert(crate::net::addr::ipv4_from(a)@ =~= a);
        assert(crate::net::addr::ipv4_from(b)@ =~= b);
    }
}

#[verifier::spinoff_prover]
proof fn lemma_ipv6_read(parts: LinkParts)
    requires
        parts.l3.len() > 0,
        parts.l3[0] / 16 == 6,
    ensures
        ipv6_parts(parts) is Ok <==> is_ipv6_udp(parts.l3),
        ipv6_parts(parts) matches Ok(p) ==> {
            let l3 = parts.l3;
            &&& p.source matches SocketAddr::V6(s) && s.ip@ == l3.subrange(8, 24) && s.port
                == two_bytes(l3, 40)
            &&& p.dest matches SocketAddr::V6(d) && d.ip@ == l3.subrange(24, 40) && d.port
                == two_bytes(l3, 42)
            &&& p.ttl == l3[7]
            &&& p.payload == l3.subrange(48, 40 + two_bytes(l3, 44))
            &&& p.dst_mac == parts.dst_mac
            &&& p.src_mac == parts.src_mac
        },
{
    let l3 = parts.l3;
    let total = 40 + two_bytes(l3, 4);
    if 40 <= l3.len() && total <= l3.len() {
        let l4 = l3.subrange(40, total);
        if l4.len() >= 8 {
            assert(l4[0] == l3[40] && l4[1] == l3[41] && l4[2] == l3[42] && l4[3] == l3[43] && l4[4]
                == l3[44] && l4[5] == l3[45]);
            let n = two_bytes(l3, 44);
            if 8 <= n <= l4.len() {
                assert(l4.subrange(8, n) =~= l3.subrange(48, 40 + n));
            }
        }
    }
    if let Ok(p) = ipv6_parts(parts) {
        let a = l3.subrange(8, 24);
        let b = l3.subrange(24, 40);
        assert(crate::net::addr::ipv6_from(a)@ =~= a);
        assert(crate::net::addr::ipv6_from(b)@ =~= b);
    }
}

/// What a packet that was read holds: the addresses, ports, time to live and payload that stand in
/// the frame, and the link's two addresses, the destination's first, where the link has any.
#[verifier::spinoff_prover]
pub proof fn law_packets_hold_what_the_frame_says(link: LinkType, frame: Seq<u8>)
    requires
        parsed(link, frame) is Ok,
    ensures
        ({
            let p = parsed(link, frame)->Ok_0;
            let l3 = frame.skip(link_header(link));
            let h = ipv4_header_len(l3);
            &&& link is Ethernet ==> p.dst_mac is Some && p.dst_mac->0@ == frame.take(6)
                && p.src_mac is Some && p.src_mac->0@ == frame.subrange(6, 12)
            &&& link is DltNull ==> p.dst_mac is None && p.src_mac is None
            &&& l3[0] / 16 == 4 ==> {
                &&& p.source matches SocketAddr::V4(s) && s.ip@ == l3.subrange(12, 16) && s.port
                    == two_bytes(l3, h)
                &&& p.dest matches SocketAddr::V4(d) && d.ip@ == l3.subrange(16, 20) && d.port
                    == two_bytes(l3, h + 2)
                &&& p.ttl == l3[8]
                &&& p.payload == l3.subrange(h + 8, h + two_bytes(l3, h + 4))
            }
            &&& l3[0] / 16 == 6 ==> {
                &&& p.source matches SocketAddr::V6(s) && s.ip@ == l3.subrange(8, 24) && s.port
                    == two_bytes(l3, 40)
                &&& p.dest matches SocketAddr::V6(d) && d.ip@ == l3.subrange(24, 40) && d.port
                    == two_bytes(l3, 42)
                &&& p.ttl == l3[7]
                &&& p.payload == l3.subrange(48, 40 + two_bytes(l3, 44))
            }
        }),
{
    let parts = link_parts(link, frame)->Ok_0;
    let l3 = frame.skip(link_header(link));
    assert(parts.l3 == l3);
    if l3[0] / 16 == 4 {
        lemma_ipv4_read(parts);
    } else {
        lemma_ipv6_read(parts);
    }
    if link is Ethernet {
        let a = frame.subrange(0, 6);
        let b = frame.subrange(6, 12);
        assert(a =~= frame.take(6));
        assert(crate::net::mac::mac_from(a)@ =~= a);
        assert(crate::net::mac::mac_from(b)@ =~= b);
    }
}

/// Why a frame is not read: each error comes only where its reason holds.
#[verifier::spinoff_prover]
pub proof fn law_frames_are_refused_for_a_reason(link: LinkType, frame: Seq<u8>)
    ensures
        ({
            let l3 = frame.skip(link_header(link));
            let short = frame.len() <= link_header(link);
            match parsed(link, frame) {
                Ok(_) => true,
                Err(ParseError::Truncated) => short || (l3[0] / 16 == 4 && (l3.len() < 20
                    || two_bytes(l3, 2) - ipv4_header_len(l3) < 8)) || (l3[0] / 16 == 6 && (
                l3.len() < 40 || two_bytes(l3, 4) < 8)),
                Err(ParseError::BadIpVersion(v)) => !short && v == l3[0] / 16 && v != 4 && v != 6,
                Err(ParseError::Fragmented) => !short && l3[0] / 16 == 4 && two_bytes(l3, 6)
                    % 0x4000 != 0,
                Err(ParseError::NotUdp(n)) => !short && n != 17 && (l3[0] / 16 == 4 && n == l3[9]
                    || l3[0] / 16 == 6 && n == l3[6]),
                Err(ParseError::BadLength) => !short && (l3[0] / 16 == 4 || l3[0] / 16 == 6),
            }
        }),
{
    if frame.len() > link_header(link) {
        let l3 = frame.skip(link_header(link));
        let parts = link_parts(link, frame)->Ok_0;
        assert(parts.l3 == l3);
    }
}

/// The number that bytes write, the high byte first.
pub open spec fn high_first(s: Seq<u8>) -> int
    decreases s.len(),
{
    if s.len() == 0 {
        0
    } else {
        256 * high_first(s.drop_last()) + s.last()
    }
}

/// The link address of a multicast group: of IPv4, `01:00:5e` and the address's low 23 bits; of
/// IPv6, `33:33` and its low 32 bits.
pub proof fn law_groups_have_link_addresses(a: Ipv4Addr, b: Ipv6Addr)
    ensures
        ({
            let m = multicast_mac(IpAddr::V4(a));
            &&& m.len() == 6
            &&& m.take(3) == seq![1u8, 0, 94]
            &&& high_first(m.skip(3)) == high_first(a@) % 0x80_0000
        }),
        ({
            let m = multicast_mac(IpAddr::V6(b));
            &&& m.len() == 6
            &&& m.take(2) == seq![51u8, 51]
            &&& m.skip(2) == b@.skip(12)
        }),
{
    let m = multicast_mac(IpAddr::V4(a));
    assert(m.take(3) =~= seq![1u8, 0, 94]);
    let low = m.skip(3);
    reveal_with_fuel(high_first, 5);
    let x = a@;
    assert(low.drop_last().drop_last().drop_last().len() == 0);
    assert(x.drop_last().drop_last().drop_last().drop_last().len() == 0);
    assert(high_first(low) == 65536 * low[0] + 256 * low[1] + low[2]);
    assert(high_first(x) == 16777216 * x[0] + 65536 * x[1] + 256 * x[2] + x[3]);
    let n = multicast_mac(IpAddr::V6(b));
    assert(n.take(2) =~= seq![51u8, 51]);
    assert(n.skip(2) =~= b@.skip(12));
}

/// A segment of an IPv6 address is its two bytes, the high one first.
pub proof fn law_segments_are_two_bytes(s: u16)
    ensures
        crate::net::addr::segment_bytes(s).len() == 2,
        two_bytes(crate::net::addr::segment_bytes(s), 0) == s,
{
}

/// Two addresses are taken for equal exactly where everything in them is.
pub proof fn law_equal_addresses(a: SocketAddr, b: SocketAddr, m: MacAddr, n: MacAddr)
    ensures
        m.eq_spec(&n) <==> m@ == n@,
        match (a, b) {
            (SocketAddr::V4(x), SocketAddr::V4(y)) => {
                &&& x.ip.eq_spec(&y.ip) <==> x.ip@ == y.ip@
                &&& x.eq_spec(&y) <==> x.ip@ == y.ip@ && x.port == y.port
                &&& a.eq_spec(&b) <==> x.ip@ == y.ip@ && x.port == y.port
                &&& a.spec_ip().eq_spec(&b.spec_ip()) <==> x.ip@ == y.ip@
            },
            (SocketAddr::V6(x), SocketAddr::V6(y)) => {
                &&& x.ip.eq_spec(&y.ip) <==> x.ip@ == y.ip@
                &&& x.eq_spec(&y) <==> x.ip@ == y.ip@ && x.port == y.port && x.flowinfo
                    == y.flowinfo && x.scope_id == y.scope_id
                &&& a.eq_spec(&b) <==> x.ip@ == y.ip@ && x.port == y.port && x.flowinfo
                    == y.flowinfo && x.scope_id == y.scope_id
                &&& a.spec_ip().eq_spec(&b.spec_ip()) <==> x.ip@ == y.ip@
            },
            _ => !a.eq_spec(&b) && !a.spec_ip().eq_spec(&b.spec_ip()),
        },
{
    if m@ == n@ {
        assert(m.octets =~= n.octets);
    }
    match (a, b) {
        (SocketAddr::V4(x), SocketAddr::V4(y)) => {
            if x.ip@ == y.ip@ {
                assert(x.ip.octets =~= y.ip.octets);
            }
        },
        (SocketAddr::V6(x), SocketAddr::V6(y)) => {
            if x.ip@ == y.ip@ {
                assert(x.ip.octets =~= y.ip.octets);
            }
        },
        _ => {},
    }
}

/// The address and the port of a socket address are those it was made of.
pub proof fn law_parts_of_socket_addresses(a: SocketAddrV4, b: SocketAddrV6)
    ensures
        SocketAddr::V4(a).spec_ip() == IpAddr::V4(a.ip),
        SocketAddr::V4(a).spec_port() == a.port,
        SocketAddr::V6(b).spec_ip() == IpAddr::V6(b.ip),
        SocketAddr::V6(b).spec_port() == b.port,
{
}

} // verus!
