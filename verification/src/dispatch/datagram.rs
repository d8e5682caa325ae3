//! Assembling a UDP datagram for an egress: the L2 destination MAC, and the frame builder for the
//! egress's link type, sourced from the egress's own address.

use crate::interface::{InterfaceAddresses, Ipv6Scope};
use crate::net::addr::{IpAddr, SocketAddr, SocketAddrV4, SocketAddrV6};
use crate::net::frame;
use crate::net::frame::FrameError;
use crate::net::mac::MacAddr;
use crate::net::{HostFamilies, LinkType};
use vstd::prelude::*;

verus! {

/// Why a datagram could not be assembled for an egress.
#[derive(Debug, Clone, Copy, PartialEq, Eq, Structural)]
pub enum DatagramError {
    /// The egress has no source address for the datagram's family.
    NoSourceAddress,
    /// An Ethernet egress has no source MAC.
    NoSourceMac,
    /// The destination is unicast, and no L2 address follows from it.
    UnicastDestination,
    /// The frame builder rejected the datagram.
    Frame(FrameError),
}

impl DatagramError {
    /// The error in words.
    pub fn message(&self) -> (text: String)
        ensures
            text@ == match *self {
                DatagramError::NoSourceAddress =>
                    "egress has no source address for the datagram's family"@,
                DatagramError::NoSourceMac => "egress has no source MAC for an Ethernet frame"@,
                DatagramError::UnicastDestination =>
                    "destination is unicast; only broadcast/multicast is injected"@,
                DatagramError::Frame(e) => e.words(),
            },
    {
        match self {
            DatagramError::NoSourceAddress =>
                "egress has no source address for the datagram's family".to_owned(),
            DatagramError::NoSourceMac => "egress has no source MAC for an Ethernet frame".to_owned(),
            DatagramError::UnicastDestination =>
                "destination is unicast; only broadcast/multicast is injected".to_owned(),
            DatagramError::Frame(e) => e.message(),
        }
    }
}

/// The Ethernet destination of a broadcast or multicast address: all ones for the IPv4 limited
/// broadcast, the derived group MAC for a multicast group; none for a unicast address.
pub open spec fn group_mac(dst: IpAddr) -> Option<Seq<u8>> {
    match dst {
        IpAddr::V4(v4) if v4.limited_broadcast() => Some(
            seq![0xffu8, 0xff, 0xff, 0xff, 0xff, 0xff],
        ),
        _ => if dst.multicast() {
            Some(crate::net::mac::multicast_mac(dst))
        } else {
            None
        },
    }
}

/// The Ethernet destination MAC for an injected datagram to `dst`. Only broadcast and multicast
/// destinations have one.
pub fn ethernet_dst(dst: IpAddr) -> (mac: Result<MacAddr, DatagramError>)
    ensures
        match mac {
            Ok(mac) => group_mac(dst) == Some(mac@),
            Err(e) => group_mac(dst) is None && e is UnicastDestination,
        },
{
    let broadcast: bool = match dst {
        IpAddr::V4(v4) => v4.is_broadcast(),
        IpAddr::V6(_) => false,
    };
    if broadcast {
        Ok(MacAddr::broadcast())
    } else if dst.is_multicast() {
        Ok(MacAddr::multicast_for(dst))
    } else {
        Err(DatagramError::UnicastDestination)
    }
}

/// The source address of a datagram to `dst`: the egress's IPv4 address, or its IPv6 address for
/// the destination's scope.
pub open spec fn source_for(addrs: InterfaceAddresses, dst: SocketAddr, src_port: u16) -> Option<
    SocketAddr,
> {
    match dst {
        SocketAddr::V4(_) => match addrs.v4 {
            Some(ip) => Some(SocketAddr::V4(SocketAddrV4 { ip, port: src_port })),
            None => None,
        },
        SocketAddr::V6(dst) => match addrs.spec_v6(crate::interface::scope_of(dst.ip)) {
            Some(ip) => Some(
                SocketAddr::V6(SocketAddrV6 { ip, port: src_port, flowinfo: 0, scope_id: 0 }),
            ),
            None => None,
        },
    }
}

/// The link header of a datagram to `dst`: Ethernet takes both MACs, `DLT_NULL` the host's number
/// for the family.
pub open spec fn link_header(
    addrs: InterfaceAddresses,
    link: LinkType,
    host: HostFamilies,
    dst: SocketAddr,
    dst_mac: MacAddr,
) -> Option<Seq<u8>> {
    match link {
        LinkType::Ethernet => match addrs.mac {
            Some(mac) => Some(
                frame::ethernet_header(
                    dst_mac,
                    mac,
                    match dst {
                        SocketAddr::V4(_) => frame::IPV4_ETHERTYPE,
                        SocketAddr::V6(_) => frame::IPV6_ETHERTYPE,
                    },
                ),
            ),
            None => None,
        },
        LinkType::DltNull => Some(
            crate::net::host32(
                host.order,
                match dst {
                    SocketAddr::V4(_) => host.inet,
                    SocketAddr::V6(_) => host.inet6,
                },
            ),
        ),
    }
}

/// The IP packet from `src` to `dst`, which are of one family.
pub open spec fn packet_bytes(src: SocketAddr, dst: SocketAddr, ttl: u8, payload: Seq<u8>) -> Seq<
    u8,
> {
    match (src, dst) {
        (SocketAddr::V4(src), SocketAddr::V4(dst)) => frame::ipv4_udp_bytes(src, dst, ttl, payload),
        (SocketAddr::V6(src), SocketAddr::V6(dst)) => frame::ipv6_udp_bytes(src, dst, ttl, payload),
        _ => Seq::empty(),
    }
}

/// What the sizes leave no room for, if anything.
pub open spec fn size_error(link: LinkType, dst: SocketAddr, payload: int, available: int) -> Option<
    FrameError,
> {
    let l2: int = match link {
        LinkType::Ethernet => 14,
        LinkType::DltNull => 4,
    };
    match dst {
        SocketAddr::V4(_) => frame::frame_error(
            l2,
            20,
            frame::max_v4_payload(),
            payload,
            available,
        ),
        SocketAddr::V6(_) => frame::frame_error(
            l2,
            40,
            frame::max_v6_payload(),
            payload,
            available,
        ),
    }
}

/// The frame for a datagram, or why there is none: first the source address is looked for, then
/// the source MAC, then room.
pub open spec fn datagram_frame(
    addrs: InterfaceAddresses,
    link: LinkType,
    host: HostFamilies,
    dst: SocketAddr,
    dst_mac: MacAddr,
    src_port: u16,
    ttl: u8,
    payload: Seq<u8>,
    available: int,
) -> Result<Seq<u8>, DatagramError> {
    match source_for(addrs, dst, src_port) {
        None => Err(DatagramError::NoSourceAddress),
        Some(src) => match link_header(addrs, link, host, dst, dst_mac) {
            None => Err(DatagramError::NoSourceMac),
            Some(header) => match size_error(link, dst, payload.len() as int, available) {
                Some(e) => Err(DatagramError::Frame(e)),
                None => Ok(header + packet_bytes(src, dst, ttl, payload)),
            },
        },
    }
}

fn framed(r: Result<usize, FrameError>) -> (out: Result<usize, DatagramError>)
    ensures
        out == match r {
            Ok(n) => Ok::<usize, DatagramError>(n),
            Err(e) => Err::<usize, DatagramError>(DatagramError::Frame(e)),
        },
{
    match r {
        Ok(n) => Ok(n),
        Err(e) => Err(DatagramError::Frame(e)),
    }
}

proof fn lemma_datagram_len(pseudo: Seq<u8>, src_port: u16, dst_port: u16, payload: Seq<u8>)
    ensures
        frame::datagram_bytes(pseudo, src_port, dst_port, payload).len() == 8 + payload.len(),
{
    let bare = frame::bare_datagram(src_port, dst_port, payload);
    assert(bare.len() == 8 + payload.len());
}

proof fn lemma_ipv4_header_len(src: Seq<u8>, dst: Seq<u8>, ttl: u8, total: int)
    requires
        src.len() == 4,
        dst.len() == 4,
    ensures
        frame::ipv4_header_bytes(src, dst, ttl, total).len() == 20,
{
    let bare = frame::bare_ipv4_header(src, dst, ttl, total);
    assert(bare.len() == 20);
}

proof fn lemma_packet_len(src: SocketAddr, dst: SocketAddr, ttl: u8, payload: Seq<u8>)
    ensures
        match (src, dst) {
            (SocketAddr::V4(_), SocketAddr::V4(_)) => packet_bytes(src, dst, ttl, payload).len()
                == 28 + payload.len(),
            (SocketAddr::V6(_), SocketAddr::V6(_)) => packet_bytes(src, dst, ttl, payload).len()
                == 48 + payload.len(),
            _ => true,
        },
{
    match (src, dst) {
        (SocketAddr::V4(src), SocketAddr::V4(dst)) => {
            lemma_ipv4_header_len(src.ip@, dst.ip@, ttl, 28int + payload.len());
            lemma_datagram_len(
                crate::net::checksum::pseudo_v4(src.ip@, dst.ip@, 8int + payload.len()),
                src.port,
                dst.port,
                payload,
            );
        },
        (SocketAddr::V6(src), SocketAddr::V6(dst)) => {
            assert(frame::ipv6_header_bytes(src.ip@, dst.ip@, ttl, 8int + payload.len()).len()
                == 40);
            lemma_datagram_len(
                crate::net::checksum::pseudo_v6(src.ip@, dst.ip@, 8int + payload.len()),
                src.port,
                dst.port,
                payload,
            );
        },
        _ => {},
    }
}

/// Assembles a UDP datagram into `scratch`, returning its length. The source is the egress's own
/// address and MAC; `dst_mac` is the L2 destination, so that this serves unicast, multicast and
/// broadcast alike. `DLT_NULL` carries no L2 addresses: it ignores `dst_mac` and needs no source
/// MAC.
pub fn build_udp(
    addrs: &InterfaceAddresses,
    link: LinkType,
    host: HostFamilies,
    dst: SocketAddr,
    dst_mac: MacAddr,
    src_port: u16,
    ttl: u8,
    payload: &[u8],
    scratch: &mut [u8],
) -> (r: Result<usize, DatagramError>)
    ensures
        match datagram_frame(
            *addrs,
            link,
            host,
            dst,
            dst_mac,
            src_port,
            ttl,
            payload@,
            old(scratch)@.len() as int,
        ) {
            Ok(bytes) => {
                &&& r == Ok::<usize, DatagramError>(bytes.len() as usize)
                &&& bytes.len() <= usize::MAX
                &&& frame::written(old(scratch)@, final(scratch)@, bytes)
            },
            Err(e) => r == Err::<usize, DatagramError>(e) && final(scratch)@ == old(scratch)@,
        },
{
    proof {
        if let Some(src) = source_for(*addrs, dst, src_port) {
            lemma_packet_len(src, dst, ttl, payload@);
        }
    }
    let n: usize = scratch.len();
    match dst {
        SocketAddr::V4(dst) => {
            let src = match addrs.v4() {
                Some(ip) => SocketAddrV4::new(ip, src_port),
                None => {
                    return Err(DatagramError::NoSourceAddress);
                },
            };
            match link {
                LinkType::Ethernet => match addrs.mac() {
                    Some(mac) => framed(
                        frame::ethernet_ipv4_udp(dst_mac, mac, src, dst, ttl, payload, scratch),
                    ),
                    None => Err(DatagramError::NoSourceMac),
                },
                LinkType::DltNull => framed(
                    frame::dlt_null_ipv4_udp(host, src, dst, ttl, payload, scratch),
                ),
            }
        },
        SocketAddr::V6(dst) => {
            let src = match addrs.v6(Ipv6Scope::of(dst.ip)) {
                Some(ip) => SocketAddrV6::new(ip, src_port, 0, 0),
                None => {
                    return Err(DatagramError::NoSourceAddress);
                },
            };
            match link {
                LinkType::Ethernet => match addrs.mac() {
                    Some(mac) => framed(
                        frame::ethernet_ipv6_udp(dst_mac, mac, src, dst, ttl, payload, scratch),
                    ),
                    None => Err(DatagramError::NoSourceMac),
                },
                LinkType::DltNull => framed(
                    frame::dlt_null_ipv6_udp(host, src, dst, ttl, payload, scratch),
                ),
            }
        },
    }
}

/// An address as a packet shows it: an IPv6 header carries no flow information and no scope.
pub open spec fn on_the_wire(addr: SocketAddr) -> SocketAddr {
    match addr {
        SocketAddr::V4(_) => addr,
        SocketAddr::V6(a) => SocketAddr::V6(SocketAddrV6 { flowinfo: 0, scope_id: 0, ..a }),
    }
}

/// What is injected on a link is what a capture of that link parses: the egress's own address as
/// the source, the destination, TTL and payload as given, and on Ethernet both MACs, whatever link
/// padding follows.
pub proof fn law_built_datagrams_parse_back(
    addrs: InterfaceAddresses,
    link: LinkType,
    host: HostFamilies,
    dst: SocketAddr,
    dst_mac: MacAddr,
    src_port: u16,
    ttl: u8,
    payload: Seq<u8>,
    available: int,
    padding: Seq<u8>,
)
    requires
        datagram_frame(addrs, link, host, dst, dst_mac, src_port, ttl, payload, available) is Ok,
    ensures
        crate::net::packet::parsed(
            link,
            datagram_frame(
                addrs,
                link,
                host,
                dst,
                dst_mac,
                src_port,
                ttl,
                payload,
                available,
            )->Ok_0 + padding,
        ) == Ok::<crate::net::packet::PacketView, crate::net::packet::ParseError>(
            crate::net::packet::PacketView {
                source: source_for(addrs, dst, src_port)->0,
                dest: on_the_wire(dst),
                ttl,
                dst_mac: match link {
                    LinkType::Ethernet => Some(dst_mac),
                    LinkType::DltNull => None,
                },
                src_mac: match link {
                    LinkType::Ethernet => addrs.mac,
                    LinkType::DltNull => None,
                },
                payload,
            },
        ),
{
    let src = source_for(addrs, dst, src_port)->0;
    match (src, dst, link) {
        (SocketAddr::V4(src), SocketAddr::V4(dst), LinkType::Ethernet) => {
            crate::net::packet::law_ethernet_ipv4_round_trips(
                dst_mac,
                addrs.mac->0,
                src,
                dst,
                ttl,
                payload,
                padding,
            );
        },
        (SocketAddr::V4(src), SocketAddr::V4(dst), LinkType::DltNull) => {
            crate::net::packet::law_dlt_null_ipv4_round_trips(
                host,
                src,
                dst,
                ttl,
                payload,
                padding,
            );
        },
        (SocketAddr::V6(src), SocketAddr::V6(dst), LinkType::Ethernet) => {
            crate::net::packet::law_ethernet_ipv6_round_trips(
                dst_mac,
                addrs.mac->0,
                src,
                dst,
                ttl,
                payload,
                padding,
            );
        },
        (SocketAddr::V6(src), SocketAddr::V6(dst), LinkType::DltNull) => {
            crate::net::packet::law_dlt_null_ipv6_round_trips(
                host,
                src,
                dst,
                ttl,
                payload,
                padding,
            );
        },
        _ => {},
    }
}

} // verus!
