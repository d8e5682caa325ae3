//! Building datagrams for an egress.

use reflector::dispatch::datagram::{build_udp, ethernet_dst, DatagramError};
use reflector::interface::InterfaceAddresses;
use reflector::net::addr::{
    IpAddr, Ipv4Addr, Ipv6Addr, SocketAddr, SocketAddrV4, SocketAddrV6,
};
use reflector::net::frame::FrameError;
use reflector::net::mac::MacAddr;
use reflector::net::{ByteOrder, HostFamilies, LinkType};

const HOST: HostFamilies = HostFamilies {
    order: ByteOrder::Little,
    inet: 2,
    inet6: 30,
};

fn v4_endpoint(ip: Ipv4Addr, port: u16) -> SocketAddr {
    SocketAddr::V4(SocketAddrV4::new(ip, port))
}

fn v6_endpoint(ip: Ipv6Addr, port: u16) -> SocketAddr {
    SocketAddr::V6(SocketAddrV6::new(ip, port, 0, 0))
}

/// A fully-populated egress: a MAC, v4, a link-local v6, and a routable v6, for the builder tests.
fn full_addrs() -> InterfaceAddresses {
    InterfaceAddresses::new(
        Some(MacAddr::from([0x02, 0, 0, 0, 0, 0x01])),
        Some(Ipv4Addr::new(192, 168, 0, 2)),
        Some(Ipv6Addr::new(0xfe80, 0, 0, 0, 0, 0, 0, 2)),
        Some(Ipv6Addr::new(0x2001, 0xdb8, 0, 0, 0, 0, 0, 2)),
    )
}

#[test]
fn build_udp_sources_a_site_local_group_from_the_routable_address() {
    // A site-local SSDP group (ff05::c) must be sourced from the routable address, not the
    // link-local one: the per-scope selection.
    let addrs = full_addrs();
    let dst = v6_endpoint(Ipv6Addr::new(0xff05, 0, 0, 0, 0, 0, 0, 0x0c), 1900);
    let mut scratch = [0u8; 2048];
    let n = build_udp(
        &addrs,
        LinkType::Ethernet,
        HOST,
        dst,
        MacAddr::multicast_for(dst.ip()),
        4000,
        2,
        b"ssdp",
        &mut scratch,
    )
    .unwrap();
    // The IPv6 source address sits at bytes [22..38] of the frame (14 Ethernet + offset 8 into
    // the v6 header). A site-local destination is sourced from the routable v6, not fe80::2.
    assert_eq!(
        &scratch[22..38],
        Ipv6Addr::new(0x2001, 0xdb8, 0, 0, 0, 0, 0, 2)
            .octets
            .as_slice(),
        "ff05::c sourced from the routable address"
    );
    assert!(n > 38);
}

#[test]
fn ethernet_dst_maps_address_classes() {
    // v4 limited broadcast -> all-ones; v4/v6 multicast -> the derived group MAC.
    assert_eq!(
        ethernet_dst(IpAddr::V4(Ipv4Addr::new(255, 255, 255, 255))),
        Ok(MacAddr::broadcast())
    );
    let v4_group = IpAddr::V4(Ipv4Addr::new(224, 0, 0, 251));
    assert_eq!(ethernet_dst(v4_group), Ok(MacAddr::multicast_for(v4_group)));
    let v6_group = IpAddr::V6(Ipv6Addr::new(0xff02, 0, 0, 0, 0, 0, 0, 1));
    assert_eq!(ethernet_dst(v6_group), Ok(MacAddr::multicast_for(v6_group)));
    // A unicast destination (either family) has no injectable L2 address.
    assert_eq!(
        ethernet_dst(IpAddr::V4(Ipv4Addr::new(192, 168, 0, 1))),
        Err(DatagramError::UnicastDestination)
    );
    assert_eq!(
        ethernet_dst(IpAddr::V6(Ipv6Addr::new(0xfe80, 0, 0, 0, 0, 0, 0, 1))),
        Err(DatagramError::UnicastDestination)
    );
}

#[test]
fn build_udp_v4_broadcast_sources_from_the_egress() {
    let addrs = full_addrs();
    let dst = v4_endpoint(Ipv4Addr::new(255, 255, 255, 255), 9);
    let mut scratch = [0u8; 2048];
    let n = build_udp(
        &addrs,
        LinkType::Ethernet,
        HOST,
        dst,
        MacAddr::broadcast(),
        4000,
        64,
        b"wol",
        &mut scratch,
    )
    .unwrap();
    // L2 header: the supplied destination MAC, the egress's own MAC as source.
    assert_eq!(&scratch[0..6], MacAddr::broadcast().octets().as_slice());
    assert_eq!(&scratch[6..12], addrs.mac().unwrap().octets().as_slice());
    assert!(n > 12, "frame must extend past the L2 header");
}

#[test]
fn build_udp_v6_writes_the_supplied_mac() {
    let addrs = full_addrs();
    let group = Ipv6Addr::new(0xff02, 0, 0, 0, 0, 0, 0, 1);
    let dst = v6_endpoint(group, 9);
    let mut scratch = [0u8; 2048];
    build_udp(
        &addrs,
        LinkType::Ethernet,
        HOST,
        dst,
        MacAddr::multicast_for(IpAddr::V6(group)),
        4000,
        64,
        b"wol",
        &mut scratch,
    )
    .unwrap();
    // 33:33 + the low 32 bits of ff02::1 (the supplied MAC), then the egress's own MAC.
    assert_eq!(&scratch[0..6], [0x33, 0x33, 0, 0, 0, 0x01].as_slice());
    assert_eq!(&scratch[6..12], addrs.mac().unwrap().octets().as_slice());
}

#[test]
fn build_udp_assembles_a_unicast_frame() {
    // The unicast path the M-SEARCH 200-OK reply will use: an explicit dst MAC, a unicast dst
    // (build_udp doesn't derive the MAC, so unicast is fine: unlike send_udp_group).
    let addrs = full_addrs();
    let searcher_mac = MacAddr::from([0x0a, 0x0b, 0x0c, 0x0d, 0x0e, 0x0f]);
    let dst = v4_endpoint(Ipv4Addr::new(192, 168, 0, 5), 9);
    let mut scratch = [0u8; 2048];
    let n = build_udp(
        &addrs,
        LinkType::Ethernet,
        HOST,
        dst,
        searcher_mac,
        4000,
        64,
        b"ok",
        &mut scratch,
    )
    .unwrap();
    // The supplied unicast MAC is the L2 destination; the egress's own MAC is the source.
    assert_eq!(&scratch[0..6], searcher_mac.octets().as_slice());
    assert_eq!(&scratch[6..12], addrs.mac().unwrap().octets().as_slice());
    assert!(n > 12);
}

#[test]
fn build_udp_needs_a_source_address_for_the_family() {
    // A v6-less egress cannot source a v6 datagram.
    let v4_only = InterfaceAddresses::new(
        Some(MacAddr::from([0x02, 0, 0, 0, 0, 0x01])),
        Some(Ipv4Addr::new(192, 168, 0, 2)),
        None,
        None,
    );
    let dst = v6_endpoint(Ipv6Addr::new(0xff02, 0, 0, 0, 0, 0, 0, 1), 9);
    let mut scratch = [0u8; 2048];
    assert_eq!(
        build_udp(
            &v4_only,
            LinkType::Ethernet,
            HOST,
            dst,
            MacAddr::broadcast(),
            4000,
            64,
            b"x",
            &mut scratch
        ),
        Err(DatagramError::NoSourceAddress)
    );
}

#[test]
fn build_udp_ethernet_needs_a_source_mac() {
    let no_mac = InterfaceAddresses::new(
        None,
        Some(Ipv4Addr::new(192, 168, 0, 2)),
        Some(Ipv6Addr::new(0xfe80, 0, 0, 0, 0, 0, 0, 2)),
        Some(Ipv6Addr::new(0x2001, 0xdb8, 0, 0, 0, 0, 0, 2)),
    );
    let dst = v4_endpoint(Ipv4Addr::new(255, 255, 255, 255), 9);
    let mut scratch = [0u8; 2048];
    assert_eq!(
        build_udp(
            &no_mac,
            LinkType::Ethernet,
            HOST,
            dst,
            MacAddr::broadcast(),
            4000,
            64,
            b"x",
            &mut scratch
        ),
        Err(DatagramError::NoSourceMac)
    );
}

#[test]
fn build_udp_surfaces_a_frame_error() {
    // A scratch too small for the frame is a frame error, not a panic.
    let dst = v4_endpoint(Ipv4Addr::new(255, 255, 255, 255), 9);
    let mut tiny = [0u8; 16];
    assert!(matches!(
        build_udp(
            &full_addrs(),
            LinkType::Ethernet,
            HOST,
            dst,
            MacAddr::broadcast(),
            4000,
            64,
            b"x",
            &mut tiny
        ),
        Err(DatagramError::Frame(FrameError::BufferTooSmall { .. }))
    ));
}

#[test]
fn build_udp_dlt_null_needs_no_mac() {
    let no_mac = InterfaceAddresses::new(
        None,
        Some(Ipv4Addr::new(192, 168, 0, 2)),
        Some(Ipv6Addr::new(0xfe80, 0, 0, 0, 0, 0, 0, 2)),
        Some(Ipv6Addr::new(0x2001, 0xdb8, 0, 0, 0, 0, 0, 2)),
    );
    let dst = v4_endpoint(Ipv4Addr::new(255, 255, 255, 255), 9);
    let mut scratch = [0u8; 2048];
    build_udp(
        &no_mac,
        LinkType::DltNull,
        HOST,
        dst,
        MacAddr::broadcast(),
        4000,
        64,
        b"wol",
        &mut scratch,
    )
    .unwrap();
    assert_eq!(
        u32::from_le_bytes([scratch[0], scratch[1], scratch[2], scratch[3]]),
        HOST.inet
    );
}

#[test]
fn datagram_errors_name_the_sizes() {
    assert_eq!(
        DatagramError::Frame(FrameError::BufferTooSmall {
            needed: 64,
            available: 10
        })
        .message(),
        "output buffer too small: need 64 bytes, have 10"
    );
    assert_eq!(
        DatagramError::Frame(FrameError::PayloadTooLarge { payload: 70000 }).message(),
        "payload of 70000 bytes is too large for a UDP datagram"
    );
    assert_eq!(
        DatagramError::NoSourceMac.message(),
        "egress has no source MAC for an Ethernet frame"
    );
}
