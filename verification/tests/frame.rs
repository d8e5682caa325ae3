//! Building UDP frames.

use reflector::net::addr::{Ipv4Addr, Ipv6Addr, SocketAddrV4, SocketAddrV6};
use reflector::net::checksum;
use reflector::net::frame::{
    dlt_null_ipv4_udp, dlt_null_ipv6_udp, ethernet_ipv4_udp, ethernet_ipv6_udp, ipv4_udp, ipv6_udp,
    FrameError, IPV4_ETHERTYPE, IPV6_ETHERTYPE,
};
use reflector::net::mac::MacAddr;
use reflector::net::{
    ByteOrder, HostFamilies, DLT_NULL_HEADER_SIZE, ETHERNET_HEADER_SIZE, IPV4_HEADER_SIZE,
    IPV6_HEADER_SIZE, IP_PROTO_UDP, UDP_HEADER_SIZE,
};

/// A host with the numbers that macOS gives the address families.
const HOST: HostFamilies = HostFamilies {
    order: ByteOrder::Little,
    inet: 2,
    inet6: 30,
};

#[test]
fn ipv4_udp_writes_expected_frame() {
    let src = SocketAddrV4::new(Ipv4Addr::new(192, 168, 0, 1), 5353);
    let dst = SocketAddrV4::new(Ipv4Addr::new(224, 0, 0, 251), 5353);
    let payload = [0xde, 0xad, 0xbe, 0xef];
    let mut buf = [0xAAu8; 64]; // sentinel: every frame byte must be overwritten

    let n = ipv4_udp(src, dst, 1, &payload, &mut buf).unwrap();
    assert_eq!(n, IPV4_HEADER_SIZE + UDP_HEADER_SIZE + payload.len());
    let frame = &buf[..n];
    let udp = IPV4_HEADER_SIZE;

    // IPv4 header: every byte.
    assert_eq!(frame[0], 0x45); // version 4, IHL 5
    assert_eq!(frame[1], 0); // DSCP / ECN
    assert_eq!(
        u16::from_be_bytes([frame[2], frame[3]]),
        u16::try_from(n).unwrap()
    ); // total length
    assert_eq!(&frame[4..6], [0u8, 0].as_slice()); // identification
    assert_eq!(u16::from_be_bytes([frame[6], frame[7]]), 0x4000); // flags + fragment
    assert_eq!(frame[8], 1); // ttl
    assert_eq!(frame[9], IP_PROTO_UDP);
    assert_eq!(
        u16::from_be_bytes([frame[10], frame[11]]),
        checksum::ipv4_header(&frame[..IPV4_HEADER_SIZE])
    ); // header checksum
    assert_eq!(&frame[12..16], src.ip.octets.as_slice());
    assert_eq!(&frame[16..20], dst.ip.octets.as_slice());

    // UDP header + payload: every byte.
    assert_eq!(u16::from_be_bytes([frame[udp], frame[udp + 1]]), src.port);
    assert_eq!(
        u16::from_be_bytes([frame[udp + 2], frame[udp + 3]]),
        dst.port
    );
    assert_eq!(
        u16::from_be_bytes([frame[udp + 4], frame[udp + 5]]),
        u16::try_from(UDP_HEADER_SIZE + payload.len()).unwrap()
    ); // UDP length
    assert_eq!(
        u16::from_be_bytes([frame[udp + 6], frame[udp + 7]]),
        checksum::udp_v4(src.ip, dst.ip, &frame[udp..])
    ); // UDP checksum
    assert_eq!(&frame[udp + UDP_HEADER_SIZE..], &payload);
}

#[test]
fn ipv6_udp_writes_expected_frame() {
    let src = SocketAddrV6::new(Ipv6Addr::new(0, 0, 0, 0, 0, 0, 0, 1), 5353, 0, 0);
    let dst = SocketAddrV6::new(Ipv6Addr::new(0xff02, 0, 0, 0, 0, 0, 0, 0xfb), 5353, 0, 0);
    let payload = [0xaa, 0xbb, 0xcc];
    let mut buf = [0xAAu8; 80]; // sentinel: every frame byte must be overwritten

    let n = ipv6_udp(src, dst, 255, &payload, &mut buf).unwrap();
    assert_eq!(n, IPV6_HEADER_SIZE + UDP_HEADER_SIZE + payload.len());
    let frame = &buf[..n];
    let udp = IPV6_HEADER_SIZE;

    // IPv6 header: every byte.
    assert_eq!(frame[0], 0x60); // version 6
    assert_eq!(&frame[1..4], [0u8; 3].as_slice()); // traffic class + flow label
    assert_eq!(
        u16::from_be_bytes([frame[4], frame[5]]),
        u16::try_from(UDP_HEADER_SIZE + payload.len()).unwrap()
    ); // payload length
    assert_eq!(frame[6], IP_PROTO_UDP); // next header
    assert_eq!(frame[7], 255); // hop limit
    assert_eq!(&frame[8..24], src.ip.octets.as_slice());
    assert_eq!(&frame[24..40], dst.ip.octets.as_slice());

    // UDP header + payload: every byte.
    assert_eq!(u16::from_be_bytes([frame[udp], frame[udp + 1]]), src.port);
    assert_eq!(
        u16::from_be_bytes([frame[udp + 2], frame[udp + 3]]),
        dst.port
    );
    assert_eq!(
        u16::from_be_bytes([frame[udp + 4], frame[udp + 5]]),
        u16::try_from(UDP_HEADER_SIZE + payload.len()).unwrap()
    ); // UDP length
    assert_eq!(
        u16::from_be_bytes([frame[udp + 6], frame[udp + 7]]),
        checksum::udp_v6(src.ip, dst.ip, &frame[udp..])
    ); // UDP checksum
    assert_eq!(&frame[udp + UDP_HEADER_SIZE..], &payload);
}

#[test]
fn ipv4_buffer_too_small_is_reported() {
    let src = SocketAddrV4::new(Ipv4Addr::new(127, 0, 0, 1), 1);
    let dst = SocketAddrV4::new(Ipv4Addr::new(127, 0, 0, 1), 2);
    let mut buf = [0u8; 16]; // < 28-byte minimum frame
    assert!(matches!(
        ipv4_udp(src, dst, 1, &[], &mut buf),
        Err(FrameError::BufferTooSmall {
            needed: 28,
            available: 16
        })
    ));
}

#[test]
fn ipv6_buffer_too_small_is_reported() {
    let src = SocketAddrV6::new(Ipv6Addr::new(0, 0, 0, 0, 0, 0, 0, 1), 1, 0, 0);
    let dst = SocketAddrV6::new(Ipv6Addr::new(0, 0, 0, 0, 0, 0, 0, 1), 2, 0, 0);
    let mut buf = [0u8; 16]; // < 48-byte minimum frame
    assert!(matches!(
        ipv6_udp(src, dst, 1, &[], &mut buf),
        Err(FrameError::BufferTooSmall {
            needed: 48,
            available: 16
        })
    ));
}

#[test]
fn ipv4_payload_too_large_is_reported() {
    let src = SocketAddrV4::new(Ipv4Addr::new(127, 0, 0, 1), 1);
    let dst = SocketAddrV4::new(Ipv4Addr::new(127, 0, 0, 1), 2);
    let payload = vec![0u8; 65_508]; // 20 + 8 + 65508 overflows the IPv4 total-length field
    let mut buf = [0u8; 64];
    assert!(matches!(
        ipv4_udp(src, dst, 1, &payload, &mut buf),
        Err(FrameError::PayloadTooLarge { payload: 65_508 })
    ));
}

#[test]
fn ipv6_payload_too_large_is_reported() {
    let src = SocketAddrV6::new(Ipv6Addr::new(0, 0, 0, 0, 0, 0, 0, 1), 1, 0, 0);
    let dst = SocketAddrV6::new(Ipv6Addr::new(0, 0, 0, 0, 0, 0, 0, 1), 2, 0, 0);
    let payload = vec![0u8; 65_528]; // 8 + 65528 overflows the UDP length field
    let mut buf = [0u8; 64];
    assert!(matches!(
        ipv6_udp(src, dst, 1, &payload, &mut buf),
        Err(FrameError::PayloadTooLarge { payload: 65_528 })
    ));
}

#[test]
fn ethernet_ipv4_frame_wraps_the_datagram() {
    let dst_mac = MacAddr::broadcast();
    let src_mac = "b0:37:95:c5:60:be".parse::<MacAddr>().unwrap();
    let src = SocketAddrV4::new(Ipv4Addr::new(192, 168, 0, 1), 5353);
    let dst = SocketAddrV4::new(Ipv4Addr::new(224, 0, 0, 251), 5353);
    let payload = [0xde, 0xad];
    let mut buf = [0xAAu8; 64];

    let n = ethernet_ipv4_udp(dst_mac, src_mac, src, dst, 1, &payload, &mut buf).unwrap();
    assert_eq!(
        n,
        ETHERNET_HEADER_SIZE + IPV4_HEADER_SIZE + UDP_HEADER_SIZE + payload.len()
    );
    let frame = &buf[..n];

    assert_eq!(&frame[0..6], dst_mac.octets().as_slice());
    assert_eq!(&frame[6..12], src_mac.octets().as_slice());
    assert_eq!(u16::from_be_bytes([frame[12], frame[13]]), IPV4_ETHERTYPE);

    // Past the Ethernet header is exactly the standalone IPv4 datagram.
    let mut datagram = [0u8; 64];
    let dn = ipv4_udp(src, dst, 1, &payload, &mut datagram).unwrap();
    assert_eq!(&frame[ETHERNET_HEADER_SIZE..], &datagram[..dn]);
}

#[test]
fn ethernet_ipv6_frame_wraps_the_datagram() {
    let dst_mac = MacAddr::broadcast();
    let src_mac = "b0:37:95:c5:60:be".parse::<MacAddr>().unwrap();
    let src = SocketAddrV6::new(Ipv6Addr::new(0, 0, 0, 0, 0, 0, 0, 1), 5353, 0, 0);
    let dst = SocketAddrV6::new(Ipv6Addr::new(0xff02, 0, 0, 0, 0, 0, 0, 0xfb), 5353, 0, 0);
    let payload = [0xaa, 0xbb, 0xcc];
    let mut buf = [0xAAu8; 80];

    let n = ethernet_ipv6_udp(dst_mac, src_mac, src, dst, 255, &payload, &mut buf).unwrap();
    assert_eq!(
        n,
        ETHERNET_HEADER_SIZE + IPV6_HEADER_SIZE + UDP_HEADER_SIZE + payload.len()
    );
    let frame = &buf[..n];

    assert_eq!(&frame[0..6], dst_mac.octets().as_slice());
    assert_eq!(&frame[6..12], src_mac.octets().as_slice());
    assert_eq!(u16::from_be_bytes([frame[12], frame[13]]), IPV6_ETHERTYPE);

    let mut datagram = [0u8; 80];
    let dn = ipv6_udp(src, dst, 255, &payload, &mut datagram).unwrap();
    assert_eq!(&frame[ETHERNET_HEADER_SIZE..], &datagram[..dn]);
}

#[test]
fn ethernet_buffer_too_small_counts_the_l2_header() {
    let mac = MacAddr::broadcast();
    let src = SocketAddrV4::new(Ipv4Addr::new(127, 0, 0, 1), 1);
    let dst = SocketAddrV4::new(Ipv4Addr::new(127, 0, 0, 1), 2);
    // Holds the 14-byte Ethernet header but not the 28-byte datagram; the
    // reported `needed` includes both.
    let mut buf = [0u8; 20];
    assert!(matches!(
        ethernet_ipv4_udp(mac, mac, src, dst, 1, &[], &mut buf),
        Err(FrameError::BufferTooSmall {
            needed: 42,
            available: 20
        })
    ));
}

#[test]
fn ethernet_payload_too_large_passes_through_unchanged() {
    let mac = MacAddr::broadcast();
    let src = SocketAddrV4::new(Ipv4Addr::new(127, 0, 0, 1), 1);
    let dst = SocketAddrV4::new(Ipv4Addr::new(127, 0, 0, 1), 2);
    let payload = vec![0u8; 65_508];
    let mut buf = [0u8; 64];
    // PayloadTooLarge is not rebased onto the L2 header, unlike BufferTooSmall.
    assert!(matches!(
        ethernet_ipv4_udp(mac, mac, src, dst, 1, &payload, &mut buf),
        Err(FrameError::PayloadTooLarge { payload: 65_508 })
    ));
}

#[test]
fn frame_fits_a_buffer_sized_exactly() {
    let src = SocketAddrV4::new(Ipv4Addr::new(127, 0, 0, 1), 1);
    let dst = SocketAddrV4::new(Ipv4Addr::new(127, 0, 0, 1), 2);
    let mut buf = [0u8; IPV4_HEADER_SIZE + UDP_HEADER_SIZE]; // exactly the empty-payload frame
    assert_eq!(
        ipv4_udp(src, dst, 1, &[], &mut buf),
        Ok(IPV4_HEADER_SIZE + UDP_HEADER_SIZE)
    );
}

#[test]
fn dlt_null_ipv4_frame_prefixes_the_host_family() {
    let src = SocketAddrV4::new(Ipv4Addr::new(192, 168, 0, 1), 5353);
    let dst = SocketAddrV4::new(Ipv4Addr::new(224, 0, 0, 251), 5353);
    let payload = [0xde, 0xad];
    let mut buf = [0xAAu8; 64];

    let n = dlt_null_ipv4_udp(HOST, src, dst, 1, &payload, &mut buf).unwrap();
    assert_eq!(
        n,
        DLT_NULL_HEADER_SIZE + IPV4_HEADER_SIZE + UDP_HEADER_SIZE + payload.len()
    );
    let frame = &buf[..n];

    // 4-byte address family in host byte order.
    assert_eq!(
        u32::from_le_bytes([frame[0], frame[1], frame[2], frame[3]]),
        HOST.inet
    );
    // Past the link header is exactly the standalone IPv4 datagram.
    let mut datagram = [0u8; 64];
    let dn = ipv4_udp(src, dst, 1, &payload, &mut datagram).unwrap();
    assert_eq!(&frame[DLT_NULL_HEADER_SIZE..], &datagram[..dn]);
}

#[test]
fn dlt_null_ipv6_frame_prefixes_the_host_family() {
    let src = SocketAddrV6::new(Ipv6Addr::new(0, 0, 0, 0, 0, 0, 0, 1), 5353, 0, 0);
    let dst = SocketAddrV6::new(Ipv6Addr::new(0xff02, 0, 0, 0, 0, 0, 0, 0xfb), 5353, 0, 0);
    let payload = [0xaa, 0xbb, 0xcc];
    let mut buf = [0xAAu8; 80];

    let n = dlt_null_ipv6_udp(HOST, src, dst, 255, &payload, &mut buf).unwrap();
    assert_eq!(
        n,
        DLT_NULL_HEADER_SIZE + IPV6_HEADER_SIZE + UDP_HEADER_SIZE + payload.len()
    );
    let frame = &buf[..n];

    assert_eq!(
        u32::from_le_bytes([frame[0], frame[1], frame[2], frame[3]]),
        HOST.inet6
    );
    let mut datagram = [0u8; 80];
    let dn = ipv6_udp(src, dst, 255, &payload, &mut datagram).unwrap();
    assert_eq!(&frame[DLT_NULL_HEADER_SIZE..], &datagram[..dn]);
}
