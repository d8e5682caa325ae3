//! Parsing captured frames.

use reflector::net::addr::{Ipv4Addr, Ipv6Addr, SocketAddr, SocketAddrV4, SocketAddrV6};
use reflector::net::frame;
use reflector::net::mac::MacAddr;
use reflector::net::packet::{Packet, ParseError};
use reflector::net::{ByteOrder, HostFamilies, LinkType, ETHERNET_HEADER_SIZE, IP_PROTO_UDP};

/// A host with the numbers that macOS gives the address families.
const HOST: HostFamilies = HostFamilies {
    order: ByteOrder::Little,
    inet: 2,
    inet6: 30,
};

/// Build a valid Ethernet IPv4 UDP frame into `buf`, returning its length: the
/// starting point the rejection tests corrupt one field of.
fn valid_ethernet_ipv4(buf: &mut [u8]) -> usize {
    let src = SocketAddrV4::new(Ipv4Addr::new(10, 0, 0, 1), 1234);
    let dst = SocketAddrV4::new(Ipv4Addr::new(10, 0, 0, 2), 5678);
    let mac = MacAddr::broadcast();
    frame::ethernet_ipv4_udp(mac, mac, src, dst, 64, &[0xab; 4], buf).unwrap()
}

/// Build a valid Ethernet IPv6 UDP frame into `buf`, returning its length.
fn valid_ethernet_ipv6(buf: &mut [u8]) -> usize {
    let src = SocketAddrV6::new(Ipv6Addr::new(0, 0, 0, 0, 0, 0, 0, 1), 1234, 0, 0);
    let dst = SocketAddrV6::new(Ipv6Addr::new(0xff02, 0, 0, 0, 0, 0, 0, 0xfb), 5678, 0, 0);
    let mac = MacAddr::broadcast();
    frame::ethernet_ipv6_udp(mac, mac, src, dst, 64, &[0xab; 4], buf).unwrap()
}

#[test]
fn round_trips_ethernet_ipv4() {
    let src = SocketAddrV4::new(Ipv4Addr::new(192, 168, 1, 10), 5353);
    let dst = SocketAddrV4::new(Ipv4Addr::new(192, 168, 1, 20), 5354);
    let payload = [0xde, 0xad, 0xbe, 0xef];
    let mut buf = [0u8; 64];
    // Distinct dst/src MACs so a swapped read would fail.
    let dst_mac = MacAddr::from([0x02, 0, 0, 0, 0, 0xaa]);
    let src_mac = MacAddr::from([0x02, 0, 0, 0, 0, 0xbb]);
    let n =
        frame::ethernet_ipv4_udp(dst_mac, src_mac, src, dst, 64, &payload, &mut buf).unwrap();

    let packet = Packet::parse(LinkType::Ethernet, &buf[..n]).unwrap();
    assert_eq!(packet.source, SocketAddr::V4(src));
    assert_eq!(packet.dest, SocketAddr::V4(dst));
    assert_eq!(packet.ttl, 64);
    assert_eq!(packet.dst_mac, Some(dst_mac));
    assert_eq!(packet.src_mac, Some(src_mac));
    assert_eq!(packet.payload, &payload);
}

#[test]
fn round_trips_ethernet_ipv6() {
    let src = SocketAddrV6::new(Ipv6Addr::new(0, 0, 0, 0, 0, 0, 0, 1), 5353, 0, 0);
    let dst = SocketAddrV6::new(Ipv6Addr::new(0xff02, 0, 0, 0, 0, 0, 0, 0xfb), 5354, 0, 0);
    let payload = [0xaa, 0xbb, 0xcc];
    let mut buf = [0u8; 80];
    let dst_mac = MacAddr::from([0x33, 0x33, 0, 0, 0, 0xfb]);
    let src_mac = MacAddr::from([0x02, 0, 0, 0, 0, 0xbb]);
    let n =
        frame::ethernet_ipv6_udp(dst_mac, src_mac, src, dst, 255, &payload, &mut buf).unwrap();

    let packet = Packet::parse(LinkType::Ethernet, &buf[..n]).unwrap();
    assert_eq!(packet.source, SocketAddr::V6(src));
    assert_eq!(packet.dest, SocketAddr::V6(dst));
    assert_eq!(packet.ttl, 255);
    assert_eq!(packet.dst_mac, Some(dst_mac));
    assert_eq!(packet.src_mac, Some(src_mac));
    assert_eq!(packet.payload, &payload);
}

#[test]
fn round_trips_dlt_null_ipv4() {
    let src = SocketAddrV4::new(Ipv4Addr::new(127, 0, 0, 1), 5353);
    let dst = SocketAddrV4::new(Ipv4Addr::new(127, 0, 0, 1), 5354);
    let payload = [0x01, 0x02];
    let mut buf = [0u8; 64];
    let n = frame::dlt_null_ipv4_udp(HOST, src, dst, 64, &payload, &mut buf).unwrap();

    let packet = Packet::parse(LinkType::DltNull, &buf[..n]).unwrap();
    assert_eq!(packet.source, SocketAddr::V4(src));
    assert_eq!(packet.dest, SocketAddr::V4(dst));
    assert_eq!(packet.ttl, 64);
    // DLT_NULL has no L2 header: no MACs to report.
    assert_eq!(packet.dst_mac, None);
    assert_eq!(packet.src_mac, None);
    assert_eq!(packet.payload, &payload);
}

#[test]
fn round_trips_dlt_null_ipv6() {
    let src = SocketAddrV6::new(Ipv6Addr::new(0, 0, 0, 0, 0, 0, 0, 1), 5353, 0, 0);
    let dst = SocketAddrV6::new(Ipv6Addr::new(0, 0, 0, 0, 0, 0, 0, 1), 5354, 0, 0);
    let payload = [0x09];
    let mut buf = [0u8; 80];
    let n = frame::dlt_null_ipv6_udp(HOST, src, dst, 255, &payload, &mut buf).unwrap();

    let packet = Packet::parse(LinkType::DltNull, &buf[..n]).unwrap();
    assert_eq!(packet.source, SocketAddr::V6(src));
    assert_eq!(packet.ttl, 255);
    assert_eq!(packet.payload, &payload);
}

#[test]
fn trims_trailing_link_padding() {
    let src = SocketAddrV4::new(Ipv4Addr::new(10, 0, 0, 1), 1);
    let dst = SocketAddrV4::new(Ipv4Addr::new(10, 0, 0, 2), 2);
    let payload = [0x11, 0x22, 0x33];
    let mut buf = [0u8; 64]; // zero-filled tail stands in for padding
    let mac = MacAddr::broadcast();
    let n = frame::ethernet_ipv4_udp(mac, mac, src, dst, 64, &payload, &mut buf).unwrap();

    let packet = Packet::parse(LinkType::Ethernet, &buf[..n + 10]).unwrap();
    assert_eq!(packet.payload, &payload);
}

#[test]
fn parses_ipv4_with_options() {
    let mut frame = [0u8; 50]; // 14 Ethernet + 24 IPv4 (IHL 6) + 8 UDP + 4 payload
    frame[14] = 0x46; // version 4, IHL 6 (24-byte header, 4 option bytes)
    frame[16..18].copy_from_slice(&36u16.to_be_bytes()); // total length (IP + UDP + payload)
    frame[22] = 64; // ttl
    frame[23] = IP_PROTO_UDP;
    frame[26..30].copy_from_slice(&[10, 1, 2, 3]); // src IP
    frame[30..34].copy_from_slice(&[10, 4, 5, 6]); // dst IP
    // frame[34..38] are the 4 option bytes (left zero: the parser skips them).
    frame[38..40].copy_from_slice(&1111u16.to_be_bytes()); // src port
    frame[40..42].copy_from_slice(&2222u16.to_be_bytes()); // dst port
    frame[42..44].copy_from_slice(&12u16.to_be_bytes()); // UDP length
    frame[46..50].copy_from_slice(&[0xde, 0xad, 0xbe, 0xef]); // payload

    let packet = Packet::parse(LinkType::Ethernet, &frame).unwrap();
    assert_eq!(packet.source, SocketAddr::V4(SocketAddrV4::new(Ipv4Addr::new(10, 1, 2, 3), 1111)));
    assert_eq!(packet.dest, SocketAddr::V4(SocketAddrV4::new(Ipv4Addr::new(10, 4, 5, 6), 2222)));
    assert_eq!(packet.ttl, 64);
    assert_eq!(packet.payload, &[0xde, 0xad, 0xbe, 0xef]);
}

#[test]
fn rejects_frame_shorter_than_link_header() {
    assert_eq!(
        Packet::parse(LinkType::Ethernet, &[0u8; 10]),
        Err(ParseError::Truncated)
    );
}

#[test]
fn rejects_truncated_ip_header() {
    // Ethernet header, then a valid IPv4 version nibble but only a few L3 bytes.
    let mut frame = [0u8; 18];
    frame[14] = 0x45;
    assert_eq!(
        Packet::parse(LinkType::Ethernet, &frame),
        Err(ParseError::Truncated)
    );
}

#[test]
fn rejects_unsupported_ip_version() {
    let mut buf = [0u8; 64];
    let n = valid_ethernet_ipv4(&mut buf);
    buf[14] = 0x55; // version 5
    assert_eq!(
        Packet::parse(LinkType::Ethernet, &buf[..n]),
        Err(ParseError::BadIpVersion(5))
    );
}

#[test]
fn rejects_ipv4_fragment() {
    let mut buf = [0u8; 64];
    let n = valid_ethernet_ipv4(&mut buf);
    buf[20] = 0x20; // set the More-Fragments flag (IP flags/frag high byte)
    assert_eq!(
        Packet::parse(LinkType::Ethernet, &buf[..n]),
        Err(ParseError::Fragmented)
    );
}

#[test]
fn rejects_non_udp() {
    let mut buf = [0u8; 64];
    let n = valid_ethernet_ipv4(&mut buf);
    buf[23] = 6; // IP protocol TCP
    assert_eq!(
        Packet::parse(LinkType::Ethernet, &buf[..n]),
        Err(ParseError::NotUdp(6))
    );
}

#[test]
fn rejects_oversized_total_length() {
    let mut buf = [0u8; 64];
    let n = valid_ethernet_ipv4(&mut buf);
    buf[16..18].copy_from_slice(&u16::MAX.to_be_bytes()); // total length past the frame
    assert_eq!(
        Packet::parse(LinkType::Ethernet, &buf[..n]),
        Err(ParseError::BadLength)
    );
}

#[test]
fn rejects_oversized_udp_length() {
    let mut buf = [0u8; 64];
    let n = valid_ethernet_ipv4(&mut buf);
    // UDP length field sits at the start of L4 + 4: Ethernet(14) + IPv4(20) + 4.
    buf[38..40].copy_from_slice(&u16::MAX.to_be_bytes());
    assert_eq!(
        Packet::parse(LinkType::Ethernet, &buf[..n]),
        Err(ParseError::BadLength)
    );
}

#[test]
fn rejects_ipv4_header_length_below_minimum() {
    let mut buf = [0u8; 64];
    let n = valid_ethernet_ipv4(&mut buf);
    buf[14] = 0x44; // version 4, IHL 4: a 16-byte header, below the 20-byte minimum
    assert_eq!(
        Packet::parse(LinkType::Ethernet, &buf[..n]),
        Err(ParseError::BadLength)
    );
}

#[test]
fn accepts_dont_fragment_flag() {
    let mut buf = [0u8; 64];
    let n = valid_ethernet_ipv4(&mut buf);
    buf[20] = 0x40; // DF set, MF and fragment offset clear
    buf[21] = 0x00;
    let packet = Packet::parse(LinkType::Ethernet, &buf[..n]).unwrap();
    assert_eq!(packet.payload, &[0xab; 4]);
}

#[test]
fn accepts_empty_udp_payload() {
    let src = SocketAddrV4::new(Ipv4Addr::new(10, 0, 0, 1), 1);
    let dst = SocketAddrV4::new(Ipv4Addr::new(10, 0, 0, 2), 2);
    let mac = MacAddr::broadcast();
    let mut buf = [0u8; 64];
    let n = frame::ethernet_ipv4_udp(mac, mac, src, dst, 64, &[], &mut buf).unwrap();
    let packet = Packet::parse(LinkType::Ethernet, &buf[..n]).unwrap();
    assert!(packet.payload.is_empty());
}

#[test]
fn rejects_truncated_ipv6_header() {
    // Ethernet header, then a valid IPv6 version nibble but fewer than 40 L3 bytes.
    let mut frame = [0u8; 30];
    frame[14] = 0x60;
    assert_eq!(
        Packet::parse(LinkType::Ethernet, &frame),
        Err(ParseError::Truncated)
    );
}

#[test]
fn rejects_ipv6_non_udp() {
    let mut buf = [0u8; 80];
    let n = valid_ethernet_ipv6(&mut buf);
    buf[20] = 6; // IPv6 next header (L3 offset 6) -> TCP
    assert_eq!(
        Packet::parse(LinkType::Ethernet, &buf[..n]),
        Err(ParseError::NotUdp(6))
    );
}

#[test]
fn rejects_oversized_ipv6_payload_length() {
    let mut buf = [0u8; 80];
    let n = valid_ethernet_ipv6(&mut buf);
    buf[18..20].copy_from_slice(&u16::MAX.to_be_bytes()); // payload length past the frame
    assert_eq!(
        Packet::parse(LinkType::Ethernet, &buf[..n]),
        Err(ParseError::BadLength)
    );
}

#[test]
fn rejects_udp_length_below_minimum() {
    let mut buf = [0u8; 64];
    let n = valid_ethernet_ipv4(&mut buf);
    buf[38..40].copy_from_slice(&4u16.to_be_bytes()); // UDP length below the 8-byte header
    assert_eq!(
        Packet::parse(LinkType::Ethernet, &buf[..n]),
        Err(ParseError::BadLength)
    );
}

#[test]
fn rejects_l4_region_smaller_than_the_udp_header() {
    let mut buf = [0u8; 64];
    let n = valid_ethernet_ipv4(&mut buf);
    buf[16..18].copy_from_slice(&24u16.to_be_bytes()); // total length leaves 4 bytes for L4
    assert_eq!(
        Packet::parse(LinkType::Ethernet, &buf[..n]),
        Err(ParseError::Truncated)
    );
}

#[test]
fn rejects_ethernet_frame_with_no_l3_bytes() {
    assert_eq!(
        Packet::parse(LinkType::Ethernet, &[0u8; ETHERNET_HEADER_SIZE]),
        Err(ParseError::Truncated)
    );
}

#[test]
fn parse_errors_have_words() {
    assert_eq!(ParseError::Truncated.message(), "frame is truncated");
    assert_eq!(
        ParseError::BadIpVersion(5).message(),
        "unsupported IP version 5"
    );
    assert_eq!(
        ParseError::NotUdp(6).message(),
        "not a UDP datagram (IP protocol 6)"
    );
}
