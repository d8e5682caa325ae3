//! Internet checksums.

use reflector::net::addr::{Ipv4Addr, Ipv6Addr};
use reflector::net::checksum::{fold, ipv4_header, sum_words, udp_v4, udp_v6};

// The canonical IPv4 header example, checksum field (bytes 10-11) zeroed;
// its checksum is the well-known 0xb861.
const IPV4_HEADER: [u8; 20] = [
    0x45, 0x00, 0x00, 0x73, 0x00, 0x00, 0x40, 0x00, 0x40, 0x11, 0x00, 0x00, 0xc0, 0xa8, 0x00,
    0x01, 0xc0, 0xa8, 0x00, 0xc7,
];

#[test]
fn ipv4_header_matches_known_vector() {
    assert_eq!(ipv4_header(&IPV4_HEADER), 0xb861);
}

#[test]
fn ipv4_header_ignores_the_checksum_field() {
    let mut header = IPV4_HEADER;
    header[10] = 0xab;
    header[11] = 0xcd;
    // Bytes 10-11 are summed as zero, so a stale checksum field is harmless.
    assert_eq!(ipv4_header(&header), 0xb861);
}

#[test]
fn sum_words_pads_an_odd_tail_high() {
    // One word then a lone byte: 0x1234 + (0x56 << 8) = 0x6834.
    assert_eq!(sum_words(&[0x12, 0x34, 0x56], 0), 0x6834);
}

#[test]
fn udp_v4_matches_hand_computed_vector() {
    let src = Ipv4Addr::new(192, 168, 0, 1);
    let dst = Ipv4Addr::new(192, 168, 0, 199);
    let udp = [0x12, 0x34, 0x56, 0x78, 0x00, 0x08, 0x00, 0x00];
    assert_eq!(udp_v4(src, dst, &udp), 0x1519);
}

#[test]
fn udp_v4_ignores_the_checksum_field() {
    let src = Ipv4Addr::new(192, 168, 0, 1);
    let dst = Ipv4Addr::new(192, 168, 0, 199);
    // Odd-length datagram (1-byte payload) also exercises the odd tail.
    let mut udp = [0x12, 0x34, 0x56, 0x78, 0x00, 0x09, 0x00, 0x00, 0xaa];
    let zeroed = udp_v4(src, dst, &udp);
    udp[6] = 0xde;
    udp[7] = 0xad;
    assert_eq!(udp_v4(src, dst, &udp), zeroed);
}

#[test]
fn udp_v4_zero_checksum_maps_to_ffff() {
    // Crafted so the folded sum is 0xffff and the complement (0) is remapped
    // to 0xffff per RFC 768.
    let zero = Ipv4Addr::new(0, 0, 0, 0);
    assert_eq!(udp_v4(zero, zero, &[0xff, 0xe6, 0, 0, 0, 0, 0, 0]), 0xffff);
}

#[test]
fn udp_v6_matches_hand_computed_vector() {
    let src = Ipv6Addr::new(0, 0, 0, 0, 0, 0, 0, 1); // ::1
    let dst = Ipv6Addr::new(0, 0, 0, 0, 0, 0, 0, 2); // ::2
    let udp = [0x12, 0x34, 0x56, 0x78, 0x00, 0x08, 0x00, 0x00];
    assert_eq!(udp_v6(src, dst, &udp), 0x972f);
}

#[test]
fn udp_v6_ignores_the_checksum_field() {
    let src = Ipv6Addr::new(0, 0, 0, 0, 0, 0, 0, 1);
    let dst = Ipv6Addr::new(0, 0, 0, 0, 0, 0, 0, 2);
    let mut udp = [0x12, 0x34, 0x56, 0x78, 0x00, 0x09, 0x00, 0x00, 0xaa];
    let zeroed = udp_v6(src, dst, &udp);
    udp[6] = 0xde;
    udp[7] = 0xad;
    assert_eq!(udp_v6(src, dst, &udp), zeroed);
}

#[test]
fn udp_v6_zero_checksum_maps_to_ffff() {
    let zero = Ipv6Addr::new(0, 0, 0, 0, 0, 0, 0, 0);
    assert_eq!(udp_v6(zero, zero, &[0xff, 0xe6, 0, 0, 0, 0, 0, 0]), 0xffff);
}

#[test]
fn a_header_with_its_checksum_verifies() {
    let mut header = IPV4_HEADER;
    header[10..12].copy_from_slice(&ipv4_header(&IPV4_HEADER).to_be_bytes());
    assert_eq!(fold(sum_words(&header, 0)), 0);
}

#[test]
fn a_datagram_with_its_checksum_verifies() {
    let (src, dst) = (Ipv4Addr::new(10, 0, 0, 1), Ipv4Addr::new(10, 0, 0, 2));
    let mut udp = [0x14, 0xe9, 0x14, 0xe9, 0x00, 0x0b, 0, 0, 1, 2, 3];
    let checksum = udp_v4(src, dst, &udp);
    udp[6..8].copy_from_slice(&checksum.to_be_bytes());
    let pseudo = [10, 0, 0, 1, 10, 0, 0, 2, 0, 17, 0, 11];
    assert_eq!(fold(sum_words(&udp, sum_words(&pseudo, 0))), 0);
}
