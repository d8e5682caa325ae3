//! Telling mDNS queries from responses.

use reflector::net::mdns::{classify, MdnsKind, DNS_HEADER_LEN, FLAGS_HIGH};

/// A minimal DNS message: a 12-byte header with `flags_high` at offset 2, plus a `tail`.
fn message(flags_high: u8, tail: &[u8]) -> Vec<u8> {
    let mut m = vec![0u8; DNS_HEADER_LEN];
    m[FLAGS_HIGH] = flags_high;
    m.extend_from_slice(tail);
    m
}

#[test]
fn classifies_by_the_qr_bit_only() {
    assert_eq!(classify(&message(0x00, b"")), Some(MdnsKind::Query)); // QR=0
    assert_eq!(classify(&message(0x84, b"q")), Some(MdnsKind::Response)); // QR=1, AA
    // Only the QR bit is read; the other flag bits don't change the verdict.
    assert_eq!(classify(&message(0x7f, b"")), Some(MdnsKind::Query));
    assert_eq!(classify(&message(0xff, b"")), Some(MdnsKind::Response));
}

#[test]
fn rejects_a_payload_too_short_for_a_dns_header() {
    assert_eq!(classify(b""), None);
    assert_eq!(classify(&[0u8; DNS_HEADER_LEN - 1]), None); // one byte short
    // Exactly the header length suffices (an all-zero header is a query).
    assert_eq!(classify(&[0u8; DNS_HEADER_LEN]), Some(MdnsKind::Query));
}
