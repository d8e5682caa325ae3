//! Authorities in HTTP headers.

use reflector::net::addr::{Ipv4Addr, SocketAddrV4};
use reflector::net::http::{parse_authority, strip_prefix_ignore_ascii_case};

fn endpoint(a: u8, b: u8, c: u8, d: u8, port: u16) -> SocketAddrV4 {
    SocketAddrV4::new(Ipv4Addr::new(a, b, c, d), port)
}

#[test]
fn parses_an_http_url_authority() {
    // Default port (80) with the host:port span relative to `value`.
    let a = parse_authority(b"http://10.0.0.7/dd.xml", false).unwrap();
    assert_eq!(a.endpoint, endpoint(10, 0, 0, 7, 80));
    assert_eq!(
        &b"http://10.0.0.7/dd.xml"[a.offset..a.offset + a.len],
        b"10.0.0.7"
    );
    // Explicit port.
    let a = parse_authority(b"http://192.168.1.50:8080/x", false).unwrap();
    assert_eq!(a.endpoint, endpoint(192, 168, 1, 50, 8080));
}

#[test]
fn authority_terminates_at_space_or_cr() {
    let a = parse_authority(b"http://10.0.0.7:8080 HTTP/1.1", false).unwrap();
    assert_eq!(a.endpoint, endpoint(10, 0, 0, 7, 8080));
    assert_eq!(a.len, "10.0.0.7:8080".len());
    assert_eq!(
        parse_authority(b"http://10.0.0.7\r", false)
            .unwrap()
            .endpoint,
        endpoint(10, 0, 0, 7, 80)
    );
}

#[test]
fn parse_authority_handles_a_bare_host_value() {
    let a = parse_authority(b"192.168.1.5:1900", true).unwrap();
    assert_eq!(a.endpoint, endpoint(192, 168, 1, 5, 1900));
    assert_eq!((a.offset, a.len), (0, "192.168.1.5:1900".len()));
}

#[test]
fn rejects_non_http_non_ipv4_or_malformed_authorities() {
    assert!(parse_authority(b"https://10.0.0.1/x", false).is_none()); // not http
    assert!(parse_authority(b"http://tv.local/x", false).is_none()); // hostname, not IPv4
    assert!(parse_authority(b"http://10.0.0.1:0/x", false).is_none()); // port 0
    assert!(parse_authority(b"http://10.0.0.1:80x/x", false).is_none()); // trailing junk on port
}

#[test]
fn strip_prefix_matches_case_insensitively() {
    assert_eq!(
        strip_prefix_ignore_ascii_case(b"Host: x", b"host:"),
        Some(&b" x"[..])
    );
    assert!(strip_prefix_ignore_ascii_case(b"X", b"host:").is_none()); // shorter than the prefix
    assert!(strip_prefix_ignore_ascii_case(b"HosX: x", b"host:").is_none()); // mismatch
}
