//! SSDP messages and their response window.

use reflector::net::ssdp::{classify, parse_msearch_mx, SsdpKind};

/// A well-formed M-SEARCH with the given MX field value.
fn msearch(mx: &str) -> Vec<u8> {
    format!(
        "M-SEARCH * HTTP/1.1\r\nHOST: 239.255.255.250:1900\r\n\
         MAN: \"ssdp:discover\"\r\nMX: {mx}\r\nST: ssdp:all\r\n\r\n"
    )
    .into_bytes()
}

#[test]
fn classifies_by_the_request_line_method() {
    assert_eq!(classify(b"M-SEARCH * HTTP/1.1\r\n"), Some(SsdpKind::Search));
    assert_eq!(
        classify(b"NOTIFY * HTTP/1.1\r\n"),
        Some(SsdpKind::Advertisement)
    );
}

#[test]
fn rejects_non_search_non_notify() {
    // A unicast search response travels off the multicast path; on the group it isn't reflected.
    assert_eq!(classify(b"HTTP/1.1 200 OK\r\n"), None);
    assert_eq!(classify(b""), None);
    assert_eq!(classify(b"GARBAGE"), None);
    // The method token must be whole: the prefix without its trailing space is not a match.
    assert_eq!(classify(b"NOTIFYING * HTTP/1.1\r\n"), None);
    assert_eq!(classify(b"M-SEARCHED"), None);
}

#[test]
fn parses_and_clamps_the_mx_window() {
    assert_eq!(parse_msearch_mx(&msearch("3")), Some(3));
    assert_eq!(parse_msearch_mx(&msearch("1")), Some(1));
    assert_eq!(parse_msearch_mx(&msearch("5")), Some(5));
    // Out of range clamps into [1, 5] (0 -> 1; anything above 5, including a value too big for a
    // u8, -> 5).
    assert_eq!(parse_msearch_mx(&msearch("0")), Some(1));
    assert_eq!(parse_msearch_mx(&msearch("10")), Some(5));
    assert_eq!(parse_msearch_mx(&msearch("900")), Some(5));
}

#[test]
fn mx_field_name_is_case_insensitive_and_space_tolerant() {
    assert_eq!(
        parse_msearch_mx(b"M-SEARCH * HTTP/1.1\r\nmx:2\r\n\r\n"),
        Some(2)
    );
    assert_eq!(
        parse_msearch_mx(b"M-SEARCH * HTTP/1.1\r\nMx:   4\r\n\r\n"),
        Some(4)
    );
}

#[test]
fn absent_or_unparseable_mx_is_none() {
    // No MX header at all.
    assert_eq!(
        parse_msearch_mx(b"M-SEARCH * HTTP/1.1\r\nST: ssdp:all\r\n\r\n"),
        None
    );
    // MX present but not a number, and present but empty.
    assert_eq!(
        parse_msearch_mx(b"M-SEARCH * HTTP/1.1\r\nMX: soon\r\n\r\n"),
        None
    );
    assert_eq!(
        parse_msearch_mx(b"M-SEARCH * HTTP/1.1\r\nMX:\r\n\r\n"),
        None
    );
    // The first MX line is decisive: a bad one isn't rescued by a later valid one.
    assert_eq!(
        parse_msearch_mx(b"M-SEARCH * HTTP/1.1\r\nMX: x\r\nMX: 3\r\n\r\n"),
        None
    );
}
