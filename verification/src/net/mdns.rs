//! mDNS wire constants and the query/response classifier, the reflector's directional gate.

use vstd::prelude::*;

verus! {

/// The mDNS UDP port (RFC 6762).
pub const MDNS_PORT: u16 = 5353;

/// mDNS messages carry IP TTL 255, so that a receiver can tell that the message originated on the
/// local link (RFC 6762 section 11). A reflected message is a fresh link-local one.
pub const MDNS_TTL: u8 = 255;

/// The IPv4 mDNS multicast group's octets, 224.0.0.251.
pub const MDNS_GROUP_V4: [u8; 4] = [224, 0, 0, 251];

/// The IPv6 link-local mDNS multicast group's octets, ff02::fb.
pub const MDNS_GROUP_V6: [u8; 16] = [0xff, 0x02, 0, 0, 0, 0, 0, 0, 0, 0, 0, 0, 0, 0, 0, 0xfb];

/// An mDNS message is a query or a response. Unsolicited announcements are responses too
/// (RFC 6762 section 8.3). Queries are reflected source to target, responses target to source.
#[derive(Debug, Clone, Copy, PartialEq, Eq, Structural)]
pub enum MdnsKind {
    Query,
    Response,
}

/// The fixed DNS header is 12 bytes (RFC 1035 section 4.1.1).
pub const DNS_HEADER_LEN: usize = 12;

/// The high byte of the flags field in the header; the QR bit is its top bit.
pub const FLAGS_HIGH: usize = 2;

/// The kind that a payload's DNS header states: the top bit of the flags (QR) tells a response
/// from a query. `None` where the payload is too short for a header.
pub open spec fn kind_of(payload: Seq<u8>) -> Option<MdnsKind> {
    if payload.len() < DNS_HEADER_LEN {
        None
    } else if payload[FLAGS_HIGH as int] >= 128 {
        Some(MdnsKind::Response)
    } else {
        Some(MdnsKind::Query)
    }
}

/// Classifies a payload by the QR bit of its DNS header. Nothing behind the header is read.
pub fn classify(payload: &[u8]) -> (kind: Option<MdnsKind>)
    ensures
        kind == kind_of(payload@),
{
    if payload.len() < DNS_HEADER_LEN {
        return None;
    }
    let flags: u8 = payload[FLAGS_HIGH];
    assert(flags & 0x80 != 0 <==> flags >= 128) by (bit_vector);
    if flags & 0x80 != 0 {
        Some(MdnsKind::Response)
    } else {
        Some(MdnsKind::Query)
    }
}

} // verus!
