//! SSDP wire constants and the search/advertisement classifier, the reflector's directional gate.

use crate::bytes;
use crate::net::http::{ascii_bytes, strip_prefix_ignore_ascii_case};
use vstd::prelude::*;

verus! {

/// The SSDP UDP port (UPnP Device Architecture).
pub const SSDP_PORT: u16 = 1900;

/// SSDP messages default to IP TTL 2. A reflected message is a fresh one, so it carries 2.
pub const SSDP_TTL: u8 = 2;

/// The IPv4 SSDP multicast group's octets, 239.255.255.250.
pub const SSDP_GROUP_V4: [u8; 4] = [239, 255, 255, 250];

/// The IPv6 link-local SSDP multicast group's octets, ff02::c.
pub const SSDP_GROUP_V6_LINK_LOCAL: [u8; 16] = [0xff, 0x02, 0, 0, 0, 0, 0, 0, 0, 0, 0, 0, 0, 0, 0, 0x0c];

/// The IPv6 site-local SSDP multicast group's octets, ff05::c. SSDP joins both v6 scopes.
pub const SSDP_GROUP_V6_SITE_LOCAL: [u8; 16] = [0xff, 0x05, 0, 0, 0, 0, 0, 0, 0, 0, 0, 0, 0, 0, 0, 0x0c];

/// An SSDP message is a search or an advertisement, by its HTTPU request line. Searches
/// (`M-SEARCH`) are reflected source to target, advertisements (`NOTIFY`) target to source.
#[derive(Debug, Clone, Copy, PartialEq, Eq, Structural)]
pub enum SsdpKind {
    Search,
    Advertisement,
}

/// Whether `payload` begins with the ASCII text `prefix`.
pub open spec fn starts_with(payload: Seq<u8>, prefix: Seq<char>) -> bool {
    payload.len() >= prefix.len() && payload.take(prefix.len() as int)
        == crate::net::http::text(prefix)
}

/// The kind of a payload: by its request-line method, whose trailing space keeps a longer word
/// (`NOTIFYING`) from matching.
pub open spec fn kind_of(payload: Seq<u8>) -> Option<SsdpKind> {
    if starts_with(payload, "M-SEARCH "@) {
        Some(SsdpKind::Search)
    } else if starts_with(payload, "NOTIFY "@) {
        Some(SsdpKind::Advertisement)
    } else {
        None
    }
}

fn begins(payload: &[u8], prefix: &str) -> (r: bool)
    requires
        prefix.is_ascii(),
    ensures
        r == starts_with(payload@, prefix@),
{
    let pattern = ascii_bytes(prefix);
    if payload.len() < pattern.len() {
        return false;
    }
    let head = vstd::slice::slice_subrange(payload, 0, pattern.len());
    assert(head@ =~= payload@.take(prefix@.len() as int));
    bytes::bytes_eq(head, pattern)
}

/// Classifies a payload by its leading request line. Anything but an `M-SEARCH` or a `NOTIFY` (a
/// unicast search response, or junk on the group) is `None`, and is not reflected.
pub fn classify(payload: &[u8]) -> (kind: Option<SsdpKind>)
    ensures
        kind == kind_of(payload@),
{
    proof {
        reveal_strlit("M-SEARCH ");
        reveal_strlit("NOTIFY ");
    }
    if begins(payload, "M-SEARCH ") {
        Some(SsdpKind::Search)
    } else if begins(payload, "NOTIFY ") {
        Some(SsdpKind::Advertisement)
    } else {
        None
    }
}

/// The M-SEARCH response window, in seconds, where a search states no usable MX.
pub const MSEARCH_MX_DEFAULT: u8 = 3;

/// The least MX, in seconds (UPnP Device Architecture 2.0).
pub const MX_MIN: u8 = 1;

/// The greatest MX, in seconds.
pub const MX_MAX: u8 = 5;

/// A line without the carriage return that splitting on line feeds leaves at its end.
pub open spec fn without_cr(line: Seq<u8>) -> Seq<u8> {
    if line.len() > 0 && line.last() == 0x0d {
        line.drop_last()
    } else {
        line
    }
}

/// How many digits `s` begins with.
pub open spec fn digit_run(s: Seq<u8>) -> int
    decreases s.len(),
{
    if s.len() > 0 && bytes::digit(s[0], 10) is Some {
        1 + digit_run(s.drop_first())
    } else {
        0
    }
}

/// The window an MX field states: its leading number, clamped to the permitted range. `None` where
/// there is no number, or one that 32 bits do not hold.
pub open spec fn mx_value(field: Seq<u8>) -> Option<u8> {
    let value = bytes::trimmed_start(field);
    match bytes::unsigned_value(value.take(digit_run(value)), 10, u32::MAX as int) {
        Some(mx) => Some(
            if mx < MX_MIN {
                MX_MIN
            } else if mx > MX_MAX {
                MX_MAX
            } else {
                mx as u8
            },
        ),
        None => None,
    }
}

/// The window that the first MX line among `lines` states; that line is decisive.
pub open spec fn first_mx(lines: Seq<Seq<u8>>) -> Option<u8>
    decreases lines.len(),
{
    if lines.len() == 0 {
        None
    } else {
        match crate::net::http::stripped(
            without_cr(lines[0]),
            crate::net::http::text("MX:"@),
        ) {
            Some(field) => mx_value(field),
            None => first_mx(lines.drop_first()),
        }
    }
}

/// The MX window of an M-SEARCH.
pub open spec fn msearch_mx(payload: Seq<u8>) -> Option<u8> {
    first_mx(bytes::split_on(payload, 0x0a))
}

proof fn lemma_digit_run(s: Seq<u8>)
    ensures
        0 <= digit_run(s) <= s.len(),
    decreases s.len(),
{
    if s.len() > 0 && bytes::digit(s[0], 10) is Some {
        lemma_digit_run(s.drop_first());
    }
}

fn parse_mx(field: &[u8]) -> (mx: Option<u8>)
    ensures
        mx == mx_value(field@),
{
    let value = bytes::trim_ascii_start(field);
    let n: usize = value.len();
    let mut end: usize = 0;
    assert(value@.skip(0) =~= value@);
    while end < n && value[end] >= 0x30 && value[end] <= 0x39
        invariant
            n == value@.len(),
            end <= n,
            digit_run(value@) == end + digit_run(value@.skip(end as int)),
        decreases n - end,
    {
        assert(value@.skip(end as int).drop_first() =~= value@.skip(end + 1));
        end += 1;
    }
    let run = vstd::slice::slice_subrange(value, 0, end);
    assert(run@ =~= value@.take(end as int));
    match bytes::parse_unsigned(run, 10, u32::MAX as u64) {
        Some(mx) => if mx < MX_MIN as u64 {
            Some(MX_MIN)
        } else if mx > MX_MAX as u64 {
            Some(MX_MAX)
        } else {
            Some(mx as u8)
        },
        None => None,
    }
}

/// Parses an M-SEARCH's `MX:` header, the searcher's maximum response wait in seconds, clamped to
/// the permitted range. The first `MX:` line (the name without regard to case) decides; `None`
/// where there is none or its value is no number.
pub fn parse_msearch_mx(payload: &[u8]) -> (mx: Option<u8>)
    ensures
        mx == msearch_mx(payload@),
{
    proof {
        reveal_strlit("MX:");
    }
    let name = ascii_bytes("MX:");
    let mut rest = payload;
    loop
        invariant
            name@ == crate::net::http::text("MX:"@),
            msearch_mx(payload@) == msearch_mx(rest@),
        decreases rest@.len(),
    {
        let n: usize = rest.len();
        let found = bytes::find_byte(rest, 0x0a);
        let ghost lines = bytes::split_on(rest@, 0x0a);
        let end: usize = match found {
            Some(i) => i,
            None => n,
        };
        let cut: usize = if end > 0 && rest[end - 1] == 0x0d {
            end - 1
        } else {
            end
        };
        let line = vstd::slice::slice_subrange(rest, 0, cut);
        assert(lines[0] =~= rest@.take(end as int));
        assert(line@ =~= without_cr(lines[0]));
        match strip_prefix_ignore_ascii_case(line, name) {
            Some(field) => {
                return parse_mx(field);
            },
            None => {},
        }
        match found {
            Some(i) => {
                let after = vstd::slice::slice_subrange(rest, i + 1, n);
                assert(after@ =~= rest@.skip(i + 1));
                assert(lines.drop_first() =~= bytes::split_on(after@, 0x0a));
                rest = after;
            },
            None => {
                assert(lines.drop_first() =~= Seq::<Seq<u8>>::empty());
                assert(first_mx(lines.drop_first()) is None);
                return None;
            },
        }
    }
}

/// Whatever a search states, the window it is given lies between one and five seconds.
pub proof fn law_mx_in_range(payload: Seq<u8>)
    ensures
        msearch_mx(payload) matches Some(mx) ==> MX_MIN <= mx <= MX_MAX,
{
    lemma_first_mx_in_range(bytes::split_on(payload, 0x0a));
}

proof fn lemma_first_mx_in_range(lines: Seq<Seq<u8>>)
    ensures
        first_mx(lines) matches Some(mx) ==> MX_MIN <= mx <= MX_MAX,
    decreases lines.len(),
{
    if lines.len() > 0 {
        lemma_first_mx_in_range(lines.drop_first());
    }
}

} // verus!
