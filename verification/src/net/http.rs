//! HTTP/1.1 message helpers: the IPv4 authority parser shared by the DIAL
//! proxy's `Host` / `Application-URL` / `Location` rewrites and the SSDP
//! `LOCATION` rewrite, and the case-insensitive header-prefix match. The
//! streaming framer is in [`framing`].

pub mod framing;

use crate::bytes;
use crate::net::addr::{
    decimal, endpoint_text, ipv4_value, octet_value, parse_ipv4, SocketAddrV4,
};
use vstd::prelude::*;

verus! {

/// A parsed HTTP authority and the span (`offset`, `len`) of its `host[:port]`
/// text within the source value, so that a caller splices a replacement over
/// exactly that span. The rewrites are IPv4-only, hence [`SocketAddrV4`].
#[derive(Clone, Copy, Debug)]
pub struct Authority {
    pub endpoint: SocketAddrV4,
    pub offset: usize,
    pub len: usize,
}

/// The bytes of an ASCII text.
pub open spec fn text(s: Seq<char>) -> Seq<u8> {
    Seq::new(s.len(), |i: int| s[i] as u8)
}

/// The bytes of an ASCII string.
pub fn ascii_bytes(s: &str) -> (r: &[u8])
    requires
        s.is_ascii(),
    ensures
        r@ == text(s@),
{
    let r = s.as_bytes();
    proof {
        vstd::string::is_ascii_spec_bytes(s);
        assert(r@ =~= text(s@));
    }
    r
}

/// `line` after `prefix`, matched without regard to ASCII case.
pub open spec fn stripped(line: Seq<u8>, prefix: Seq<u8>) -> Option<Seq<u8>> {
    if prefix.len() <= line.len() && bytes::same_ignoring_case(
        line.take(prefix.len() as int),
        prefix,
    ) {
        Some(line.skip(prefix.len() as int))
    } else {
        None
    }
}

/// `line` with `prefix` removed if it begins with it (ASCII case-insensitive),
/// else `None`.
pub fn strip_prefix_ignore_ascii_case<'a>(line: &'a [u8], prefix: &[u8]) -> (r: Option<&'a [u8]>)
    ensures
        match r {
            Some(rest) => stripped(line@, prefix@) == Some(rest@),
            None => stripped(line@, prefix@) is None,
        },
{
    if line.len() < prefix.len() {
        return None;
    }
    let head = vstd::slice::slice_subrange(line, 0, prefix.len());
    assert(head@ =~= line@.take(prefix@.len() as int));
    if bytes::eq_ignore_ascii_case(head, prefix) {
        let rest = vstd::slice::slice_subrange(line, prefix.len(), line.len());
        assert(rest@ =~= line@.skip(prefix@.len() as int));
        Some(rest)
    } else {
        None
    }
}

/// The bytes that end an authority: slash, space, tab and carriage return.
pub open spec fn ends_authority(b: u8) -> bool {
    b == 0x2f || b == 0x20 || b == 0x09 || b == 0x0d
}

/// The length of the authority at the front of `s`.
pub open spec fn authority_len(s: Seq<u8>, from: int) -> int
    decreases s.len() - from,
{
    if from < 0 || from >= s.len() || ends_authority(s[from]) {
        from
    } else {
        authority_len(s, from + 1)
    }
}

/// The last index before `end` that holds the byte `b`.
pub open spec fn last_index(s: Seq<u8>, b: u8, end: int) -> Option<int>
    decreases end,
{
    if end <= 0 {
        None
    } else if s[end - 1] == b {
        Some(end - 1)
    } else {
        last_index(s, b, end - 1)
    }
}

/// The endpoint that `host[:port]` names: an IPv4 literal, and a port in
/// `1..=65535` behind the last colon, 80 where there is no colon.
pub open spec fn endpoint_of(authority: Seq<u8>) -> Option<SocketAddrV4> {
    match last_index(authority, 0x3a, authority.len() as int) {
        Some(colon) => match (
            ipv4_value(authority.take(colon)),
            bytes::unsigned_value(authority.skip(colon + 1), 10, 65535),
        ) {
            (Some(ip), Some(port)) => if port != 0 {
                Some(SocketAddrV4 { ip, port: port as u16 })
            } else {
                None
            },
            _ => None,
        },
        None => match ipv4_value(authority) {
            Some(ip) => Some(SocketAddrV4 { ip, port: 80 }),
            None => None,
        },
    }
}

/// The part of `value` at which its authority starts: all of it where `bare`,
/// else what follows `http://`.
pub open spec fn authority_start(value: Seq<u8>, bare: bool) -> Option<Seq<u8>> {
    if bare {
        Some(value)
    } else {
        stripped(value, text("http://"@))
    }
}

/// The authority that `value` starts with: the endpoint it names, and where its
/// text stands in `value`.
pub open spec fn authority_of(value: Seq<u8>, bare: bool) -> Option<Authority> {
    match authority_start(value, bare) {
        Some(rest) => {
            let len = authority_len(rest, 0);
            match endpoint_of(rest.take(len)) {
                Some(endpoint) => Some(
                    Authority {
                        endpoint,
                        offset: (value.len() - rest.len()) as usize,
                        len: len as usize,
                    },
                ),
                None => None,
            }
        },
        None => None,
    }
}

/// An authority ends within the string it starts.
pub proof fn lemma_authority_len(s: Seq<u8>, from: int)
    requires
        0 <= from <= s.len(),
    ensures
        from <= authority_len(s, from) <= s.len(),
    decreases s.len() - from,
{
    if from < s.len() && !ends_authority(s[from]) {
        lemma_authority_len(s, from + 1);
    }
}

/// The endpoint that `host[:port]` text names.
fn parse_endpoint(authority: &[u8]) -> (r: Option<SocketAddrV4>)
    ensures
        r == endpoint_of(authority@),
{
    let n: usize = authority.len();
    let mut end: usize = n;
    while end > 0 && authority[end - 1] != 0x3a
        invariant
            end <= n,
            n == authority@.len(),
            last_index(authority@, 0x3a, n as int) == last_index(authority@, 0x3a, end as int),
        decreases end,
    {
        end -= 1;
    }
    if end == 0 {
        return match parse_ipv4(authority) {
            Some(ip) => Some(SocketAddrV4::new(ip, 80)),
            None => None,
        };
    }
    let host = vstd::slice::slice_subrange(authority, 0, end - 1);
    let port = vstd::slice::slice_subrange(authority, end, n);
    proof {
        assert(host@ =~= authority@.take(end - 1));
        assert(port@ =~= authority@.skip(end as int));
    }
    match (parse_ipv4(host), bytes::parse_unsigned(port, 10, 65535)) {
        (Some(ip), Some(p)) => if p != 0 {
            Some(SocketAddrV4::new(ip, p as u16))
        } else {
            None
        },
        _ => None,
    }
}

/// Parse an authority from `value`. `bare` (a `Host` header) treats the whole
/// value as the authority; else `value` must be an `http://host[:port]...` URL
/// (no `https`). The host must be an IPv4 literal; the port defaults to 80, else
/// must parse in `1..=65535`. `offset` and `len` are relative to `value`.
pub fn parse_authority(value: &[u8], bare: bool) -> (r: Option<Authority>)
    ensures
        r == authority_of(value@, bare),
        r matches Some(a) ==> a.offset + a.len <= value@.len(),
{
    proof {
        reveal_strlit("http://");
    }
    let rest = if bare {
        value
    } else {
        match strip_prefix_ignore_ascii_case(value, ascii_bytes("http://")) {
            Some(rest) => rest,
            None => {
                return None;
            },
        }
    };
    let offset: usize = value.len() - rest.len();
    let n: usize = rest.len();
    let mut len: usize = 0;
    while len < n && !(rest[len] == 0x2f || rest[len] == 0x20 || rest[len] == 0x09 || rest[len]
        == 0x0d)
        invariant
            len <= n,
            n == rest@.len(),
            authority_len(rest@, 0) == authority_len(rest@, len as int),
        decreases n - len,
    {
        len += 1;
    }
    let authority = vstd::slice::slice_subrange(rest, 0, len);
    assert(authority@ =~= rest@.take(len as int));
    match parse_endpoint(authority) {
        Some(endpoint) => Some(Authority { endpoint, offset, len }),
        None => None,
    }
}

/// An authority ends at a delimiter or at the end of the string.
pub proof fn lemma_authority_stop(s: Seq<u8>, from: int)
    requires
        0 <= from <= s.len(),
    ensures
        authority_len(s, from) < s.len() ==> ends_authority(s[authority_len(s, from)]),
    decreases s.len() - from,
{
    if from < s.len() && !ends_authority(s[from]) {
        lemma_authority_stop(s, from + 1);
    }
}

/// The authority's length, told by its bytes.
pub proof fn lemma_authority_len_at(s: Seq<u8>, from: int, len: int)
    requires
        0 <= from <= len <= s.len(),
        forall|i: int| from <= i < len ==> !ends_authority(#[trigger] s[i]),
        len < s.len() ==> ends_authority(s[len]),
    ensures
        authority_len(s, from) == len,
    decreases len - from,
{
    if from < len {
        lemma_authority_len_at(s, from + 1, len);
    }
}

/// The last index of `b` in `head`, `b` and `tail` one behind the other, where
/// `tail` has no `b`.
proof fn lemma_last_index_at(s: Seq<u8>, b: u8, at: int, end: int)
    requires
        0 <= at < end <= s.len(),
        s[at] == b,
        forall|i: int| at < i < end ==> s[i] != b,
    ensures
        last_index(s, b, end) == Some(at),
    decreases end,
{
    if end - 1 > at {
        lemma_last_index_at(s, b, at, end - 1);
    }
}

/// The bytes of an endpoint's text: digits, dots and a colon.
pub open spec fn endpoint_byte(b: u8) -> bool {
    b == 0x2e || 0x30 <= b <= 0x3a
}

/// Whether all of `s` is of the bytes of an endpoint's text.
pub open spec fn endpoint_bytes(s: Seq<u8>) -> bool {
    forall|i: int| 0 <= i < s.len() ==> endpoint_byte(#[trigger] s[i])
}

/// The text `a.b.c.d`.
spec fn host_text(ip: crate::net::addr::Ipv4Addr) -> Seq<u8> {
    let dot = seq![0x2eu8];
    decimal(ip@[0] as nat) + dot + decimal(ip@[1] as nat) + dot + decimal(ip@[2] as nat) + dot
        + decimal(ip@[3] as nat)
}

proof fn lemma_host_bytes(ip: crate::net::addr::Ipv4Addr)
    ensures
        endpoint_bytes(host_text(ip)),
        forall|i: int| 0 <= i < host_text(ip).len() ==> host_text(ip)[i] != 0x3a,
        host_text(ip).len() > 0,
{
    lemma_decimal(ip@[0] as nat);
    lemma_decimal(ip@[1] as nat);
    lemma_decimal(ip@[2] as nat);
    lemma_decimal(ip@[3] as nat);
}

proof fn lemma_host_text(ip: crate::net::addr::Ipv4Addr)
    ensures
        ipv4_value(host_text(ip)) == Some(ip),
{
    let d0 = decimal(ip@[0] as nat);
    let d1 = decimal(ip@[1] as nat);
    let d2 = decimal(ip@[2] as nat);
    let d3 = decimal(ip@[3] as nat);
    lemma_octet(ip@[0]);
    lemma_octet(ip@[1]);
    lemma_octet(ip@[2]);
    lemma_octet(ip@[3]);
    let dot = seq![0x2eu8];
    let host = host_text(ip);
    let h2 = d2 + dot + d3;
    let h1 = d1 + dot + h2;
    assert(host =~= d0 + dot + h1);
    lemma_split_last(d3, 0x2e);
    lemma_split_front(d2, d3, 0x2e);
    lemma_split_front(d1, h2, 0x2e);
    lemma_split_front(d0, h1, 0x2e);
    let parts = bytes::split_on(host, 0x2e);
    assert(parts =~= seq![d0, d1, d2, d3]);
    crate::net::addr::lemma_ipv4_from(ip);
    assert(ip@ =~= seq![ip@[0], ip@[1], ip@[2], ip@[3]]);
}

/// The text of an endpoint with a nonzero port parses back as that endpoint, and
/// is of digits, dots and a colon.
pub proof fn lemma_endpoint_text(a: SocketAddrV4)
    ensures
        a.port != 0 ==> endpoint_of(endpoint_text(a)) == Some(a),
        endpoint_text(a).len() > 0,
        endpoint_bytes(endpoint_text(a)),
{
    let p = decimal(a.port as nat);
    let host = host_text(a.ip);
    let t = endpoint_text(a);
    lemma_host_bytes(a.ip);
    lemma_decimal(a.port as nat);
    assert(t =~= host + seq![0x3au8] + p);
    let colon = host.len() as int;
    lemma_last_index_at(t, 0x3a, colon, t.len() as int);
    assert(t.take(colon) =~= host);
    assert(t.skip(colon + 1) =~= p);
    lemma_host_text(a.ip);
    assert(bytes::digit(p[0], 10) is Some);
    assert(bytes::unsigned_body(p) == p);
}

/// What the decimal digits of a number are.
proof fn lemma_decimal(n: nat)
    requires
        n <= 65535,
    ensures
        decimal(n).len() >= 1,
        bytes::all_digits(decimal(n), 10),
        bytes::digits_value(decimal(n), 10) == n,
        n >= 10 ==> decimal(n)[0] != 0x30,
        n < 10 ==> decimal(n).len() == 1,
        n < 100 ==> decimal(n).len() <= 2,
        n < 1000 ==> decimal(n).len() <= 3,
        n > 0 ==> decimal(n)[0] != 0x30,
        forall|i: int|
            0 <= i < decimal(n).len() ==> 0x30 <= #[trigger] decimal(n)[i] <= 0x39,
    decreases n,
{
    let d = decimal(n);
    if n < 10 {
        assert(d.drop_last() =~= Seq::<u8>::empty());
        assert(bytes::digits_value(d.drop_last(), 10) == 0);
        assert(bytes::digits_value(d, 10) == n);
    } else {
        lemma_decimal(n / 10);
        assert(d.drop_last() =~= decimal(n / 10));
        assert(bytes::digits_value(d, 10) == (n / 10) * 10 + n % 10);
    }
}

proof fn lemma_octet(v: u8)
    ensures
        octet_value(decimal(v as nat)) == Some(v),
        forall|i: int| 0 <= i < decimal(v as nat).len() ==> decimal(v as nat)[i] != 0x2e,
{
    lemma_decimal(v as nat);
}

proof fn lemma_split_last(s: Seq<u8>, b: u8)
    requires
        forall|i: int| 0 <= i < s.len() ==> s[i] != b,
    ensures
        bytes::split_on(s, b) == seq![s],
{
    bytes::lemma_first_index(s, b, 0);
}

proof fn lemma_split_front(head: Seq<u8>, tail: Seq<u8>, b: u8)
    requires
        forall|i: int| 0 <= i < head.len() ==> head[i] != b,
    ensures
        bytes::split_on(head + seq![b] + tail, b) == seq![head] + bytes::split_on(tail, b),
{
    let s = head + seq![b] + tail;
    bytes::lemma_first_index(s, b, 0);
    assert(s[head.len() as int] == b);
    assert(bytes::first_index(s, b, 0) == Some(head.len() as int)) by {
        let i = bytes::first_index(s, b, 0)->0;
        if i < head.len() {
            assert(s[i] == head[i]);
        }
    }
    assert(s.take(head.len() as int) =~= head);
    assert(s.skip(head.len() as int + 1) =~= tail);
}

} // verus!
