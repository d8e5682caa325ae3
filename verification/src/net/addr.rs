//! IP and socket addresses as plain values, with the address classes that the
//! reflector asks about and the text form of an IPv4 endpoint.

use crate::bytes;
use vstd::prelude::*;

verus! {

/// An IPv4 address, in network byte order.
#[derive(Clone, Copy, Debug)]
pub struct Ipv4Addr {
    pub octets: [u8; 4],
}

/// An IPv6 address, in network byte order.
#[derive(Clone, Copy, Debug)]
pub struct Ipv6Addr {
    pub octets: [u8; 16],
}

impl View for Ipv4Addr {
    type V = Seq<u8>;

    open spec fn view(&self) -> Seq<u8> {
        self.octets@
    }
}

impl View for Ipv6Addr {
    type V = Seq<u8>;

    open spec fn view(&self) -> Seq<u8> {
        self.octets@
    }
}

impl PartialEq for Ipv4Addr {
    fn eq(&self, other: &Self) -> (r: bool) {
        let r = bytes::bytes_eq(&self.octets, &other.octets);
        proof {
            if self.octets@ == other.octets@ {
                assert(self.octets =~= other.octets);
            }
        }
        r
    }
}

impl vstd::std_specs::cmp::PartialEqSpecImpl for Ipv4Addr {
    open spec fn obeys_eq_spec() -> bool {
        true
    }

    open spec fn eq_spec(&self, other: &Self) -> bool {
        *self == *other
    }
}

impl Eq for Ipv4Addr {

}

impl PartialEq for Ipv6Addr {
    fn eq(&self, other: &Self) -> (r: bool) {
        let r = bytes::bytes_eq(&self.octets, &other.octets);
        proof {
            if self.octets@ == other.octets@ {
                assert(self.octets =~= other.octets);
            }
        }
        r
    }
}

impl vstd::std_specs::cmp::PartialEqSpecImpl for Ipv6Addr {
    open spec fn obeys_eq_spec() -> bool {
        true
    }

    open spec fn eq_spec(&self, other: &Self) -> bool {
        *self == *other
    }
}

impl Eq for Ipv6Addr {

}

impl Ipv4Addr {
    /// The address `a.b.c.d`.
    pub fn new(a: u8, b: u8, c: u8, d: u8) -> (r: Self)
        ensures
            r@ == seq![a, b, c, d],
    {
        let r = Ipv4Addr { octets: [a, b, c, d] };
        assert(r@ =~= seq![a, b, c, d]);
        r
    }

    /// Whether the address is in `224.0.0.0/4`.
    pub open spec fn multicast(self) -> bool {
        224 <= self@[0] <= 239
    }

    /// Whether the address is in `224.0.0.0/4`.
    pub fn is_multicast(&self) -> (r: bool)
        ensures
            r == self.multicast(),
    {
        self.octets[0] >= 224 && self.octets[0] <= 239
    }

    /// Whether the address is the limited broadcast `255.255.255.255`.
    pub open spec fn limited_broadcast(self) -> bool {
        self@ == seq![255u8, 255u8, 255u8, 255u8]
    }

    /// Whether the address is the limited broadcast `255.255.255.255`.
    pub fn is_broadcast(&self) -> (r: bool)
        ensures
            r == self.limited_broadcast(),
    {
        let r = self.octets[0] == 255 && self.octets[1] == 255 && self.octets[2] == 255
            && self.octets[3] == 255;
        proof {
            if r {
                assert(self@ =~= seq![255u8, 255u8, 255u8, 255u8]);
            }
        }
        r
    }
}

impl Ipv6Addr {
    /// The address of the eight 16-bit segments, most significant first.
    pub fn new(a: u16, b: u16, c: u16, d: u16, e: u16, f: u16, g: u16, h: u16) -> (r: Self)
        ensures
            r@ == segment_bytes(a) + segment_bytes(b) + segment_bytes(c) + segment_bytes(d)
                + segment_bytes(e) + segment_bytes(f) + segment_bytes(g) + segment_bytes(h),
    {
        let r = Ipv6Addr {
            octets: [
                (a / 256) as u8,
                (a % 256) as u8,
                (b / 256) as u8,
                (b % 256) as u8,
                (c / 256) as u8,
                (c % 256) as u8,
                (d / 256) as u8,
                (d % 256) as u8,
                (e / 256) as u8,
                (e % 256) as u8,
                (f / 256) as u8,
                (f % 256) as u8,
                (g / 256) as u8,
                (g % 256) as u8,
                (h / 256) as u8,
                (h % 256) as u8,
            ],
        };
        assert(r@ =~= segment_bytes(a) + segment_bytes(b) + segment_bytes(c) + segment_bytes(d)
            + segment_bytes(e) + segment_bytes(f) + segment_bytes(g) + segment_bytes(h));
        r
    }

    /// Whether the address is in `ff00::/8`.
    pub open spec fn multicast(self) -> bool {
        self@[0] == 0xff
    }

    /// Whether the address is in `ff00::/8`.
    pub fn is_multicast(&self) -> (r: bool)
        ensures
            r == self.multicast(),
    {
        self.octets[0] == 0xff
    }

    /// Whether the first fifteen octets are zero and the last is `last`.
    pub open spec fn zero_but_last(self, last: u8) -> bool {
        &&& forall|i: int| 0 <= i < 15 ==> self@[i] == 0
        &&& self@[15] == last
    }

    fn is_zero_but_last(&self, last: u8) -> (r: bool)
        ensures
            r == self.zero_but_last(last),
    {
        for i in 0..15usize
            invariant
                forall|j: int| 0 <= j < i ==> self@[j] == 0,
        {
            if self.octets[i] != 0 {
                return false;
            }
        }
        self.octets[15] == last
    }

    /// Whether the address is `::`.
    pub fn is_unspecified(&self) -> (r: bool)
        ensures
            r == self.zero_but_last(0),
    {
        self.is_zero_but_last(0)
    }

    /// Whether the address is `::1`.
    pub fn is_loopback(&self) -> (r: bool)
        ensures
            r == self.zero_but_last(1),
    {
        self.is_zero_but_last(1)
    }

    /// Whether the address is in `fe80::/10`.
    pub open spec fn unicast_link_local(self) -> bool {
        self@[0] == 0xfe && 0x80 <= self@[1] <= 0xbf
    }

    /// Whether the address is in `fe80::/10`.
    pub fn is_unicast_link_local(&self) -> (r: bool)
        ensures
            r == self.unicast_link_local(),
    {
        self.octets[0] == 0xfe && self.octets[1] >= 0x80 && self.octets[1] <= 0xbf
    }

    /// Whether the address is in `fc00::/7`.
    pub open spec fn unique_local(self) -> bool {
        self@[0] == 0xfc || self@[0] == 0xfd
    }

    /// Whether the address is in `fc00::/7`.
    pub fn is_unique_local(&self) -> (r: bool)
        ensures
            r == self.unique_local(),
    {
        self.octets[0] == 0xfc || self.octets[0] == 0xfd
    }
}

/// The two bytes of a 16-bit segment, most significant first.
pub open spec fn segment_bytes(s: u16) -> Seq<u8> {
    seq![(s / 256) as u8, (s % 256) as u8]
}

/// An IP address of either version.
#[derive(Clone, Copy, Debug)]
pub enum IpAddr {
    V4(Ipv4Addr),
    V6(Ipv6Addr),
}

impl PartialEq for IpAddr {
    fn eq(&self, other: &Self) -> (r: bool) {
        match (self, other) {
            (IpAddr::V4(a), IpAddr::V4(b)) => *a == *b,
            (IpAddr::V6(a), IpAddr::V6(b)) => *a == *b,
            _ => false,
        }
    }
}

impl vstd::std_specs::cmp::PartialEqSpecImpl for IpAddr {
    open spec fn obeys_eq_spec() -> bool {
        true
    }

    open spec fn eq_spec(&self, other: &Self) -> bool {
        *self == *other
    }
}

impl Eq for IpAddr {

}

impl IpAddr {
    /// Whether the address is a multicast address of its version.
    pub open spec fn multicast(self) -> bool {
        match self {
            IpAddr::V4(a) => a.multicast(),
            IpAddr::V6(a) => a.multicast(),
        }
    }

    /// Whether the address is a multicast address of its version.
    pub fn is_multicast(&self) -> (r: bool)
        ensures
            r == self.multicast(),
    {
        match self {
            IpAddr::V4(a) => a.is_multicast(),
            IpAddr::V6(a) => a.is_multicast(),
        }
    }
}

/// An IPv4 address and port.
#[derive(Clone, Copy, Debug)]
pub struct SocketAddrV4 {
    pub ip: Ipv4Addr,
    pub port: u16,
}

impl PartialEq for SocketAddrV4 {
    fn eq(&self, other: &Self) -> (r: bool) {
        self.ip == other.ip && self.port == other.port
    }
}

impl vstd::std_specs::cmp::PartialEqSpecImpl for SocketAddrV4 {
    open spec fn obeys_eq_spec() -> bool {
        true
    }

    open spec fn eq_spec(&self, other: &Self) -> bool {
        *self == *other
    }
}

impl Eq for SocketAddrV4 {

}

impl SocketAddrV4 {
    /// The endpoint `ip:port`.
    pub fn new(ip: Ipv4Addr, port: u16) -> (r: Self)
        ensures
            r == (SocketAddrV4 { ip, port }),
    {
        SocketAddrV4 { ip, port }
    }
}

/// An IPv6 address and port, with the flow information and scope identifier of
/// a socket address.
#[derive(Clone, Copy, Debug)]
pub struct SocketAddrV6 {
    pub ip: Ipv6Addr,
    pub port: u16,
    pub flowinfo: u32,
    pub scope_id: u32,
}

impl PartialEq for SocketAddrV6 {
    fn eq(&self, other: &Self) -> (r: bool) {
        self.ip == other.ip && self.port == other.port && self.flowinfo == other.flowinfo
            && self.scope_id == other.scope_id
    }
}

impl vstd::std_specs::cmp::PartialEqSpecImpl for SocketAddrV6 {
    open spec fn obeys_eq_spec() -> bool {
        true
    }

    open spec fn eq_spec(&self, other: &Self) -> bool {
        *self == *other
    }
}

impl Eq for SocketAddrV6 {

}

impl SocketAddrV6 {
    /// The endpoint `[ip%scope_id]:port`.
    pub fn new(ip: Ipv6Addr, port: u16, flowinfo: u32, scope_id: u32) -> (r: Self)
        ensures
            r == (SocketAddrV6 { ip, port, flowinfo, scope_id }),
    {
        SocketAddrV6 { ip, port, flowinfo, scope_id }
    }
}

/// An endpoint of either version.
#[derive(Clone, Copy, Debug)]
pub enum SocketAddr {
    V4(SocketAddrV4),
    V6(SocketAddrV6),
}

impl PartialEq for SocketAddr {
    fn eq(&self, other: &Self) -> (r: bool) {
        match (self, other) {
            (SocketAddr::V4(a), SocketAddr::V4(b)) => *a == *b,
            (SocketAddr::V6(a), SocketAddr::V6(b)) => *a == *b,
            _ => false,
        }
    }
}

impl vstd::std_specs::cmp::PartialEqSpecImpl for SocketAddr {
    open spec fn obeys_eq_spec() -> bool {
        true
    }

    open spec fn eq_spec(&self, other: &Self) -> bool {
        *self == *other
    }
}

impl Eq for SocketAddr {

}

impl SocketAddr {
    /// The endpoint's address.
    pub open spec fn spec_ip(self) -> IpAddr {
        match self {
            SocketAddr::V4(a) => IpAddr::V4(a.ip),
            SocketAddr::V6(a) => IpAddr::V6(a.ip),
        }
    }

    /// The endpoint's port.
    pub open spec fn spec_port(self) -> u16 {
        match self {
            SocketAddr::V4(a) => a.port,
            SocketAddr::V6(a) => a.port,
        }
    }

    /// The endpoint's address.
    pub fn ip(&self) -> (r: IpAddr)
        ensures
            r == self.spec_ip(),
    {
        match self {
            SocketAddr::V4(a) => IpAddr::V4(a.ip),
            SocketAddr::V6(a) => IpAddr::V6(a.ip),
        }
    }

    /// The endpoint's port.
    pub fn port(&self) -> (r: u16)
        ensures
            r == self.spec_port(),
    {
        match self {
            SocketAddr::V4(a) => a.port,
            SocketAddr::V6(a) => a.port,
        }
    }
}

/// The value of a decimal octet: one to three digits, at most 255, and no
/// leading zero but in `0` itself.
pub open spec fn octet_value(s: Seq<u8>) -> Option<u8> {
    if 1 <= s.len() <= 3 && bytes::all_digits(s, 10) && (s.len() == 1 || s[0] != 0x30)
        && bytes::digits_value(s, 10) <= 255 {
        Some(bytes::digits_value(s, 10) as u8)
    } else {
        None
    }
}

/// The address whose octets are the first four bytes of `s`.
pub open spec fn ipv4_from(s: Seq<u8>) -> Ipv4Addr {
    Ipv4Addr { octets: [s[0], s[1], s[2], s[3]] }
}

/// The address whose octets are the first sixteen bytes of `s`.
pub open spec fn ipv6_from(s: Seq<u8>) -> Ipv6Addr {
    Ipv6Addr {
        octets: [
            s[0],
            s[1],
            s[2],
            s[3],
            s[4],
            s[5],
            s[6],
            s[7],
            s[8],
            s[9],
            s[10],
            s[11],
            s[12],
            s[13],
            s[14],
            s[15],
        ],
    }
}

/// An IPv4 address is the address of its octets.
pub proof fn lemma_ipv4_from(a: Ipv4Addr)
    ensures
        ipv4_from(a@) == a,
{
    assert(ipv4_from(a@).octets =~= a.octets);
}

/// An IPv6 address is the address of its octets.
pub proof fn lemma_ipv6_from(a: Ipv6Addr)
    ensures
        ipv6_from(a@) == a,
{
    assert(ipv6_from(a@).octets =~= a.octets);
}

/// The address that dotted-decimal text writes.
pub open spec fn ipv4_value(s: Seq<u8>) -> Option<Ipv4Addr> {
    let parts = bytes::split_on(s, 0x2e);
    if parts.len() == 4 {
        match (
            octet_value(parts[0]),
            octet_value(parts[1]),
            octet_value(parts[2]),
            octet_value(parts[3]),
        ) {
            (Some(a), Some(b), Some(c), Some(d)) => Some(ipv4_from(seq![a, b, c, d])),
            _ => None,
        }
    } else {
        None
    }
}

fn parse_octet(s: &[u8]) -> (r: Option<u8>)
    ensures
        r == octet_value(s@),
{
    if s.len() == 0 || s.len() > 3 || s[0] == 0x2b || (s.len() > 1 && s[0] == 0x30) {
        proof {
            if s@.len() > 0 && s@[0] == 0x2b {
                assert(bytes::digit(s@[0], 10) is None);
            }
        }
        return None;
    }
    match bytes::parse_unsigned(s, 10, 255) {
        Some(v) => Some(v as u8),
        None => None,
    }
}

/// Parse a dotted-decimal IPv4 address.
pub fn parse_ipv4(s: &[u8]) -> (r: Option<Ipv4Addr>)
    ensures
        r == ipv4_value(s@),
{
    let mut octets: [u8; 4] = [0; 4];
    let mut rest: &[u8] = s;
    let mut bad: bool = false;
    let ghost mut done: Seq<Seq<u8>> = Seq::empty();
    for i in 0..3usize
        invariant
            done.len() == i,
            bytes::split_on(s@, 0x2e) == done + bytes::split_on(rest@, 0x2e),
            bad == (exists|j: int| 0 <= j < i && octet_value(#[trigger] done[j]) is None),
            !bad ==> forall|j: int|
                0 <= j < i ==> octet_value(#[trigger] done[j]) == Some(octets@[j]),
    {
        match bytes::find_byte(rest, 0x2e) {
            None => {
                proof {
                    assert(bytes::split_on(rest@, 0x2e).len() == 1);
                }
                return None;
            },
            Some(dot) => {
                let n: usize = rest.len();
                let part = vstd::slice::slice_subrange(rest, 0, dot);
                let next = vstd::slice::slice_subrange(rest, dot + 1, n);
                let ghost before = done;
                proof {
                    assert(part@ =~= rest@.take(dot as int));
                    assert(next@ =~= rest@.skip(dot + 1));
                    assert(bytes::split_on(s@, 0x2e) =~= done.push(part@) + bytes::split_on(
                        next@,
                        0x2e,
                    ));
                    done = done.push(part@);
                }
                match parse_octet(part) {
                    Some(v) => {
                        octets[i] = v;
                    },
                    None => {
                        assert(octet_value(done[i as int]) is None);
                        bad = true;
                    },
                }
                proof {
                    assert forall|j: int| 0 <= j < i implies done[j] == before[j] by {}
                    if exists|j: int| 0 <= j < i && octet_value(#[trigger] before[j]) is None {
                        let j = choose|j: int|
                            0 <= j < i && octet_value(#[trigger] before[j]) is None;
                        assert(octet_value(done[j]) is None);
                    }
                }
                rest = next;
            },
        }
    }
    let ghost parts = bytes::split_on(s@, 0x2e);
    proof {
        assert(forall|j: int| 0 <= j < 3 ==> parts[j] == done[j]);
    }
    match bytes::find_byte(rest, 0x2e) {
        Some(dot) => {
            proof {
                assert(bytes::split_on(rest@, 0x2e).len() >= 2) by {
                    lemma_split_on_nonempty(rest@.skip(dot + 1), 0x2e);
                }
            }
            return None;
        },
        None => {},
    }
    proof {
        assert(parts.len() == 4 && parts[3] == rest@);
    }
    match parse_octet(rest) {
        None => None,
        Some(v) => {
            if bad {
                return None;
            }
            octets[3] = v;
            let a = Ipv4Addr { octets };
            proof {
                assert(octet_value(parts[0]) == octet_value(done[0]));
                assert(octet_value(parts[1]) == octet_value(done[1]));
                assert(octet_value(parts[2]) == octet_value(done[2]));
                assert(a@ =~= seq![
                    octet_value(parts[0])->0,
                    octet_value(parts[1])->0,
                    octet_value(parts[2])->0,
                    octet_value(parts[3])->0,
                ]);
                lemma_ipv4_from(a);
            }
            Some(a)
        },
    }
}

proof fn lemma_split_on_nonempty(s: Seq<u8>, b: u8)
    ensures
        bytes::split_on(s, b).len() >= 1,
{
    bytes::lemma_first_index(s, b, 0);
}

/// `n` in decimal, without leading zeros.
pub open spec fn decimal(n: nat) -> Seq<u8>
    decreases n,
{
    if n < 10 {
        seq![(0x30 + n) as u8]
    } else {
        decimal(n / 10).push((0x30 + n % 10) as u8)
    }
}

/// Append `n` in decimal to `buf`.
pub fn append_decimal(buf: &mut Vec<u8>, n: u16)
    ensures
        final(buf)@ == old(buf)@ + decimal(n as nat),
    decreases n,
{
    if n >= 10 {
        append_decimal(buf, n / 10);
    }
    buf.push(0x30 + (n % 10) as u8);
    proof {
        assert(buf@ =~= old(buf)@ + decimal(n as nat));
    }
}

/// The text `a.b.c.d:port`.
pub open spec fn endpoint_text(a: SocketAddrV4) -> Seq<u8> {
    decimal(a.ip@[0] as nat) + seq![0x2eu8] + decimal(a.ip@[1] as nat) + seq![0x2eu8] + decimal(
        a.ip@[2] as nat,
    ) + seq![0x2eu8] + decimal(a.ip@[3] as nat) + seq![0x3au8] + decimal(a.port as nat)
}

/// Append `addr` to `buf` as the text `a.b.c.d:port`.
pub fn append_endpoint(buf: &mut Vec<u8>, addr: SocketAddrV4)
    ensures
        final(buf)@ == old(buf)@ + endpoint_text(addr),
{
    append_decimal(buf, addr.ip.octets[0] as u16);
    buf.push(0x2e);
    append_decimal(buf, addr.ip.octets[1] as u16);
    buf.push(0x2e);
    append_decimal(buf, addr.ip.octets[2] as u16);
    buf.push(0x2e);
    append_decimal(buf, addr.ip.octets[3] as u16);
    buf.push(0x3a);
    append_decimal(buf, addr.port);
    proof {
        assert(buf@ =~= old(buf)@ + endpoint_text(addr));
    }
}

} // verus!
