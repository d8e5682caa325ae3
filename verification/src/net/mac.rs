//! MAC (link-layer) addressing: the 48-bit address type, its text form, the
//! L2 destination MACs derived from multicast and broadcast IP addresses, and
//! sets of addresses.

use crate::bytes;
use crate::net::addr::IpAddr;
use crate::text;
use vstd::prelude::*;

verus! {

/// A 48-bit IEEE 802 MAC address, in transmission order.
#[derive(Clone, Copy, Debug)]
pub struct MacAddr {
    pub octets: [u8; 6],
}

impl View for MacAddr {
    type V = Seq<u8>;

    open spec fn view(&self) -> Seq<u8> {
        self.octets@
    }
}

impl PartialEq for MacAddr {
    fn eq(&self, other: &Self) -> (r: bool) {
        let r = bytes::bytes_eq(&self.octets, &other.octets);
        proof {
            if self.octets@ == other.octets@ {
                assert(self.octets =~= other.octets);
            }
        }
        r
    }
}

impl vstd::std_specs::cmp::PartialEqSpecImpl for MacAddr {
    open spec fn obeys_eq_spec() -> bool {
        true
    }

    open spec fn eq_spec(&self, other: &Self) -> bool {
        *self == *other
    }
}

impl Eq for MacAddr {

}

/// The six bytes, in transmission order, are the address.
impl From<[u8; 6]> for MacAddr {
    fn from(octets: [u8; 6]) -> (r: Self) {
        MacAddr { octets }
    }
}

impl vstd::std_specs::convert::FromSpecImpl<[u8; 6]> for MacAddr {
    open spec fn obeys_from_spec() -> bool {
        true
    }

    open spec fn from_spec(octets: [u8; 6]) -> Self {
        MacAddr { octets }
    }
}

/// The address whose octets are the first six bytes of `s`.
pub open spec fn mac_from(s: Seq<u8>) -> MacAddr {
    MacAddr { octets: [s[0], s[1], s[2], s[3], s[4], s[5]] }
}

/// A MAC address is the address of its octets.
pub proof fn lemma_mac_from(a: MacAddr)
    ensures
        mac_from(a@) == a,
{
    assert(mac_from(a@).octets =~= a.octets);
}

/// The L2 destination of a multicast address: IPv4 maps to `01:00:5e` and the
/// low 23 address bits, IPv6 to `33:33` and the low 32 bits.
pub open spec fn multicast_mac(addr: IpAddr) -> Seq<u8> {
    match addr {
        IpAddr::V4(a) => seq![0x01u8, 0x00, 0x5e, (a@[1] % 128) as u8, a@[2], a@[3]],
        IpAddr::V6(a) => seq![0x33u8, 0x33, a@[12], a@[13], a@[14], a@[15]],
    }
}

/// Error returned when a string is not a valid [`MacAddr`].
#[derive(Clone, Copy, Debug, PartialEq, Eq, Structural)]
pub struct ParseMacAddrError;

impl ParseMacAddrError {
    /// The error's message.
    pub fn message(&self) -> (r: &'static str)
        ensures
            r@ == "expected six colon-separated hex octets"@,
    {
        "expected six colon-separated hex octets"
    }
}

/// Whether the `k`-th octet of the text `b` is two hex digits.
pub open spec fn hex_at(b: Seq<u8>, k: int) -> bool {
    bytes::digit(b[3 * k], 16) is Some && bytes::digit(b[3 * k + 1], 16) is Some
}

/// Whether a colon follows the `k`-th octet of the text `b`.
pub open spec fn colon_at(b: Seq<u8>, k: int) -> bool {
    b[3 * k + 2] == 0x3a
}

/// The `k`-th octet that the text `b` writes.
pub open spec fn octet_at(b: Seq<u8>, k: int) -> u8 {
    (bytes::digit(b[3 * k], 16)->0 * 16 + bytes::digit(b[3 * k + 1], 16)->0) as u8
}

/// Whether `b` is the text of a MAC address: six colon-separated octets of two
/// hex digits each.
pub open spec fn is_mac_text(b: Seq<u8>) -> bool {
    &&& b.len() == 17
    &&& forall|k: int| 0 <= k < 6 ==> #[trigger] hex_at(b, k)
    &&& forall|k: int| 0 <= k < 5 ==> #[trigger] colon_at(b, k)
}

/// The address that `s` writes.
pub open spec fn mac_value(s: Seq<char>) -> Option<MacAddr> {
    let b = text::narrowed(s);
    if is_mac_text(b) {
        Some(mac_from(Seq::new(6, |k: int| octet_at(b, k))))
    } else {
        None
    }
}

/// The lower-case hex digit of `n`.
pub open spec fn hex_char(n: int) -> char {
    if n < 10 {
        (0x30 + n) as char
    } else {
        (0x61 + n - 10) as char
    }
}

/// The two hex digits of an octet.
pub open spec fn octet_text(b: u8) -> Seq<char> {
    seq![hex_char(b as int / 16), hex_char(b as int % 16)]
}

/// The text of the first `n` octets of `m`, colons between them.
pub open spec fn octets_text(m: Seq<u8>, n: int) -> Seq<char>
    decreases n,
{
    if n <= 0 {
        Seq::empty()
    } else if n == 1 {
        octet_text(m[0])
    } else {
        octets_text(m, n - 1) + seq![':'] + octet_text(m[n - 1])
    }
}

fn hex_digit_char(n: u8) -> (r: char)
    requires
        n < 16,
    ensures
        r == hex_char(n as int),
{
    if n < 10 {
        (0x30 + n) as char
    } else {
        (0x61 + (n - 10)) as char
    }
}

fn hex_value(b: u8) -> (r: Option<u8>)
    ensures
        match r {
            Some(d) => bytes::digit(b, 16) == Some(d as int) && d < 16,
            None => bytes::digit(b, 16) is None,
        },
{
    if b >= 0x30 && b <= 0x39 {
        Some(b - 0x30)
    } else if b >= 0x61 && b <= 0x66 {
        Some(b - 0x61 + 10)
    } else if b >= 0x41 && b <= 0x46 {
        Some(b - 0x41 + 10)
    } else {
        None
    }
}

impl MacAddr {
    /// The six address bytes, in transmission order.
    pub fn octets(self) -> (r: [u8; 6])
        ensures
            r == self.octets,
    {
        self.octets
    }

    /// The L2 broadcast address, `ff:ff:ff:ff:ff:ff`.
    pub fn broadcast() -> (r: Self)
        ensures
            r@ == seq![0xffu8, 0xff, 0xff, 0xff, 0xff, 0xff],
    {
        let r = MacAddr { octets: [0xff, 0xff, 0xff, 0xff, 0xff, 0xff] };
        assert(r@ =~= seq![0xffu8, 0xff, 0xff, 0xff, 0xff, 0xff]);
        r
    }

    /// The L2 destination MAC for a multicast IP `addr`.
    pub fn multicast_for(addr: IpAddr) -> (r: Self)
        requires
            addr.multicast(),
        ensures
            r@ == multicast_mac(addr),
    {
        let r = match addr {
            IpAddr::V4(a) => MacAddr {
                octets: [0x01, 0x00, 0x5e, a.octets[1] % 128, a.octets[2], a.octets[3]],
            },
            IpAddr::V6(a) => MacAddr {
                octets: [0x33, 0x33, a.octets[12], a.octets[13], a.octets[14], a.octets[15]],
            },
        };
        assert(r@ =~= multicast_mac(addr));
        r
    }

    /// Parse six colon-separated octets of exactly two hex digits each.
    pub fn parse(s: &str) -> (r: Result<MacAddr, ParseMacAddrError>)
        ensures
            r == (match mac_value(s@) {
                Some(a) => Ok::<MacAddr, ParseMacAddrError>(a),
                None => Err(ParseMacAddrError),
            }),
    {
        let b = text::narrow_bytes(s);
        if b.len() != 17 {
            return Err(ParseMacAddrError);
        }
        let mut octets: [u8; 6] = [0; 6];
        for k in 0..6usize
            invariant
                b@ == text::narrowed(s@),
                b.len() == 17,
                forall|j: int| 0 <= j < k ==> #[trigger] hex_at(b@, j),
                forall|j: int| 0 <= j < k && j < 5 ==> #[trigger] colon_at(b@, j),
                forall|j: int| 0 <= j < k ==> #[trigger] octets@[j] == octet_at(b@, j),
        {
            match (hex_value(b[3 * k]), hex_value(b[3 * k + 1])) {
                (Some(hi), Some(lo)) => {
                    octets[k] = hi * 16 + lo;
                },
                _ => {
                    assert(!hex_at(b@, k as int));
                    return Err(ParseMacAddrError);
                },
            }
            if k < 5 && b[3 * k + 2] != 0x3a {
                assert(!colon_at(b@, k as int));
                return Err(ParseMacAddrError);
            }
        }
        let a = MacAddr { octets };
        proof {
            assert(is_mac_text(b@));
            assert(a@ =~= Seq::new(6, |k: int| octet_at(b@, k)));
            lemma_mac_from(a);
        }
        Ok(a)
    }

    /// The address as text: lower-case hex octets, zero-padded, colons between.
    pub fn to_text(&self) -> (r: String)
        ensures
            r@ == octets_text(self@, 6),
    {
        let mut r = String::new();
        for k in 0..6usize
            invariant
                r@ == octets_text(self@, k as int),
        {
            if k > 0 {
                r.push(':');
            }
            let b: u8 = self.octets[k];
            r.push(hex_digit_char(b / 16));
            r.push(hex_digit_char(b % 16));
            assert(r@ =~= octets_text(self@, k + 1));
        }
        r
    }
}

impl std::str::FromStr for MacAddr {
    type Err = ParseMacAddrError;

    fn from_str(s: &str) -> (r: Result<MacAddr, ParseMacAddrError>)
        ensures
            r == (match mac_value(s@) {
                Some(a) => Ok::<MacAddr, ParseMacAddrError>(a),
                None => Err(ParseMacAddrError),
            }),
    {
        MacAddr::parse(s)
    }
}

/// The text of an address, octet by octet: two digits, and a colon behind all but the last.
proof fn lemma_text_parts(m: Seq<u8>, n: int)
    requires
        1 <= n,
    ensures
        octets_text(m, n).len() == 3 * n - 1,
        forall|k: int|
            0 <= k < n ==> octets_text(m, n)[3 * k] == octet_text(#[trigger] m[k])[0]
                && octets_text(m, n)[3 * k + 1] == octet_text(m[k])[1],
        forall|k: int| 0 <= k < n - 1 ==> #[trigger] separator_at(octets_text(m, n), k),
    decreases n,
{
    let t = octets_text(m, n);
    if n > 1 {
        lemma_text_parts(m, n - 1);
        let before = octets_text(m, n - 1);
        assert(t == before + seq![':'] + octet_text(m[n - 1]));
        assert forall|k: int| 0 <= k < n implies t[3 * k] == octet_text(#[trigger] m[k])[0]
            && t[3 * k + 1] == octet_text(m[k])[1] by {
            if k < n - 1 {
                assert(t[3 * k] == before[3 * k] && t[3 * k + 1] == before[3 * k + 1]);
            }
        }
        assert forall|k: int| 0 <= k < n - 1 implies #[trigger] separator_at(t, k) by {
            if k < n - 2 {
                assert(separator_at(before, k));
            }
        }
    }
}

/// Whether a colon follows the `k`-th octet of the text `t`.
spec fn separator_at(t: Seq<char>, k: int) -> bool {
    t[3 * k + 2] == ':'
}

/// The two digits of an octet read back as that octet.
proof fn lemma_octet_digits(o: u8)
    ensures
        ({
            let hi = text::narrow(octet_text(o)[0]);
            let lo = text::narrow(octet_text(o)[1]);
            &&& bytes::digit(hi, 16) == Some(o as int / 16)
            &&& bytes::digit(lo, 16) == Some(o as int % 16)
        }),
{
}

/// The text of an address parses back as that address.
#[verifier::spinoff_prover]
pub proof fn law_text_round_trips(m: MacAddr)
    ensures
        mac_value(octets_text(m@, 6)) == Some(m),
{
    let t = octets_text(m@, 6);
    lemma_text_parts(m@, 6);
    let b = text::narrowed(t);
    assert forall|k: int| 0 <= k < 6 implies #[trigger] hex_at(b, k) && octet_at(b, k)
        == m@[k] by {
        lemma_octet_digits(m@[k]);
        assert(b[3 * k] == text::narrow(t[3 * k]));
        assert(b[3 * k + 1] == text::narrow(t[3 * k + 1]));
    }
    assert forall|k: int| 0 <= k < 5 implies #[trigger] colon_at(b, k) by {
        assert(separator_at(t, k));
        assert(b[3 * k + 2] == text::narrow(t[3 * k + 2]));
    }
    assert(is_mac_text(b));
    assert(m@ =~= Seq::new(6, |k: int| octet_at(b, k))) by {
        assert(hex_at(b, 0) && hex_at(b, 1) && hex_at(b, 2) && hex_at(b, 3) && hex_at(b, 4)
            && hex_at(b, 5));
    }
    lemma_mac_from(m);
}

/// A hex digit in lower case is the digit of its value.
proof fn lemma_digit_lowered(c: char)
    requires
        bytes::digit(text::narrow(c), 16) is Some,
    ensures
        text::lower_char(c) == hex_char(bytes::digit(text::narrow(c), 16)->0),
        0 <= bytes::digit(text::narrow(c), 16)->0 < 16,
{
}

/// Two hex digits in lower case are the digits of the octet they write.
proof fn lemma_octet_lowered(hi: char, lo: char)
    requires
        bytes::digit(text::narrow(hi), 16) is Some,
        bytes::digit(text::narrow(lo), 16) is Some,
    ensures
        ({
            let octet = (bytes::digit(text::narrow(hi), 16)->0 * 16 + bytes::digit(
                text::narrow(lo),
                16,
            )->0) as u8;
            &&& octet_text(octet)[0] == text::lower_char(hi)
            &&& octet_text(octet)[1] == text::lower_char(lo)
        }),
{
    lemma_digit_lowered(hi);
    lemma_digit_lowered(lo);
}

/// The character at `i` of a text that parses as an address, in lower case.
proof fn lemma_character_lowered(s: Seq<char>, m: Seq<u8>, i: int)
    requires
        is_mac_text(text::narrowed(s)),
        m.len() == 6,
        forall|k: int| 0 <= k < 6 ==> #[trigger] m[k] == octet_at(text::narrowed(s), k),
        0 <= i < 17,
    ensures
        octets_text(m, 6)[i] == text::lower_char(s[i]),
{
    let b = text::narrowed(s);
    let k = i / 3;
    lemma_text_parts(m, 6);
    if i % 3 == 2 {
        assert(colon_at(b, k));
        assert(separator_at(octets_text(m, 6), k));
        assert(b[3 * k + 2] == text::narrow(s[3 * k + 2]));
    } else {
        assert(hex_at(b, k));
        assert(b[3 * k] == text::narrow(s[3 * k]));
        assert(b[3 * k + 1] == text::narrow(s[3 * k + 1]));
        assert(m[k] == octet_at(b, k));
        lemma_octet_lowered(s[3 * k], s[3 * k + 1]);
    }
}

/// What parses as an address is that address's text, but for the case of its digits.
pub proof fn law_parsed_text_is_the_text(s: Seq<char>)
    requires
        mac_value(s) is Some,
    ensures
        octets_text(mac_value(s)->0@, 6) == text::lowered(s),
{
    let octets = Seq::new(6, |k: int| octet_at(text::narrowed(s), k));
    let m = mac_value(s)->0@;
    lemma_from_octets(octets);
    assert(m == octets);
    lemma_text_parts(m, 6);
    assert forall|i: int| 0 <= i < 17 implies octets_text(m, 6)[i] == text::lowered(s)[i] by {
        lemma_character_lowered(s, m, i);
    }
    assert(octets_text(m, 6) =~= text::lowered(s));
}

/// The address made of six octets has those octets.
proof fn lemma_from_octets(octets: Seq<u8>)
    requires
        octets.len() == 6,
    ensures
        mac_from(octets)@ == octets,
{
    assert(mac_from(octets)@ =~= octets);
}

/// Why a list of addresses is no [`MacSet`].
#[derive(Debug, PartialEq, Eq)]
pub enum MacSetError {
    /// The list is empty.
    Empty,
    /// The list holds an address twice.
    Duplicate(MacAddr),
    /// A comma-separated token was not a valid MAC address.
    BadMac(String),
}

/// A [`MacSetError`] with its text as a sequence.
#[verifier::ext_equal]
pub enum MacSetFault {
    Empty,
    Duplicate(MacAddr),
    BadMac(Seq<char>),
}

impl View for MacSetError {
    type V = MacSetFault;

    open spec fn view(&self) -> MacSetFault {
        match self {
            MacSetError::Empty => MacSetFault::Empty,
            MacSetError::Duplicate(mac) => MacSetFault::Duplicate(*mac),
            MacSetError::BadMac(token) => MacSetFault::BadMac(token@),
        }
    }
}

/// The set that a list of addresses makes: the list itself, where it is not empty and holds no
/// address twice; the first that repeats an earlier one is named otherwise.
pub open spec fn set_of(macs: Seq<MacAddr>) -> Result<Seq<MacAddr>, MacSetFault> {
    if macs.len() == 0 {
        Err(MacSetFault::Empty)
    } else {
        match first_repeat(macs, 0) {
            Some(i) => Err(MacSetFault::Duplicate(macs[i])),
            None => Ok(macs),
        }
    }
}

/// The set that comma-separated text writes.
pub open spec fn set_text(s: Seq<char>) -> Result<Seq<MacAddr>, MacSetFault> {
    match first_bad_mac(tokens(s)) {
        Some(token) => Err(MacSetFault::BadMac(token)),
        None => set_of(Seq::new(tokens(s).len(), |i: int| mac_value(tokens(s)[i])->0)),
    }
}

/// The first index at or after `from` whose address stands earlier in `s`.
pub open spec fn first_repeat(s: Seq<MacAddr>, from: int) -> Option<int>
    decreases s.len() - from,
{
    if from < 0 || from >= s.len() {
        None
    } else if s.take(from).contains(s[from]) {
        Some(from)
    } else {
        first_repeat(s, from + 1)
    }
}

/// A list whose addresses repeat nowhere has no duplicates.
pub proof fn lemma_no_repeat(s: Seq<MacAddr>, from: int)
    requires
        0 <= from <= s.len(),
        s.take(from).no_duplicates(),
        first_repeat(s, from) is None,
    ensures
        s.no_duplicates(),
    decreases s.len() - from,
{
    if from < s.len() {
        assert(s.take(from + 1).no_duplicates()) by {
            let t = s.take(from + 1);
            assert forall|i: int, j: int|
                0 <= i < from + 1 && 0 <= j < from + 1 && i != j implies #[trigger] t[i]
                != #[trigger] t[j] by {
                if i == from {
                    assert(s.take(from)[j] == s[j]);
                } else if j == from {
                    assert(s.take(from)[i] == s[i]);
                } else {
                    assert(s.take(from)[i] == s[i] && s.take(from)[j] == s[j]);
                }
            }
        }
        lemma_no_repeat(s, from + 1);
    } else {
        assert(s.take(from) =~= s);
    }
}

/// A non-empty, duplicate-free set of MAC addresses: a device allow-filter.
/// "Match any device" is an absent filter, not an empty set.
#[derive(Debug, PartialEq, Eq)]
pub struct MacSet {
    macs: Vec<MacAddr>,
}

impl View for MacSet {
    type V = Seq<MacAddr>;

    closed spec fn view(&self) -> Seq<MacAddr> {
        self.macs@
    }
}

impl MacSet {
    #[verifier::type_invariant]
    spec fn non_empty_and_distinct(self) -> bool {
        self.macs@.len() > 0 && self.macs@.no_duplicates()
    }

    /// The set's addresses, in the order they were given.
    pub fn as_slice(&self) -> (r: &[MacAddr])
        ensures
            r@ == self@,
            r@.len() > 0,
            r@.no_duplicates(),
    {
        proof {
            use_type_invariant(self);
        }
        self.macs.as_slice()
    }

    /// How many addresses the set holds.
    pub fn len(&self) -> (r: usize)
        ensures
            r == self@.len(),
            r > 0,
    {
        proof {
            use_type_invariant(self);
        }
        self.macs.len()
    }

    /// Whether the set holds `mac`.
    pub fn contains(&self, mac: &MacAddr) -> (r: bool)
        ensures
            r == self@.contains(*mac),
    {
        slice_contains(self.macs.as_slice(), *mac)
    }

    /// The set of one address.
    pub fn single(mac: MacAddr) -> (r: MacSet)
        ensures
            r@ == seq![mac],
    {
        let mut macs: Vec<MacAddr> = Vec::new();
        macs.push(mac);
        assert(macs@ =~= seq![mac]);
        MacSet { macs }
    }

    /// The set of the addresses `macs`.
    ///
    /// # Errors
    /// [`MacSetError::Empty`] for no address, [`MacSetError::Duplicate`] for the
    /// first that stands earlier in the list.
    pub fn from_macs(macs: Vec<MacAddr>) -> (r: Result<MacSet, MacSetError>)
        ensures
            match r {
                Ok(set) => set_of(macs@) == Ok::<Seq<MacAddr>, MacSetFault>(set@)
                    && set@.no_duplicates(),
                Err(e) => set_of(macs@) == Err::<Seq<MacAddr>, MacSetFault>(e@),
            },
    {
        if macs.len() == 0 {
            return Err(MacSetError::Empty);
        }
        for i in 0..macs.len()
            invariant
                first_repeat(macs@, 0) == first_repeat(macs@, i as int),
        {
            let earlier = vstd::slice::slice_subrange(macs.as_slice(), 0, i);
            assert(earlier@ =~= macs@.take(i as int));
            if slice_contains(earlier, macs[i]) {
                return Err(MacSetError::Duplicate(macs[i]));
            }
        }
        proof {
            lemma_no_repeat(macs@, 0);
        }
        Ok(MacSet { macs })
    }

    /// The set of the comma-separated addresses in `s`, white space around each
    /// dropped.
    ///
    /// # Errors
    /// [`MacSetError::BadMac`] with the first token that is no address, else
    /// [`MacSetError::Duplicate`] for the first address that stands earlier.
    pub fn parse(s: &str) -> (r: Result<MacSet, MacSetError>)
        ensures
            match r {
                Ok(set) => set_text(s@) == Ok::<Seq<MacAddr>, MacSetFault>(set@)
                    && set@.no_duplicates(),
                Err(e) => set_text(s@) == Err::<Seq<MacAddr>, MacSetFault>(e@),
            },
    {
        let parts = text::split(s, ',');
        let ghost all = tokens(s@);
        let mut macs: Vec<MacAddr> = Vec::new();
        assert(all.skip(0) =~= all);
        for i in 0..parts.len()
            invariant
                text::views(parts@) == text::split_on(s@, ','),
                all == tokens(s@),
                all.len() == parts@.len(),
                macs@.len() == i,
                forall|j: int| 0 <= j < i ==> mac_value(#[trigger] all[j]) == Some(macs@[j]),
                first_bad_mac(all) == first_bad_mac(all.skip(i as int)),
        {
            proof {
                assert(text::views(parts@)[i as int] == parts@[i as int]@);
                assert(all.skip(i as int)[0] == all[i as int]);
                assert(all.skip(i as int).drop_first() =~= all.skip(i + 1));
            }
            let token = text::trim(parts[i].as_str());
            match MacAddr::parse(token.as_str()) {
                Ok(m) => {
                    macs.push(m);
                },
                Err(_) => {
                    return Err(MacSetError::BadMac(token));
                },
            }
        }
        proof {
            lemma_split_nonempty(s@, ',');
            assert(all.skip(all.len() as int) =~= Seq::<Seq<char>>::empty());
            assert(Seq::new(all.len(), |i: int| mac_value(all[i])->0) =~= macs@);
        }
        MacSet::from_macs(macs)
    }
}

impl Clone for MacSet {
    fn clone(&self) -> (r: MacSet)
        ensures
            r@ == self@,
    {
        proof {
            use_type_invariant(self);
        }
        MacSet { macs: vstd::slice::slice_to_vec(self.macs.as_slice()) }
    }
}

impl From<MacAddr> for MacSet {
    fn from(mac: MacAddr) -> (r: MacSet)
        ensures
            r@ == seq![mac],
    {
        MacSet::single(mac)
    }
}

/// A set is known by its view alone, which `from` states; no one value is named here.
impl vstd::std_specs::convert::FromSpecImpl<MacAddr> for MacSet {
    open spec fn obeys_from_spec() -> bool {
        false
    }

    open spec fn from_spec(mac: MacAddr) -> MacSet {
        arbitrary()
    }
}

impl std::str::FromStr for MacSet {
    type Err = MacSetError;

    fn from_str(s: &str) -> (r: Result<MacSet, MacSetError>)
        ensures
            match r {
                Ok(set) => set_text(s@) == Ok::<Seq<MacAddr>, MacSetFault>(set@)
                    && set@.no_duplicates(),
                Err(e) => set_text(s@) == Err::<Seq<MacAddr>, MacSetFault>(e@),
            },
    {
        MacSet::parse(s)
    }
}

fn slice_contains(s: &[MacAddr], mac: MacAddr) -> (r: bool)
    ensures
        r == s@.contains(mac),
{
    for i in 0..s.len()
        invariant
            forall|j: int| 0 <= j < i ==> s@[j] != mac,
    {
        if s[i] == mac {
            return true;
        }
    }
    false
}

/// The comma-separated tokens of `s`, white space around each dropped.
pub open spec fn tokens(s: Seq<char>) -> Seq<Seq<char>> {
    Seq::new(
        text::split_on(s, ',').len(),
        |i: int| text::trimmed(text::split_on(s, ',')[i]),
    )
}

/// The first token that is no MAC address.
pub open spec fn first_bad_mac(tokens: Seq<Seq<char>>) -> Option<Seq<char>>
    decreases tokens.len(),
{
    if tokens.len() == 0 {
        None
    } else if mac_value(tokens[0]) is None {
        Some(tokens[0])
    } else {
        first_bad_mac(tokens.drop_first())
    }
}

proof fn lemma_split_nonempty(s: Seq<char>, c: char)
    ensures
        text::split_on(s, c).len() >= 1,
{
}

} // verus!
