//! The Internet checksum, computed only on the egress path.
//!
//! A frame that the reflector injects itself bypasses the kernel's UDP/IP stack,
//! so its IPv4 header and UDP checksums are filled in here. The capture path never
//! verifies checksums: a re-injected packet gets fresh ones.

use crate::net::addr::{Ipv4Addr, Ipv6Addr};
use crate::net::{be16, be16_at, read_be16, IP_PROTO_UDP};
use vstd::prelude::*;

verus! {

/// The longest data whose words always sum below 2^32, the two bytes of a skipped
/// checksum field with it.
pub const MAX_SUMMED: usize = 131_076;

/// The sum of the 16-bit big-endian words of `s`; a trailing odd byte is the high
/// byte of a final word.
pub open spec fn words(s: Seq<u8>) -> int
    decreases s.len(),
{
    if s.len() == 0 {
        0
    } else if s.len() == 1 {
        s[0] * 256
    } else {
        be16_at(s, 0) + words(s.skip(2))
    }
}

/// The one's complement sum that a plain sum of words amounts to: end-around
/// carries make it the sum modulo 2^16 - 1, with 2^16 - 1 rather than 0 for every
/// sum but 0.
pub open spec fn ones_complement(sum: int) -> int {
    if sum == 0 {
        0
    } else {
        (sum - 1) % 65535 + 1
    }
}

/// The Internet checksum of data whose words sum to `sum`.
pub open spec fn checksum_of(sum: int) -> u16 {
    (65535 - ones_complement(sum)) as u16
}

/// The sum of a header's words, its checksum field (bytes 10 and 11) left out.
pub open spec fn header_words(header: Seq<u8>) -> int {
    words(header.take(10)) + words(header.skip(12))
}

/// The sum of a datagram's words, its checksum field (bytes 6 and 7) left out.
pub open spec fn datagram_words(udp: Seq<u8>) -> int {
    words(udp.take(6)) + words(udp.skip(8))
}

/// The IPv4 pseudo-header: source, destination, zero, protocol, length.
pub open spec fn pseudo_v4(src: Seq<u8>, dst: Seq<u8>, length: int) -> Seq<u8> {
    src + dst + seq![0u8, IP_PROTO_UDP] + be16(length)
}

/// The IPv6 pseudo-header: source, destination, length, three zeros, next header.
pub open spec fn pseudo_v6(src: Seq<u8>, dst: Seq<u8>, length: int) -> Seq<u8> {
    src + dst + seq![0u8, 0u8] + be16(length) + seq![0u8, 0u8, 0u8, IP_PROTO_UDP]
}

/// The checksum of a UDP datagram under a pseudo-header: a computed zero is sent as
/// all ones.
pub open spec fn udp_checksum_of(pseudo: Seq<u8>, udp: Seq<u8>) -> u16 {
    let c = checksum_of(words(pseudo) + datagram_words(udp));
    if c == 0 {
        0xffff
    } else {
        c
    }
}

/// The sum of words is no more than a full word for each.
pub proof fn lemma_words_bound(s: Seq<u8>)
    ensures
        0 <= words(s) <= 65535 * ((s.len() + 1) / 2),
    decreases s.len(),
{
    if s.len() >= 2 {
        lemma_words_bound(s.skip(2));
    }
}

/// Sum the 16-bit big-endian words of `data` into an accumulator seeded with
/// `seed`; a trailing odd byte is the high byte of a final word. `seed` lets
/// callers chain segments.
pub fn sum_words(data: &[u8], seed: u32) -> (r: u32)
    requires
        seed + words(data@) <= u32::MAX,
    ensures
        r == seed + words(data@),
{
    let n: usize = data.len();
    let mut sum: u32 = seed;
    let mut i: usize = 0;
    assert(data@.skip(0) =~= data@);
    while n - i >= 2
        invariant
            n == data@.len(),
            i <= n,
            sum + words(data@.skip(i as int)) == seed + words(data@),
            seed + words(data@) <= u32::MAX,
        decreases n - i,
    {
        proof {
            let rest = data@.skip(i as int);
            assert(rest.skip(2) =~= data@.skip(i + 2));
            lemma_words_bound(rest.skip(2));
        }
        sum = sum + read_be16(data, i) as u32;
        i += 2;
    }
    if i < n {
        sum = sum + (data[i] as u32) * 256;
    }
    sum
}

/// Fold the carries of an accumulator into 16 bits, and take the one's complement.
/// Two folds always suffice: after the first the high half is at most 1, which the
/// second carries in.
pub fn fold(sum: u32) -> (r: u16)
    ensures
        r == checksum_of(sum as int),
{
    let once: u32 = sum % 65536 + sum / 65536;
    let twice: u32 = once % 65536 + once / 65536;
    proof {
        let h1 = sum as int / 65536;
        let h2 = once as int / 65536;
        assert(twice == sum - 65535 * (h1 + h2));
        assert(twice <= 65535);
        if sum > 0 {
            assert(twice >= 1);
            vstd::arithmetic::div_mod::lemma_fundamental_div_mod_converse(
                sum - 1,
                65535,
                h1 + h2,
                twice - 1,
            );
        }
    }
    (65535 - twice) as u16
}

/// Internet checksum of an IPv4 header. Its own checksum field (bytes 10 and 11) is
/// taken as zero, whatever it holds.
pub fn ipv4_header(header: &[u8]) -> (r: u16)
    requires
        12 <= header@.len() <= MAX_SUMMED,
    ensures
        r == checksum_of(header_words(header@)),
{
    let n: usize = header.len();
    let head = vstd::slice::slice_subrange(header, 0, 10);
    let tail = vstd::slice::slice_subrange(header, 12, n);
    proof {
        assert(head@ =~= header@.take(10));
        assert(tail@ =~= header@.skip(12));
        lemma_words_bound(head@);
        lemma_words_bound(tail@);
    }
    let sum: u32 = sum_words(head, 0);
    let sum: u32 = sum_words(tail, sum);
    fold(sum)
}

/// Sum the pseudo-header and the datagram, the UDP checksum field (bytes 6 and 7)
/// left out, then fold and map zero to all ones.
fn udp_checksum(pseudo: &[u8], udp: &[u8]) -> (r: u16)
    requires
        pseudo@.len() <= 40,
        8 <= udp@.len() <= 65535,
    ensures
        r == udp_checksum_of(pseudo@, udp@),
{
    let n: usize = udp.len();
    let head = vstd::slice::slice_subrange(udp, 0, 6);
    let tail = vstd::slice::slice_subrange(udp, 8, n);
    proof {
        assert(head@ =~= udp@.take(6));
        assert(tail@ =~= udp@.skip(8));
        lemma_words_bound(pseudo@);
        lemma_words_bound(head@);
        lemma_words_bound(tail@);
    }
    let sum: u32 = sum_words(pseudo, 0);
    let sum: u32 = sum_words(head, sum);
    let sum: u32 = sum_words(tail, sum);
    let c: u16 = fold(sum);
    if c == 0 {
        0xffff
    } else {
        c
    }
}

/// UDP checksum over the IPv4 pseudo-header and the UDP datagram `udp` (header and
/// payload). Its own checksum field is taken as zero; a computed `0x0000` is
/// returned as `0xffff`.
pub fn udp_v4(src: Ipv4Addr, dst: Ipv4Addr, udp: &[u8]) -> (r: u16)
    requires
        8 <= udp@.len() <= 65535,
    ensures
        r == udp_checksum_of(pseudo_v4(src@, dst@, udp@.len() as int), udp@),
{
    let length: usize = udp.len();
    let pseudo: [u8; 12] = [
        src.octets[0],
        src.octets[1],
        src.octets[2],
        src.octets[3],
        dst.octets[0],
        dst.octets[1],
        dst.octets[2],
        dst.octets[3],
        0,
        IP_PROTO_UDP,
        (length / 256) as u8,
        (length % 256) as u8,
    ];
    assert(pseudo@ =~= pseudo_v4(src@, dst@, udp@.len() as int));
    udp_checksum(&pseudo, udp)
}

/// UDP checksum over the IPv6 pseudo-header and the UDP datagram `udp` (header and
/// payload). Its own checksum field is taken as zero; a computed `0x0000` is
/// returned as `0xffff`.
pub fn udp_v6(src: Ipv6Addr, dst: Ipv6Addr, udp: &[u8]) -> (r: u16)
    requires
        8 <= udp@.len() <= 65535,
    ensures
        r == udp_checksum_of(pseudo_v6(src@, dst@, udp@.len() as int), udp@),
{
    let length: usize = udp.len();
    let mut pseudo: [u8; 40] = [0; 40];
    for i in 0..16usize
        invariant
            forall|j: int| 0 <= j < i ==> pseudo@[j] == src@[j],
            forall|j: int| 0 <= j < i ==> pseudo@[16 + j] == dst@[j],
            forall|j: int| 32 <= j < 40 ==> pseudo@[j] == 0,
    {
        pseudo[i] = src.octets[i];
        pseudo[16 + i] = dst.octets[i];
    }
    pseudo[34] = (length / 256) as u8;
    pseudo[35] = (length % 256) as u8;
    pseudo[39] = IP_PROTO_UDP;
    assert(pseudo@ =~= pseudo_v6(src@, dst@, udp@.len() as int)) by {
        assert forall|j: int| 16 <= j < 32 implies pseudo@[j] == dst@[j - 16] by {
            assert(pseudo@[16 + (j - 16)] == dst@[j - 16]);
        }
    }
    udp_checksum(&pseudo, udp)
}

/// The sum of an even run of words and what follows it.
proof fn lemma_words_concat(a: Seq<u8>, b: Seq<u8>)
    requires
        a.len() % 2 == 0,
    ensures
        words(a + b) == words(a) + words(b),
    decreases a.len(),
{
    if a.len() == 0 {
        assert(a + b =~= b);
    } else {
        assert((a + b).skip(2) =~= a.skip(2) + b);
        lemma_words_concat(a.skip(2), b);
    }
}

/// A sum with its own checksum added is all ones.
proof fn lemma_checksum_verifies(sum: int, c: u16)
    requires
        sum >= 0,
        c == checksum_of(sum) || (checksum_of(sum) == 0 && c == 0xffff),
    ensures
        checksum_of(sum + c) == 0,
{
    if sum > 0 {
        let q = (sum - 1) / 65535;
        assert(sum - 1 == 65535 * q + (sum - 1) % 65535);
        if c == checksum_of(sum) {
            vstd::arithmetic::div_mod::lemma_fundamental_div_mod_converse(
                sum + c - 1,
                65535,
                q,
                65534,
            );
        } else {
            vstd::arithmetic::div_mod::lemma_fundamental_div_mod_converse(
                sum + c - 1,
                65535,
                q + 1,
                65534,
            );
        }
    }
}

/// A receiver's check passes on a header that carries its own checksum: all its
/// words, the checksum with them, sum to all ones.
pub proof fn law_header_verifies(header: Seq<u8>)
    requires
        12 <= header.len(),
        header.subrange(10, 12) == be16(checksum_of(header_words(header)) as int),
    ensures
        checksum_of(words(header)) == 0,
{
    let c = checksum_of(header_words(header));
    let field = header.subrange(10, 12);
    lemma_words_bound(header.take(10));
    lemma_words_bound(header.skip(12));
    assert(header =~= header.take(10) + (field + header.skip(12)));
    lemma_words_concat(header.take(10), field + header.skip(12));
    lemma_words_concat(field, header.skip(12));
    assert(words(field) == c) by {
        assert(field.skip(2) =~= Seq::<u8>::empty());
        assert(words(field.skip(2)) == 0);
    }
    lemma_checksum_verifies(header_words(header), c);
}

/// A receiver's check passes on a datagram that carries its own checksum.
pub proof fn law_datagram_verifies(pseudo: Seq<u8>, udp: Seq<u8>)
    requires
        pseudo.len() % 2 == 0,
        8 <= udp.len(),
        udp.subrange(6, 8) == be16(udp_checksum_of(pseudo, udp) as int),
    ensures
        checksum_of(words(pseudo + udp)) == 0,
{
    let c = udp_checksum_of(pseudo, udp);
    let field = udp.subrange(6, 8);
    lemma_words_bound(pseudo);
    lemma_words_bound(udp.take(6));
    lemma_words_bound(udp.skip(8));
    assert(udp =~= udp.take(6) + (field + udp.skip(8)));
    lemma_words_concat(pseudo, udp);
    lemma_words_concat(udp.take(6), field + udp.skip(8));
    lemma_words_concat(field, udp.skip(8));
    assert(words(field) == c) by {
        assert(field.skip(2) =~= Seq::<u8>::empty());
        assert(words(field.skip(2)) == 0);
    }
    lemma_checksum_verifies(words(pseudo) + datagram_words(udp), c);
}

/// What a header's checksum field holds does not bear on its checksum.
pub proof fn law_header_field_ignored(a: Seq<u8>, b: Seq<u8>)
    requires
        a.len() == b.len() >= 12,
        forall|i: int| 0 <= i < a.len() && i != 10 && i != 11 ==> a[i] == b[i],
    ensures
        header_words(a) == header_words(b),
{
    assert(a.take(10) =~= b.take(10));
    assert(a.skip(12) =~= b.skip(12));
}

/// What a datagram's checksum field holds does not bear on its checksum.
pub proof fn law_datagram_field_ignored(pseudo: Seq<u8>, a: Seq<u8>, b: Seq<u8>)
    requires
        a.len() == b.len() >= 8,
        forall|i: int| 0 <= i < a.len() && i != 6 && i != 7 ==> a[i] == b[i],
    ensures
        udp_checksum_of(pseudo, a) == udp_checksum_of(pseudo, b),
{
    assert(a.take(6) =~= b.take(6));
    assert(a.skip(8) =~= b.skip(8));
}

} // verus!
