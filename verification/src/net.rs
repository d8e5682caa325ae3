//! Wire formats: addresses, checksums, frames, packets, and the discovery
//! protocols carried in them.

pub mod addr;
pub mod checksum;
pub mod frame;
pub mod http;
pub mod mac;
pub mod mdns;
pub mod packet;
pub mod ssdp;
pub mod stream_buffer;
pub mod tcp;

use vstd::prelude::*;

verus! {

/// The link-layer framing of a captured or injected frame: a 14-byte Ethernet
/// header, or `DLT_NULL`'s 4-byte host-order address family (BSD loopback and
/// tunnel interfaces). Linux frames every interface, loopback included, as
/// Ethernet.
#[derive(Clone, Copy, Debug, PartialEq, Eq, Structural)]
pub enum LinkType {
    Ethernet,
    DltNull,
}

/// The order in which a host stores the bytes of a number.
#[derive(Clone, Copy, Debug, PartialEq, Eq, Structural)]
pub enum ByteOrder {
    Little,
    Big,
}

/// The four bytes of `n` as a host of this byte order stores them.
pub open spec fn host32(order: ByteOrder, n: u32) -> Seq<u8> {
    let b = seq![
        (n / 0x100_0000) as u8,
        (n / 0x1_0000 % 0x100) as u8,
        (n / 0x100 % 0x100) as u8,
        (n % 0x100) as u8,
    ];
    match order {
        ByteOrder::Big => b,
        ByteOrder::Little => seq![b[3], b[2], b[1], b[0]],
    }
}

/// How a BSD host writes an address family in a `DLT_NULL` link header: its byte
/// order, and its numbers for the two families.
#[derive(Clone, Copy, Debug, PartialEq, Eq, Structural)]
pub struct HostFamilies {
    pub order: ByteOrder,
    pub inet: u32,
    pub inet6: u32,
}

/// IANA protocol number for UDP.
pub const IP_PROTO_UDP: u8 = 17;

/// Ethernet link header: destination MAC, source MAC, ethertype.
pub const ETHERNET_HEADER_SIZE: usize = 14;

/// BSD `DLT_NULL` link header: a 4-byte address family in host byte order.
pub const DLT_NULL_HEADER_SIZE: usize = 4;

/// IPv4 header without options.
pub const IPV4_HEADER_SIZE: usize = 20;

/// The fixed IPv6 base header.
pub const IPV6_HEADER_SIZE: usize = 40;

/// The fixed UDP header.
pub const UDP_HEADER_SIZE: usize = 8;

/// A 16-bit number in network byte order.
pub open spec fn be16(n: int) -> Seq<u8> {
    seq![(n / 256) as u8, (n % 256) as u8]
}

/// The 16-bit number that two bytes in network byte order write.
pub open spec fn be16_at(s: Seq<u8>, i: int) -> int {
    s[i] * 256 + s[i + 1]
}

/// Read a 16-bit number in network byte order.
pub fn read_be16(s: &[u8], i: usize) -> (r: u16)
    requires
        i + 2 <= s@.len(),
    ensures
        r == be16_at(s@, i as int),
{
    let n: usize = s.len();
    (s[i] as u16) * 256 + (s[i + 1] as u16)
}

/// The 16-bit number that a host of this byte order reads at `i`.
pub open spec fn host16_at(order: ByteOrder, s: Seq<u8>, i: int) -> int {
    match order {
        ByteOrder::Big => s[i] * 0x100 + s[i + 1],
        ByteOrder::Little => s[i] + s[i + 1] * 0x100,
    }
}

/// The 32-bit number that a host of this byte order reads at `i`.
pub open spec fn host32_at(order: ByteOrder, s: Seq<u8>, i: int) -> int {
    match order {
        ByteOrder::Big => s[i] * 0x100_0000 + s[i + 1] * 0x1_0000 + s[i + 2] * 0x100 + s[i + 3],
        ByteOrder::Little => s[i] + s[i + 1] * 0x100 + s[i + 2] * 0x1_0000 + s[i + 3] * 0x100_0000,
    }
}

/// Read a 16-bit number in a host's byte order.
pub fn read_host16(order: ByteOrder, s: &[u8], i: usize) -> (r: u16)
    requires
        i + 2 <= s@.len(),
    ensures
        r == host16_at(order, s@, i as int),
{
    let n: usize = s.len();
    match order {
        ByteOrder::Big => (s[i] as u16) * 0x100 + (s[i + 1] as u16),
        ByteOrder::Little => (s[i] as u16) + (s[i + 1] as u16) * 0x100,
    }
}

/// Read a 32-bit number in a host's byte order.
pub fn read_host32(order: ByteOrder, s: &[u8], i: usize) -> (r: u32)
    requires
        i + 4 <= s@.len(),
    ensures
        r == host32_at(order, s@, i as int),
{
    let n: usize = s.len();
    let a: u32 = s[i] as u32;
    let b: u32 = s[i + 1] as u32;
    let c: u32 = s[i + 2] as u32;
    let d: u32 = s[i + 3] as u32;
    match order {
        ByteOrder::Big => a * 0x100_0000 + b * 0x1_0000 + c * 0x100 + d,
        ByteOrder::Little => a + b * 0x100 + c * 0x1_0000 + d * 0x100_0000,
    }
}

/// Four bytes write a number that 32 bits hold.
pub proof fn lemma_host32_at(order: ByteOrder, s: Seq<u8>, i: int)
    ensures
        0 <= host32_at(order, s, i) <= u32::MAX,
{
}

} // verus!
