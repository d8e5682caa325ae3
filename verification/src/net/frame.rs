//! Build the link-layer frames injected on the egress path.
//!
//! The builders write a full frame into a caller-provided buffer and return the
//! byte count, filling checksums. Ethernet builders prefix destination and source
//! MACs and an ethertype; the BSD `DLT_NULL` builders prefix a 4-byte host-order
//! address family instead, matching the capture-side framing.

use crate::net::addr::{SocketAddrV4, SocketAddrV6};
use crate::net::checksum;
use crate::net::mac::MacAddr;
use crate::net::{
    be16, host32, ByteOrder, HostFamilies, DLT_NULL_HEADER_SIZE, ETHERNET_HEADER_SIZE,
    IPV4_HEADER_SIZE, IPV6_HEADER_SIZE, IP_PROTO_UDP, UDP_HEADER_SIZE,
};
use crate::text;
use vstd::prelude::*;

verus! {

pub const IPV4_ETHERTYPE: u16 = 0x0800;

pub const IPV6_ETHERTYPE: u16 = 0x86dd;

/// Why building a UDP frame failed.
#[derive(Clone, Copy, Debug, PartialEq, Eq, Structural)]
pub enum FrameError {
    /// The buffer cannot hold the frame.
    BufferTooSmall { needed: usize, available: usize },
    /// The datagram overflows the 16-bit IP or UDP length field.
    PayloadTooLarge { payload: usize },
}

impl FrameError {
    /// The error in words.
    pub open spec fn words(self) -> Seq<char> {
        match self {
            FrameError::BufferTooSmall { needed, available } => "output buffer too small: need "@
                + text::decimal(needed as nat) + " bytes, have "@ + text::decimal(available as nat)
                + ""@,
            FrameError::PayloadTooLarge { payload } => "payload of "@ + text::decimal(
                payload as nat,
            ) + " bytes is too large for a UDP datagram"@,
        }
    }

    /// The error in words.
    pub fn message(&self) -> (r: String)
        ensures
            r@ == self.words(),
    {
        match self {
            FrameError::BufferTooSmall { needed, available } => text::around_two(
                "output buffer too small: need ",
                text::number(*needed as u128).as_str(),
                " bytes, have ",
                text::number(*available as u128).as_str(),
                "",
            ),
            FrameError::PayloadTooLarge { payload } => text::around(
                "payload of ",
                text::number(*payload as u128).as_str(),
                " bytes is too large for a UDP datagram",
            ),
        }
    }
}

/// `s` with the 16-bit number `n` written at `at`.
pub open spec fn patched(s: Seq<u8>, at: int, n: int) -> Seq<u8> {
    s.take(at) + be16(n) + s.skip(at + 2)
}

/// An IPv4 header without options, its checksum field zero: version 4, five words,
/// Don't-Fragment set (these one-hop datagrams are never fragmented) and a zero
/// identification.
pub open spec fn bare_ipv4_header(src: Seq<u8>, dst: Seq<u8>, ttl: u8, total: int) -> Seq<u8> {
    seq![0x45u8, 0] + be16(total) + seq![0u8, 0, 0x40, 0, ttl, IP_PROTO_UDP, 0, 0] + src + dst
}

/// An IPv4 header without options, its checksum filled.
pub open spec fn ipv4_header_bytes(src: Seq<u8>, dst: Seq<u8>, ttl: u8, total: int) -> Seq<u8> {
    let bare = bare_ipv4_header(src, dst, ttl, total);
    patched(bare, 10, checksum::checksum_of(checksum::header_words(bare)) as int)
}

/// An IPv6 base header: version 6, zero traffic class and flow label.
pub open spec fn ipv6_header_bytes(src: Seq<u8>, dst: Seq<u8>, hop_limit: u8, length: int) -> Seq<
    u8,
> {
    seq![0x60u8, 0, 0, 0] + be16(length) + seq![IP_PROTO_UDP, hop_limit] + src + dst
}

/// A UDP datagram, its checksum field zero.
pub open spec fn bare_datagram(src_port: u16, dst_port: u16, payload: Seq<u8>) -> Seq<u8> {
    be16(src_port as int) + be16(dst_port as int) + be16(8int + payload.len()) + seq![0u8, 0]
        + payload
}

/// A UDP datagram, its checksum filled under `pseudo`.
pub open spec fn datagram_bytes(
    pseudo: Seq<u8>,
    src_port: u16,
    dst_port: u16,
    payload: Seq<u8>,
) -> Seq<u8> {
    let bare = bare_datagram(src_port, dst_port, payload);
    patched(bare, 6, checksum::udp_checksum_of(pseudo, bare) as int)
}

/// An IPv4 packet that carries a UDP datagram.
pub open spec fn ipv4_udp_bytes(
    src: SocketAddrV4,
    dst: SocketAddrV4,
    ttl: u8,
    payload: Seq<u8>,
) -> Seq<u8> {
    ipv4_header_bytes(src.ip@, dst.ip@, ttl, 28int + payload.len()) + datagram_bytes(
        checksum::pseudo_v4(src.ip@, dst.ip@, 8int + payload.len()),
        src.port,
        dst.port,
        payload,
    )
}

/// An IPv6 packet that carries a UDP datagram.
pub open spec fn ipv6_udp_bytes(
    src: SocketAddrV6,
    dst: SocketAddrV6,
    hop_limit: u8,
    payload: Seq<u8>,
) -> Seq<u8> {
    ipv6_header_bytes(src.ip@, dst.ip@, hop_limit, 8int + payload.len()) + datagram_bytes(
        checksum::pseudo_v6(src.ip@, dst.ip@, 8int + payload.len()),
        src.port,
        dst.port,
        payload,
    )
}

/// The Ethernet header: destination MAC, source MAC, ethertype.
pub open spec fn ethernet_header(dst: MacAddr, src: MacAddr, ethertype: u16) -> Seq<u8> {
    dst@ + src@ + be16(ethertype as int)
}

/// The largest payload of an IPv4 packet: the total length is a 16-bit field.
pub open spec fn max_v4_payload() -> int {
    65535 - 28
}

/// The largest payload of a UDP datagram: its length is a 16-bit field.
pub open spec fn max_v6_payload() -> int {
    65535 - 8
}

/// What stands in the way of writing a packet of `header` bytes, a UDP header and
/// `payload` bytes into `available` bytes.
pub open spec fn packet_error(header: int, max: int, payload: int, available: int) -> Option<
    FrameError,
> {
    if payload > max {
        Some(FrameError::PayloadTooLarge { payload: payload as usize })
    } else if available < header + 8 + payload {
        Some(
            FrameError::BufferTooSmall {
                needed: (header + 8 + payload) as usize,
                available: available as usize,
            },
        )
    } else {
        None
    }
}

/// What stands in the way of writing that packet behind an L2 header of `l2` bytes;
/// sizes are those of the whole frame.
pub open spec fn frame_error(l2: int, header: int, max: int, payload: int, available: int) -> Option<
    FrameError,
> {
    if available < l2 {
        Some(FrameError::BufferTooSmall { needed: l2 as usize, available: available as usize })
    } else if payload > max {
        Some(FrameError::PayloadTooLarge { payload: payload as usize })
    } else if available < l2 + header + 8 + payload {
        Some(
            FrameError::BufferTooSmall {
                needed: (l2 + header + 8 + payload) as usize,
                available: available as usize,
            },
        )
    } else {
        None
    }
}

/// `after` is `before` with `frame` written at its front.
pub open spec fn written(before: Seq<u8>, after: Seq<u8>, frame: Seq<u8>) -> bool {
    &&& frame.len() <= before.len()
    &&& after == frame + before.skip(frame.len() as int)
}

/// Write `bytes` into `out` at `at`.
fn put(out: &mut [u8], at: usize, bytes: &[u8])
    requires
        at + bytes@.len() <= old(out)@.len(),
    ensures
        final(out)@ == old(out)@.take(at as int) + bytes@ + old(out)@.skip(at + bytes@.len()),
{
    let ghost before = out@;
    for i in 0..bytes.len()
        invariant
            at + bytes@.len() <= before.len(),
            out@.len() == before.len(),
            out@ =~= before.take(at as int) + bytes@.take(i as int) + before.skip(at + i),
    {
        let n: usize = out.len();
        out[at + i] = bytes[i];
    }
    assert(out@ =~= before.take(at as int) + bytes@ + before.skip(at + bytes@.len()));
}

/// The UDP datagram length (header and `payload`), or
/// [`FrameError::PayloadTooLarge`] if it overflows the 16-bit length field.
pub fn datagram_length(payload: &[u8]) -> (r: Result<u16, FrameError>)
    ensures
        match r {
            Ok(n) => n == 8 + payload@.len(),
            Err(e) => payload@.len() > 65535 - 8 && e == (FrameError::PayloadTooLarge {
                payload: payload@.len() as usize,
            }),
        },
{
    let n: usize = payload.len();
    if n > 65535 - UDP_HEADER_SIZE {
        return Err(FrameError::PayloadTooLarge { payload: n });
    }
    Ok((n + UDP_HEADER_SIZE) as u16)
}

/// Write a UDP datagram and its checksum field zero at `at`.
fn write_datagram(out: &mut [u8], at: usize, src_port: u16, dst_port: u16, payload: &[u8])
    requires
        payload@.len() <= 65535 - 8,
        at + 8 + payload@.len() <= old(out)@.len(),
    ensures
        final(out)@ == old(out)@.take(at as int) + bare_datagram(src_port, dst_port, payload@)
            + old(out)@.skip(at + 8 + payload@.len()),
{
    let length: usize = payload.len() + UDP_HEADER_SIZE;
    let total: usize = out.len();
    let header: [u8; 8] = [
        (src_port / 256) as u8,
        (src_port % 256) as u8,
        (dst_port / 256) as u8,
        (dst_port % 256) as u8,
        (length / 256) as u8,
        (length % 256) as u8,
        0,
        0,
    ];
    put(out, at, &header);
    put(out, at + UDP_HEADER_SIZE, payload);
    assert(out@ =~= old(out)@.take(at as int) + bare_datagram(src_port, dst_port, payload@) + old(
        out,
    )@.skip(at + 8 + payload@.len()));
}

/// Write the 16-bit number `n` at `at`.
fn put_be16(out: &mut [u8], at: usize, n: u16)
    requires
        at + 2 <= old(out)@.len(),
    ensures
        final(out)@ == patched(old(out)@, at as int, n as int),
{
    let b: [u8; 2] = [(n / 256) as u8, (n % 256) as u8];
    assert(b@ =~= be16(n as int));
    put(out, at, &b);
}

/// Write an IPv4 and UDP datagram (headers and `payload`, with both checksums
/// filled) at the front of `out`, returning the number of bytes written.
///
/// # Errors
/// [`FrameError::PayloadTooLarge`] if the datagram overflows the 16-bit length
/// fields, or [`FrameError::BufferTooSmall`] if `out` cannot hold it; `out` is then
/// unchanged.
pub fn ipv4_udp(
    src: SocketAddrV4,
    dst: SocketAddrV4,
    ttl: u8,
    payload: &[u8],
    out: &mut [u8],
) -> (r: Result<usize, FrameError>)
    ensures
        match packet_error(20, max_v4_payload(), payload@.len() as int, old(out)@.len() as int) {
            Some(e) => r == Err::<usize, FrameError>(e) && final(out)@ == old(out)@,
            None => {
                &&& r == Ok::<usize, FrameError>((28 + payload@.len()) as usize)
                &&& written(old(out)@, final(out)@, ipv4_udp_bytes(src, dst, ttl, payload@))
            },
        },
{
    let ghost before = out@;
    let available: usize = out.len();
    let size: usize = payload.len();
    let udp_length: u16 = match datagram_length(payload) {
        Ok(n) => n,
        Err(e) => {
            return Err(e);
        },
    };
    let total: usize = IPV4_HEADER_SIZE + udp_length as usize;
    if total > 65535 {
        return Err(FrameError::PayloadTooLarge { payload: size });
    }
    if available < total {
        return Err(FrameError::BufferTooSmall { needed: total, available });
    }
    let mut header: [u8; 20] = [
        0x45,
        0,
        (total / 256) as u8,
        (total % 256) as u8,
        0,
        0,
        0x40,
        0,
        ttl,
        IP_PROTO_UDP,
        0,
        0,
        src.ip.octets[0],
        src.ip.octets[1],
        src.ip.octets[2],
        src.ip.octets[3],
        dst.ip.octets[0],
        dst.ip.octets[1],
        dst.ip.octets[2],
        dst.ip.octets[3],
    ];
    let ghost bare = bare_ipv4_header(src.ip@, dst.ip@, ttl, total as int);
    assert(header@ =~= bare);
    let sum: u16 = checksum::ipv4_header(&header);
    header[10] = (sum / 256) as u8;
    header[11] = (sum % 256) as u8;
    assert(header@ =~= ipv4_header_bytes(src.ip@, dst.ip@, ttl, total as int));
    put(out, 0, &header);
    write_datagram(out, IPV4_HEADER_SIZE, src.port, dst.port, payload);
    let ghost udp = bare_datagram(src.port, dst.port, payload@);
    let ghost filled = out@;
    proof {
        assert(filled =~= header@ + udp + before.skip(total as int));
    }
    let udp_sum: u16 = {
        let datagram = vstd::slice::slice_subrange(out, IPV4_HEADER_SIZE, total);
        assert(datagram@ =~= udp);
        checksum::udp_v4(src.ip, dst.ip, datagram)
    };
    put_be16(out, IPV4_HEADER_SIZE + 6, udp_sum);
    assert(out@ =~= header@ + patched(udp, 6, udp_sum as int) + before.skip(total as int));
    assert(out@ =~= ipv4_udp_bytes(src, dst, ttl, payload@) + before.skip(total as int));
    Ok(total)
}

/// Write an IPv6 and UDP datagram (headers and `payload`, with the UDP checksum
/// filled) at the front of `out`, returning the number of bytes written. The IPv6
/// header carries no checksum of its own.
///
/// # Errors
/// [`FrameError::PayloadTooLarge`] if the datagram overflows the 16-bit length
/// field, or [`FrameError::BufferTooSmall`] if `out` cannot hold it; `out` is then
/// unchanged.
pub fn ipv6_udp(
    src: SocketAddrV6,
    dst: SocketAddrV6,
    hop_limit: u8,
    payload: &[u8],
    out: &mut [u8],
) -> (r: Result<usize, FrameError>)
    ensures
        match packet_error(40, max_v6_payload(), payload@.len() as int, old(out)@.len() as int) {
            Some(e) => r == Err::<usize, FrameError>(e) && final(out)@ == old(out)@,
            None => {
                &&& r == Ok::<usize, FrameError>((48 + payload@.len()) as usize)
                &&& written(old(out)@, final(out)@, ipv6_udp_bytes(src, dst, hop_limit, payload@))
            },
        },
{
    let ghost before = out@;
    let available: usize = out.len();
    let udp_length: u16 = match datagram_length(payload) {
        Ok(n) => n,
        Err(e) => {
            return Err(e);
        },
    };
    let total: usize = IPV6_HEADER_SIZE + udp_length as usize;
    if available < total {
        return Err(FrameError::BufferTooSmall { needed: total, available });
    }
    let front: [u8; 8] = [
        0x60,
        0,
        0,
        0,
        (udp_length / 256) as u8,
        (udp_length % 256) as u8,
        IP_PROTO_UDP,
        hop_limit,
    ];
    put(out, 0, &front);
    put(out, 8, &src.ip.octets);
    put(out, 24, &dst.ip.octets);
    let ghost header = ipv6_header_bytes(src.ip@, dst.ip@, hop_limit, udp_length as int);
    assert(out@ =~= header + before.skip(40));
    write_datagram(out, IPV6_HEADER_SIZE, src.port, dst.port, payload);
    let ghost udp = bare_datagram(src.port, dst.port, payload@);
    proof {
        assert(out@ =~= header + udp + before.skip(total as int));
    }
    let udp_sum: u16 = {
        let datagram = vstd::slice::slice_subrange(out, IPV6_HEADER_SIZE, total);
        assert(datagram@ =~= udp);
        checksum::udp_v6(src.ip, dst.ip, datagram)
    };
    put_be16(out, IPV6_HEADER_SIZE + 6, udp_sum);
    assert(out@ =~= header + patched(udp, 6, udp_sum as int) + before.skip(total as int));
    assert(out@ =~= ipv6_udp_bytes(src, dst, hop_limit, payload@) + before.skip(total as int));
    Ok(total)
}

/// Re-base a datagram-relative [`FrameError::BufferTooSmall`] onto the whole frame,
/// so that the reported sizes account for the `l2_size`-byte L2 header.
fn with_l2_header(error: FrameError, l2_size: usize) -> (r: FrameError)
    requires
        match error {
            FrameError::BufferTooSmall { needed, available } => needed + l2_size <= usize::MAX
                && available + l2_size <= usize::MAX,
            FrameError::PayloadTooLarge { .. } => true,
        },
    ensures
        r == match error {
            FrameError::BufferTooSmall { needed, available } => FrameError::BufferTooSmall {
                needed: (needed + l2_size) as usize,
                available: (available + l2_size) as usize,
            },
            FrameError::PayloadTooLarge { .. } => error,
        },
{
    match error {
        FrameError::BufferTooSmall { needed, available } => FrameError::BufferTooSmall {
            needed: needed + l2_size,
            available: available + l2_size,
        },
        FrameError::PayloadTooLarge { .. } => error,
    }
}

/// Write the 14-byte Ethernet header: destination MAC, source MAC, ethertype.
fn write_ethernet_header(out: &mut [u8], dst_mac: MacAddr, src_mac: MacAddr, ethertype: u16)
    requires
        old(out)@.len() == 14,
    ensures
        final(out)@ == ethernet_header(dst_mac, src_mac, ethertype),
{
    put(out, 0, &dst_mac.octets);
    put(out, 6, &src_mac.octets);
    put_be16(out, 12, ethertype);
    assert(out@ =~= ethernet_header(dst_mac, src_mac, ethertype));
}

/// Write the 4-byte `DLT_NULL` link header: the address family in host byte order.
fn write_dlt_null_header(out: &mut [u8], order: ByteOrder, family: u32)
    requires
        old(out)@.len() == 4,
    ensures
        final(out)@ == host32(order, family),
{
    let a: u8 = (family / 0x100_0000) as u8;
    let b: u8 = (family / 0x1_0000 % 0x100) as u8;
    let c: u8 = (family / 0x100 % 0x100) as u8;
    let d: u8 = (family % 0x100) as u8;
    let bytes: [u8; 4] = match order {
        ByteOrder::Big => [a, b, c, d],
        ByteOrder::Little => [d, c, b, a],
    };
    put(out, 0, &bytes);
    assert(out@ =~= host32(order, family));
}

/// Ethernet frame carrying an IPv4 UDP datagram into `out`, returning the frame
/// length.
///
/// # Errors
/// [`FrameError::PayloadTooLarge`] if the datagram overflows the 16-bit length
/// fields, or [`FrameError::BufferTooSmall`] if `out` cannot hold the frame; `out`
/// is then unchanged.
pub fn ethernet_ipv4_udp(
    dst_mac: MacAddr,
    src_mac: MacAddr,
    src: SocketAddrV4,
    dst: SocketAddrV4,
    ttl: u8,
    payload: &[u8],
    out: &mut [u8],
) -> (r: Result<usize, FrameError>)
    ensures
        match frame_error(
            14,
            20,
            max_v4_payload(),
            payload@.len() as int,
            old(out)@.len() as int,
        ) {
            Some(e) => r == Err::<usize, FrameError>(e) && final(out)@ == old(out)@,
            None => {
                &&& r == Ok::<usize, FrameError>((14 + 20 + 8 + payload@.len()) as usize)
                &&& written(
                    old(out)@,
                    final(out)@,
                    ethernet_header(dst_mac, src_mac, IPV4_ETHERTYPE) + ipv4_udp_bytes(
                        src,
                        dst,
                        ttl,
                        payload@,
                    ),
                )
            },
        },
{
    let ghost before = out@;
    let available: usize = out.len();
    if available < ETHERNET_HEADER_SIZE {
        return Err(FrameError::BufferTooSmall { needed: ETHERNET_HEADER_SIZE, available });
    }
    let (header, body) = out.split_at_mut(ETHERNET_HEADER_SIZE);
    match ipv4_udp(src, dst, ttl, payload, body) {
        Ok(n) => {
            write_ethernet_header(header, dst_mac, src_mac, IPV4_ETHERTYPE);
            assert(header@ + body@ =~= ethernet_header(dst_mac, src_mac, IPV4_ETHERTYPE)
                + ipv4_udp_bytes(src, dst, ttl, payload@) + before.skip(14 + n));
            Ok(ETHERNET_HEADER_SIZE + n)
        },
        Err(e) => {
            assert(header@ + body@ =~= before);
            Err(with_l2_header(e, ETHERNET_HEADER_SIZE))
        },
    }
}

/// Ethernet frame carrying an IPv6 UDP datagram into `out`, returning the frame
/// length.
///
/// # Errors
/// [`FrameError::PayloadTooLarge`] if the datagram overflows the 16-bit length
/// fields, or [`FrameError::BufferTooSmall`] if `out` cannot hold the frame; `out`
/// is then unchanged.
pub fn ethernet_ipv6_udp(
    dst_mac: MacAddr,
    src_mac: MacAddr,
    src: SocketAddrV6,
    dst: SocketAddrV6,
    hop_limit: u8,
    payload: &[u8],
    out: &mut [u8],
) -> (r: Result<usize, FrameError>)
    ensures
        match frame_error(
            14,
            40,
            max_v6_payload(),
            payload@.len() as int,
            old(out)@.len() as int,
        ) {
            Some(e) => r == Err::<usize, FrameError>(e) && final(out)@ == old(out)@,
            None => {
                &&& r == Ok::<usize, FrameError>((14 + 40 + 8 + payload@.len()) as usize)
                &&& written(
                    old(out)@,
                    final(out)@,
                    ethernet_header(dst_mac, src_mac, IPV6_ETHERTYPE) + ipv6_udp_bytes(
                        src,
                        dst,
                        hop_limit,
                        payload@,
                    ),
                )
            },
        },
{
    let ghost before = out@;
    let available: usize = out.len();
    if available < ETHERNET_HEADER_SIZE {
        return Err(FrameError::BufferTooSmall { needed: ETHERNET_HEADER_SIZE, available });
    }
    let (header, body) = out.split_at_mut(ETHERNET_HEADER_SIZE);
    match ipv6_udp(src, dst, hop_limit, payload, body) {
        Ok(n) => {
            write_ethernet_header(header, dst_mac, src_mac, IPV6_ETHERTYPE);
            assert(header@ + body@ =~= ethernet_header(dst_mac, src_mac, IPV6_ETHERTYPE)
                + ipv6_udp_bytes(src, dst, hop_limit, payload@) + before.skip(14 + n));
            Ok(ETHERNET_HEADER_SIZE + n)
        },
        Err(e) => {
            assert(header@ + body@ =~= before);
            Err(with_l2_header(e, ETHERNET_HEADER_SIZE))
        },
    }
}

/// `DLT_NULL` frame carrying an IPv4 UDP datagram into `out`: a 4-byte host-order
/// address family, then the datagram. Returns the frame length.
///
/// # Errors
/// [`FrameError::PayloadTooLarge`] if the datagram overflows the 16-bit length
/// fields, or [`FrameError::BufferTooSmall`] if `out` cannot hold the frame; `out`
/// is then unchanged.
pub fn dlt_null_ipv4_udp(
    host: HostFamilies,
    src: SocketAddrV4,
    dst: SocketAddrV4,
    ttl: u8,
    payload: &[u8],
    out: &mut [u8],
) -> (r: Result<usize, FrameError>)
    ensures
        match frame_error(
            4,
            20,
            max_v4_payload(),
            payload@.len() as int,
            old(out)@.len() as int,
        ) {
            Some(e) => r == Err::<usize, FrameError>(e) && final(out)@ == old(out)@,
            None => {
                &&& r == Ok::<usize, FrameError>((4 + 20 + 8 + payload@.len()) as usize)
                &&& written(
                    old(out)@,
                    final(out)@,
                    host32(host.order, host.inet) + ipv4_udp_bytes(src, dst, ttl, payload@),
                )
            },
        },
{
    let ghost before = out@;
    let available: usize = out.len();
    if available < DLT_NULL_HEADER_SIZE {
        return Err(FrameError::BufferTooSmall { needed: DLT_NULL_HEADER_SIZE, available });
    }
    let (header, body) = out.split_at_mut(DLT_NULL_HEADER_SIZE);
    match ipv4_udp(src, dst, ttl, payload, body) {
        Ok(n) => {
            write_dlt_null_header(header, host.order, host.inet);
            assert(header@ + body@ =~= host32(host.order, host.inet) + ipv4_udp_bytes(
                src,
                dst,
                ttl,
                payload@,
            ) + before.skip(4 + n));
            Ok(DLT_NULL_HEADER_SIZE + n)
        },
        Err(e) => {
            assert(header@ + body@ =~= before);
            Err(with_l2_header(e, DLT_NULL_HEADER_SIZE))
        },
    }
}

/// `DLT_NULL` frame carrying an IPv6 UDP datagram into `out`: a 4-byte host-order
/// address family, then the datagram. Returns the frame length.
///
/// # Errors
/// [`FrameError::PayloadTooLarge`] if the datagram overflows the 16-bit length
/// fields, or [`FrameError::BufferTooSmall`] if `out` cannot hold the frame; `out`
/// is then unchanged.
pub fn dlt_null_ipv6_udp(
    host: HostFamilies,
    src: SocketAddrV6,
    dst: SocketAddrV6,
    hop_limit: u8,
    payload: &[u8],
    out: &mut [u8],
) -> (r: Result<usize, FrameError>)
    ensures
        match frame_error(
            4,
            40,
            max_v6_payload(),
            payload@.len() as int,
            old(out)@.len() as int,
        ) {
            Some(e) => r == Err::<usize, FrameError>(e) && final(out)@ == old(out)@,
            None => {
                &&& r == Ok::<usize, FrameError>((4 + 40 + 8 + payload@.len()) as usize)
                &&& written(
                    old(out)@,
                    final(out)@,
                    host32(host.order, host.inet6) + ipv6_udp_bytes(src, dst, hop_limit, payload@),
                )
            },
        },
{
    let ghost before = out@;
    let available: usize = out.len();
    if available < DLT_NULL_HEADER_SIZE {
        return Err(FrameError::BufferTooSmall { needed: DLT_NULL_HEADER_SIZE, available });
    }
    let (header, body) = out.split_at_mut(DLT_NULL_HEADER_SIZE);
    match ipv6_udp(src, dst, hop_limit, payload, body) {
        Ok(n) => {
            write_dlt_null_header(header, host.order, host.inet6);
            assert(header@ + body@ =~= host32(host.order, host.inet6) + ipv6_udp_bytes(
                src,
                dst,
                hop_limit,
                payload@,
            ) + before.skip(4 + n));
            Ok(DLT_NULL_HEADER_SIZE + n)
        },
        Err(e) => {
            assert(header@ + body@ =~= before);
            Err(with_l2_header(e, DLT_NULL_HEADER_SIZE))
        },
    }
}

} // verus!
