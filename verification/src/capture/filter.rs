//! Classic-BPF filter programs. The instruction encoding is the same for a Linux packet socket and
//! the BSD BPF device. A small model of the BPF machine states what each program accepts.

use crate::net::addr::{SocketAddrV4, SocketAddrV6};
use crate::net::frame;
use crate::net::mac::MacAddr;
use crate::net::{ByteOrder, HostFamilies, LinkType};
use vstd::prelude::*;

verus! {

/// One classic-BPF instruction.
#[derive(Clone, Copy, Debug, PartialEq, Eq, Structural)]
pub struct BpfInsn {
    pub code: u16,
    pub jt: u8,
    pub jf: u8,
    pub k: u32,
}

/// Load the word at `k`.
pub const LD_W_ABS: u16 = 0x0020;

/// Load the half word at `k`.
pub const LD_H_ABS: u16 = 0x0028;

/// Load the byte at `k`.
pub const LD_B_ABS: u16 = 0x0030;

/// Jump by `jt` where the accumulator is `k`, else by `jf`.
pub const JEQ_K: u16 = 0x0015;

/// Return `k`: how many bytes to keep, 0 to drop.
pub const RET_K: u16 = 0x0006;

/// The load offset under which Linux gives the packet type.
pub const SKF_AD_PKTTYPE_OFFSET: u32 = 0xffff_f004;

/// The packet type of a frame this host sent.
pub const PACKET_OUTGOING: u32 = 4;

/// One instruction.
pub fn insn(code: u16, jt: u8, jf: u8, k: u32) -> (i: BpfInsn)
    ensures
        i == (BpfInsn { code, jt, jf, k }),
{
    BpfInsn { code, jt, jf, k }
}

/// The value the BPF machine loads from a packet, always big-endian; a load past the end has none.
pub open spec fn loaded(packet: Seq<u8>, pkt_type: int, code: u16, k: u32) -> Option<int> {
    if code == LD_B_ABS && k == SKF_AD_PKTTYPE_OFFSET {
        Some(pkt_type)
    } else if code == LD_B_ABS && k < packet.len() {
        Some(packet[k as int] as int)
    } else if code == LD_H_ABS && k + 2 <= packet.len() {
        Some(packet[k as int] * 0x100 + packet[k + 1])
    } else if code == LD_W_ABS && k + 4 <= packet.len() {
        Some(
            packet[k as int] * 0x100_0000 + packet[k + 1] * 0x1_0000 + packet[k + 2] * 0x100
                + packet[k + 3],
        )
    } else {
        None
    }
}

/// What the BPF machine returns for a packet of the kernel's packet type, from instruction `pc` on
/// with `acc` in the accumulator: a load past the end of the packet, and running off the program,
/// drop it.
pub open spec fn verdict(
    program: Seq<BpfInsn>,
    packet: Seq<u8>,
    pkt_type: int,
    pc: int,
    acc: int,
) -> int
    decreases program.len() + 256 - pc,
{
    if pc < 0 || pc >= program.len() {
        0
    } else {
        let i = program[pc];
        if i.code == RET_K {
            i.k as int
        } else if i.code == JEQ_K {
            verdict(
                program,
                packet,
                pkt_type,
                pc + 1 + if acc == i.k {
                    i.jt as int
                } else {
                    i.jf as int
                },
                acc,
            )
        } else {
            match loaded(packet, pkt_type, i.code, i.k) {
                Some(value) => verdict(program, packet, pkt_type, pc + 1, value),
                None => 0,
            }
        }
    }
}

/// The program of [`ethernet_udp_filter`].
pub open spec fn ethernet_program() -> Seq<BpfInsn> {
    seq![
        BpfInsn { code: LD_H_ABS, jt: 0, jf: 0, k: 12 },
        BpfInsn { code: JEQ_K, jt: 3, jf: 0, k: 0x0800 },
        BpfInsn { code: JEQ_K, jt: 0, jf: 5, k: 0x86dd },
        BpfInsn { code: LD_B_ABS, jt: 0, jf: 0, k: 20 },
        BpfInsn { code: JEQ_K, jt: 2, jf: 3, k: 17 },
        BpfInsn { code: LD_B_ABS, jt: 0, jf: 0, k: 23 },
        BpfInsn { code: JEQ_K, jt: 0, jf: 1, k: 17 },
        BpfInsn { code: RET_K, jt: 0, jf: 0, k: 0xffff_ffff },
        BpfInsn { code: RET_K, jt: 0, jf: 0, k: 0 },
    ]
}

/// Accepts IPv4 UDP and IPv6 UDP on an Ethernet link and drops everything else in the kernel (no
/// VLAN tags, no IPv6 extension headers).
///
/// ```text
/// ldh [12]                 the ethertype
/// jeq 0x0800 -> IPv4@5     else fall through
/// jeq 0x86dd -> IPv6 fall  else drop@8
/// ldb [20]                 the IPv6 next header
/// jeq 17     -> accept@7   else drop@8
/// ldb [23]                 the IPv4 protocol
/// jeq 17     -> accept@7   else drop@8
/// ret 0xffffffff           accept
/// ret 0                    drop
/// ```
pub fn ethernet_udp_filter() -> (program: Vec<BpfInsn>)
    ensures
        program@ == ethernet_program(),
{
    let program = vec![
        insn(LD_H_ABS, 0, 0, 12),
        insn(JEQ_K, 3, 0, 0x0800),
        insn(JEQ_K, 0, 5, 0x86dd),
        insn(LD_B_ABS, 0, 0, 20),
        insn(JEQ_K, 2, 3, 17),
        insn(LD_B_ABS, 0, 0, 23),
        insn(JEQ_K, 0, 1, 17),
        insn(RET_K, 0, 0, 0xffff_ffff),
        insn(RET_K, 0, 0, 0),
    ];
    assert(program@ =~= ethernet_program());
    program
}

/// The program of [`drop_outgoing_prologue`].
pub open spec fn outgoing_program() -> Seq<BpfInsn> {
    seq![
        BpfInsn { code: LD_B_ABS, jt: 0, jf: 0, k: SKF_AD_PKTTYPE_OFFSET },
        BpfInsn { code: JEQ_K, jt: 0, jf: 1, k: PACKET_OUTGOING },
        BpfInsn { code: RET_K, jt: 0, jf: 0, k: 0 },
    ]
}

/// Drops the frames this host sent, and falls through to what follows for every other: for Linux
/// kernels whose packet sockets cannot ignore outgoing frames themselves.
pub fn drop_outgoing_prologue() -> (program: Vec<BpfInsn>)
    ensures
        program@ == outgoing_program(),
{
    let program = vec![
        insn(LD_B_ABS, 0, 0, SKF_AD_PKTTYPE_OFFSET),
        insn(JEQ_K, 0, 1, PACKET_OUTGOING),
        insn(RET_K, 0, 0, 0),
    ];
    assert(program@ =~= outgoing_program());
    program
}

/// [`drop_outgoing_prologue`] followed by [`ethernet_udp_filter`].
pub fn drop_outgoing_filter() -> (program: Vec<BpfInsn>)
    ensures
        program@ == outgoing_program() + ethernet_program(),
{
    let mut program = drop_outgoing_prologue();
    let mut rest = ethernet_udp_filter();
    program.append(&mut rest);
    assert(program@ =~= outgoing_program() + ethernet_program());
    program
}

/// The filter of a Linux packet socket: the plain one where the socket ignores outgoing frames
/// itself, else the one that drops them.
pub fn packet_socket_filter(ignores_outgoing: bool) -> (program: Vec<BpfInsn>)
    ensures
        program@ == if ignores_outgoing {
            ethernet_program()
        } else {
            outgoing_program() + ethernet_program()
        },
{
    if ignores_outgoing {
        ethernet_udp_filter()
    } else {
        drop_outgoing_filter()
    }
}

/// The number that a big-endian word load reads where a host of this byte order stored `af`.
pub open spec fn word_loaded(order: ByteOrder, af: u32) -> int {
    let b = crate::net::host32(order, af);
    b[0] * 0x100_0000 + b[1] * 0x1_0000 + b[2] * 0x100 + b[3]
}

/// A host-order address family as the value a word load compares equal to. The BPF machine loads a
/// word big-endian whatever the host, but a `DLT_NULL` frame stores the family in host order.
pub fn host_af_to_bpf_be(order: ByteOrder, af: u32) -> (k: u32)
    ensures
        k == word_loaded(order, af),
{
    let b0: u32 = af / 0x100_0000;
    let b1: u32 = af / 0x1_0000 % 0x100;
    let b2: u32 = af / 0x100 % 0x100;
    let b3: u32 = af % 0x100;
    match order {
        ByteOrder::Big => {
            assert(b0 * 0x100_0000 + b1 * 0x1_0000 + b2 * 0x100 + b3 == af);
            b0 * 0x100_0000 + b1 * 0x1_0000 + b2 * 0x100 + b3
        },
        ByteOrder::Little => b3 * 0x100_0000 + b2 * 0x1_0000 + b1 * 0x100 + b0,
    }
}

/// The program of [`dlt_null_udp_filter`].
pub open spec fn dlt_null_program(host: HostFamilies) -> Seq<BpfInsn> {
    seq![
        BpfInsn { code: LD_W_ABS, jt: 0, jf: 0, k: 0 },
        BpfInsn { code: JEQ_K, jt: 3, jf: 0, k: word_loaded(host.order, host.inet) as u32 },
        BpfInsn { code: JEQ_K, jt: 0, jf: 5, k: word_loaded(host.order, host.inet6) as u32 },
        BpfInsn { code: LD_B_ABS, jt: 0, jf: 0, k: 10 },
        BpfInsn { code: JEQ_K, jt: 2, jf: 3, k: 17 },
        BpfInsn { code: LD_B_ABS, jt: 0, jf: 0, k: 13 },
        BpfInsn { code: JEQ_K, jt: 0, jf: 1, k: 17 },
        BpfInsn { code: RET_K, jt: 0, jf: 0, k: 0xffff_ffff },
        BpfInsn { code: RET_K, jt: 0, jf: 0, k: 0 },
    ]
}

/// Accepts IPv4 UDP and IPv6 UDP on a `DLT_NULL` link and drops everything else in the kernel. The
/// link header is a 4-byte host-order address family, then the IP packet.
///
/// ```text
/// ld  [0]                    the address family
/// jeq AF_INET  -> IPv4@5     else fall through
/// jeq AF_INET6 -> IPv6 fall  else drop@8
/// ldb [10]                   the IPv6 next header (4 + 6)
/// jeq 17       -> accept@7   else drop@8
/// ldb [13]                   the IPv4 protocol (4 + 9)
/// jeq 17       -> accept@7   else drop@8
/// ret 0xffffffff             accept
/// ret 0                      drop
/// ```
pub fn dlt_null_udp_filter(host: HostFamilies) -> (program: Vec<BpfInsn>)
    ensures
        program@ == dlt_null_program(host),
{
    let program = vec![
        insn(LD_W_ABS, 0, 0, 0),
        insn(JEQ_K, 3, 0, host_af_to_bpf_be(host.order, host.inet)),
        insn(JEQ_K, 0, 5, host_af_to_bpf_be(host.order, host.inet6)),
        insn(LD_B_ABS, 0, 0, 10),
        insn(JEQ_K, 2, 3, 17),
        insn(LD_B_ABS, 0, 0, 13),
        insn(JEQ_K, 0, 1, 17),
        insn(RET_K, 0, 0, 0xffff_ffff),
        insn(RET_K, 0, 0, 0),
    ];
    assert(program@ =~= dlt_null_program(host));
    program
}

/// The filter of a BPF device on a link of this framing.
pub fn bpf_device_filter(link: LinkType, host: HostFamilies) -> (program: Vec<BpfInsn>)
    ensures
        program@ == match link {
            LinkType::Ethernet => ethernet_program(),
            LinkType::DltNull => dlt_null_program(host),
        },
{
    match link {
        LinkType::Ethernet => ethernet_udp_filter(),
        LinkType::DltNull => dlt_null_udp_filter(host),
    }
}

/// A frame whose Ethernet header announces IPv4 or IPv6 and whose IP header announces UDP.
pub open spec fn is_ethernet_udp(frame: Seq<u8>) -> bool {
    &&& frame.len() >= 14
    &&& {
        ||| frame[12] == 0x08 && frame[13] == 0x00 && frame.len() > 23 && frame[23] == 17
        ||| frame[12] == 0x86 && frame[13] == 0xdd && frame.len() > 20 && frame[20] == 17
    }
}

/// A frame whose `DLT_NULL` header announces IPv4 or IPv6 and whose IP header announces UDP.
pub open spec fn is_dlt_null_udp(host: HostFamilies, frame: Seq<u8>) -> bool {
    &&& frame.len() >= 4
    &&& {
        ||| frame.take(4) == crate::net::host32(host.order, host.inet) && frame.len() > 13
            && frame[13] == 17
        ||| frame.take(4) == crate::net::host32(host.order, host.inet6) && frame.take(4)
            != crate::net::host32(host.order, host.inet) && frame.len() > 10 && frame[10] == 17
    }
}

/// The Ethernet filter accepts exactly the frames that announce UDP over IPv4 or IPv6.
pub proof fn law_ethernet_filter_accepts_udp(frame: Seq<u8>, pkt_type: int)
    ensures
        verdict(ethernet_program(), frame, pkt_type, 0, 0) != 0 <==> is_ethernet_udp(frame),
{
    reveal_with_fuel(verdict, 8);
}

/// A program behind a prefix of instructions runs as it does alone: jumps are relative.
proof fn lemma_behind_prefix(
    prefix: Seq<BpfInsn>,
    program: Seq<BpfInsn>,
    packet: Seq<u8>,
    pkt_type: int,
    pc: int,
    acc: int,
)
    requires
        pc >= 0,
    ensures
        verdict(prefix + program, packet, pkt_type, prefix.len() + pc, acc) == verdict(
            program,
            packet,
            pkt_type,
            pc,
            acc,
        ),
    decreases program.len() + 256 - pc,
{
    if pc < program.len() {
        let i = program[pc];
        assert((prefix + program)[prefix.len() + pc] == i);
        if i.code == JEQ_K {
            lemma_behind_prefix(prefix, program, packet, pkt_type, pc + 1 + i.jt, acc);
            lemma_behind_prefix(prefix, program, packet, pkt_type, pc + 1 + i.jf, acc);
        } else if i.code != RET_K {
            match loaded(packet, pkt_type, i.code, i.k) {
                Some(value) => {
                    lemma_behind_prefix(prefix, program, packet, pkt_type, pc + 1, value);
                },
                None => {},
            }
        }
    }
}

/// With the prologue, the filter accepts exactly those frames that this host did not send.
pub proof fn law_own_frames_are_dropped(frame: Seq<u8>, pkt_type: int)
    ensures
        verdict(outgoing_program() + ethernet_program(), frame, pkt_type, 0, 0) != 0 <==> pkt_type
            != PACKET_OUTGOING && is_ethernet_udp(frame),
{
    let program = outgoing_program() + ethernet_program();
    assert(program[0] == outgoing_program()[0]);
    assert(program[1] == outgoing_program()[1]);
    assert(program[2] == outgoing_program()[2]);
    assert(verdict(program, frame, pkt_type, 0, 0) == verdict(program, frame, pkt_type, 1, pkt_type));
    assert(verdict(program, frame, pkt_type, 2, pkt_type) == 0);
    lemma_behind_prefix(outgoing_program(), ethernet_program(), frame, pkt_type, 0, pkt_type);
    lemma_first_load_overwrites(frame, pkt_type, pkt_type);
    law_ethernet_filter_accepts_udp(frame, pkt_type);
}

proof fn lemma_first_load_overwrites(frame: Seq<u8>, pkt_type: int, acc: int)
    ensures
        verdict(ethernet_program(), frame, pkt_type, 0, acc) == verdict(
            ethernet_program(),
            frame,
            pkt_type,
            0,
            0,
        ),
{
}

proof fn lemma_word_digits(a: u8, b: u8, c: u8, d: u8, w: u8, x: u8, y: u8, z: u8)
    requires
        a * 0x100_0000 + b * 0x1_0000 + c * 0x100 + d == w * 0x100_0000 + x * 0x1_0000 + y * 0x100
            + z,
    ensures
        a == w,
        b == x,
        c == y,
        d == z,
{
    let low = b * 0x1_0000 + c * 0x100 + d;
    let other = x * 0x1_0000 + y * 0x100 + z;
    assert(0 <= low < 0x100_0000);
    assert(0 <= other < 0x100_0000);
    assert(a == w);
    assert(0 <= c * 0x100 + d < 0x1_0000);
    assert(0 <= y * 0x100 + z < 0x1_0000);
    assert(b == x);
}

/// Big-endian words are equal only where their bytes are.
proof fn lemma_word_bytes(a: Seq<u8>, b: Seq<u8>)
    requires
        a.len() >= 4,
        b.len() == 4,
    ensures
        0 <= b[0] * 0x100_0000 + b[1] * 0x1_0000 + b[2] * 0x100 + b[3] <= u32::MAX,
        a[0] * 0x100_0000 + a[1] * 0x1_0000 + a[2] * 0x100 + a[3] == b[0] * 0x100_0000 + b[1]
            * 0x1_0000 + b[2] * 0x100 + b[3] <==> a.take(4) == b,
{
    let (a0, a1, a2, a3) = (a[0], a[1], a[2], a[3]);
    let (b0, b1, b2, b3) = (b[0], b[1], b[2], b[3]);
    if a0 * 0x100_0000 + a1 * 0x1_0000 + a2 * 0x100 + a3 == b0 * 0x100_0000 + b1 * 0x1_0000 + b2
        * 0x100 + b3 {
        lemma_word_digits(a0, a1, a2, a3, b0, b1, b2, b3);
        assert(a.take(4) =~= b);
    }
    if a.take(4) == b {
        assert(a.take(4)[0] == a0 && a.take(4)[1] == a1 && a.take(4)[2] == a2 && a.take(4)[3]
            == a3);
    }
}

#[verifier::spinoff_prover]
proof fn lemma_word_is_family(frame: Seq<u8>, order: ByteOrder, af: u32)
    requires
        frame.len() >= 4,
    ensures
        0 <= word_loaded(order, af) <= u32::MAX,
        frame[0] * 0x100_0000 + frame[1] * 0x1_0000 + frame[2] * 0x100 + frame[3] == word_loaded(
            order,
            af,
        ) <==> frame.take(4) == crate::net::host32(order, af),
{
    let b = crate::net::host32(order, af);
    assert(b.len() == 4);
    lemma_word_bytes(frame, b);
}

/// The `DLT_NULL` filter accepts exactly the frames that announce UDP over IPv4 or IPv6, in the
/// host's own byte order and numbers for the families.
pub proof fn law_dlt_null_filter_accepts_udp(host: HostFamilies, frame: Seq<u8>, pkt_type: int)
    ensures
        verdict(dlt_null_program(host), frame, pkt_type, 0, 0) != 0 <==> is_dlt_null_udp(
            host,
            frame,
        ),
{
    if frame.len() >= 4 {
        lemma_word_is_family(frame, host.order, host.inet);
        lemma_word_is_family(frame, host.order, host.inet6);
    }
    let program = dlt_null_program(host);
    let word = frame[0] * 0x100_0000 + frame[1] * 0x1_0000 + frame[2] * 0x100 + frame[3];
    lemma_two_family_program(
        program,
        frame,
        pkt_type,
        word_loaded(host.order, host.inet) as u32,
        word_loaded(host.order, host.inet6) as u32,
    );
}

proof fn lemma_two_family_program(
    program: Seq<BpfInsn>,
    frame: Seq<u8>,
    pkt_type: int,
    inet: u32,
    inet6: u32,
)
    requires
        program =~= seq![
            BpfInsn { code: LD_W_ABS, jt: 0, jf: 0, k: 0 },
            BpfInsn { code: JEQ_K, jt: 3, jf: 0, k: inet },
            BpfInsn { code: JEQ_K, jt: 0, jf: 5, k: inet6 },
            BpfInsn { code: LD_B_ABS, jt: 0, jf: 0, k: 10 },
            BpfInsn { code: JEQ_K, jt: 2, jf: 3, k: 17 },
            BpfInsn { code: LD_B_ABS, jt: 0, jf: 0, k: 13 },
            BpfInsn { code: JEQ_K, jt: 0, jf: 1, k: 17 },
            BpfInsn { code: RET_K, jt: 0, jf: 0, k: 0xffff_ffff },
            BpfInsn { code: RET_K, jt: 0, jf: 0, k: 0 },
        ],
    ensures
        ({
            let word = frame[0] * 0x100_0000 + frame[1] * 0x1_0000 + frame[2] * 0x100 + frame[3];
            verdict(program, frame, pkt_type, 0, 0) != 0 <==> frame.len() >= 4 && {
                ||| word == inet && frame.len() > 13 && frame[13] == 17
                ||| word != inet && word == inet6 && frame.len() > 10 && frame[10] == 17
            }
        }),
{
    reveal_with_fuel(verdict, 8);
}

/// Every frame built for an Ethernet link passes the Ethernet filter of a host that captures it.
pub proof fn law_built_ethernet_frames_pass(
    dst_mac: MacAddr,
    src_mac: MacAddr,
    src: SocketAddrV4,
    dst: SocketAddrV4,
    src6: SocketAddrV6,
    dst6: SocketAddrV6,
    ttl: u8,
    payload: Seq<u8>,
)
    ensures
        is_ethernet_udp(
            frame::ethernet_header(dst_mac, src_mac, frame::IPV4_ETHERTYPE)
                + frame::ipv4_udp_bytes(src, dst, ttl, payload),
        ),
        is_ethernet_udp(
            frame::ethernet_header(dst_mac, src_mac, frame::IPV6_ETHERTYPE)
                + frame::ipv6_udp_bytes(src6, dst6, ttl, payload),
        ),
{
    let header4 = frame::ethernet_header(dst_mac, src_mac, frame::IPV4_ETHERTYPE);
    let header6 = frame::ethernet_header(dst_mac, src_mac, frame::IPV6_ETHERTYPE);
    assert(header4.len() == 14 && header6.len() == 14);
    assert(header4[12] == 0x08 && header4[13] == 0x00);
    assert(header6[12] == 0x86 && header6[13] == 0xdd);
    let bare = frame::bare_ipv4_header(src.ip@, dst.ip@, ttl, 28int + payload.len());
    assert(bare.len() == 20);
    assert(bare[9] == 17);
    let ip4 = frame::ipv4_header_bytes(src.ip@, dst.ip@, ttl, 28int + payload.len());
    assert(ip4.len() == 20);
    assert(ip4[9] == bare[9]);
    let body4 = frame::ipv4_udp_bytes(src, dst, ttl, payload);
    assert(body4[9] == ip4[9]);
    assert((header4 + body4)[23] == body4[9]);
    let ip6 = frame::ipv6_header_bytes(src6.ip@, dst6.ip@, ttl, 8int + payload.len());
    assert(ip6.len() == 40);
    assert(ip6[6] == 17);
    let body6 = frame::ipv6_udp_bytes(src6, dst6, ttl, payload);
    assert(body6[6] == ip6[6]);
    assert((header6 + body6)[20] == body6[6]);
}

proof fn lemma_bytes_make_the_number(n: u32)
    ensures
        n == (n / 0x100_0000) * 0x100_0000 + (n / 0x1_0000 % 0x100) * 0x1_0000 + (n / 0x100 % 0x100)
            * 0x100 + n % 0x100,
{
    let n = n as int;
    assert(n / 0x100 == (n / 0x1_0000) * 0x100 + n / 0x100 % 0x100);
    assert(n / 0x1_0000 == (n / 0x100_0000) * 0x100 + n / 0x1_0000 % 0x100);
}

proof fn lemma_families_differ(order: ByteOrder, a: u32, b: u32)
    requires
        a != b,
    ensures
        crate::net::host32(order, a) != crate::net::host32(order, b),
{
    lemma_bytes_make_the_number(a);
    lemma_bytes_make_the_number(b);
    let x = crate::net::host32(order, a);
    let y = crate::net::host32(order, b);
    if x == y {
        assert(x[0] == y[0] && x[1] == y[1] && x[2] == y[2] && x[3] == y[3]);
    }
}

/// Every frame built for a `DLT_NULL` link passes the filter of that host.
pub proof fn law_built_dlt_null_frames_pass(
    host: HostFamilies,
    src: SocketAddrV4,
    dst: SocketAddrV4,
    src6: SocketAddrV6,
    dst6: SocketAddrV6,
    ttl: u8,
    payload: Seq<u8>,
)
    requires
        host.inet != host.inet6,
    ensures
        is_dlt_null_udp(
            host,
            crate::net::host32(host.order, host.inet) + frame::ipv4_udp_bytes(
                src,
                dst,
                ttl,
                payload,
            ),
        ),
        is_dlt_null_udp(
            host,
            crate::net::host32(host.order, host.inet6) + frame::ipv6_udp_bytes(
                src6,
                dst6,
                ttl,
                payload,
            ),
        ),
{
    let header4 = crate::net::host32(host.order, host.inet);
    let header6 = crate::net::host32(host.order, host.inet6);
    lemma_families_differ(host.order, host.inet, host.inet6);
    assert(header4.len() == 4 && header6.len() == 4);
    let bare = frame::bare_ipv4_header(src.ip@, dst.ip@, ttl, 28int + payload.len());
    assert(bare.len() == 20);
    assert(bare[9] == 17);
    let ip4 = frame::ipv4_header_bytes(src.ip@, dst.ip@, ttl, 28int + payload.len());
    assert(ip4.len() == 20);
    assert(ip4[9] == bare[9]);
    let body4 = frame::ipv4_udp_bytes(src, dst, ttl, payload);
    assert(body4[9] == ip4[9]);
    assert((header4 + body4).take(4) =~= header4);
    assert((header4 + body4)[13] == body4[9]);
    let ip6 = frame::ipv6_header_bytes(src6.ip@, dst6.ip@, ttl, 8int + payload.len());
    assert(ip6.len() == 40);
    assert(ip6[6] == 17);
    let body6 = frame::ipv6_udp_bytes(src6, dst6, ttl, payload);
    assert(body6[6] == ip6[6]);
    assert((header6 + body6).take(4) =~= header6);
    assert((header6 + body6)[10] == body6[6]);
}

/// Accepts nothing: the filter of a socket that is held for its port alone and never read.
pub fn drop_all_filter() -> (program: Vec<BpfInsn>)
    ensures
        program@ == seq![BpfInsn { code: RET_K, jt: 0, jf: 0, k: 0 }],
        forall|packet: Seq<u8>, pkt_type: int|
            #[trigger] verdict(program@, packet, pkt_type, 0, 0) == 0,
{
    let mut program: Vec<BpfInsn> = Vec::new();
    program.push(insn(RET_K, 0, 0, 0));
    assert(program@ =~= seq![BpfInsn { code: RET_K, jt: 0, jf: 0, k: 0 }]);
    program
}

} // verus!
