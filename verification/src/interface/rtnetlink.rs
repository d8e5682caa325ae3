//! Linux address resolution over rtnetlink: the message and attribute walk, the dump dialogue, and
//! what an `RTM_NEWADDR` or `RTM_NEWLINK` reply says of an interface. Numbers in a message are in
//! the host's byte order.

use crate::interface::{InterfaceAddresses, V6Pick};
use crate::net::addr::{Ipv4Addr, Ipv6Addr};
use crate::net::mac::MacAddr;
use crate::net::{read_host16, read_host32, ByteOrder};
use vstd::prelude::*;

verus! {

/// The request flag of a message to the kernel.
pub const NLM_F_REQUEST: u16 = 0x01;

/// Root and match: return the whole table.
pub const NLM_F_DUMP: u16 = 0x0300;

/// The message that ends a dump.
pub const NLMSG_DONE: u16 = 0x03;

/// The message that fails a dump.
pub const NLMSG_ERROR: u16 = 0x02;

/// A link appeared or changed.
pub const RTM_NEWLINK: u16 = 16;

/// A link went away.
pub const RTM_DELLINK: u16 = 17;

/// Asks for the links.
pub const RTM_GETLINK: u16 = 18;

/// An address appeared or changed.
pub const RTM_NEWADDR: u16 = 20;

/// An address went away.
pub const RTM_DELADDR: u16 = 21;

/// Asks for the addresses.
pub const RTM_GETADDR: u16 = 22;

/// The address attribute: on a point-to-point link, the peer's.
pub const IFA_ADDRESS: u16 = 1;

/// The local address attribute.
pub const IFA_LOCAL: u16 = 2;

/// The 32-bit address flags attribute.
pub const IFA_FLAGS: u16 = 8;

/// The link-layer address attribute.
pub const IFLA_ADDRESS: u16 = 1;

/// The kernel's number for IPv4.
pub const AF_INET: u8 = 2;

/// The kernel's number for IPv6.
pub const AF_INET6: u8 = 10;

/// The address flags that disqualify an address as a source: tentative, deprecated, and failed
/// duplicate address detection.
pub const IFA_F_UNUSABLE: u32 = 0x68;

/// The length of `struct nlmsghdr`: length, type, flags, sequence number, port.
pub const NLMSG_HEADER_SIZE: usize = 16;

/// The length of `struct ifaddrmsg`: family, prefix length, flags, scope, index.
pub const IFADDRMSG_SIZE: usize = 8;

/// The length of `struct ifinfomsg`: family, padding, type, index, flags, change mask.
pub const IFINFOMSG_SIZE: usize = 16;

/// The length of `struct rtattr`: length, type.
pub const RTATTR_SIZE: usize = 4;

/// `n` rounded up to netlink's 4-byte alignment.
pub open spec fn aligned(n: int) -> int {
    (n + 3) / 4 * 4
}

/// `n` rounded up to netlink's 4-byte alignment for message and attribute lengths.
pub fn nl_align(n: usize) -> (r: usize)
    requires
        n <= usize::MAX - 3,
    ensures
        r == aligned(n as int),
{
    (n + 3) / 4 * 4
}

/// One message of a datagram: its type, and its bytes from the header on.
#[verifier::ext_equal]
pub struct MessageView {
    pub msg_type: u16,
    pub bytes: Seq<u8>,
}

/// One message of a datagram.
#[derive(Debug)]
pub struct Message<'a> {
    pub msg_type: u16,
    pub bytes: &'a [u8],
}

impl<'a> View for Message<'a> {
    type V = MessageView;

    open spec fn view(&self) -> MessageView {
        MessageView { msg_type: self.msg_type, bytes: self.bytes@ }
    }
}

/// One attribute of a message: its type and its value.
#[verifier::ext_equal]
pub struct AttributeView {
    pub attr_type: u16,
    pub data: Seq<u8>,
}

/// One attribute of a message.
#[derive(Debug)]
pub struct Attribute<'a> {
    pub attr_type: u16,
    pub data: &'a [u8],
}

impl<'a> View for Attribute<'a> {
    type V = AttributeView;

    open spec fn view(&self) -> AttributeView {
        AttributeView { attr_type: self.attr_type, data: self.data@ }
    }
}

/// The messages of a datagram from `offset` on. The walk stops where no whole header is left, and
/// at the first length that is shorter than a header or runs past the datagram.
pub open spec fn messages(order: ByteOrder, buf: Seq<u8>, offset: int) -> Seq<MessageView>
    decreases buf.len() + 4 - offset,
{
    if offset < 0 || offset + NLMSG_HEADER_SIZE > buf.len() {
        Seq::empty()
    } else {
        let len = crate::net::host32_at(order, buf, offset);
        if len < NLMSG_HEADER_SIZE || offset + len > buf.len() {
            Seq::empty()
        } else {
            seq![
                MessageView {
                    msg_type: crate::net::host16_at(order, buf, offset + 4) as u16,
                    bytes: buf.subrange(offset, offset + len),
                },
            ] + messages(order, buf, offset + aligned(len))
        }
    }
}

/// The attributes of a message from `at` on. The walk stops where no whole header is left, and at
/// the first length that is shorter than a header or runs past the message.
pub open spec fn attributes(order: ByteOrder, msg: Seq<u8>, at: int) -> Seq<AttributeView>
    decreases msg.len() + 4 - at,
{
    if at < 0 || at + RTATTR_SIZE > msg.len() {
        Seq::empty()
    } else {
        let len = crate::net::host16_at(order, msg, at);
        if len < RTATTR_SIZE || at + len > msg.len() {
            Seq::empty()
        } else {
            seq![
                AttributeView {
                    attr_type: crate::net::host16_at(order, msg, at + 2) as u16,
                    data: msg.subrange(at + RTATTR_SIZE, at + len),
                },
            ] + attributes(order, msg, at + aligned(len))
        }
    }
}

/// The views of a list of messages.
pub open spec fn message_views(list: Seq<Message>) -> Seq<MessageView> {
    list.map_values(|m: Message| m@)
}

/// The views of a list of attributes.
pub open spec fn attribute_views(list: Seq<Attribute>) -> Seq<AttributeView> {
    list.map_values(|a: Attribute| a@)
}

/// Where the next message or attribute starts, or the end `n` where it would start past it.
fn advance(at: usize, len: usize, n: usize) -> (next: usize)
    requires
        at + len <= n,
    ensures
        next == if at + aligned(len as int) <= n {
            at + aligned(len as int)
        } else {
            n as int
        },
{
    let pad: usize = (4 - len % 4) % 4;
    assert(aligned(len as int) == len + pad);
    if pad <= n - at - len {
        at + len + pad
    } else {
        n
    }
}

/// Splits a datagram into its messages.
pub fn split_messages<'a>(order: ByteOrder, buf: &'a [u8]) -> (list: Vec<Message<'a>>)
    ensures
        message_views(list@) == messages(order, buf@, 0),
{
    let n: usize = buf.len();
    let mut list: Vec<Message<'a>> = Vec::new();
    let mut offset: usize = 0;
    assert(message_views(list@) + messages(order, buf@, 0) =~= messages(order, buf@, 0));
    while offset <= n && n - offset >= NLMSG_HEADER_SIZE
        invariant
            n == buf@.len(),
            offset <= n,
            message_views(list@) + messages(order, buf@, offset as int) == messages(order, buf@, 0),
        decreases n - offset,
    {
        let claimed: u32 = read_host32(order, buf, offset);
        if claimed < NLMSG_HEADER_SIZE as u32 || claimed as u64 > (n - offset) as u64 {
            assert(messages(order, buf@, offset as int) =~= Seq::<MessageView>::empty());
            assert(message_views(list@) =~= messages(order, buf@, 0));
            return list;
        }
        let len: usize = claimed as usize;
        let msg_type: u16 = read_host16(order, buf, offset + 4);
        let bytes = vstd::slice::slice_subrange(buf, offset, offset + len);
        let ghost rest = messages(order, buf@, offset + aligned(len as int));
        let next: usize = advance(offset, len, n);
        let ghost before = message_views(list@);
        list.push(Message { msg_type, bytes });
        proof {
            assert(message_views(list@) =~= before.push(list@.last()@));
            assert(rest =~= messages(order, buf@, next as int));
            assert(message_views(list@) + rest =~= before + messages(order, buf@, offset as int));
        }
        offset = next;
    }
    assert(messages(order, buf@, offset as int) =~= Seq::<MessageView>::empty());
    assert(message_views(list@) =~= messages(order, buf@, 0));
    list
}

/// The attributes of a message that start at byte `from`.
pub fn rtattrs<'a>(order: ByteOrder, msg: &'a [u8], from: usize) -> (list: Vec<Attribute<'a>>)
    ensures
        attribute_views(list@) == attributes(order, msg@, from as int),
{
    let n: usize = msg.len();
    let mut list: Vec<Attribute<'a>> = Vec::new();
    let mut at: usize = from;
    assert(attribute_views(list@) + attributes(order, msg@, from as int) =~= attributes(
        order,
        msg@,
        from as int,
    ));
    while at <= n && n - at >= RTATTR_SIZE
        invariant
            n == msg@.len(),
            attribute_views(list@) + attributes(order, msg@, at as int) == attributes(
                order,
                msg@,
                from as int,
            ),
        decreases n - at,
    {
        let len: usize = read_host16(order, msg, at) as usize;
        if len < RTATTR_SIZE || len > n - at {
            assert(attributes(order, msg@, at as int) =~= Seq::<AttributeView>::empty());
            assert(attribute_views(list@) =~= attributes(order, msg@, from as int));
            return list;
        }
        let attr_type: u16 = read_host16(order, msg, at + 2);
        let data = vstd::slice::slice_subrange(msg, at + RTATTR_SIZE, at + len);
        let ghost rest = attributes(order, msg@, at + aligned(len as int));
        let next: usize = advance(at, len, n);
        let ghost before = attribute_views(list@);
        list.push(Attribute { attr_type, data });
        proof {
            assert(attribute_views(list@) =~= before.push(list@.last()@));
            assert(rest =~= attributes(order, msg@, next as int));
            assert(attribute_views(list@) + rest =~= before + attributes(order, msg@, at as int));
        }
        at = next;
    }
    assert(attributes(order, msg@, at as int) =~= Seq::<AttributeView>::empty());
    assert(attribute_views(list@) =~= attributes(order, msg@, from as int));
    list
}

/// How far a dump has come after a datagram.
#[derive(Debug, Clone, Copy, PartialEq, Eq, Structural)]
pub enum DumpProgress {
    /// More datagrams follow.
    More,
    /// The kernel has sent everything.
    Done,
    /// The kernel refused the dump.
    Failed,
}

/// The replies among `list`, up to the message that ends or fails the dump.
pub open spec fn replies(list: Seq<MessageView>, reply_type: u16) -> Seq<Seq<u8>>
    decreases list.len(),
{
    if list.len() == 0 || list[0].msg_type == NLMSG_DONE || list[0].msg_type == NLMSG_ERROR {
        Seq::empty()
    } else if list[0].msg_type == reply_type {
        seq![list[0].bytes] + replies(list.drop_first(), reply_type)
    } else {
        replies(list.drop_first(), reply_type)
    }
}

/// How the first message among `list` that ends or fails the dump leaves it.
pub open spec fn progress(list: Seq<MessageView>) -> DumpProgress
    decreases list.len(),
{
    if list.len() == 0 {
        DumpProgress::More
    } else if list[0].msg_type == NLMSG_DONE {
        DumpProgress::Done
    } else if list[0].msg_type == NLMSG_ERROR {
        DumpProgress::Failed
    } else {
        progress(list.drop_first())
    }
}

/// The byte strings that a list of slices holds.
pub open spec fn slice_views(list: Seq<&[u8]>) -> Seq<Seq<u8>> {
    list.map_values(|s: &[u8]| s@)
}

/// Reads one datagram of a dump: the replies of `reply_type` in it, and whether the dump goes on.
pub fn read_dump<'a>(order: ByteOrder, buf: &'a [u8], reply_type: u16) -> (r: (
    Vec<&'a [u8]>,
    DumpProgress,
))
    ensures
        slice_views(r.0@) == replies(messages(order, buf@, 0), reply_type),
        r.1 == progress(messages(order, buf@, 0)),
{
    let list = split_messages(order, buf);
    let ghost all = message_views(list@);
    let mut found: Vec<&'a [u8]> = Vec::new();
    let n: usize = list.len();
    let mut i: usize = 0;
    assert(all.skip(0) =~= all);
    assert(slice_views(found@) + replies(all, reply_type) =~= replies(all, reply_type));
    while i < n
        invariant
            n == list@.len(),
            i <= n,
            all == message_views(list@),
            all == messages(order, buf@, 0),
            slice_views(found@) + replies(all.skip(i as int), reply_type) == replies(
                all,
                reply_type,
            ),
            progress(all.skip(i as int)) == progress(all),
        decreases n - i,
    {
        let msg_type: u16 = list[i].msg_type;
        let bytes: &'a [u8] = list[i].bytes;
        proof {
            assert(all[i as int] == list@[i as int]@);
            assert(all.skip(i as int)[0] == all[i as int]);
            assert(all.skip(i as int).drop_first() =~= all.skip(i + 1));
        }
        if msg_type == NLMSG_DONE {
            assert(slice_views(found@) =~= replies(all, reply_type));
            return (found, DumpProgress::Done);
        }
        if msg_type == NLMSG_ERROR {
            assert(slice_views(found@) =~= replies(all, reply_type));
            return (found, DumpProgress::Failed);
        }
        if msg_type == reply_type {
            let ghost before = slice_views(found@);
            found.push(bytes);
            assert(slice_views(found@) =~= before.push(bytes@));
            assert(slice_views(found@) + replies(all.skip(i + 1), reply_type) =~= before + replies(
                all.skip(i as int),
                reply_type,
            ));
        }
        i += 1;
    }
    assert(slice_views(found@) =~= replies(all, reply_type));
    (found, DumpProgress::More)
}

/// A dump request: the message header and a zeroed body of `body_len` bytes.
pub open spec fn request_bytes(order: ByteOrder, request_type: u16, body_len: nat) -> Seq<u8> {
    crate::net::host32(order, (NLMSG_HEADER_SIZE + body_len) as u32) + host16(order, request_type)
        + host16(order, 0x0301) + crate::net::host32(order, 1) + crate::net::host32(order, 0)
        + Seq::new(body_len, |i: int| 0u8)
}

/// The two bytes of `n` as a host of this byte order stores them.
pub open spec fn host16(order: ByteOrder, n: u16) -> Seq<u8> {
    match order {
        ByteOrder::Big => seq![(n / 256) as u8, (n % 256) as u8],
        ByteOrder::Little => seq![(n % 256) as u8, (n / 256) as u8],
    }
}

fn push_host16(order: ByteOrder, buf: &mut Vec<u8>, n: u16)
    ensures
        final(buf)@ == old(buf)@ + host16(order, n),
{
    match order {
        ByteOrder::Big => {
            buf.push((n / 256) as u8);
            buf.push((n % 256) as u8);
        },
        ByteOrder::Little => {
            buf.push((n % 256) as u8);
            buf.push((n / 256) as u8);
        },
    }
    assert(buf@ =~= old(buf)@ + host16(order, n));
}

fn push_host32(order: ByteOrder, buf: &mut Vec<u8>, n: u32)
    ensures
        final(buf)@ == old(buf)@ + crate::net::host32(order, n),
{
    let b0: u8 = (n / 0x100_0000) as u8;
    let b1: u8 = (n / 0x1_0000 % 0x100) as u8;
    let b2: u8 = (n / 0x100 % 0x100) as u8;
    let b3: u8 = (n % 0x100) as u8;
    match order {
        ByteOrder::Big => {
            buf.push(b0);
            buf.push(b1);
            buf.push(b2);
            buf.push(b3);
        },
        ByteOrder::Little => {
            buf.push(b3);
            buf.push(b2);
            buf.push(b1);
            buf.push(b0);
        },
    }
    assert(buf@ =~= old(buf)@ + crate::net::host32(order, n));
}

/// Builds the request for a dump: `RTM_GETADDR` with an empty `ifaddrmsg`, or `RTM_GETLINK` with an
/// empty `ifinfomsg`.
pub fn dump_request(order: ByteOrder, request_type: u16, body_len: usize) -> (request: Vec<u8>)
    requires
        body_len <= 0xffff,
    ensures
        request@ == request_bytes(order, request_type, body_len as nat),
{
    let mut request: Vec<u8> = Vec::new();
    push_host32(order, &mut request, (NLMSG_HEADER_SIZE + body_len) as u32);
    push_host16(order, &mut request, request_type);
    assert(0x01u16 | 0x0300u16 == 0x0301u16) by (bit_vector);
    push_host16(order, &mut request, NLM_F_REQUEST | NLM_F_DUMP);
    push_host32(order, &mut request, 1);
    push_host32(order, &mut request, 0);
    let ghost header = request@;
    let mut i: usize = 0;
    while i < body_len
        invariant
            i <= body_len,
            request@ == header + Seq::new(i as nat, |j: int| 0u8),
        decreases body_len - i,
    {
        request.push(0);
        assert(request@ =~= header + Seq::new((i + 1) as nat, |j: int| 0u8));
        i += 1;
    }
    assert(request@ =~= request_bytes(order, request_type, body_len as nat)) by {
        assert(header =~= crate::net::host32(order, (NLMSG_HEADER_SIZE + body_len) as u32) + host16(
            order,
            request_type,
        ) + host16(order, 0x0301) + crate::net::host32(order, 1) + crate::net::host32(order, 0));
    }
    request
}

/// The value of the last attribute of a type, if there is one.
pub open spec fn last_of(list: Seq<AttributeView>, attr_type: u16) -> Option<Seq<u8>>
    decreases list.len(),
{
    if list.len() == 0 {
        None
    } else if list.last().attr_type == attr_type {
        Some(list.last().data)
    } else {
        last_of(list.drop_last(), attr_type)
    }
}

/// The flags that the last well-formed `IFA_FLAGS` attribute states, or else `fallback`.
pub open spec fn flags_of(order: ByteOrder, list: Seq<AttributeView>, fallback: int) -> int
    decreases list.len(),
{
    if list.len() == 0 {
        fallback
    } else if list.last().attr_type == IFA_FLAGS && list.last().data.len() == 4 {
        crate::net::host32_at(order, list.last().data, 0)
    } else {
        flags_of(order, list.drop_last(), fallback)
    }
}

/// What an `RTM_NEWADDR` message says of an interface: the family, the address bytes, and whether
/// the address is usable as a source.
#[verifier::ext_equal]
pub struct CandidateView {
    pub family: u8,
    pub bytes: Seq<u8>,
    pub usable: bool,
}

/// The address that `msg` states for the interface `ifindex`. The local address is preferred over
/// the peer's, and the 32-bit flags attribute over the message's 8-bit flags.
pub open spec fn candidate_of(order: ByteOrder, msg: Seq<u8>, ifindex: u32) -> Option<
    CandidateView,
> {
    if msg.len() < 24 {
        None
    } else if crate::net::host32_at(order, msg, 20) != ifindex || (msg[16] != AF_INET && msg[16]
        != AF_INET6) {
        None
    } else {
        let list = attributes(order, msg, 24);
        let chosen = match last_of(list, IFA_LOCAL) {
            Some(local) => Some(local),
            None => last_of(list, IFA_ADDRESS),
        };
        match chosen {
            Some(bytes) => Some(
                CandidateView {
                    family: msg[16],
                    bytes,
                    usable: (flags_of(order, list, msg[18] as int) as u32) & IFA_F_UNUSABLE == 0,
                },
            ),
            None => None,
        }
    }
}

/// The addresses and the pick after one `RTM_NEWADDR` message: of IPv4 the first usable address
/// wins, of IPv6 every usable address is considered.
pub open spec fn scanned_addr(
    order: ByteOrder,
    msg: Seq<u8>,
    ifindex: u32,
    pick: V6Pick,
    addrs: InterfaceAddresses,
) -> (V6Pick, InterfaceAddresses) {
    match candidate_of(order, msg, ifindex) {
        Some(c) if c.usable && c.family == AF_INET && c.bytes.len() == 4 => if addrs.v4 is None {
            (
                pick,
                InterfaceAddresses { v4: Some(crate::net::addr::ipv4_from(c.bytes)), ..addrs },
            )
        } else {
            (pick, addrs)
        },
        Some(c) if c.usable && c.family == AF_INET6 && c.bytes.len() == 16 => {
            crate::interface::considered(pick, addrs, crate::net::addr::ipv6_from(c.bytes))
        },
        _ => (pick, addrs),
    }
}

/// Parses one `RTM_NEWADDR` message and records the address it states for `ifindex`, if usable.
pub fn scan_addr(
    order: ByteOrder,
    msg: &[u8],
    ifindex: u32,
    addrs: &mut InterfaceAddresses,
    pick: &mut V6Pick,
)
    ensures
        (*final(pick), *final(addrs)) == scanned_addr(order, msg@, ifindex, *old(pick), *old(addrs)),
{
    let n: usize = msg.len();
    if n < NLMSG_HEADER_SIZE + IFADDRMSG_SIZE {
        return;
    }
    let family: u8 = msg[16];
    let index: u32 = read_host32(order, msg, 20);
    if index != ifindex || (family != AF_INET && family != AF_INET6) {
        return;
    }
    let list = rtattrs(order, msg, NLMSG_HEADER_SIZE + IFADDRMSG_SIZE);
    let ghost all = attribute_views(list@);
    let mut local: Option<&[u8]> = None;
    let mut address: Option<&[u8]> = None;
    let mut flags: u32 = msg[18] as u32;
    let count: usize = list.len();
    let mut i: usize = 0;
    assert(all.take(0) =~= Seq::<AttributeView>::empty());
    while i < count
        invariant
            count == list@.len(),
            i <= count,
            n == msg@.len(),
            n >= 24,
            all == attribute_views(list@),
            match local {
                Some(d) => last_of(all.take(i as int), IFA_LOCAL) == Some(d@),
                None => last_of(all.take(i as int), IFA_LOCAL) is None,
            },
            match address {
                Some(d) => last_of(all.take(i as int), IFA_ADDRESS) == Some(d@),
                None => last_of(all.take(i as int), IFA_ADDRESS) is None,
            },
            flags == flags_of(order, all.take(i as int), msg@[18] as int),
        decreases count - i,
    {
        let attr_type: u16 = list[i].attr_type;
        let data = list[i].data;
        proof {
            assert(all[i as int] == list@[i as int]@);
            assert(all.take(i + 1).last() == all[i as int]);
            assert(all.take(i + 1).drop_last() =~= all.take(i as int));
        }
        if attr_type == IFA_ADDRESS {
            address = Some(data);
        } else if attr_type == IFA_LOCAL {
            local = Some(data);
        } else if attr_type == IFA_FLAGS && data.len() == 4 {
            flags = read_host32(order, data, 0);
        }
        i += 1;
    }
    assert(all.take(count as int) =~= all);
    let bytes = match local {
        Some(bytes) => bytes,
        None => match address {
            Some(bytes) => bytes,
            None => {
                return;
            },
        },
    };
    if flags & IFA_F_UNUSABLE != 0 {
        return;
    }
    if family == AF_INET {
        if addrs.v4.is_none() && bytes.len() == 4 {
            let v4 = Ipv4Addr { octets: [bytes[0], bytes[1], bytes[2], bytes[3]] };
            assert(v4.octets =~= crate::net::addr::ipv4_from(bytes@).octets);
            addrs.v4 = Some(v4);
        }
    } else if bytes.len() == 16 {
        let v6 = ipv6_of(bytes);
        pick.consider(addrs, v6);
    }
}

fn ipv6_of(b: &[u8]) -> (addr: Ipv6Addr)
    requires
        b@.len() == 16,
    ensures
        addr == crate::net::addr::ipv6_from(b@),
{
    let addr = Ipv6Addr {
        octets: [
            b[0], b[1], b[2], b[3], b[4], b[5], b[6], b[7], b[8], b[9], b[10], b[11], b[12], b[13],
            b[14], b[15],
        ],
    };
    assert(addr.octets =~= crate::net::addr::ipv6_from(b@).octets);
    addr
}

/// The first 6-byte link-layer address among the attributes.
pub open spec fn first_mac(list: Seq<AttributeView>) -> Option<MacAddr>
    decreases list.len(),
{
    if list.len() == 0 {
        None
    } else if list[0].attr_type == IFLA_ADDRESS && list[0].data.len() == 6 {
        Some(crate::net::mac::mac_from(list[0].data))
    } else {
        first_mac(list.drop_first())
    }
}

/// The MAC that an `RTM_NEWLINK` message states for the interface `ifindex`. The message's index
/// is signed, and a negative one names no interface.
pub open spec fn link_mac(order: ByteOrder, msg: Seq<u8>, ifindex: u32) -> Option<MacAddr> {
    if msg.len() < 32 {
        None
    } else if crate::net::host32_at(order, msg, 20) != ifindex || ifindex > i32::MAX {
        None
    } else {
        first_mac(attributes(order, msg, 32))
    }
}

/// The addresses after one `RTM_NEWLINK` message.
pub open spec fn scanned_link(
    order: ByteOrder,
    msg: Seq<u8>,
    ifindex: u32,
    addrs: InterfaceAddresses,
) -> InterfaceAddresses {
    match link_mac(order, msg, ifindex) {
        Some(mac) => InterfaceAddresses { mac: Some(mac), ..addrs },
        None => addrs,
    }
}

/// Parses one `RTM_NEWLINK` message and records the MAC it states for `ifindex`.
pub fn scan_link(order: ByteOrder, msg: &[u8], ifindex: u32, addrs: &mut InterfaceAddresses)
    ensures
        *final(addrs) == scanned_link(order, msg@, ifindex, *old(addrs)),
{
    let n: usize = msg.len();
    if n < NLMSG_HEADER_SIZE + IFINFOMSG_SIZE {
        return;
    }
    let index: u32 = read_host32(order, msg, 20);
    if index > i32::MAX as u32 || index != ifindex {
        return;
    }
    let list = rtattrs(order, msg, NLMSG_HEADER_SIZE + IFINFOMSG_SIZE);
    let ghost all = attribute_views(list@);
    let count: usize = list.len();
    let mut i: usize = 0;
    assert(all.skip(0) =~= all);
    while i < count
        invariant
            count == list@.len(),
            i <= count,
            all == attribute_views(list@),
            all == attributes(order, msg@, 32),
            link_mac(order, msg@, ifindex) == first_mac(all),
            first_mac(all) == first_mac(all.skip(i as int)),
            *addrs == *old(addrs),
        decreases count - i,
    {
        proof {
            assert(all[i as int] == list@[i as int]@);
            assert(all.skip(i as int)[0] == all[i as int]);
            assert(all.skip(i as int).drop_first() =~= all.skip(i + 1));
        }
        let data = list[i].data;
        if list[i].attr_type == IFLA_ADDRESS && data.len() == 6 {
            let mac = MacAddr {
                octets: [data[0], data[1], data[2], data[3], data[4], data[5]],
            };
            assert(mac.octets =~= crate::net::mac::mac_from(data@).octets);
            addrs.mac = Some(mac);
            return;
        }
        i += 1;
    }
}

/// The resolution of one interface while the two dumps come in: what has been recorded so far.
#[derive(Debug)]
pub struct Resolution {
    pub order: ByteOrder,
    pub ifindex: u32,
    pub addrs: InterfaceAddresses,
    pub pick: V6Pick,
}

/// The record after a list of `RTM_NEWADDR` replies.
pub open spec fn scanned_addrs(
    order: ByteOrder,
    msgs: Seq<Seq<u8>>,
    ifindex: u32,
    pick: V6Pick,
    addrs: InterfaceAddresses,
) -> (V6Pick, InterfaceAddresses)
    decreases msgs.len(),
{
    if msgs.len() == 0 {
        (pick, addrs)
    } else {
        let (p, a) = scanned_addrs(order, msgs.drop_last(), ifindex, pick, addrs);
        scanned_addr(order, msgs.last(), ifindex, p, a)
    }
}

/// The record after a list of `RTM_NEWLINK` replies.
pub open spec fn scanned_links(
    order: ByteOrder,
    msgs: Seq<Seq<u8>>,
    ifindex: u32,
    addrs: InterfaceAddresses,
) -> InterfaceAddresses
    decreases msgs.len(),
{
    if msgs.len() == 0 {
        addrs
    } else {
        scanned_link(
            order,
            msgs.last(),
            ifindex,
            scanned_links(order, msgs.drop_last(), ifindex, addrs),
        )
    }
}

impl Resolution {
    /// A resolution that has seen nothing.
    pub fn new(order: ByteOrder, ifindex: u32) -> (r: Self)
        ensures
            r.order == order,
            r.ifindex == ifindex,
            r.addrs == crate::interface::no_addresses(),
            r.pick == crate::interface::no_pick(),
    {
        Resolution { order, ifindex, addrs: InterfaceAddresses::default(), pick: V6Pick::default() }
    }

    /// Whether there is anything to ask the kernel: index 0 names no interface, which then has no
    /// addresses.
    pub fn needs_dump(&self) -> (needs: bool)
        ensures
            needs == (self.ifindex != 0),
    {
        self.ifindex != 0
    }

    /// Takes in one datagram of the address dump.
    pub fn feed_addrs(&mut self, datagram: &[u8]) -> (r: DumpProgress)
        ensures
            r == progress(messages(old(self).order, datagram@, 0)),
            (final(self).pick, final(self).addrs) == scanned_addrs(
                old(self).order,
                replies(messages(old(self).order, datagram@, 0), RTM_NEWADDR),
                old(self).ifindex,
                old(self).pick,
                old(self).addrs,
            ),
            final(self).order == old(self).order,
            final(self).ifindex == old(self).ifindex,
    {
        let (found, r) = read_dump(self.order, datagram, RTM_NEWADDR);
        let ghost all = slice_views(found@);
        let n: usize = found.len();
        let mut i: usize = 0;
        assert(all.take(0) =~= Seq::<Seq<u8>>::empty());
        while i < n
            invariant
                n == found@.len(),
                i <= n,
                all == slice_views(found@),
                self.order == old(self).order,
                self.ifindex == old(self).ifindex,
                (self.pick, self.addrs) == scanned_addrs(
                    old(self).order,
                    all.take(i as int),
                    old(self).ifindex,
                    old(self).pick,
                    old(self).addrs,
                ),
            decreases n - i,
        {
            proof {
                assert(all[i as int] == found@[i as int]@);
                assert(all.take(i + 1).last() == all[i as int]);
                assert(all.take(i + 1).drop_last() =~= all.take(i as int));
            }
            scan_addr(self.order, found[i], self.ifindex, &mut self.addrs, &mut self.pick);
            i += 1;
        }
        assert(all.take(n as int) =~= all);
        r
    }

    /// Takes in one datagram of the link dump.
    pub fn feed_links(&mut self, datagram: &[u8]) -> (r: DumpProgress)
        ensures
            r == progress(messages(old(self).order, datagram@, 0)),
            final(self).addrs == scanned_links(
                old(self).order,
                replies(messages(old(self).order, datagram@, 0), RTM_NEWLINK),
                old(self).ifindex,
                old(self).addrs,
            ),
            final(self).order == old(self).order,
            final(self).ifindex == old(self).ifindex,
            final(self).pick == old(self).pick,
    {
        let (found, r) = read_dump(self.order, datagram, RTM_NEWLINK);
        let ghost all = slice_views(found@);
        let n: usize = found.len();
        let mut i: usize = 0;
        assert(all.take(0) =~= Seq::<Seq<u8>>::empty());
        while i < n
            invariant
                n == found@.len(),
                i <= n,
                all == slice_views(found@),
                self.order == old(self).order,
                self.ifindex == old(self).ifindex,
                self.pick == old(self).pick,
                self.addrs == scanned_links(
                    old(self).order,
                    all.take(i as int),
                    old(self).ifindex,
                    old(self).addrs,
                ),
            decreases n - i,
        {
            proof {
                assert(all[i as int] == found@[i as int]@);
                assert(all.take(i + 1).last() == all[i as int]);
                assert(all.take(i + 1).drop_last() =~= all.take(i as int));
            }
            scan_link(self.order, found[i], self.ifindex, &mut self.addrs);
            i += 1;
        }
        assert(all.take(n as int) =~= all);
        r
    }
}

/// A message about another interface changes nothing.
pub proof fn law_other_interfaces_are_ignored(
    order: ByteOrder,
    msg: Seq<u8>,
    ifindex: u32,
    pick: V6Pick,
    addrs: InterfaceAddresses,
)
    requires
        msg.len() >= 24,
        crate::net::host32_at(order, msg, 20) != ifindex,
    ensures
        scanned_addr(order, msg, ifindex, pick, addrs) == (pick, addrs),
        scanned_link(order, msg, ifindex, addrs) == addrs,
{
}

} // verus!
