//! Laws of an interface's addresses: what the kernel's messages say, which addresses can be a
//! source, and which is picked.

#[allow(unused_imports)]
use crate::interface::rtnetlink::{
    attributes, candidate_of, flags_of, first_mac, host16, last_of, link_mac, messages, progress,
    replies, request_bytes, scanned_addr, scanned_addrs, scanned_link, scanned_links, AttributeView,
    DumpProgress, MessageView,
};
#[allow(unused_imports)]
use crate::interface::{
    change_between, considered, rank_of, scope_of, AddressChange, InterfaceAddresses, Ipv6Scope,
    V6Pick, V6Rank,
};
#[allow(unused_imports)]
use crate::net::addr::{Ipv4Addr, Ipv6Addr};
#[allow(unused_imports)]
use crate::net::{host16_at, host32, host32_at, ByteOrder};
use vstd::prelude::*;

verus! {

/// An attribute as it travels: its type, its value, and the bytes that fill it up to a multiple of
/// four.
pub struct Framed {
    pub attr: AttributeView,
    pub fill: Seq<u8>,
}

/// Whether an attribute can be framed so.
pub open spec fn framed(f: Framed) -> bool {
    &&& f.attr.data.len() + 4 <= 65535
    &&& f.fill.len() < 4
    &&& (f.attr.data.len() + f.fill.len()) % 4 == 0
}

/// The bytes of an attribute: its length without the filling, its type, its value, the filling.
pub open spec fn attr_bytes(order: ByteOrder, f: Framed) -> Seq<u8> {
    host16(order, (f.attr.data.len() + 4) as u16) + host16(order, f.attr.attr_type) + f.attr.data
        + f.fill
}

/// The bytes of attributes one behind the other.
pub open spec fn attrs_bytes(order: ByteOrder, list: Seq<Framed>) -> Seq<u8>
    decreases list.len(),
{
    if list.len() == 0 {
        Seq::empty()
    } else {
        attr_bytes(order, list[0]) + attrs_bytes(order, list.drop_first())
    }
}

/// The attributes that a message was framed from are read back from it.
#[verifier::spinoff_prover]
pub proof fn law_attributes_are_read_back(
    order: ByteOrder,
    front: Seq<u8>,
    list: Seq<Framed>,
    tail: Seq<u8>,
)
    requires
        forall|i: int| 0 <= i < list.len() ==> framed(#[trigger] list[i]),
        tail.len() < 4,
    ensures
        attributes(order, front + attrs_bytes(order, list) + tail, front.len() as int)
            == list.map_values(|f: Framed| f.attr),
    decreases list.len(),
{
    let msg = front + attrs_bytes(order, list) + tail;
    let at = front.len() as int;
    if list.len() == 0 {
        assert(msg.len() < at + 4);
        assert(list.map_values(|f: Framed| f.attr) =~= Seq::<AttributeView>::empty());
    } else {
        let f = list[0];
        assert(framed(f));
        let rest = list.drop_first();
        let one = attr_bytes(order, f);
        assert forall|i: int| 0 <= i < rest.len() implies framed(#[trigger] rest[i]) by {
            assert(rest[i] == list[i + 1]);
        }
        law_attributes_are_read_back(order, front + one, rest, tail);
        assert((front + one) + attrs_bytes(order, rest) + tail =~= msg);
        assert(msg.subrange(at, at + one.len()) =~= one);
        lemma_attribute_read(order, msg, at, f);
        lemma_first_attribute(list);
    }
}

/// An attribute that stands in a message is read there, and the next behind it.
#[verifier::spinoff_prover]
proof fn lemma_attribute_read(order: ByteOrder, msg: Seq<u8>, at: int, f: Framed)
    requires
        framed(f),
        0 <= at,
        at + attr_bytes(order, f).len() <= msg.len(),
        msg.subrange(at, at + attr_bytes(order, f).len()) == attr_bytes(order, f),
    ensures
        attributes(order, msg, at) == seq![f.attr] + attributes(
            order,
            msg,
            at + attr_bytes(order, f).len(),
        ),
{
    let one = attr_bytes(order, f);
    let part = msg.subrange(at, at + one.len());
    let len = f.attr.data.len() as int + 4;
    let l16 = host16(order, len as u16);
    let t16 = host16(order, f.attr.attr_type);
    assert(one.len() == len + f.fill.len());
    assert(part[0] == msg[at] && part[1] == msg[at + 1] && part[2] == msg[at + 2] && part[3]
        == msg[at + 3]);
    assert(one[0] == l16[0] && one[1] == l16[1] && one[2] == t16[0] && one[3] == t16[1]);
    assert(host16_at(order, msg, at) == len);
    assert(host16_at(order, msg, at + 2) == f.attr.attr_type);
    assert(msg.subrange(at + 4, at + len) =~= f.attr.data) by {
        assert forall|i: int| 0 <= i < f.attr.data.len() implies msg[at + 4 + i]
            == f.attr.data[i] by {
            assert(part[4 + i] == msg[at + 4 + i]);
            assert(one[4 + i] == f.attr.data[i]);
        }
    }
    assert((len + 3) / 4 * 4 == one.len());
}

proof fn lemma_first_attribute(list: Seq<Framed>)
    requires
        list.len() > 0,
    ensures
        list.map_values(|f: Framed| f.attr) == seq![list[0].attr] + list.drop_first().map_values(
            |f: Framed| f.attr,
        ),
{
    assert(list.map_values(|f: Framed| f.attr) =~= seq![list[0].attr]
        + list.drop_first().map_values(|f: Framed| f.attr));
}

/// An attribute that claims to be shorter than its own header, or longer than what is left, ends
/// the walk.
pub proof fn law_malformed_attributes_end_the_walk(order: ByteOrder, msg: Seq<u8>, at: int)
    requires
        0 <= at,
        at + 4 <= msg.len() ==> host16_at(order, msg, at) < 4 || at + host16_at(order, msg, at)
            > msg.len(),
    ensures
        attributes(order, msg, at).len() == 0,
{
}

/// Whether the last attribute of a type, at `k`, holds `data`.
pub open spec fn last_holds(list: Seq<AttributeView>, attr_type: u16, k: int, data: Seq<u8>) -> bool {
    &&& 0 <= k < list.len()
    &&& list[k].attr_type == attr_type
    &&& list[k].data == data
    &&& forall|i: int| k < i < list.len() ==> (#[trigger] list[i]).attr_type != attr_type
}

/// Whether no attribute is of a type.
pub open spec fn lacks(list: Seq<AttributeView>, attr_type: u16) -> bool {
    forall|i: int| 0 <= i < list.len() ==> (#[trigger] list[i]).attr_type != attr_type
}

proof fn lemma_last_of(list: Seq<AttributeView>, attr_type: u16)
    ensures
        last_of(list, attr_type) is Some ==> exists|k: int| #[trigger]
            last_holds(list, attr_type, k, last_of(list, attr_type)->0),
        last_of(list, attr_type) is None ==> lacks(list, attr_type),
    decreases list.len(),
{
    if list.len() > 0 {
        let n = list.len() - 1;
        if list.last().attr_type == attr_type {
            assert(last_holds(list, attr_type, n, list.last().data));
            assert(last_holds(list, attr_type, n, last_of(list, attr_type)->0));
        } else {
            let rest = list.drop_last();
            lemma_last_of(rest, attr_type);
            match last_of(rest, attr_type) {
                Some(_) => {
                    let data = last_of(rest, attr_type)->0;
                    assert(data == last_of(list, attr_type)->0);
                    let k = choose|k: int| #[trigger] last_holds(rest, attr_type, k, data);
                    assert(last_holds(rest, attr_type, k, data));
                    assert forall|i: int| k < i < list.len() implies (#[trigger] list[i]).attr_type
                        != attr_type by {
                        if i < n {
                            assert(rest[i] == list[i]);
                        }
                    }
                    assert(list[k] == rest[k]);
                    assert(last_holds(list, attr_type, k, data));
                },
                None => {
                    assert forall|i: int| 0 <= i < list.len() implies (
                    #[trigger] list[i]).attr_type != attr_type by {
                        if i < n {
                            assert(rest[i] == list[i]);
                        }
                    }
                    assert(lacks(list, attr_type));
                },
            }
        }
    } else {
        assert(last_of(list, attr_type) is None);
        assert(lacks(list, attr_type));
    }
}

/// Whether an attribute states the 32-bit flags.
pub open spec fn states_flags(a: AttributeView) -> bool {
    a.attr_type == 8 && a.data.len() == 4
}

/// Whether `flags` are the flags of an address: those of the last attribute of 32-bit flags, or,
/// where there is none, the 8 bits of the message itself.
pub open spec fn effective_flags(order: ByteOrder, msg: Seq<u8>, flags: u32) -> bool {
    let list = attributes(order, msg, 24);
    ||| exists|k: int|
        #![trigger list[k]]
        {
            &&& 0 <= k < list.len()
            &&& states_flags(list[k])
            &&& flags == host32_at(order, list[k].data, 0)
            &&& forall|i: int| k < i < list.len() ==> !states_flags(#[trigger] list[i])
        }
    ||| flags == msg[18] && forall|i: int|
        0 <= i < list.len() ==> !states_flags(#[trigger] list[i])
}

proof fn lemma_flags(order: ByteOrder, list: Seq<AttributeView>, fallback: int)
    ensures
        ({
            let f = flags_of(order, list, fallback);
            ||| exists|k: int|
                #![trigger list[k]]
                {
                    &&& 0 <= k < list.len()
                    &&& states_flags(list[k])
                    &&& f == host32_at(order, list[k].data, 0)
                    &&& forall|i: int| k < i < list.len() ==> !states_flags(#[trigger] list[i])
                }
            ||| f == fallback && forall|i: int|
                0 <= i < list.len() ==> !states_flags(#[trigger] list[i])
        }),
    decreases list.len(),
{
    if list.len() > 0 {
        let n = list.len() - 1;
        if states_flags(list.last()) {
            assert(list[n] == list.last());
        } else {
            let rest = list.drop_last();
            lemma_flags(order, rest, fallback);
            let f = flags_of(order, rest, fallback);
            if exists|k: int|
                #![trigger rest[k]]
                {
                    &&& 0 <= k < rest.len()
                    &&& states_flags(rest[k])
                    &&& f == host32_at(order, rest[k].data, 0)
                    &&& forall|i: int| k < i < rest.len() ==> !states_flags(#[trigger] rest[i])
                } {
                let k = choose|k: int|
                    #![trigger rest[k]]
                    {
                        &&& 0 <= k < rest.len()
                        &&& states_flags(rest[k])
                        &&& f == host32_at(order, rest[k].data, 0)
                        &&& forall|i: int| k < i < rest.len() ==> !states_flags(#[trigger] rest[i])
                    };
                assert(list[k] == rest[k]);
                assert forall|i: int| k < i < list.len() implies !states_flags(
                    #[trigger] list[i],
                ) by {
                    if i < n {
                        assert(rest[i] == list[i]);
                    }
                }
            } else {
                assert forall|i: int| 0 <= i < list.len() implies !states_flags(
                    #[trigger] list[i],
                ) by {
                    if i < n {
                        assert(rest[i] == list[i]);
                    }
                }
            }
        }
    }
}

proof fn lemma_effective(order: ByteOrder, msg: Seq<u8>, flags: u32)
    requires
        effective_flags(order, msg, flags),
    ensures
        flags_of(order, attributes(order, msg, 24), msg[18] as int) == flags,
{
    let list = attributes(order, msg, 24);
    lemma_flags(order, list, msg[18] as int);
}

/// Whether any of the bits that rule an address out is set: tentative, deprecated, or failed in
/// duplicate address detection.
pub open spec fn ruled_out(flags: u32) -> bool {
    flags / 64 % 2 == 1 || flags / 32 % 2 == 1 || flags / 8 % 2 == 1
}

proof fn lemma_ruled_out(flags: u32)
    ensures
        ruled_out(flags) <==> flags & 0x68 != 0,
{
    assert((flags / 64 % 2 == 1 || flags / 32 % 2 == 1 || flags / 8 % 2 == 1) <==> flags & 0x68u32
        != 0) by (bit_vector);
}

/// An address that is tentative, deprecated or failed in duplicate address detection, any one of
/// them, changes neither what is recorded nor the pick.
pub proof fn law_unusable_addresses_change_nothing(
    order: ByteOrder,
    msg: Seq<u8>,
    ifindex: u32,
    flags: u32,
    pick: V6Pick,
    addrs: InterfaceAddresses,
)
    requires
        effective_flags(order, msg, flags),
        ruled_out(flags),
    ensures
        scanned_addr(order, msg, ifindex, pick, addrs) == (pick, addrs),
{
    lemma_effective(order, msg, flags);
    lemma_ruled_out(flags);
}

/// Whether a message of addresses states the address `bytes`: its last local address, or, where it
/// has no local address, its last address.
pub open spec fn states_address(order: ByteOrder, msg: Seq<u8>, bytes: Seq<u8>) -> bool {
    let list = attributes(order, msg, 24);
    ||| exists|k: int| #[trigger] last_holds(list, 2, k, bytes)
    ||| lacks(list, 2) && exists|k: int| #[trigger] last_holds(list, 1, k, bytes)
}

proof fn lemma_states_address(order: ByteOrder, msg: Seq<u8>, bytes: Seq<u8>)
    requires
        states_address(order, msg, bytes),
    ensures
        ({
            let list = attributes(order, msg, 24);
            match last_of(list, 2) {
                Some(local) => local == bytes,
                None => last_of(list, 1) == Some(bytes),
            }
        }),
{
    let list = attributes(order, msg, 24);
    lemma_last_of(list, 2);
    lemma_last_of(list, 1);
    if exists|k: int| #[trigger] last_holds(list, 2, k, bytes) {
        let k = choose|k: int| #[trigger] last_holds(list, 2, k, bytes);
        assert(list[k].attr_type == 2);
        let data = last_of(list, 2)->0;
        let j = choose|j: int| #[trigger] last_holds(list, 2, j, data);
        assert(list[j].attr_type == 2);
        assert(j == k);
    } else {
        let k = choose|k: int| #[trigger] last_holds(list, 1, k, bytes);
        assert(list[k].attr_type == 1);
        let data = last_of(list, 1)->0;
        let j = choose|j: int| #[trigger] last_holds(list, 1, j, data);
        assert(list[j].attr_type == 1);
        assert(j == k);
        if last_of(list, 2) is Some {
            let local = last_of(list, 2)->0;
            let i = choose|i: int| #[trigger] last_holds(list, 2, i, local);
            assert(list[i].attr_type == 2);
        }
    }
}

/// A usable address of the interface is considered. Of IPv4 the first is recorded, as it stands in
/// the message, and a later one changes nothing; an IPv6 address is considered as a source. Nothing
/// else is changed, and an address of the wrong length changes nothing.
pub proof fn law_usable_addresses_are_considered(
    order: ByteOrder,
    msg: Seq<u8>,
    ifindex: u32,
    flags: u32,
    bytes: Seq<u8>,
    pick: V6Pick,
    addrs: InterfaceAddresses,
)
    requires
        msg.len() >= 24,
        host32_at(order, msg, 20) == ifindex,
        effective_flags(order, msg, flags),
        !ruled_out(flags),
        states_address(order, msg, bytes),
    ensures
        ({
            let (p, a) = scanned_addr(order, msg, ifindex, pick, addrs);
            if msg[16] == 2 && bytes.len() == 4 {
                &&& p == pick
                &&& a.mac == addrs.mac
                &&& a.v6 == addrs.v6
                &&& a.v6_routable == addrs.v6_routable
                &&& addrs.v4 is Some ==> a.v4 == addrs.v4
                &&& addrs.v4 is None ==> a.v4 is Some && a.v4->0@ == bytes
            } else if msg[16] == 10 && bytes.len() == 16 {
                exists|source: Ipv6Addr|
                    #![trigger source@]
                    source@ == bytes && (p, a) == considered(pick, addrs, source)
            } else {
                (p, a) == (pick, addrs)
            }
        }),
{
    lemma_effective(order, msg, flags);
    lemma_ruled_out(flags);
    lemma_states_address(order, msg, bytes);
    if msg[16] == 2 && bytes.len() == 4 {
        assert(crate::net::addr::ipv4_from(bytes)@ =~= bytes);
    }
    if msg[16] == 10 && bytes.len() == 16 {
        assert(crate::net::addr::ipv6_from(bytes)@ =~= bytes);
    }
}

/// A message that is too short, is about another interface or another family, or states no address
/// changes nothing.
pub proof fn law_other_address_messages_change_nothing(
    order: ByteOrder,
    msg: Seq<u8>,
    ifindex: u32,
    pick: V6Pick,
    addrs: InterfaceAddresses,
)
    requires
        msg.len() < 24 || host32_at(order, msg, 20) != ifindex || msg[16] != 2 && msg[16] != 10 || (
        lacks(attributes(order, msg, 24), 1) && lacks(attributes(order, msg, 24), 2)),
    ensures
        scanned_addr(order, msg, ifindex, pick, addrs) == (pick, addrs),
{
    if msg.len() >= 24 {
        let list = attributes(order, msg, 24);
        lemma_last_of(list, 1);
        lemma_last_of(list, 2);
        if let Some(data) = last_of(list, 1) {
            let k = choose|k: int| #[trigger] last_holds(list, 1, k, data);
            assert(list[k].attr_type == 1);
        }
        if let Some(data) = last_of(list, 2) {
            let k = choose|k: int| #[trigger] last_holds(list, 2, k, data);
            assert(list[k].attr_type == 2);
        }
    }
}

/// Whether an attribute of a link message is a MAC address.
pub open spec fn is_mac_attr(a: AttributeView) -> bool {
    a.attr_type == 1 && a.data.len() == 6
}

proof fn lemma_first_mac(list: Seq<AttributeView>)
    ensures
        match first_mac(list) {
            Some(mac) => exists|k: int|
                #![trigger list[k]]
                {
                    &&& 0 <= k < list.len()
                    &&& is_mac_attr(list[k])
                    &&& mac@ == list[k].data
                    &&& forall|i: int| 0 <= i < k ==> !is_mac_attr(#[trigger] list[i])
                },
            None => forall|i: int| 0 <= i < list.len() ==> !is_mac_attr(#[trigger] list[i]),
        },
    decreases list.len(),
{
    if list.len() > 0 {
        if is_mac_attr(list[0]) {
            assert(crate::net::mac::mac_from(list[0].data)@ =~= list[0].data);
        } else {
            let rest = list.drop_first();
            lemma_first_mac(rest);
            match first_mac(rest) {
                Some(mac) => {
                    let k = choose|k: int|
                        #![trigger rest[k]]
                        {
                            &&& 0 <= k < rest.len()
                            &&& is_mac_attr(rest[k])
                            &&& mac@ == rest[k].data
                            &&& forall|i: int| 0 <= i < k ==> !is_mac_attr(#[trigger] rest[i])
                        };
                    assert(list[k + 1] == rest[k]);
                    assert forall|i: int| 0 <= i < k + 1 implies !is_mac_attr(
                        #[trigger] list[i],
                    ) by {
                        if i > 0 {
                            assert(rest[i - 1] == list[i]);
                        }
                    }
                },
                None => {
                    assert forall|i: int| 0 <= i < list.len() implies !is_mac_attr(
                        #[trigger] list[i],
                    ) by {
                        if i > 0 {
                            assert(rest[i - 1] == list[i]);
                        }
                    }
                },
            }
        }
    }
}

/// A link message about the interface records the first MAC address among its attributes; any other
/// message, or one without a MAC address, records nothing. Nothing else is changed.
pub proof fn law_links_record_their_first_mac(
    order: ByteOrder,
    msg: Seq<u8>,
    ifindex: u32,
    addrs: InterfaceAddresses,
)
    ensures
        ({
            let a = scanned_link(order, msg, ifindex, addrs);
            let list = attributes(order, msg, 32);
            let ours = msg.len() >= 32 && host32_at(order, msg, 20) == ifindex && ifindex
                < 0x8000_0000;
            &&& a.v4 == addrs.v4
            &&& a.v6 == addrs.v6
            &&& a.v6_routable == addrs.v6_routable
            &&& forall|k: int|
                #![trigger list[k]]
                ours && 0 <= k < list.len() && is_mac_attr(list[k]) && (forall|i: int|
                    0 <= i < k ==> !is_mac_attr(#[trigger] list[i])) ==> a.mac is Some && a.mac->0@
                    == list[k].data
            &&& !ours || (forall|i: int| 0 <= i < list.len() ==> !is_mac_attr(#[trigger] list[i]))
                ==> a.mac == addrs.mac
        }),
{
    lemma_first_mac(attributes(order, msg, 32));
}

/// Messages are scanned one by one, in order.
pub proof fn law_messages_are_scanned_in_order(
    order: ByteOrder,
    first: Seq<Seq<u8>>,
    msg: Seq<u8>,
    ifindex: u32,
    pick: V6Pick,
    addrs: InterfaceAddresses,
)
    ensures
        scanned_addrs(order, Seq::empty(), ifindex, pick, addrs) == (pick, addrs),
        scanned_links(order, Seq::empty(), ifindex, addrs) == addrs,
        ({
            let (p, a) = scanned_addrs(order, first, ifindex, pick, addrs);
            scanned_addrs(order, first.push(msg), ifindex, pick, addrs) == scanned_addr(
                order,
                msg,
                ifindex,
                p,
                a,
            )
        }),
        scanned_links(order, first.push(msg), ifindex, addrs) == scanned_link(
            order,
            msg,
            ifindex,
            scanned_links(order, first, ifindex, addrs),
        ),
{
    assert(first.push(msg).drop_last() =~= first);
}

/// A message as it travels, with the bytes that fill it up to a multiple of four.
pub struct FramedMessage {
    pub msg: MessageView,
    pub fill: Seq<u8>,
}

/// Whether a message states its own length in its first four bytes and its type in the next two.
pub open spec fn framed_message(order: ByteOrder, f: FramedMessage) -> bool {
    &&& 16 <= f.msg.bytes.len() <= u32::MAX
    &&& f.msg.bytes.take(4) == host32(order, f.msg.bytes.len() as u32)
    &&& f.msg.bytes.subrange(4, 6) == host16(order, f.msg.msg_type)
    &&& f.fill.len() < 4
    &&& (f.msg.bytes.len() + f.fill.len()) % 4 == 0
}

/// The bytes of messages one behind the other.
pub open spec fn datagram(list: Seq<FramedMessage>) -> Seq<u8>
    decreases list.len(),
{
    if list.len() == 0 {
        Seq::empty()
    } else {
        list[0].msg.bytes + list[0].fill + datagram(list.drop_first())
    }
}

/// A message that stands in a datagram is read there, and the next behind it.
#[verifier::spinoff_prover]
proof fn lemma_message_header(order: ByteOrder, buf: Seq<u8>, at: int, f: FramedMessage)
    requires
        framed_message(order, f),
        0 <= at,
        at + f.msg.bytes.len() <= buf.len(),
        buf.subrange(at, at + f.msg.bytes.len()) == f.msg.bytes,
    ensures
        messages(order, buf, at) == seq![f.msg] + messages(
            order,
            buf,
            at + f.msg.bytes.len() + f.fill.len(),
        ),
{
    let bytes = f.msg.bytes;
    let whole = buf.subrange(at, at + bytes.len());
    let head = bytes.take(4);
    let kind = bytes.subrange(4, 6);
    assert(buf[at] == whole[0] && buf[at + 1] == whole[1] && buf[at + 2] == whole[2] && buf[at + 3]
        == whole[3] && buf[at + 4] == whole[4] && buf[at + 5] == whole[5]);
    assert(bytes[0] == head[0] && bytes[1] == head[1] && bytes[2] == head[2] && bytes[3] == head[3]);
    assert(bytes[4] == kind[0] && bytes[5] == kind[1]);
    assert(host32_at(order, buf, at) == bytes.len());
    assert(host16_at(order, buf, at + 4) == f.msg.msg_type);
    let n = bytes.len() as int;
    let m = f.fill.len() as int;
    assert((n + 3) / 4 * 4 == n + m);
}

proof fn lemma_first_message(list: Seq<FramedMessage>)
    requires
        list.len() > 0,
    ensures
        list.map_values(|f: FramedMessage| f.msg) == seq![list[0].msg]
            + list.drop_first().map_values(|f: FramedMessage| f.msg),
{
    assert(list.map_values(|f: FramedMessage| f.msg) =~= seq![list[0].msg]
        + list.drop_first().map_values(|f: FramedMessage| f.msg));
}

/// The messages that a datagram was framed from are read back from it.
#[verifier::spinoff_prover]
pub proof fn law_messages_are_read_back(
    order: ByteOrder,
    front: Seq<u8>,
    list: Seq<FramedMessage>,
    tail: Seq<u8>,
)
    requires
        forall|i: int| 0 <= i < list.len() ==> framed_message(order, #[trigger] list[i]),
        tail.len() < 16,
    ensures
        messages(order, front + datagram(list) + tail, front.len() as int) == list.map_values(
            |f: FramedMessage| f.msg,
        ),
    decreases list.len(),
{
    let buf = front + datagram(list) + tail;
    let at = front.len() as int;
    if list.len() == 0 {
        assert(list.map_values(|f: FramedMessage| f.msg) =~= Seq::<MessageView>::empty());
    } else {
        let f = list[0];
        assert(framed_message(order, f));
        let rest = list.drop_first();
        let len = f.msg.bytes.len() as int;
        assert forall|i: int| 0 <= i < rest.len() implies framed_message(
            order,
            #[trigger] rest[i],
        ) by {
            assert(rest[i] == list[i + 1]);
        }
        let next = front + f.msg.bytes + f.fill;
        law_messages_are_read_back(order, next, rest, tail);
        assert(next + datagram(rest) + tail =~= buf);
        assert(buf.subrange(at, at + len) =~= f.msg.bytes);
        lemma_message_header(order, buf, at, f);
        assert(next.len() == at + len + f.fill.len());
        lemma_first_message(list);
    }
}

/// Whether a message ends a dump: type 3 says that it is done, type 2 that it failed.
pub open spec fn ends_dump(m: MessageView) -> bool {
    m.msg_type == 2 || m.msg_type == 3
}

/// The replies of a dump are the messages of the wanted type, in order, up to the message that ends
/// the dump, which also says how: done, or failed. Without such a message more follows.
pub proof fn law_dumps_reply_up_to_their_end(
    before: Seq<MessageView>,
    m: MessageView,
    behind: Seq<MessageView>,
    wanted: u16,
)
    requires
        forall|i: int| 0 <= i < before.len() ==> !ends_dump(#[trigger] before[i]),
    ensures
        ends_dump(m) ==> replies(before + seq![m] + behind, wanted) == replies(before, wanted),
        ends_dump(m) ==> progress(before + seq![m] + behind) == if m.msg_type == 3 {
            DumpProgress::Done
        } else {
            DumpProgress::Failed
        },
        progress(before) == DumpProgress::More,
        !ends_dump(m) && m.msg_type == wanted ==> replies(before.push(m), wanted) == replies(
            before,
            wanted,
        ).push(m.bytes),
        !ends_dump(m) && m.msg_type != wanted ==> replies(before.push(m), wanted) == replies(
            before,
            wanted,
        ),
        replies(Seq::empty(), wanted).len() == 0,
    decreases before.len(),
{
    let all = before + seq![m] + behind;
    if before.len() == 0 {
        assert(all[0] == m);
        assert(before.push(m).drop_first() =~= Seq::<MessageView>::empty());
        assert(replies(before.push(m).drop_first(), wanted) =~= Seq::<Seq<u8>>::empty());
        assert(before.push(m)[0] == m);
        assert(replies(before, wanted) =~= Seq::<Seq<u8>>::empty());
        assert(replies(all, wanted) =~= if ends_dump(m) { Seq::<Seq<u8>>::empty() } else { replies(all, wanted) });
        if !ends_dump(m) && m.msg_type == wanted {
            assert(replies(before.push(m), wanted) =~= replies(before, wanted).push(m.bytes));
        }
    } else {
        let rest = before.drop_first();
        assert(!ends_dump(before[0]));
        assert forall|i: int| 0 <= i < rest.len() implies !ends_dump(#[trigger] rest[i]) by {
            assert(rest[i] == before[i + 1]);
        }
        law_dumps_reply_up_to_their_end(rest, m, behind, wanted);
        assert(all[0] == before[0]);
        assert(all.drop_first() =~= rest + seq![m] + behind);
        assert(before.push(m)[0] == before[0]);
        assert(before.push(m).drop_first() =~= rest.push(m));
        if before[0].msg_type == wanted && m.msg_type == wanted && !ends_dump(m) {
            assert(replies(before.push(m), wanted) =~= replies(before, wanted).push(m.bytes));
        }
    }
}

/// A request for a dump states its length, its type, that it is a request for the whole table, the
/// sequence number 1 and the port 0; its body is zeros.
pub proof fn law_requests_ask_for_the_whole_table(
    order: ByteOrder,
    request_type: u16,
    body_len: nat,
)
    requires
        body_len <= 0xffff,
    ensures
        ({
            let r = request_bytes(order, request_type, body_len);
            &&& r.len() == 16 + body_len
            &&& host32_at(order, r, 0) == 16 + body_len
            &&& host16_at(order, r, 4) == request_type
            &&& host16_at(order, r, 6) == 0x0301
            &&& host32_at(order, r, 8) == 1
            &&& host32_at(order, r, 12) == 0
            &&& forall|i: int| 16 <= i < r.len() ==> #[trigger] r[i] == 0
        }),
{
}

/// An IPv4 address is multicast from 224 to 239, and the limited broadcast where all its octets are
/// 255. An IPv6 address is multicast where it begins with 255.
pub proof fn law_multicast_and_broadcast_addresses(a: Ipv4Addr, b: Ipv6Addr)
    ensures
        a.multicast() <==> a@[0] / 16 == 14,
        a.limited_broadcast() <==> forall|i: int| 0 <= i < 4 ==> #[trigger] a@[i] == 255,
        b.multicast() <==> b@[0] == 255,
{
    if forall|i: int| 0 <= i < 4 ==> #[trigger] a@[i] == 255 {
        assert(a@ =~= seq![255u8, 255u8, 255u8, 255u8]);
    }
    if a.limited_broadcast() {
        let s = seq![255u8, 255u8, 255u8, 255u8];
        assert forall|i: int| 0 <= i < 4 implies #[trigger] a@[i] == 255 by {
            assert(a@[i] == s[i]);
        }
    }
}

/// Whether an address is link-local: `fe80::/10`.
pub open spec fn link_local(a: Ipv6Addr) -> bool {
    a@[0] == 254 && a@[1] / 64 == 2
}

/// Whether an address is `::` or `::1`.
pub open spec fn none_or_loopback(a: Ipv6Addr) -> bool {
    a@[15] <= 1 && forall|i: int| 0 <= i < 15 ==> #[trigger] a@[i] == 0
}

/// Which addresses can be a source, worst to best: no multicast address, nor `::`, nor `::1`; then
/// the global addresses, the unique local ones (`fc00::/7`), and the link-local ones. A destination
/// is of link scope where it is link-local, or a group whose scope is 2.
pub proof fn law_sources_are_ranked(a: Ipv6Addr)
    ensures
        rank_of(a) == V6Rank::NotASource <==> a@[0] == 255 || none_or_loopback(a),
        rank_of(a) == V6Rank::LinkLocal <==> link_local(a),
        rank_of(a) == V6Rank::UniqueLocal <==> a@[0] / 2 == 126,
        V6Rank::LinkLocal.spec_level() > V6Rank::UniqueLocal.spec_level(),
        V6Rank::UniqueLocal.spec_level() > V6Rank::Global.spec_level(),
        scope_of(a) == Ipv6Scope::LinkLocal <==> link_local(a) || a@[0] == 255 && a@[1] % 16 == 2,
{
    if a.zero_but_last(0) || a.zero_but_last(1) {
        assert(a@[0] == 0);
    }
    if none_or_loopback(a) {
        assert(a@[0] == 0);
        assert(a.zero_but_last(a@[15]));
    }
}

/// A source for a link-local destination is the best of all; for a wider one the best that is not
/// link-local, or, where there is none, the best of all.
pub proof fn law_sources_match_the_destination(addrs: InterfaceAddresses)
    ensures
        addrs.spec_v6(Ipv6Scope::LinkLocal) == addrs.v6,
        addrs.v6_routable is Some ==> addrs.spec_v6(Ipv6Scope::Routable) == addrs.v6_routable,
        addrs.v6_routable is None ==> addrs.spec_v6(Ipv6Scope::Routable) == addrs.v6,
{
}

/// A resolution reports a field as changed exactly where it differs; of IPv6, where either source
/// does.
pub proof fn law_changes_are_reported(was: InterfaceAddresses, now: InterfaceAddresses)
    ensures
        change_between(was, now).mac <==> was.mac != now.mac,
        change_between(was, now).v4 <==> was.v4 != now.v4,
        change_between(was, now).v6 <==> !(was.v6 == now.v6 && was.v6_routable == now.v6_routable),
{
}

/// How good a source an address is: none where it is multicast, `::` or `::1`; then a global
/// address, a unique local one, and a link-local one.
pub open spec fn merit(a: Ipv6Addr) -> int {
    if a@[0] == 255 || none_or_loopback(a) {
        0
    } else if link_local(a) {
        3
    } else if a@[0] / 2 == 126 {
        2
    } else {
        1
    }
}

proof fn lemma_merit(a: Ipv6Addr)
    ensures
        rank_of(a).spec_level() == merit(a),
{
    law_sources_are_ranked(a);
    if none_or_loopback(a) {
        assert(a@[0] == 0);
    }
}

/// Whether the pick knows how good the sources are that are recorded.
pub open spec fn pick_knows(pick: V6Pick, addrs: InterfaceAddresses) -> bool {
    &&& addrs.v6 matches Some(a) ==> pick.best_rank.spec_level() == merit(a)
    &&& addrs.v6_routable matches Some(a) ==> pick.best_routable_rank.spec_level() == merit(a)
}

/// An address that is considered takes the place of the recorded source where there is none or the
/// address is better; of the routable source likewise, unless it is link-local. One that is no
/// source changes nothing, and nothing else is ever changed.
pub proof fn law_the_better_source_is_recorded(
    pick: V6Pick,
    addrs: InterfaceAddresses,
    a: Ipv6Addr,
)
    requires
        pick_knows(pick, addrs),
    ensures
        ({
            let (p, after) = considered(pick, addrs, a);
            let better = merit(a) > 0 && (addrs.v6 is None || merit(a) > merit(addrs.v6->0));
            let routable = 0 < merit(a) < 3 && (addrs.v6_routable is None || merit(a) > merit(
                addrs.v6_routable->0,
            ));
            &&& after.mac == addrs.mac
            &&& after.v4 == addrs.v4
            &&& better ==> after.v6 == Some(a)
            &&& !better ==> after.v6 == addrs.v6
            &&& routable ==> after.v6_routable == Some(a)
            &&& !routable ==> after.v6_routable == addrs.v6_routable
            &&& pick_knows(p, after)
        }),
        pick_knows(crate::interface::no_pick(), crate::interface::no_addresses()),
{
    lemma_merit(a);
    if let Some(x) = addrs.v6 {
        lemma_merit(x);
    }
    if let Some(x) = addrs.v6_routable {
        lemma_merit(x);
    }
}

/// An interface without any address has none of the four.
pub proof fn law_nothing_is_recorded_at_first()
    ensures
        ({
            let none = crate::interface::no_addresses();
            none.mac is None && none.v4 is None && none.v6 is None && none.v6_routable is None
        }),
{
}

} // verus!
