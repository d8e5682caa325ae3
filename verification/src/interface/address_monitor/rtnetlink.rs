//! Linux: the address and link changes that an rtnetlink notification names.

use crate::interface::rtnetlink::{
    split_messages, IFADDRMSG_SIZE, IFINFOMSG_SIZE, NLMSG_HEADER_SIZE, RTM_DELADDR, RTM_DELLINK,
    RTM_NEWADDR, RTM_NEWLINK,
};
use crate::net::{read_host32, ByteOrder};
use vstd::prelude::*;

verus! {

/// The interface that a message names as changed: the index of an address message's `ifaddrmsg` or
/// of a link message's `ifinfomsg`, whose index is signed. Index 0 names no interface.
pub open spec fn changed_interface(
    order: ByteOrder,
    msg: crate::interface::rtnetlink::MessageView,
) -> Option<u32> {
    let index = crate::net::host32_at(order, msg.bytes, 20);
    if (msg.msg_type == RTM_NEWADDR || msg.msg_type == RTM_DELADDR) && msg.bytes.len() >= 24
        && index != 0 {
        Some(index as u32)
    } else if (msg.msg_type == RTM_NEWLINK || msg.msg_type == RTM_DELLINK) && msg.bytes.len() >= 32
        && 0 < index <= i32::MAX {
        Some(index as u32)
    } else {
        None
    }
}

/// The interfaces that the messages name, in order.
pub open spec fn named(
    list: Seq<crate::interface::rtnetlink::MessageView>,
    order: ByteOrder,
) -> Seq<u32>
    decreases list.len(),
{
    if list.len() == 0 {
        Seq::empty()
    } else {
        let before = named(list.drop_last(), order);
        match changed_interface(order, list.last()) {
            Some(index) => before.push(index),
            None => before,
        }
    }
}

/// The interfaces that a datagram names as changed.
pub open spec fn changed_interfaces(order: ByteOrder, datagram: Seq<u8>) -> Seq<u32> {
    named(crate::interface::rtnetlink::messages(order, datagram, 0), order)
}

fn changed(order: ByteOrder, msg_type: u16, bytes: &[u8]) -> (index: Option<u32>)
    requires
        bytes@.len() >= NLMSG_HEADER_SIZE,
    ensures
        index == changed_interface(
            order,
            (crate::interface::rtnetlink::MessageView { msg_type, bytes: bytes@ }),
        ),
{
    let n: usize = bytes.len();
    if msg_type == RTM_NEWADDR || msg_type == RTM_DELADDR {
        if n >= NLMSG_HEADER_SIZE + IFADDRMSG_SIZE {
            let index: u32 = read_host32(order, bytes, 20);
            if index != 0 {
                return Some(index);
            }
        }
    } else if msg_type == RTM_NEWLINK || msg_type == RTM_DELLINK {
        if n >= NLMSG_HEADER_SIZE + IFINFOMSG_SIZE {
            let index: u32 = read_host32(order, bytes, 20);
            if index != 0 && index <= i32::MAX as u32 {
                return Some(index);
            }
        }
    }
    None
}

/// Walks every message of one datagram and returns the index of each interface that an address or
/// link message names.
pub fn for_each_change(order: ByteOrder, datagram: &[u8]) -> (indices: Vec<u32>)
    ensures
        indices@ == changed_interfaces(order, datagram@),
{
    let list = split_messages(order, datagram);
    let ghost all = crate::interface::rtnetlink::message_views(list@);
    let mut indices: Vec<u32> = Vec::new();
    let n: usize = list.len();
    let mut i: usize = 0;
    proof {
        lemma_message_sizes(order, datagram@, 0);
        assert(all.take(0) =~= Seq::empty());
    }
    while i < n
        invariant
            n == list@.len(),
            i <= n,
            all == crate::interface::rtnetlink::message_views(list@),
            forall|k: int| 0 <= k < all.len() ==> (#[trigger] all[k]).bytes.len() >= NLMSG_HEADER_SIZE,
            indices@ == named(all.take(i as int), order),
        decreases n - i,
    {
        proof {
            assert(all[i as int] == list@[i as int]@);
            assert(all.take(i + 1).last() == all[i as int]);
            assert(all.take(i + 1).drop_last() =~= all.take(i as int));
        }
        match changed(order, list[i].msg_type, list[i].bytes) {
            Some(index) => {
                indices.push(index);
            },
            None => {},
        }
        i += 1;
    }
    assert(all.take(n as int) =~= all);
    indices
}

proof fn lemma_message_sizes(order: ByteOrder, buf: Seq<u8>, offset: int)
    ensures
        forall|k: int|
            0 <= k < crate::interface::rtnetlink::messages(order, buf, offset).len() ==> (
            #[trigger] crate::interface::rtnetlink::messages(order, buf, offset)[k]).bytes.len()
                >= NLMSG_HEADER_SIZE,
    decreases buf.len() + 4 - offset,
{
    if offset >= 0 && offset + NLMSG_HEADER_SIZE <= buf.len() {
        let len = crate::net::host32_at(order, buf, offset);
        if len >= NLMSG_HEADER_SIZE && offset + len <= buf.len() {
            let next = offset + crate::interface::rtnetlink::aligned(len);
            lemma_message_sizes(order, buf, next);
            let rest = crate::interface::rtnetlink::messages(order, buf, next);
            let all = crate::interface::rtnetlink::messages(order, buf, offset);
            assert forall|k: int| 0 <= k < all.len() implies (#[trigger] all[k]).bytes.len()
                >= NLMSG_HEADER_SIZE by {
                if k > 0 {
                    assert(all[k] == rest[k - 1]);
                }
            }
        }
    }
}

/// No message names index 0.
pub proof fn lemma_changed_nonzero(
    list: Seq<crate::interface::rtnetlink::MessageView>,
    order: ByteOrder,
)
    ensures
        forall|k: int| 0 <= k < named(list, order).len() ==> #[trigger] named(list, order)[k] != 0,
    decreases list.len(),
{
    if list.len() > 0 {
        lemma_changed_nonzero(list.drop_last(), order);
        crate::net::lemma_host32_at(order, list.last().bytes, 20);
        let before = named(list.drop_last(), order);
        assert forall|k: int| 0 <= k < named(list, order).len() implies #[trigger] named(
            list,
            order,
        )[k] != 0 by {
            if k < before.len() {
                assert(named(list, order)[k] == before[k]);
            }
        }
    }
}

} // verus!
