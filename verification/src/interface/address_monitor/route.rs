//! macOS and FreeBSD: the address and link changes that a `PF_ROUTE` message names. Only the
//! interface index is read, at the offset that every such message has it.

use crate::net::{read_host16, ByteOrder};
use vstd::prelude::*;

verus! {

/// An address appeared or changed.
pub const RTM_NEWADDR: u8 = 0x0c;

/// An address went away.
pub const RTM_DELADDR: u8 = 0x0d;

/// A link changed.
pub const RTM_IFINFO: u8 = 0x0e;

/// Where an address or link message has the interface index, 16 bits wide.
pub const INDEX_OFFSET: usize = 12;

/// The length, version and type that begin every routing message.
pub const MIN_MESSAGE: usize = 4;

/// The interfaces that the routing messages from `offset` on name, in order. The walk stops where
/// no whole message prefix is left, and at the first length that is too short or runs past the
/// datagram. Index 0 names no interface.
pub open spec fn changed_interfaces(order: ByteOrder, buf: Seq<u8>, offset: int) -> Seq<u32>
    decreases buf.len() - offset,
{
    if offset < 0 || offset + MIN_MESSAGE > buf.len() {
        Seq::empty()
    } else {
        let len = crate::net::host16_at(order, buf, offset);
        if len < MIN_MESSAGE || offset + len > buf.len() {
            Seq::empty()
        } else {
            let index = crate::net::host16_at(order, buf, offset + INDEX_OFFSET);
            let rest = changed_interfaces(order, buf, offset + len);
            if RTM_NEWADDR <= buf[offset + 3] <= RTM_IFINFO && len >= INDEX_OFFSET + 2 && index
                != 0 {
                seq![index as u32] + rest
            } else {
                rest
            }
        }
    }
}

/// Walks every routing message of one datagram and returns the index of each interface that an
/// address or link message names.
pub fn for_each_change(order: ByteOrder, buf: &[u8]) -> (indices: Vec<u32>)
    ensures
        indices@ == changed_interfaces(order, buf@, 0),
{
    let n: usize = buf.len();
    let mut indices: Vec<u32> = Vec::new();
    let mut offset: usize = 0;
    assert(indices@ + changed_interfaces(order, buf@, 0) =~= changed_interfaces(order, buf@, 0));
    while n - offset >= MIN_MESSAGE
        invariant
            n == buf@.len(),
            offset <= n,
            indices@ + changed_interfaces(order, buf@, offset as int) == changed_interfaces(
                order,
                buf@,
                0,
            ),
        decreases n - offset,
    {
        let len: usize = read_host16(order, buf, offset) as usize;
        let msg_type: u8 = buf[offset + 3];
        if len < MIN_MESSAGE || len > n - offset {
            assert(indices@ =~= changed_interfaces(order, buf@, 0));
            return indices;
        }
        let ghost before = indices@;
        let ghost rest = changed_interfaces(order, buf@, offset + len);
        if (msg_type == RTM_NEWADDR || msg_type == RTM_DELADDR || msg_type == RTM_IFINFO) && len
            >= INDEX_OFFSET + 2 {
            let index: u16 = read_host16(order, buf, offset + INDEX_OFFSET);
            if index != 0 {
                indices.push(index as u32);
            }
        }
        assert(indices@ + rest =~= before + changed_interfaces(order, buf@, offset as int));
        offset += len;
    }
    assert(indices@ =~= changed_interfaces(order, buf@, 0));
    indices
}

/// No message names index 0.
pub proof fn lemma_changed_nonzero(order: ByteOrder, buf: Seq<u8>, offset: int)
    ensures
        forall|k: int|
            0 <= k < changed_interfaces(order, buf, offset).len() ==> #[trigger] changed_interfaces(
                order,
                buf,
                offset,
            )[k] != 0,
    decreases buf.len() - offset,
{
    if offset >= 0 && offset + MIN_MESSAGE <= buf.len() {
        let len = crate::net::host16_at(order, buf, offset);
        if len >= MIN_MESSAGE && offset + len <= buf.len() {
            lemma_changed_nonzero(order, buf, offset + len);
            let rest = changed_interfaces(order, buf, offset + len);
            let all = changed_interfaces(order, buf, offset);
            assert forall|k: int| 0 <= k < all.len() implies #[trigger] all[k] != 0 by {
                if all.len() == rest.len() {
                    assert(all =~= rest);
                } else if k > 0 {
                    assert(all[k] == rest[k - 1]);
                }
            }
        }
    }
}

} // verus!
