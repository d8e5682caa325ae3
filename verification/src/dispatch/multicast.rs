//! Multicast group membership for the capture interfaces: which groups an interface asks for, and
//! which failed joins mean that the membership is already held. Frames of a group reach the capture
//! only if the kernel admits the group on the interface; the program holds one unbound socket per
//! family and interface for that.

use crate::net::addr::IpAddr;
use vstd::prelude::*;

verus! {

/// The groups one interface asks for, remembered so that they are asked for again when the
/// interface's addresses change: a group that was not joinable before its address existed is then.
pub struct MulticastJoiner {
    ifindex: u32,
    desired: Vec<IpAddr>,
}

impl View for MulticastJoiner {
    type V = Seq<IpAddr>;

    /// The groups asked for, in the order they were first asked for.
    closed spec fn view(&self) -> Seq<IpAddr> {
        self.desired@
    }
}

impl MulticastJoiner {
    /// The interface the memberships belong to.
    pub closed spec fn spec_ifindex(&self) -> u32 {
        self.ifindex
    }

    /// A joiner for an interface, with no groups yet.
    pub fn new(ifindex: u32) -> (joiner: Self)
        ensures
            joiner.spec_ifindex() == ifindex,
            joiner@ == Seq::<IpAddr>::empty(),
    {
        MulticastJoiner { ifindex, desired: Vec::new() }
    }

    /// The interface the memberships belong to.
    pub fn ifindex(&self) -> (ifindex: u32)
        ensures
            ifindex == self.spec_ifindex(),
    {
        self.ifindex
    }

    /// Remembers a group, once, for this and later joins.
    pub fn join(&mut self, group: IpAddr)
        ensures
            final(self).spec_ifindex() == old(self).spec_ifindex(),
            final(self)@ == joined(old(self)@, group),
    {
        let n: usize = self.desired.len();
        let mut i: usize = 0;
        while i < n
            invariant
                *self == *old(self),
                n == self.desired@.len(),
                i <= n,
                forall|j: int| 0 <= j < i ==> self.desired@[j] != group,
            decreases n - i,
        {
            if self.desired[i] == group {
                assert(self.desired@[i as int] == group);
                return;
            }
            i += 1;
        }
        self.desired.push(group);
    }

    /// The groups to ask the kernel for, at a join and again after each address change.
    pub fn groups(&self) -> (groups: &[IpAddr])
        ensures
            groups@ == self@,
    {
        self.desired.as_slice()
    }
}

/// The error numbers by which a host says that a membership is already held: Linux and the BSDs'
/// IPv4 path say the address is in use, FreeBSD's IPv6 path that the argument is invalid.
#[derive(Debug, Clone, Copy, PartialEq, Eq, Structural)]
pub struct DuplicateErrnos {
    pub address_in_use: i32,
    pub invalid_argument: i32,
}

/// Whether a join failed with `errno` only because the membership is already held, which counts as
/// success: joining again depends on it.
pub fn already_member(errno: i32, host: DuplicateErrnos) -> (held: bool)
    ensures
        held == (errno == host.address_in_use || errno == host.invalid_argument),
{
    errno == host.address_in_use || errno == host.invalid_argument
}

/// The groups after `group` was asked for.
pub open spec fn joined(groups: Seq<IpAddr>, group: IpAddr) -> Seq<IpAddr> {
    if groups.contains(group) {
        groups
    } else {
        groups.push(group)
    }
}

/// Asking for a group again changes nothing.
pub proof fn law_join_is_idempotent(groups: Seq<IpAddr>, group: IpAddr)
    ensures
        joined(joined(groups, group), group) == joined(groups, group),
{
    assert(groups.push(group)[groups.len() as int] == group);
}

} // verus!
