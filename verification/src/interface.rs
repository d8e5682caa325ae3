//! The source MAC, IPv4 and IPv6 addresses an interface currently has. Reflected packets are
//! re-emitted from these. Any may be absent: a loopback or `DLT_NULL` link has no MAC, and a link
//! may be v4-only or v6-only.

pub mod address_monitor;
pub mod rtnetlink;

use crate::net::addr::{Ipv4Addr, Ipv6Addr};
use crate::net::mac::MacAddr;
use vstd::prelude::*;

verus! {

/// An interface's current source addresses: of IPv6 the best overall (link-local preferred) and
/// the best that is not link-local. A sender takes a v6 source through [`InterfaceAddresses::v6`],
/// naming the destination's scope.
#[derive(Debug, Clone, Copy, PartialEq, Eq)]
pub struct InterfaceAddresses {
    pub mac: Option<MacAddr>,
    pub v4: Option<Ipv4Addr>,
    pub v6: Option<Ipv6Addr>,
    pub v6_routable: Option<Ipv6Addr>,
}

/// No address of any kind.
pub open spec fn no_addresses() -> InterfaceAddresses {
    InterfaceAddresses { mac: None, v4: None, v6: None, v6_routable: None }
}

impl Default for InterfaceAddresses {
    /// No address of any kind.
    fn default() -> (addrs: Self)
        ensures
            addrs == no_addresses(),
    {
        InterfaceAddresses { mac: None, v4: None, v6: None, v6_routable: None }
    }
}

impl InterfaceAddresses {
    /// A record of these addresses.
    pub fn new(
        mac: Option<MacAddr>,
        v4: Option<Ipv4Addr>,
        v6: Option<Ipv6Addr>,
        v6_routable: Option<Ipv6Addr>,
    ) -> (addrs: Self)
        ensures
            addrs == (InterfaceAddresses { mac, v4, v6, v6_routable }),
    {
        InterfaceAddresses { mac, v4, v6, v6_routable }
    }

    /// The source MAC, if the link has one.
    pub fn mac(&self) -> (mac: Option<MacAddr>)
        ensures
            mac == self.mac,
    {
        self.mac
    }

    /// The IPv4 source address, if any.
    pub fn v4(&self) -> (v4: Option<Ipv4Addr>)
        ensures
            v4 == self.v4,
    {
        self.v4
    }

    /// The best v6 source for a destination of the scope: link-local for a link-local
    /// destination; for a wider one a routable source, or else whatever there is.
    pub open spec fn spec_v6(self, dest_scope: Ipv6Scope) -> Option<Ipv6Addr> {
        if dest_scope is Routable && self.v6_routable is Some {
            self.v6_routable
        } else {
            self.v6
        }
    }

    /// The best v6 source for a destination of `dest_scope`. Falls back to the other scope's
    /// address where the matching one is absent: a mismatch, but better than dropping the send.
    pub fn v6(&self, dest_scope: Ipv6Scope) -> (v6: Option<Ipv6Addr>)
        ensures
            v6 == self.spec_v6(dest_scope),
    {
        match dest_scope {
            Ipv6Scope::LinkLocal => self.v6,
            Ipv6Scope::Routable => if self.v6_routable.is_some() {
                self.v6_routable
            } else {
                self.v6
            },
        }
    }

    /// Whether the interface can currently source IPv4.
    pub fn has_v4(&self) -> (has: bool)
        ensures
            has == self.v4 is Some,
    {
        self.v4.is_some()
    }

    /// Whether the interface can currently source IPv6, in any scope.
    pub fn has_v6(&self) -> (has: bool)
        ensures
            has == self.v6 is Some,
    {
        self.v6.is_some()
    }
}

/// Which source fields an update changed, so that a caller reacts only to the family it depends
/// on (a DIAL proxy binds IPv4, and is replaced only where `v4` moved).
#[derive(Debug, Clone, Copy, PartialEq, Eq, Default, Structural)]
pub struct AddressChange {
    pub mac: bool,
    pub v4: bool,
    pub v6: bool,
}

/// An IPv6 destination's scope, as far as it matters for source selection: a link-local
/// destination (`fe80::/10`, or a multicast group of link-local scope such as `ff02::`) wants a
/// link-local source, anything wider a routable one.
#[derive(Debug, Clone, Copy, PartialEq, Eq, Structural)]
pub enum Ipv6Scope {
    LinkLocal,
    Routable,
}

/// Whether `addr` is a multicast group whose scope nibble says link-local.
pub open spec fn multicast_link_local(addr: Ipv6Addr) -> bool {
    addr.multicast() && addr@[1] % 16 == 2
}

/// The scope of an address.
pub open spec fn scope_of(addr: Ipv6Addr) -> Ipv6Scope {
    if multicast_link_local(addr) || addr.unicast_link_local() {
        Ipv6Scope::LinkLocal
    } else {
        Ipv6Scope::Routable
    }
}

fn is_multicast_link_local(addr: Ipv6Addr) -> (r: bool)
    ensures
        r == multicast_link_local(addr),
{
    addr.is_multicast() && addr.octets[1] % 16 == 2
}

impl Ipv6Scope {
    /// The scope of `addr`: link-local if it is a link-local-scoped multicast group or a
    /// link-local unicast address, else routable.
    pub fn of(addr: Ipv6Addr) -> (scope: Self)
        ensures
            scope == scope_of(addr),
    {
        if is_multicast_link_local(addr) || addr.is_unicast_link_local() {
            Ipv6Scope::LinkLocal
        } else {
            Ipv6Scope::Routable
        }
    }
}

/// How good an IPv6 source an address is, worst to best. Link-local service traffic prefers a
/// link-local source, then a unique local one, then a global one; a multicast address, `::` and
/// `::1` are never a source.
#[derive(Clone, Copy, PartialEq, Eq, PartialOrd, Ord, Debug, Structural)]
pub enum V6Rank {
    NotASource,
    Global,
    UniqueLocal,
    LinkLocal,
}

impl V6Rank {
    /// The rank as a number; a better rank is greater.
    pub open spec fn spec_level(self) -> int {
        match self {
            V6Rank::NotASource => 0,
            V6Rank::Global => 1,
            V6Rank::UniqueLocal => 2,
            V6Rank::LinkLocal => 3,
        }
    }

    /// The rank as a number; a better rank is greater.
    pub fn level(self) -> (level: u8)
        ensures
            level == self.spec_level(),
    {
        match self {
            V6Rank::NotASource => 0,
            V6Rank::Global => 1,
            V6Rank::UniqueLocal => 2,
            V6Rank::LinkLocal => 3,
        }
    }
}

/// The rank of an address as a source.
pub open spec fn rank_of(addr: Ipv6Addr) -> V6Rank {
    if addr.multicast() || addr.zero_but_last(0) || addr.zero_but_last(1) {
        V6Rank::NotASource
    } else if addr.unicast_link_local() {
        V6Rank::LinkLocal
    } else if addr.unique_local() {
        V6Rank::UniqueLocal
    } else {
        V6Rank::Global
    }
}

/// Ranks an IPv6 source candidate.
pub fn v6_rank(addr: Ipv6Addr) -> (rank: V6Rank)
    ensures
        rank == rank_of(addr),
{
    if addr.is_multicast() || addr.is_unspecified() || addr.is_loopback() {
        V6Rank::NotASource
    } else if addr.is_unicast_link_local() {
        V6Rank::LinkLocal
    } else if addr.is_unique_local() {
        V6Rank::UniqueLocal
    } else {
        V6Rank::Global
    }
}

/// Picks the best v6 sources while an interface's usable addresses are scanned: the highest-ranked
/// overall, and the highest-ranked that is not link-local.
#[derive(Debug, Clone, Copy, PartialEq, Eq, Structural)]
pub struct V6Pick {
    pub best_rank: V6Rank,
    pub best_routable_rank: V6Rank,
}

/// A pick that has considered nothing.
pub open spec fn no_pick() -> V6Pick {
    V6Pick { best_rank: V6Rank::NotASource, best_routable_rank: V6Rank::NotASource }
}

impl Default for V6Pick {
    /// A pick that has considered nothing.
    fn default() -> (pick: Self)
        ensures
            pick == no_pick(),
    {
        V6Pick { best_rank: V6Rank::NotASource, best_routable_rank: V6Rank::NotASource }
    }
}

/// Whether `addr` takes the place of the current best source.
pub open spec fn outranks(addr: Ipv6Addr, best: Option<Ipv6Addr>, best_rank: V6Rank) -> bool {
    best is None || rank_of(addr).spec_level() > best_rank.spec_level()
}

/// Whether `addr` can be the routable source.
pub open spec fn routable_source(addr: Ipv6Addr) -> bool {
    rank_of(addr) is Global || rank_of(addr) is UniqueLocal
}

/// The addresses and the pick after `addr` was considered.
pub open spec fn considered(
    pick: V6Pick,
    addrs: InterfaceAddresses,
    addr: Ipv6Addr,
) -> (V6Pick, InterfaceAddresses) {
    if rank_of(addr) is NotASource {
        (pick, addrs)
    } else {
        let overall = outranks(addr, addrs.v6, pick.best_rank);
        let routable = routable_source(addr) && outranks(
            addr,
            addrs.v6_routable,
            pick.best_routable_rank,
        );
        (
            V6Pick {
                best_rank: if overall {
                    rank_of(addr)
                } else {
                    pick.best_rank
                },
                best_routable_rank: if routable {
                    rank_of(addr)
                } else {
                    pick.best_routable_rank
                },
            },
            InterfaceAddresses {
                v6: if overall {
                    Some(addr)
                } else {
                    addrs.v6
                },
                v6_routable: if routable {
                    Some(addr)
                } else {
                    addrs.v6_routable
                },
                ..addrs
            },
        )
    }
}

impl V6Pick {
    /// Considers a usable v6 source, recording it in `addrs` where it outranks the current best.
    pub fn consider(&mut self, addrs: &mut InterfaceAddresses, addr: Ipv6Addr)
        ensures
            (*final(self), *final(addrs)) == considered(*old(self), *old(addrs), addr),
    {
        let rank = v6_rank(addr);
        if rank.level() == 0 {
            return;
        }
        if addrs.v6.is_none() || rank.level() > self.best_rank.level() {
            addrs.v6 = Some(addr);
            self.best_rank = rank;
        }
        if rank.level() < 3 && (addrs.v6_routable.is_none() || rank.level()
            > self.best_routable_rank.level()) {
            addrs.v6_routable = Some(addr);
            self.best_routable_rank = rank;
        }
    }
}

/// What a scan of `candidates`, in order, picks.
pub open spec fn picked(candidates: Seq<Ipv6Addr>) -> (V6Pick, InterfaceAddresses)
    decreases candidates.len(),
{
    if candidates.len() == 0 {
        (no_pick(), no_addresses())
    } else {
        let (pick, addrs) = picked(candidates.drop_last());
        considered(pick, addrs, candidates.last())
    }
}

/// Whether `best` is the first of the highest-ranked candidates, counting all sources or only
/// those that are not link-local; `None` where there is no such candidate.
pub open spec fn is_first_best(
    candidates: Seq<Ipv6Addr>,
    best: Option<Ipv6Addr>,
    routable_only: bool,
) -> bool {
    match best {
        Some(addr) => exists|k: int|
            {
                &&& 0 <= k < candidates.len()
                &&& #[trigger] candidates[k] == addr
                &&& eligible(addr, routable_only)
                &&& forall|j: int|
                    0 <= j < candidates.len() && eligible(#[trigger] candidates[j], routable_only)
                        ==> {
                        &&& rank_of(candidates[j]).spec_level() <= rank_of(addr).spec_level()
                        &&& j < k ==> rank_of(candidates[j]).spec_level() < rank_of(
                            addr,
                        ).spec_level()
                    }
            },
        None => forall|j: int|
            0 <= j < candidates.len() ==> !eligible(#[trigger] candidates[j], routable_only),
    }
}

/// Whether an address can be a source at all, or a routable one.
pub open spec fn eligible(addr: Ipv6Addr, routable_only: bool) -> bool {
    if routable_only {
        routable_source(addr)
    } else {
        !(rank_of(addr) is NotASource)
    }
}

/// However the addresses of an interface are ordered, the scan settles on the first of the
/// highest-ranked sources, and for wider destinations on the first of the highest-ranked that are
/// not link-local.
pub proof fn law_pick_is_best(candidates: Seq<Ipv6Addr>)
    ensures
        is_first_best(candidates, picked(candidates).1.v6, false),
        is_first_best(candidates, picked(candidates).1.v6_routable, true),
{
    lemma_pick(candidates);
}

proof fn lemma_pick(candidates: Seq<Ipv6Addr>)
    ensures
        is_first_best(candidates, picked(candidates).1.v6, false),
        is_first_best(candidates, picked(candidates).1.v6_routable, true),
        picked(candidates).1.v6 matches Some(a) ==> picked(candidates).0.best_rank == rank_of(a),
        picked(candidates).1.v6_routable matches Some(a) ==> picked(
            candidates,
        ).0.best_routable_rank == rank_of(a),
    decreases candidates.len(),
{
    if candidates.len() > 0 {
        let before = candidates.drop_last();
        lemma_pick(before);
        lemma_first_best_step(
            before,
            candidates.last(),
            picked(before).1.v6,
            picked(before).0.best_rank,
            false,
        );
        lemma_first_best_step(
            before,
            candidates.last(),
            picked(before).1.v6_routable,
            picked(before).0.best_routable_rank,
            true,
        );
        assert(before.push(candidates.last()) =~= candidates);
    }
}

proof fn lemma_first_best_step(
    before: Seq<Ipv6Addr>,
    addr: Ipv6Addr,
    best: Option<Ipv6Addr>,
    best_rank: V6Rank,
    routable_only: bool,
)
    requires
        is_first_best(before, best, routable_only),
        best matches Some(a) ==> best_rank == rank_of(a),
    ensures
        is_first_best(
            before.push(addr),
            if eligible(addr, routable_only) && outranks(addr, best, best_rank) {
                Some(addr)
            } else {
                best
            },
            routable_only,
        ),
{
    let after = before.push(addr);
    let n = before.len() as int;
    assert(after[n] == addr);
    assert forall|j: int| 0 <= j < n implies #[trigger] after[j] == before[j] by {}
    if eligible(addr, routable_only) && outranks(addr, best, best_rank) {
        assert forall|j: int| 0 <= j < after.len() && eligible(#[trigger] after[j], routable_only)
            implies rank_of(after[j]).spec_level() <= rank_of(addr).spec_level() && (j < n
            ==> rank_of(after[j]).spec_level() < rank_of(addr).spec_level()) by {
            if j < n {
                assert(eligible(before[j], routable_only));
            }
        }
    } else {
        match best {
            Some(a) => {
                let k = choose|k: int|
                    {
                        &&& 0 <= k < before.len()
                        &&& #[trigger] before[k] == a
                        &&& eligible(a, routable_only)
                        &&& forall|j: int|
                            0 <= j < before.len() && eligible(#[trigger] before[j], routable_only)
                                ==> {
                                &&& rank_of(before[j]).spec_level() <= rank_of(a).spec_level()
                                &&& j < k ==> rank_of(before[j]).spec_level() < rank_of(
                                    a,
                                ).spec_level()
                            }
                    };
                assert(after[k] == a);
                assert forall|j: int|
                    0 <= j < after.len() && eligible(#[trigger] after[j], routable_only)
                        implies rank_of(after[j]).spec_level() <= rank_of(a).spec_level() && (j < k
                    ==> rank_of(after[j]).spec_level() < rank_of(a).spec_level()) by {
                    if j < n {
                        assert(eligible(before[j], routable_only));
                    }
                }
            },
            None => {
                assert forall|j: int| 0 <= j < after.len() implies !eligible(
                    #[trigger] after[j],
                    routable_only,
                ) by {
                    if j < n {
                        assert(!eligible(before[j], routable_only));
                    }
                }
            },
        }
    }
}

/// One configured interface: its name, its kernel index (the key by which an address change finds
/// it; 0 where the kernel knows no such interface), and its current source addresses.
#[derive(Debug)]
pub struct Interface {
    pub name: String,
    pub ifindex: u32,
    pub addrs: InterfaceAddresses,
}

/// Which fields differ between two resolutions; either v6 source counts as the v6 field.
pub open spec fn change_between(was: InterfaceAddresses, now: InterfaceAddresses) -> AddressChange {
    AddressChange {
        mac: was.mac != now.mac,
        v4: was.v4 != now.v4,
        v6: was.v6 != now.v6 || was.v6_routable != now.v6_routable,
    }
}

fn v6_moved(was: Option<Ipv6Addr>, now: Option<Ipv6Addr>) -> (moved: bool)
    ensures
        moved == (was != now),
{
    match (was, now) {
        (Some(was), Some(now)) => !(was == now),
        (None, None) => false,
        _ => true,
    }
}

impl Interface {
    /// An interface record: `ifindex` is 0 where the name is unknown, which matches no event.
    pub fn open(name: String, ifindex: Option<u32>, addrs: InterfaceAddresses) -> (iface: Self)
        ensures
            iface.name@ == name@,
            iface.ifindex == match ifindex {
                Some(index) => index,
                None => 0,
            },
            iface.addrs == addrs,
    {
        let ifindex: u32 = match ifindex {
            Some(index) => index,
            None => 0,
        };
        Interface { name, ifindex, addrs }
    }

    /// Takes over a fresh resolution and reports which source fields moved.
    pub fn refresh(&mut self, addrs: InterfaceAddresses) -> (change: AddressChange)
        ensures
            change == change_between(old(self).addrs, addrs),
            final(self).addrs == addrs,
            final(self).name == old(self).name,
            final(self).ifindex == old(self).ifindex,
    {
        let was = self.addrs;
        let mac: bool = match (was.mac, addrs.mac) {
            (Some(was), Some(now)) => !(was == now),
            (None, None) => false,
            _ => true,
        };
        let v4: bool = match (was.v4, addrs.v4) {
            (Some(was), Some(now)) => !(was == now),
            (None, None) => false,
            _ => true,
        };
        let v6: bool = v6_moved(was.v6, addrs.v6) || v6_moved(was.v6_routable, addrs.v6_routable);
        self.addrs = addrs;
        AddressChange { mac, v4, v6 }
    }
}

/// A resolution that finds the addresses already recorded reports no change.
pub proof fn law_unchanged_addresses_report_nothing(addrs: InterfaceAddresses)
    ensures
        change_between(addrs, addrs) == (AddressChange { mac: false, v4: false, v6: false }),
{
}

} // verus!
