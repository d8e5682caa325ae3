//! Laws of routing and sending: filters, datagrams, the DIAL registry, and what an address change
//! touches.

#[allow(unused_imports)]
use crate::config::value::AddressFamily;
#[allow(unused_imports)]
use crate::dispatch::datagram::{
    datagram_frame, group_mac, link_header, packet_bytes, size_error, source_for, DatagramError,
};
#[allow(unused_imports)]
use crate::dispatch::dial_context::{
    evicted, is_for, kept, leaving, live_proxies, on_changed, past_grace, position, recorded,
    DialEntry, MAX_DIAL_PROXIES,
};
#[allow(unused_imports)]
use crate::dispatch::interface_table::{
    named, watches_of, with_ifindex, Capture, InterfaceKey, InterfaceView,
};
#[allow(unused_imports)]
use crate::dispatch::{
    captures_on, coalesced, earlier, refreshed, to_refresh, to_rejoin, v4_moved, watched, CaptureKey,
    Filter, Resolved,
};
#[allow(unused_imports)]
use crate::interface::{InterfaceAddresses, Ipv6Scope};
#[allow(unused_imports)]
use crate::laws::interface::link_local;
#[allow(unused_imports)]
use crate::net::addr::{IpAddr, SocketAddr, SocketAddrV4, SocketAddrV6};
#[allow(unused_imports)]
use crate::net::mac::MacAddr;
#[allow(unused_imports)]
use crate::net::packet::PacketView;
#[allow(unused_imports)]
use crate::net::{HostFamilies, LinkType};
#[allow(unused_imports)]
use crate::reactor::arena::Key;
#[allow(unused_imports)]
use crate::reflector::{
    interfaces_of, missing_family, missing_on_either, sources, BuildFault, IpFamily,
};
use vstd::prelude::*;

verus! {

/// The address of an endpoint.
pub open spec fn address_in(a: SocketAddr) -> IpAddr {
    match a {
        SocketAddr::V4(v4) => IpAddr::V4(v4.ip),
        SocketAddr::V6(v6) => IpAddr::V6(v6.ip),
    }
}

/// The port of an endpoint.
pub open spec fn port_in(a: SocketAddr) -> u16 {
    match a {
        SocketAddr::V4(v4) => v4.port,
        SocketAddr::V6(v6) => v6.port,
    }
}

/// A filter accepts a packet exactly where each of its fields that is set is that of the packet,
/// source for source and destination for destination; a packet without link addresses is accepted
/// by no filter on one.
pub proof fn law_filters_compare_every_field(f: Filter, p: PacketView)
    ensures
        f.accepts(p) <==> {
            &&& f.src_ip is None || f.src_ip == Some(address_in(p.source))
            &&& f.dst_ip is None || f.dst_ip == Some(address_in(p.dest))
            &&& f.src_port is None || f.src_port == Some(port_in(p.source))
            &&& f.dst_port is None || f.dst_port == Some(port_in(p.dest))
            &&& f.src_mac is None || p.src_mac is Some && f.src_mac == p.src_mac
            &&& f.dst_mac is None || p.dst_mac is Some && f.dst_mac == p.dst_mac
        },
{
}

/// A group has a link address: the limited broadcast the broadcast one, a multicast address its
/// group's; nothing else has one.
pub proof fn law_link_addresses_of_groups(dst: IpAddr)
    ensures
        group_mac(dst) is Some <==> match dst {
            IpAddr::V4(a) => 224 <= a@[0] <= 239 || forall|i: int|
                0 <= i < 4 ==> #[trigger] a@[i] == 255,
            IpAddr::V6(a) => a@[0] == 255,
        },
        dst matches IpAddr::V4(a) && (forall|i: int| 0 <= i < 4 ==> #[trigger] a@[i] == 255)
            ==> group_mac(dst) is Some && group_mac(dst)->0.len() == 6 && forall|i: int|
            0 <= i < 6 ==> #[trigger] group_mac(dst)->0[i] == 255,
        dst.multicast() ==> group_mac(dst) == Some(crate::net::mac::multicast_mac(dst)),
{
    if let IpAddr::V4(a) = dst {
        crate::laws::interface::law_multicast_and_broadcast_addresses(
            a,
            crate::net::addr::ipv6_from(Seq::empty()),
        );
        if a.limited_broadcast() {
            assert(a@[0] == 255);
        }
    }
}

/// The source of a datagram is of the destination's family, with the port asked for: the
/// interface's IPv4 address; or, of its IPv6 addresses, the one for the destination's scope.
pub proof fn law_datagrams_leave_from_the_interfaces_address(
    addrs: InterfaceAddresses,
    dst: SocketAddr,
    port: u16,
)
    ensures
        match dst {
            SocketAddr::V4(_) => match source_for(addrs, dst, port) {
                Some(src) => src matches SocketAddr::V4(s) && addrs.v4 == Some(s.ip) && s.port
                    == port,
                None => addrs.v4 is None,
            },
            SocketAddr::V6(d) => {
                let near = link_local(d.ip) || d.ip@[0] == 255 && d.ip@[1] % 16 == 2;
                let best = if !near && addrs.v6_routable is Some {
                    addrs.v6_routable
                } else {
                    addrs.v6
                };
                match source_for(addrs, dst, port) {
                    Some(src) => src matches SocketAddr::V6(s) && best == Some(s.ip) && s.port
                        == port && s.flowinfo == 0 && s.scope_id == 0,
                    None => best is None,
                }
            },
        },
{
    if let SocketAddr::V6(d) = dst {
        crate::laws::interface::law_sources_are_ranked(d.ip);
    }
}

/// When a datagram is not sent: without a source address of its family; on Ethernet without a
/// source link address; or where it is too large for its lengths or the room. In that order.
pub proof fn law_datagrams_are_refused_for_a_reason(
    addrs: InterfaceAddresses,
    link: LinkType,
    host: HostFamilies,
    dst: SocketAddr,
    dst_mac: MacAddr,
    src_port: u16,
    ttl: u8,
    payload: Seq<u8>,
    available: int,
)
    ensures
        ({
            let l2: int = if link is Ethernet {
                14
            } else {
                4
            };
            let ip: int = if dst is V4 {
                20
            } else {
                40
            };
            let most: int = if dst is V4 {
                65507
            } else {
                65527
            };
            match datagram_frame(
                addrs,
                link,
                host,
                dst,
                dst_mac,
                src_port,
                ttl,
                payload,
                available,
            ) {
                Ok(frame) => {
                    &&& source_for(addrs, dst, src_port) is Some
                    &&& link is Ethernet ==> addrs.mac is Some
                    &&& payload.len() <= most
                    &&& l2 + ip + 8 + payload.len() <= available
                    &&& frame.len() == l2 + ip + 8 + payload.len()
                },
                Err(DatagramError::NoSourceAddress) => source_for(addrs, dst, src_port) is None,
                Err(DatagramError::NoSourceMac) => source_for(addrs, dst, src_port) is Some
                    && link is Ethernet && addrs.mac is None,
                Err(DatagramError::Frame(_)) => payload.len() > most || l2 + ip + 8 + payload.len()
                    > available,
                Err(DatagramError::UnicastDestination) => false,
            }
        }),
{
    lemma_size_error(link, dst, payload.len() as int, available);
    if let Some(src) = source_for(addrs, dst, src_port) {
        if payload.len() <= 65507 || dst is V6 && payload.len() <= 65527 {
            lemma_packet_len(src, dst, ttl, payload);
        }
        if let Some(header) = link_header(addrs, link, host, dst, dst_mac) {
            lemma_header_len(addrs, link, host, dst, dst_mac);
        }
    }
}

proof fn lemma_packet_len(src: SocketAddr, dst: SocketAddr, ttl: u8, payload: Seq<u8>)
    requires
        src is V4 <==> dst is V4,
        payload.len() <= 65507 || dst is V6 && payload.len() <= 65527,
    ensures
        packet_bytes(src, dst, ttl, payload).len() == payload.len() + if dst is V4 {
            28int
        } else {
            48
        },
{
    match (src, dst) {
        (SocketAddr::V4(s), SocketAddr::V4(d)) => {
            crate::laws::packets::law_ipv4_packets(s, d, ttl, payload);
        },
        (SocketAddr::V6(s), SocketAddr::V6(d)) => {
            crate::laws::packets::law_ipv6_packets(s, d, ttl, payload);
        },
        _ => {},
    }
}

proof fn lemma_header_len(
    addrs: InterfaceAddresses,
    link: LinkType,
    host: HostFamilies,
    dst: SocketAddr,
    dst_mac: MacAddr,
)
    ensures
        link_header(addrs, link, host, dst, dst_mac) is Some <==> link is DltNull || addrs.mac
            is Some,
        link_header(addrs, link, host, dst, dst_mac) matches Some(header) ==> header.len() == if link
            is Ethernet {
            14int
        } else {
            4
        },
{
    if link is Ethernet && addrs.mac is Some {
        let ethertype = if dst is V4 {
            crate::net::frame::IPV4_ETHERTYPE
        } else {
            crate::net::frame::IPV6_ETHERTYPE
        };
        crate::laws::packets::law_ethernet_headers(dst_mac, addrs.mac->0, ethertype);
    }
}

proof fn lemma_size_error(link: LinkType, dst: SocketAddr, payload: int, available: int)
    requires
        payload >= 0,
    ensures
        ({
            let l2: int = if link is Ethernet {
                14
            } else {
                4
            };
            let ip: int = if dst is V4 {
                20
            } else {
                40
            };
            let most: int = if dst is V4 {
                65507
            } else {
                65527
            };
            size_error(link, dst, payload, available) is None <==> payload <= most && l2 + ip + 8
                + payload <= available
        }),
{
}

/// Whether a proxy is the one for a device on a source.
pub open spec fn serves_device(e: DialEntry, source: CaptureKey, endpoint: SocketAddrV4) -> bool {
    e.source == source && e.endpoint == endpoint
}

/// A device's proxy is the first that was recorded for it on that source.
pub proof fn law_the_first_proxy_of_a_device_is_found(
    proxies: Seq<DialEntry>,
    source: CaptureKey,
    endpoint: SocketAddrV4,
)
    ensures
        match position(proxies, source, endpoint) {
            Some(i) => 0 <= i < proxies.len() && serves_device(proxies[i], source, endpoint)
                && forall|j: int|
                0 <= j < i ==> !serves_device(#[trigger] proxies[j], source, endpoint),
            None => forall|j: int|
                0 <= j < proxies.len() ==> !serves_device(#[trigger] proxies[j], source, endpoint),
        },
    decreases proxies.len(),
{
    if proxies.len() > 0 {
        let rest = proxies.drop_last();
        law_the_first_proxy_of_a_device_is_found(rest, source, endpoint);
        assert forall|j: int| 0 <= j < rest.len() implies #[trigger] proxies[j] == rest[j] by {}
        match position(rest, source, endpoint) {
            Some(i) => {
                assert forall|j: int| 0 <= j < i implies !serves_device(
                    #[trigger] proxies[j],
                    source,
                    endpoint,
                ) by {
                    assert(!serves_device(rest[j], source, endpoint));
                }
            },
            None => {
                assert forall|j: int| 0 <= j < rest.len() implies !serves_device(
                    #[trigger] proxies[j],
                    source,
                    endpoint,
                ) by {
                    assert(!serves_device(rest[j], source, endpoint));
                }
            },
        }
    }
}

/// Recording a proxy replaces the device's, in its place, or adds it behind the others; every other
/// proxy stays where it is.
pub proof fn law_recording_touches_one_proxy(proxies: Seq<DialEntry>, entry: DialEntry)
    ensures
        ({
            let after = recorded(proxies, entry);
            match position(proxies, entry.source, entry.endpoint) {
                Some(i) => after.len() == proxies.len() && after[i] == entry && forall|j: int|
                    0 <= j < proxies.len() && j != i ==> #[trigger] after[j] == proxies[j],
                None => after.len() == proxies.len() + 1 && after.last() == entry && forall|j: int|
                    0 <= j < proxies.len() ==> #[trigger] after[j] == proxies[j],
            }
        }),
{
    law_the_first_proxy_of_a_device_is_found(proxies, entry.source, entry.endpoint);
}

/// The live proxies are those whose handler is live, in order.
pub proof fn law_live_proxies_have_live_handlers(
    a: Seq<DialEntry>,
    entry: DialEntry,
    live: Set<Key>,
)
    ensures
        live_proxies(Seq::empty(), live).len() == 0,
        live.contains(entry.handler.0) ==> live_proxies(a.push(entry), live) == live_proxies(
            a,
            live,
        ).push(entry),
        !live.contains(entry.handler.0) ==> live_proxies(a.push(entry), live) == live_proxies(
            a,
            live,
        ),
{
    assert(a.push(entry).drop_last() =~= a);
}

/// Whether the proxy at `i` is marked and its handler is `key`.
pub open spec fn marks(proxies: Seq<DialEntry>, marked: Seq<bool>, i: int, key: Key) -> bool {
    marked[i] && proxies[i].handler.0 == key
}

/// The handlers to be evicted are those of the marked proxies.
pub proof fn law_marked_proxies_are_evicted(proxies: Seq<DialEntry>, marked: Seq<bool>, n: nat)
    ensures
        forall|key: Key| #[trigger]
            evicted(proxies, marked, n).contains(key) <==> exists|i: int|
                0 <= i < n && #[trigger] marks(proxies, marked, i, key),
    decreases n,
{
    if n > 0 {
        law_marked_proxies_are_evicted(proxies, marked, (n - 1) as nat);
        assert forall|key: Key| #[trigger] evicted(proxies, marked, n).contains(key) <==> exists|
            i: int,
        |
            0 <= i < n && #[trigger] marks(proxies, marked, i, key) by {
            if evicted(proxies, marked, n).contains(key) {
                if !evicted(proxies, marked, (n - 1) as nat).contains(key) {
                    assert(marks(proxies, marked, n - 1, key));
                }
            }
            if exists|i: int| 0 <= i < n && #[trigger] marks(proxies, marked, i, key) {
                let i = choose|i: int| 0 <= i < n && #[trigger] marks(proxies, marked, i, key);
                if i < n - 1 {
                    assert(evicted(proxies, marked, (n - 1) as nat).contains(key));
                }
            }
        }
    }
}

/// A proxy is kept exactly where it is not marked, its handler is live, and no proxy before it that
/// shares its handler is marked; proxies that are kept stay in order. A handler is taken out exactly
/// where it is live and a proxy of it is marked, once each.
pub proof fn law_unmarked_proxies_are_kept(
    proxies: Seq<DialEntry>,
    marked: Seq<bool>,
    live: Set<Key>,
    n: nat,
)
    ensures
        n > 0 ==> ({
            let e = proxies[n - 1];
            let stays = !marked[n - 1] && live.contains(e.handler.0) && forall|j: int|
                0 <= j < n - 1 ==> !#[trigger] marks(proxies, marked, j, e.handler.0);
            kept(proxies, marked, live, n) == if stays {
                kept(proxies, marked, live, (n - 1) as nat).push(e)
            } else {
                kept(proxies, marked, live, (n - 1) as nat)
            }
        }),
        kept(proxies, marked, live, 0).len() == 0,
        leaving(proxies, marked, live, n).no_duplicates(),
        forall|key: Key| #[trigger]
            leaving(proxies, marked, live, n).contains(key) <==> live.contains(key) && exists|
                i: int,
            |
                0 <= i < n && #[trigger] marks(proxies, marked, i, key),
    decreases n,
{
    if n > 0 {
        let m = (n - 1) as nat;
        law_unmarked_proxies_are_kept(proxies, marked, live, m);
        law_marked_proxies_are_evicted(proxies, marked, m);
        let before = leaving(proxies, marked, live, m);
        let after = leaving(proxies, marked, live, n);
        let own = proxies[n - 1].handler.0;
        if after != before {
            assert(after == before.push(own));
            assert(!evicted(proxies, marked, m).contains(own));
            assert(!before.contains(own));
            assert(after.no_duplicates()) by {
                assert forall|i: int, j: int|
                    0 <= i < after.len() && 0 <= j < after.len() && i != j implies after[i]
                    != after[j] by {
                    if i == before.len() {
                        assert(before.contains(before[j]));
                    } else if j == before.len() {
                        assert(before.contains(before[i]));
                    }
                }
            }
        }
        assert forall|key: Key| #[trigger] after.contains(key) <==> live.contains(key) && exists|
            i: int,
        |
            0 <= i < n && #[trigger] marks(proxies, marked, i, key) by {
            if after.contains(key) {
                let i = choose|i: int| 0 <= i < after.len() && after[i] == key;
                if i < before.len() {
                    assert(before[i] == key);
                    assert(before.contains(key));
                } else {
                    assert(marks(proxies, marked, n - 1, key));
                }
            }
            if live.contains(key) && exists|i: int|
                0 <= i < n && #[trigger] marks(proxies, marked, i, key) {
                let i = choose|i: int| 0 <= i < n && #[trigger] marks(proxies, marked, i, key);
                if exists|j: int| 0 <= j < m && #[trigger] marks(proxies, marked, j, key) {
                    assert(before.contains(key));
                    let k = choose|k: int| 0 <= k < before.len() && before[k] == key;
                    assert(after[k] == key);
                } else {
                    assert(i == n - 1);
                    assert(!evicted(proxies, marked, m).contains(key));
                    assert(after.last() == key);
                }
            }
        }
    }
}

/// A proxy is past its grace from the very instant of it on; it is touched by a change on its
/// source or on its target.
pub proof fn law_which_proxies_are_marked(
    proxies: Seq<DialEntry>,
    now: u64,
    changed: Seq<CaptureKey>,
    i: int,
)
    requires
        0 <= i < proxies.len(),
    ensures
        past_grace(proxies, now).len() == proxies.len(),
        on_changed(proxies, changed).len() == proxies.len(),
        past_grace(proxies, now)[i] <==> proxies[i].desc_grace <= now,
        on_changed(proxies, changed)[i] <==> changed.contains(proxies[i].source)
            || changed.contains(proxies[i].target),
        MAX_DIAL_PROXIES == 32,
{
}

/// The interface with an index, and the one with a name, is the first that has it.
pub proof fn law_interfaces_are_found(list: Seq<InterfaceView>, ifindex: u32, name: Seq<char>)
    ensures
        match with_ifindex(list, ifindex) {
            Some(i) => 0 <= i < list.len() && list[i].ifindex == ifindex && forall|j: int|
                0 <= j < i ==> (#[trigger] list[j]).ifindex != ifindex,
            None => forall|j: int| 0 <= j < list.len() ==> (#[trigger] list[j]).ifindex != ifindex,
        },
        match named(list, name) {
            Some(i) => 0 <= i < list.len() && list[i].name == name && forall|j: int|
                0 <= j < i ==> (#[trigger] list[j]).name != name,
            None => forall|j: int| 0 <= j < list.len() ==> (#[trigger] list[j]).name != name,
        },
    decreases list.len(),
{
    if list.len() > 0 {
        let rest = list.drop_last();
        law_interfaces_are_found(rest, ifindex, name);
        assert forall|j: int| 0 <= j < rest.len() implies #[trigger] list[j] == rest[j] by {}
        match with_ifindex(rest, ifindex) {
            Some(i) => {
                assert forall|j: int| 0 <= j < i implies (#[trigger] list[j]).ifindex != ifindex by {
                    assert(rest[j].ifindex != ifindex);
                }
            },
            None => {
                assert forall|j: int| 0 <= j < rest.len() implies (#[trigger] list[j]).ifindex
                    != ifindex by {
                    assert(rest[j].ifindex != ifindex);
                }
            },
        }
        match named(rest, name) {
            Some(i) => {
                assert forall|j: int| 0 <= j < i implies (#[trigger] list[j]).name != name by {
                    assert(rest[j].name != name);
                }
            },
            None => {
                assert forall|j: int| 0 <= j < rest.len() implies (#[trigger] list[j]).name
                    != name by {
                    assert(rest[j].name != name);
                }
            },
        }
    }
}

/// The watches of the captures are the descriptors of those that are in place, each with its
/// capture's number, in order.
pub proof fn law_captures_are_watched<C>(captures: Seq<Option<Capture<C>>>, n: nat)
    requires
        0 < n <= captures.len(),
        n <= 0x1_0000_0000,
    ensures
        watches_of(captures, 0).len() == 0,
        captures[n - 1] is None ==> watches_of(captures, n) == watches_of(captures, (n - 1) as nat),
        captures[n - 1] is Some ==> {
            let w = watches_of(captures, n);
            &&& w.len() == watches_of(captures, (n - 1) as nat).len() + 1
            &&& w.drop_last() == watches_of(captures, (n - 1) as nat)
            &&& w.last().0 == captures[n - 1]->0.fd
            &&& w.last().1 == n - 1
        },
{
    if captures[n - 1] is Some {
        assert(watches_of(captures, n).drop_last() =~= watches_of(captures, (n - 1) as nat));
    }
}

/// The earlier of two instants is one of them, and no later than either; absent only where both
/// are.
pub proof fn law_the_earlier_instant(a: Option<u64>, b: Option<u64>)
    ensures
        earlier(a, b) is None <==> a is None && b is None,
        earlier(a, b) is Some ==> earlier(a, b) == a || earlier(a, b) == b,
        a is Some ==> earlier(a, b)->0 <= a->0,
        b is Some ==> earlier(a, b)->0 <= b->0,
{
}

/// Which interfaces a report makes the dispatcher resolve again: all of them where index 0 is
/// reported; else the first interface with each reported index.
pub proof fn law_reported_interfaces_are_resolved_again(
    list: Seq<InterfaceView>,
    reported: Seq<u32>,
    k: u32,
)
    requires
        list.len() <= 0x1_0000_0000,
    ensures
        reported.contains(0) ==> (to_refresh(list, reported).contains(InterfaceKey(k)) <==> k
            < list.len()),
        !reported.contains(0) ==> (to_refresh(list, reported).contains(InterfaceKey(k)) <==> k
            < list.len() && reported.contains(list[k as int].ifindex) && forall|j: int|
            0 <= j < k ==> (#[trigger] list[j]).ifindex != list[k as int].ifindex),
{
    let all = Seq::new(list.len(), |i: int| InterfaceKey(i as u32));
    if k < list.len() {
        assert(all[k as int] == InterfaceKey(k));
    }
    if all.contains(InterfaceKey(k)) {
        let i = choose|i: int| 0 <= i < all.len() && all[i] == InterfaceKey(k);
        assert(i as u32 == k);
    }
    crate::dispatch::law_reports_are_coalesced(reported);
    lemma_watched(list, coalesced(reported), k);
    if k < list.len() {
        let index = list[k as int].ifindex;
        assert(coalesced(reported).contains(index) <==> reported.contains(index));
    }
}

proof fn lemma_watched(list: Seq<InterfaceView>, indices: Seq<u32>, k: u32)
    requires
        list.len() <= 0x1_0000_0000,
    ensures
        watched(list, indices).contains(InterfaceKey(k)) <==> k < list.len() && indices.contains(
            list[k as int].ifindex,
        ) && forall|j: int| 0 <= j < k ==> (#[trigger] list[j]).ifindex != list[k as int].ifindex,
    decreases indices.len(),
{
    if indices.len() > 0 {
        let rest = indices.drop_last();
        let index = indices.last();
        let n = indices.len() - 1;
        lemma_watched(list, rest, k);
        law_interfaces_are_found(list, index, Seq::empty());
        let before = watched(list, rest);
        let after = watched(list, indices);
        assert(indices[n] == index);
        if after.contains(InterfaceKey(k)) {
            let i = choose|i: int| 0 <= i < after.len() && after[i] == InterfaceKey(k);
            if i < before.len() {
                assert(before[i] == InterfaceKey(k));
                assert(before.contains(InterfaceKey(k)));
                let m = choose|m: int| 0 <= m < rest.len() && rest[m] == list[k as int].ifindex;
                assert(indices[m] == rest[m]);
            }
        }
        if k < list.len() && indices.contains(list[k as int].ifindex) && forall|j: int|
            0 <= j < k ==> (#[trigger] list[j]).ifindex != list[k as int].ifindex {
            let m = choose|m: int| 0 <= m < indices.len() && indices[m] == list[k as int].ifindex;
            if m < n {
                assert(rest[m] == indices[m]);
                assert(before.contains(InterfaceKey(k)));
                let i = choose|i: int| 0 <= i < before.len() && before[i] == InterfaceKey(k);
                assert(after[i] == InterfaceKey(k));
            } else {
                let f = with_ifindex(list, index)->0;
                assert(list[k as int].ifindex == index);
                if f < k {
                    assert(list[f].ifindex != list[k as int].ifindex);
                }
                assert(f == k);
                assert(after.last() == InterfaceKey(k));
            }
        }
    }
}

/// A resolution changes the addresses of its interface alone, and nothing where it failed.
pub proof fn law_a_resolution_changes_one_interface(
    list: Seq<InterfaceView>,
    results: Seq<Resolved>,
    n: nat,
)
    requires
        0 < n <= results.len(),
        forall|i: int| 0 <= i < results.len() ==> (#[trigger] results[i]).0.0 < list.len(),
    ensures
        refreshed(list, results, 0) == list,
        ({
            let before = refreshed(list, results, (n - 1) as nat);
            let after = refreshed(list, results, n);
            let (key, found) = results[n - 1];
            &&& after.len() == list.len()
            &&& found is None ==> after == before
            &&& found matches Some(addrs) ==> {
                &&& after[key.0 as int].addrs == addrs
                &&& after[key.0 as int].name == before[key.0 as int].name
                &&& after[key.0 as int].ifindex == before[key.0 as int].ifindex
                &&& after[key.0 as int].groups == before[key.0 as int].groups
                &&& forall|j: int|
                    0 <= j < list.len() && j != key.0 ==> #[trigger] after[j] == before[j]
            }
        }),
{
    lemma_refreshed_len(list, results, n);
    lemma_refreshed_len(list, results, (n - 1) as nat);
    assert(results[n - 1].0.0 < list.len());
}

proof fn lemma_refreshed_len(list: Seq<InterfaceView>, results: Seq<Resolved>, n: nat)
    requires
        n <= results.len(),
        forall|i: int| 0 <= i < results.len() ==> (#[trigger] results[i]).0.0 < list.len(),
    ensures
        refreshed(list, results, n).len() == list.len(),
    decreases n,
{
    if n > 0 {
        lemma_refreshed_len(list, results, (n - 1) as nat);
        assert(results[n - 1].0.0 < list.len());
    }
}

/// An interface's IPv4 address counts as moved where a resolution found another one, or failed.
pub proof fn law_moves_are_noticed(list: Seq<InterfaceView>, results: Seq<Resolved>, n: nat)
    requires
        0 < n <= results.len(),
    ensures
        v4_moved(list, results, 0).len() == 0,
        ({
            let was = refreshed(list, results, (n - 1) as nat)[results[n - 1].0.0 as int];
            let before = v4_moved(list, results, (n - 1) as nat);
            let stayed = results[n - 1].1 is Some && results[n - 1].1->0.v4 == was.addrs.v4;
            v4_moved(list, results, n) == if stayed {
                before
            } else {
                before.push(was.ifindex)
            }
        }),
{
}

/// The captures on some interfaces are those whose interface has one of the indices.
pub proof fn law_captures_on_interfaces(
    list: Seq<InterfaceView>,
    links: Seq<InterfaceKey>,
    indices: Seq<u32>,
    n: nat,
    k: u32,
)
    requires
        n <= links.len(),
        n <= 0x1_0000_0000,
    ensures
        captures_on(list, links, indices, n).contains(CaptureKey(k)) <==> k < n
            && indices.contains(list[links[k as int].0 as int].ifindex),
    decreases n,
{
    if n > 0 {
        let m = (n - 1) as nat;
        law_captures_on_interfaces(list, links, indices, m, k);
        let before = captures_on(list, links, indices, m);
        let after = captures_on(list, links, indices, n);
        if after.contains(CaptureKey(k)) {
            let i = choose|i: int| 0 <= i < after.len() && after[i] == CaptureKey(k);
            if i < before.len() {
                assert(before[i] == CaptureKey(k));
                assert(before.contains(CaptureKey(k)));
            } else {
                assert(CaptureKey(m as u32) == CaptureKey(k));
            }
        }
        if k < n && indices.contains(list[links[k as int].0 as int].ifindex) {
            if k < m {
                assert(before.contains(CaptureKey(k)));
                let i = choose|i: int| 0 <= i < before.len() && before[i] == CaptureKey(k);
                assert(after[i] == CaptureKey(k));
            } else {
                assert(after.last() == CaptureKey(k));
            }
        }
    }
}

/// The groups are joined again on each interface whose resolution succeeded, and on every one that
/// was resolved where index 0 was reported.
pub proof fn law_groups_are_joined_again(
    reported: Seq<u32>,
    results: Seq<Resolved>,
    key: InterfaceKey,
)
    ensures
        to_rejoin(reported, results).contains(key) <==> exists|i: int|
            0 <= i < results.len() && (#[trigger] results[i]).0 == key && (results[i].1 is Some
                || reported.contains(0)),
    decreases results.len(),
{
    if results.len() > 0 {
        let rest = results.drop_last();
        let n = results.len() - 1;
        law_groups_are_joined_again(reported, rest, key);
        let before = to_rejoin(reported, rest);
        let after = to_rejoin(reported, results);
        assert(results[n] == results.last());
        if after.contains(key) {
            let i = choose|i: int| 0 <= i < after.len() && after[i] == key;
            if i < before.len() {
                assert(before[i] == key);
                assert(before.contains(key));
                let m = choose|m: int|
                    0 <= m < rest.len() && (#[trigger] rest[m]).0 == key && (rest[m].1 is Some
                        || reported.contains(0));
                assert(results[m] == rest[m]);
            }
        }
        if exists|i: int|
            0 <= i < results.len() && (#[trigger] results[i]).0 == key && (results[i].1 is Some
                || reported.contains(0)) {
            let m = choose|m: int|
                0 <= m < results.len() && (#[trigger] results[m]).0 == key && (results[m].1 is Some
                    || reported.contains(0));
            if m < n {
                assert(rest[m] == results[m]);
                assert(before.contains(key));
                let i = choose|i: int| 0 <= i < before.len() && before[i] == key;
                assert(after[i] == key);
            } else {
                assert(after.last() == key);
            }
        }
    }
}

/// A reflector lacks a family that it does not do without: IPv4, unless it is for IPv6 alone; IPv6,
/// where it is for both or for IPv6 alone. IPv4 is missed first.
pub proof fn law_required_families(family: AddressFamily, addrs: InterfaceAddresses)
    ensures
        missing_family(family, addrs) == Some(IpFamily::V4) <==> family != AddressFamily::Ipv6
            && addrs.v4 is None,
        missing_family(family, addrs) is None <==> (family == AddressFamily::Ipv6 || addrs.v4
            is Some) && (family == AddressFamily::Default || family == AddressFamily::Ipv4
            || addrs.v6 is Some),
{
}

/// Where a family is missing on either side, the error names it, IPv4 first, and the interface that
/// lacks it, the source first.
pub proof fn law_the_lacking_interface_is_named(
    family: AddressFamily,
    source: InterfaceAddresses,
    source_if: Seq<char>,
    target: InterfaceAddresses,
    target_if: Seq<char>,
)
    ensures
        missing_on_either(family, source, source_if, target, target_if) matches Some(fault)
            ==> match fault {
            BuildFault::RequiredFamilyUnavailable { interface, family: missing } => {
                let on_source = if missing is V4 {
                    source.v4 is None
                } else {
                    source.v6 is None
                };
                let on_target = if missing is V4 {
                    target.v4 is None
                } else {
                    target.v6 is None
                };
                &&& on_source ==> interface == source_if
                &&& !on_source ==> interface == target_if && on_target
                &&& family != AddressFamily::Ipv6 && (source.v4 is None || target.v4 is None)
                    ==> missing is V4
            },
            BuildFault::UnknownInterface(_) => false,
        },
        missing_on_either(family, source, source_if, target, target_if) is None <==> (family
            == AddressFamily::Ipv6 || source.v4 is Some && target.v4 is Some) && (family
            == AddressFamily::Default || family == AddressFamily::Ipv4 || source.v6 is Some
            && target.v6 is Some),
{
}

/// An interface can send to a destination where it has an address of its family.
pub proof fn law_sending_needs_an_address(addrs: InterfaceAddresses, dst: SocketAddr)
    ensures
        sources(addrs, dst) <==> (dst is V4 && addrs.v4 is Some || dst is V6 && addrs.v6 is Some),
{
}

/// The interfaces of a list of reflectors are the source and the target of each, in order.
pub proof fn law_interfaces_of_reflectors(
    list: Seq<crate::config::ReflectorView>,
    r: crate::config::ReflectorView,
)
    ensures
        interfaces_of(Seq::empty()).len() == 0,
        interfaces_of(list.push(r)) == interfaces_of(list) + seq![r.source_if, r.target_if],
{
    assert(list.push(r).drop_last() =~= list);
    assert(interfaces_of(list.push(r)) =~= interfaces_of(list) + seq![r.source_if, r.target_if]);
}

/// The interface behind a capture is the one that the capture is linked to.
pub proof fn law_captures_have_an_interface<C>(
    table: crate::dispatch::interface_table::InterfaceTable<C>,
    capture: CaptureKey,
)
    ensures
        capture.0 >= table.links().len() ==> table.interface_behind(capture) is None,
        capture.0 < table.links().len() ==> table.interface_behind(capture) == Some(
            table.interfaces()[table.links()[capture.0 as int].0 as int],
        ),
{
}

/// A drain counts its frames, up to the greatest number there is.
pub proof fn law_drained_frames_are_counted(d: crate::dispatch::Draining)
    ensures
        d.drained < u32::MAX ==> d.counted().drained == d.drained + 1,
        d.drained == u32::MAX ==> d.counted().drained == u32::MAX,
        d.counted().ingress == d.ingress,
        d.counted().link == d.link,
{
}

/// The soonest grace of the proxies is the least of them, and absent only where there is no proxy.
pub proof fn law_the_soonest_grace(proxies: Seq<DialEntry>, grace: Option<u64>, i: int)
    requires
        crate::dispatch::is_soonest_grace(proxies, grace),
        0 <= i < proxies.len(),
    ensures
        grace is Some,
        grace->0 <= proxies[i].desc_grace,
        exists|j: int| 0 <= j < proxies.len() && (#[trigger] proxies[j]).desc_grace == grace->0,
{
}

/// A sweep of the graces evicts exactly the proxies whose grace has come: each live handler of one
/// is taken out of the reactor and handed back, every other handler stays as it was, and a proxy
/// whose grace has not come, whose handler is live and shared with no evicted one, stays recorded.
pub proof fn law_graces_are_swept<C, H, R, P>(
    before: crate::dispatch::World<C, H, R, P>,
    now: u64,
    after: crate::dispatch::World<C, H, R, P>,
    gone: Seq<crate::reactor::Unregistered<R>>,
    key: Key,
)
    requires
        crate::dispatch::graces_swept(before, now, after, gone),
        before.reactor.handlers().dom().contains(key),
    ensures
        ({
            let proxies = before.dispatcher.spec_dial()@;
            let over = exists|i: int|
                0 <= i < proxies.len() && (#[trigger] proxies[i]).desc_grace <= now
                    && proxies[i].handler.0 == key;
            &&& over <==> !after.reactor.handlers().dom().contains(key)
            &&& !over ==> after.reactor.handlers()[key] == before.reactor.handlers()[key]
            &&& after.dispatcher.registrations() == before.dispatcher.registrations()
            &&& after.dispatcher.spec_table() == before.dispatcher.spec_table()
            &&& over ==> exists|j: int|
                0 <= j < gone.len() && (#[trigger] gone[j]).handler
                    == before.reactor.handlers()[key].handler
        }),
{
    let proxies = before.dispatcher.spec_dial()@;
    let marked = past_grace(proxies, now);
    let live = before.reactor.handlers().dom();
    let n = proxies.len();
    law_marked_proxies_are_evicted(proxies, marked, n);
    law_unmarked_proxies_are_kept(proxies, marked, live, n);
    let out = evicted(proxies, marked, n);
    let leave = leaving(proxies, marked, live, n);
    if exists|i: int|
        0 <= i < proxies.len() && (#[trigger] proxies[i]).desc_grace <= now && proxies[i].handler.0
            == key {
        let i = choose|i: int|
            0 <= i < proxies.len() && (#[trigger] proxies[i]).desc_grace <= now
                && proxies[i].handler.0 == key;
        assert(marked[i]);
        assert(marks(proxies, marked, i, key));
        assert(out.contains(key));
        assert(leave.contains(key));
        let j = choose|j: int| 0 <= j < leave.len() && leave[j] == key;
        assert(gone[j].handler == before.reactor.handlers()[leave[j]].handler);
    } else {
        if out.contains(key) {
            let i = choose|i: int| 0 <= i < n && #[trigger] marks(proxies, marked, i, key);
            assert(proxies[i].desc_grace <= now);
        }
    }
}

/// A group that is joined is among the groups, behind those that were there, and once.
pub proof fn law_groups_are_joined_once(groups: Seq<IpAddr>, group: IpAddr, other: IpAddr)
    ensures
        ({
            let after = crate::dispatch::multicast::joined(groups, group);
            &&& after.contains(group)
            &&& after.contains(other) <==> groups.contains(other) || other == group
            &&& after.take(groups.len() as int) == groups
            &&& groups.contains(group) ==> after == groups
            &&& !groups.contains(group) ==> after.len() == groups.len() + 1
        }),
{
    let after = crate::dispatch::multicast::joined(groups, group);
    assert(after.take(groups.len() as int) =~= groups);
    if groups.contains(group) {
    } else {
        assert(after.last() == group);
        assert(after[groups.len() as int] == group);
        if groups.contains(other) {
            let i = choose|i: int| 0 <= i < groups.len() && groups[i] == other;
            assert(after[i] == other);
        }
        if after.contains(other) && other != group {
            let i = choose|i: int| 0 <= i < after.len() && after[i] == other;
            assert(groups[i] == other);
        }
    }
}

/// The capture recorded for a name is the first that was.
pub proof fn law_the_first_capture_of_a_name_is_recorded(
    entries: Seq<(Seq<char>, CaptureKey)>,
    name: Seq<char>,
)
    ensures
        match crate::reflector::recorded(entries, name) {
            Some(key) => exists|i: int|
                0 <= i < entries.len() && #[trigger] entries[i] == (name, key) && forall|j: int|
                    0 <= j < i ==> (#[trigger] entries[j]).0 != name,
            None => forall|j: int| 0 <= j < entries.len() ==> (#[trigger] entries[j]).0 != name,
        },
    decreases entries.len(),
{
    if entries.len() > 0 {
        if entries[0].0 == name {
            assert(entries[0] == (name, entries[0].1));
        } else {
            let rest = entries.drop_first();
            law_the_first_capture_of_a_name_is_recorded(rest, name);
            match crate::reflector::recorded(rest, name) {
                Some(key) => {
                    let i = choose|i: int|
                        0 <= i < rest.len() && #[trigger] rest[i] == (name, key) && forall|j: int|
                            0 <= j < i ==> (#[trigger] rest[j]).0 != name;
                    assert(entries[i + 1] == rest[i]);
                    assert forall|j: int| 0 <= j < i + 1 implies (#[trigger] entries[j]).0
                        != name by {
                        if j > 0 {
                            assert(rest[j - 1] == entries[j]);
                        }
                    }
                },
                None => {
                    assert forall|j: int| 0 <= j < entries.len() implies (#[trigger] entries[j]).0
                        != name by {
                        if j > 0 {
                            assert(rest[j - 1] == entries[j]);
                        }
                    }
                },
            }
        }
    }
}

/// A send on a capture that is known and in place yields the frame of the datagram, built from its
/// interface's addresses for its link within 2048 bytes, and that capture, or the datagram's error;
/// on any other capture it yields nothing.
pub proof fn law_sends_use_the_captures_interface<C, H>(
    dispatcher: crate::dispatch::PacketDispatcher<C, H>,
    egress: CaptureKey,
    dst: SocketAddr,
    dst_mac: MacAddr,
    src_port: u16,
    ttl: u8,
    payload: Seq<u8>,
    r: Result<Option<crate::dispatch::Injection<'_, C>>, DatagramError>,
)
    requires
        crate::dispatch::sent(dispatcher, egress, dst, dst_mac, src_port, ttl, payload, r),
    ensures
        ({
            let table = dispatcher.spec_table();
            let k = egress.0 as int;
            if k < table.links().len() && k < table.captures().len() && table.captures()[k] is Some {
                let iface = table.interfaces()[table.links()[k].0 as int];
                match datagram_frame(
                    iface.addrs,
                    table.captures()[k]->0.link,
                    dispatcher.spec_host(),
                    dst,
                    dst_mac,
                    src_port,
                    ttl,
                    payload,
                    2048,
                ) {
                    Ok(bytes) => r matches Ok(Some(injection)) && injection.frame@ == bytes
                        && table.captures()[k] == Some(*injection.capture),
                    Err(e) => r matches Err(why) && why == e,
                }
            } else {
                r matches Ok(None)
            }
        }),
{
}

/// What the program is bounded by: so many frames of one event, proxies, and bytes of a frame that
/// is sent.
pub proof fn law_bounds()
    ensures
        crate::dispatch::MAX_FRAMES_PER_EVENT == 64,
        crate::dispatch::SCRATCH_LEN == 2048,
        crate::dispatch::MONITOR_TAG == 0xffff_ffff_ffff_ffff,
        MAX_DIAL_PROXIES == 32,
{
}

/// The addresses behind a capture are those of the interface it is on; behind one that is not known
/// there are none.
pub proof fn law_addresses_behind_captures<C, H>(
    dispatcher: crate::dispatch::PacketDispatcher<C, H>,
    key: CaptureKey,
)
    ensures
        ({
            let table = dispatcher.spec_table();
            let addrs = crate::reflector::addresses_behind(&dispatcher, key);
            if (key.0 as int) < table.links().len() {
                addrs == table.interfaces()[table.links()[key.0 as int].0 as int].addrs
            } else {
                addrs.mac is None && addrs.v4 is None && addrs.v6 is None && addrs.v6_routable
                    is None
            }
        }),
{
}

} // verus!
