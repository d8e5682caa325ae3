//! The table of interfaces and captures, multicast memberships, and DIAL proxies.

use reflector::dispatch::dial_context::{DialContext, MAX_DIAL_PROXIES};
use reflector::dispatch::interface_table::{Capture, InterfaceKey, InterfaceTable};
use reflector::dispatch::multicast::{already_member, DuplicateErrnos, MulticastJoiner};
use reflector::dispatch::CaptureKey;
use reflector::interface::{Interface, InterfaceAddresses};
use reflector::net::addr::{IpAddr, Ipv4Addr, Ipv6Addr, SocketAddrV4};
use reflector::net::LinkType;
use reflector::reactor::{Handler, HandlerKey, Reactor, ReadyEvent};

const LOOPBACK: &str = "lo";

fn addresses() -> InterfaceAddresses {
    InterfaceAddresses::new(None, Some(Ipv4Addr::new(127, 0, 0, 1)), None, None)
}

fn loopback() -> Interface {
    Interface::open(LOOPBACK.to_owned(), Some(1), addresses())
}

fn capture(fd: i32) -> Capture<()> {
    Capture {
        fd,
        link: LinkType::Ethernet,
        io: (),
    }
}

fn mdns_v4() -> IpAddr {
    IpAddr::V4(Ipv4Addr::new(224, 0, 0, 251))
}

fn mdns_v6() -> IpAddr {
    IpAddr::V6(Ipv6Addr::new(0xff02, 0, 0, 0, 0, 0, 0, 0xfb))
}

struct Dummy;

impl Handler<()> for Dummy {
    fn on_readable(&mut self, _event: ReadyEvent, _reactor: &mut Reactor<Dummy, ()>) {}
    fn on_writable(&mut self, _event: ReadyEvent, _reactor: &mut Reactor<Dummy, ()>) {}
    fn next_deadline(&self) -> Option<u64> {
        None
    }
    fn on_deadline(&mut self, _now: u64, _reactor: &mut Reactor<Dummy, ()>) {}
    fn adopt_key(&mut self, _key: HandlerKey) {}
}

fn ep(n: u8) -> SocketAddrV4 {
    SocketAddrV4::new(Ipv4Addr::new(10, 0, 0, n), 8008)
}

#[test]
fn refresh_by_ifindex_targets_the_matching_interface() {
    let mut table: InterfaceTable<()> = InterfaceTable::new();
    let key = table.find_or_add_interface(loopback());
    let found = table
        .find_ifindex(1)
        .expect("the loopback interface matches its index");
    assert_eq!(found, key);
    let (ifindex, change) = table.refresh(found, addresses());
    assert_eq!(ifindex, 1);
    assert!(
        !change.v4,
        "resolving the unchanged loopback anew reports no v4 move",
    );
    assert!(
        table.find_ifindex(u32::MAX).is_none(),
        "an index that is not watched refreshes nothing",
    );
}

#[test]
fn join_on_records_a_membership_and_refresh_re_attempts_it() {
    let mut table: InterfaceTable<()> = InterfaceTable::new();
    let iface = table.find_or_add_interface(loopback());
    for group in [mdns_v4(), mdns_v6()] {
        table.join_on(iface, group);
    }
    // The recorded memberships survive a refresh, to be asked for again.
    table.refresh(iface, InterfaceAddresses::default());
    assert_eq!(table.groups_of(iface).unwrap(), [mdns_v4(), mdns_v6()]);
    // Asking twice records once.
    table.join_on(iface, mdns_v4());
    assert_eq!(table.groups_of(iface).unwrap().len(), 2);
    assert!(table.groups_of(InterfaceKey(9)).is_none());
}

#[test]
fn find_or_add_interface_dedups_by_name() {
    let mut table: InterfaceTable<()> = InterfaceTable::new();
    let first = table.find_or_add_interface(loopback());
    let second = table.find_or_add_interface(loopback());
    assert_eq!(first, second, "the same name resolves to one interface key");
    assert_eq!(table.interface_count(), 1);
    assert_eq!(table.find_interface(LOOPBACK), Some(first));
    assert_eq!(table.find_interface("eth0"), None);
    assert_eq!(table.interface_name(first), Some(LOOPBACK));
}

#[test]
fn capture_accessors_reject_an_out_of_range_key() {
    let mut table: InterfaceTable<()> = InterfaceTable::new();
    let forged = CaptureKey(0); // nothing added yet
    assert!(!table.contains(forged));
    assert!(table.interface_of(forged).is_none());
    assert!(table.ifindex_of(forged).is_none());
    assert!(table.capture(forged).is_none());
    assert!(table.egress_addrs(forged).is_none());
    assert!(table.take(forged).is_none());
}

#[test]
fn a_capture_taken_out_keeps_its_interface() {
    let mut table: InterfaceTable<()> = InterfaceTable::new();
    let iface = table.find_or_add_interface(loopback());
    let key = table.add_capture(capture(7), iface);
    assert_eq!(table.capture_watches(), [(7, key.to_u64())]);
    let taken = table.take(key).unwrap();
    assert!(table.capture(key).is_none());
    assert!(table.contains(key));
    assert_eq!(table.egress_addrs(key), Some(addresses()));
    assert!(table.take(key).is_none());
    assert!(table.restore(key, taken));
    assert_eq!(table.capture(key).unwrap().fd, 7);
    assert!(!table.restore(CaptureKey(5), capture(8)));
}

#[test]
fn already_member_only_for_the_duplicate_join_errnos() {
    let host = DuplicateErrnos {
        address_in_use: libc::EADDRINUSE,
        invalid_argument: libc::EINVAL,
    };
    assert!(already_member(libc::EADDRINUSE, host)); // Linux / BSD IPv4 duplicate
    assert!(already_member(libc::EINVAL, host)); // FreeBSD IPv6 duplicate
    assert!(!already_member(libc::ENOBUFS, host)); // membership cap: a real failure
    assert!(!already_member(libc::EADDRNOTAVAIL, host)); // interface transiently down
}

#[test]
fn a_joiner_keeps_the_groups_asked_for() {
    let mut joiner = MulticastJoiner::new(4);
    assert_eq!(joiner.ifindex(), 4);
    joiner.join(mdns_v4());
    joiner.join(mdns_v6());
    joiner.join(mdns_v4());
    assert_eq!(joiner.groups(), [mdns_v4(), mdns_v6()]);
}

#[test]
fn next_grace_reports_the_soonest_or_none_when_empty() {
    let mut reactor = Reactor::new(());
    let mut ctx = DialContext::new();
    assert_eq!(ctx.next_grace(), None);

    let base = 1_000;
    let hk1 = reactor.register(Dummy);
    ctx.insert(CaptureKey(0), CaptureKey(1), ep(1), hk1, ep(9), base + 10);
    let hk2 = reactor.register(Dummy);
    ctx.insert(CaptureKey(0), CaptureKey(1), ep(2), hk2, ep(9), base + 5);
    assert_eq!(ctx.next_grace(), Some(base + 5));
}

#[test]
fn lookup_finds_a_live_proxy_and_prunes_an_evicted_one() {
    let mut reactor = Reactor::new(());
    let mut ctx = DialContext::new();
    let hk = reactor.register(Dummy);
    let base = 1_000;
    ctx.insert(CaptureKey(0), CaptureKey(1), ep(1), hk, ep(9), base);

    // Live: found, and its grace is refreshed to the new deadline.
    let refreshed = base + 30;
    assert_eq!(
        ctx.lookup(CaptureKey(0), ep(1), &reactor, refreshed),
        Some(ep(9))
    );
    assert_eq!(ctx.grace_of(CaptureKey(0), ep(1)), Some(refreshed));

    // Evicted: the stale entry is pruned and reported absent.
    assert!(reactor.unregister(hk).is_some());
    assert_eq!(ctx.lookup(CaptureKey(0), ep(1), &reactor, base), None);
    assert_eq!(ctx.proxy_count(), 0);
}

#[test]
fn lapsed_and_stranded_proxies_are_evicted() {
    let mut reactor = Reactor::new(());
    let mut ctx = DialContext::new();
    let first = reactor.register(Dummy);
    let second = reactor.register(Dummy);
    ctx.insert(CaptureKey(0), CaptureKey(1), ep(1), first, ep(9), 100);
    ctx.insert(CaptureKey(2), CaptureKey(3), ep(2), second, ep(9), 200);

    assert!(ctx.sweep(99, &mut reactor).is_empty());
    let gone = ctx.sweep(100, &mut reactor);
    assert_eq!(gone.len(), 1);
    assert!(!reactor.is_registered(first));
    assert_eq!(ctx.proxy_count(), 1);

    // An address move on either side of a proxy strands it.
    assert!(ctx
        .evict_on_interface_change(&mut reactor, &[CaptureKey(0)])
        .is_empty());
    let gone = ctx.evict_on_interface_change(&mut reactor, &[CaptureKey(3)]);
    assert_eq!(gone.len(), 1);
    assert!(!reactor.is_registered(second));
    assert_eq!(ctx.proxy_count(), 0);
}

#[test]
fn the_number_of_proxies_is_capped() {
    let mut reactor = Reactor::new(());
    let mut ctx = DialContext::new();
    let mut keys = Vec::new();
    for n in 0..MAX_DIAL_PROXIES {
        assert!(ctx.has_capacity(&reactor));
        let key = reactor.register(Dummy);
        keys.push(key);
        ctx.insert(CaptureKey(0), CaptureKey(1), ep(n as u8), key, ep(9), 100);
    }
    assert!(!ctx.has_capacity(&reactor));
    // A proxy that left the reactor makes room.
    assert!(reactor.unregister(keys[4]).is_some());
    assert!(ctx.has_capacity(&reactor));
    assert_eq!(ctx.proxy_count(), MAX_DIAL_PROXIES - 1);
}

#[test]
fn a_recorded_proxy_is_found_and_leaves_the_others_alone() {
    let mut reactor = Reactor::new(());
    let mut ctx = DialContext::new();
    let first = reactor.register(Dummy);
    let second = reactor.register(Dummy);
    ctx.insert(CaptureKey(0), CaptureKey(1), ep(1), first, ep(8), 100);
    ctx.insert(CaptureKey(0), CaptureKey(1), ep(2), second, ep(9), 200);
    // A proxy minted anew takes the place of the one for the same device.
    let third = reactor.register(Dummy);
    ctx.insert(CaptureKey(0), CaptureKey(1), ep(1), third, ep(7), 300);
    assert_eq!(ctx.proxy_count(), 2);
    assert_eq!(
        ctx.lookup(CaptureKey(0), ep(1), &reactor, 300),
        Some(ep(7))
    );
    assert_eq!(
        ctx.lookup(CaptureKey(0), ep(2), &reactor, 200),
        Some(ep(9))
    );
    // The same device on another source has none.
    assert_eq!(ctx.lookup(CaptureKey(2), ep(1), &reactor, 300), None);
    assert_eq!(ctx.next_grace(), Some(200));
}

#[test]
fn the_table_tells_an_interfaces_addresses_by_key() {
    let mut table: InterfaceTable<()> = InterfaceTable::new();
    let key = table.find_or_add_interface(loopback());
    assert_eq!(table.addrs(key), Some(addresses()));
    assert_eq!(table.addrs(InterfaceKey(7)), None);
}
