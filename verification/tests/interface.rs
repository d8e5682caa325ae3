//! Interface addresses, source selection and rtnetlink dumps.

use reflector::interface::rtnetlink::{
    dump_request, nl_align, split_messages, DumpProgress, Resolution, AF_INET, AF_INET6,
    IFADDRMSG_SIZE, IFA_ADDRESS, IFA_FLAGS, IFA_F_UNUSABLE, IFA_LOCAL, IFINFOMSG_SIZE,
    IFLA_ADDRESS, NLMSG_DONE, NLMSG_ERROR, NLMSG_HEADER_SIZE, NLM_F_DUMP, NLM_F_REQUEST,
    RTM_GETADDR, RTM_NEWADDR, RTM_NEWLINK,
};
use reflector::interface::{
    v6_rank, AddressChange, Interface, InterfaceAddresses, Ipv6Scope, V6Pick,
};
use reflector::net::addr::{Ipv4Addr, Ipv6Addr};
use reflector::net::mac::MacAddr;
use reflector::net::ByteOrder;

const ORDER: ByteOrder = ByteOrder::Little;

fn link_local() -> Ipv6Addr {
    Ipv6Addr::new(0xfe80, 0, 0, 0, 0, 0, 0, 1)
}

fn unique_local() -> Ipv6Addr {
    Ipv6Addr::new(0xfc00, 0, 0, 0, 0, 0, 0, 1)
}

fn global() -> Ipv6Addr {
    Ipv6Addr::new(0x2001, 0xdb8, 0, 0, 0, 0, 0, 1)
}

fn loopback() -> InterfaceAddresses {
    InterfaceAddresses::new(None, Some(Ipv4Addr::new(127, 0, 0, 1)), None, None)
}

#[test]
fn refresh_reports_which_source_fields_changed() {
    let mut iface = Interface::open("lo".to_owned(), Some(1), loopback());
    // Resolving an interface whose addresses are already current reports nothing moved.
    assert_eq!(iface.refresh(loopback()), AddressChange::default());
    // With a stale v4 recorded, the next resolution reports a v4 move, and only v4. This is the
    // flag that the DIAL eviction goes by.
    iface.addrs.v4 = Some(Ipv4Addr::new(10, 0, 0, 1));
    assert_eq!(
        iface.refresh(loopback()),
        AddressChange {
            v4: true,
            ..AddressChange::default()
        },
    );
    // A stale v6 is reported independently of v4.
    iface.addrs.v6 = Some(global());
    let change = iface.refresh(loopback());
    assert!(change.v6, "the differing v6 is reported");
    assert!(!change.v4, "but it does not look like a v4 change");
    iface.addrs.mac = Some(MacAddr::broadcast());
    assert!(iface.refresh(loopback()).mac);
}

#[test]
fn unknown_interface_has_no_addresses() {
    let resolution = Resolution::new(ORDER, 0);
    assert!(!resolution.needs_dump());
    let iface = Interface::open("nonexistent-xyz-999".to_owned(), None, resolution.addrs);
    assert_eq!(iface.addrs, InterfaceAddresses::default());
    assert_eq!(iface.ifindex, 0);
}

#[test]
fn v6_rank_orders_link_local_above_ula_above_global() {
    assert!(v6_rank(link_local()) > v6_rank(unique_local()));
    assert!(v6_rank(unique_local()) > v6_rank(global()));
    assert!(v6_rank(global()) > v6_rank(Ipv6Addr::new(0, 0, 0, 0, 0, 0, 0, 1)));
    assert!(v6_rank(link_local()).level() > v6_rank(unique_local()).level());
}

#[test]
fn ipv6_scope_of_reads_multicast_and_unicast() {
    // Link-local-scoped multicast (ff02::) and link-local unicast (fe80::) are LinkLocal; the
    // site-local SSDP group (ff05::) and a global address are wider (Routable).
    assert_eq!(
        Ipv6Scope::of(Ipv6Addr::new(0xff02, 0, 0, 0, 0, 0, 0, 0x0c)),
        Ipv6Scope::LinkLocal
    );
    assert_eq!(Ipv6Scope::of(link_local()), Ipv6Scope::LinkLocal);
    assert_eq!(
        Ipv6Scope::of(Ipv6Addr::new(0xff05, 0, 0, 0, 0, 0, 0, 0x0c)),
        Ipv6Scope::Routable
    );
    assert_eq!(Ipv6Scope::of(global()), Ipv6Scope::Routable);
    // A ULA whose second byte's low nibble is 2 (fd02::) must not be mistaken for a link-local
    // multicast group.
    assert_eq!(
        Ipv6Scope::of(Ipv6Addr::new(0xfd02, 0, 0, 0, 0, 0, 0, 1)),
        Ipv6Scope::Routable
    );
}

#[test]
fn v6_picks_by_scope_and_falls_back() {
    let both = InterfaceAddresses {
        v6: Some(link_local()),
        v6_routable: Some(global()),
        ..Default::default()
    };
    assert_eq!(both.v6(Ipv6Scope::LinkLocal), both.v6);
    assert_eq!(both.v6(Ipv6Scope::Routable), both.v6_routable);
    // No routable address: a wider destination falls back to the link-local one.
    let link_only = InterfaceAddresses {
        v6: Some(link_local()),
        ..Default::default()
    };
    assert_eq!(link_only.v6(Ipv6Scope::Routable), link_only.v6);
    // No v6 at all: nothing to source.
    assert_eq!(InterfaceAddresses::default().v6(Ipv6Scope::Routable), None);
}

#[test]
fn v6_pick_tracks_best_overall_and_best_routable() {
    let mut addrs = InterfaceAddresses::default();
    let mut pick = V6Pick::default();
    pick.consider(&mut addrs, global());
    pick.consider(&mut addrs, unique_local()); // outranks global
    pick.consider(&mut addrs, link_local()); // best overall
    assert_eq!(
        addrs.v6,
        Some(link_local()),
        "best overall is the link-local"
    );
    assert_eq!(
        addrs.v6_routable,
        Some(unique_local()),
        "best non-link-local is the ULA"
    );
}

/// An attribute: length, type, value, padded to the word.
fn attribute(kind: u16, value: &[u8]) -> Vec<u8> {
    let mut a = Vec::new();
    a.extend_from_slice(&((4 + value.len()) as u16).to_le_bytes());
    a.extend_from_slice(&kind.to_le_bytes());
    a.extend_from_slice(value);
    a.resize(nl_align(a.len()), 0);
    a
}

/// A netlink message with `body`, padded to the word.
fn message(kind: u16, body: &[u8]) -> Vec<u8> {
    let len = NLMSG_HEADER_SIZE + body.len();
    let mut m = Vec::new();
    m.extend_from_slice(&(len as u32).to_le_bytes());
    m.extend_from_slice(&kind.to_le_bytes());
    m.resize(NLMSG_HEADER_SIZE, 0);
    m.extend_from_slice(body);
    m.resize(nl_align(len), 0);
    m
}

fn address_body(family: u8, index: u32, attributes: &[Vec<u8>]) -> Vec<u8> {
    let mut b = vec![0u8; IFADDRMSG_SIZE];
    b[0] = family;
    b[4..8].copy_from_slice(&index.to_le_bytes());
    for a in attributes {
        b.extend_from_slice(a);
    }
    b
}

fn link_body(index: u32, attributes: &[Vec<u8>]) -> Vec<u8> {
    let mut b = vec![0u8; IFINFOMSG_SIZE];
    b[4..8].copy_from_slice(&index.to_le_bytes());
    for a in attributes {
        b.extend_from_slice(a);
    }
    b
}

#[test]
fn a_dump_resolves_the_addresses_of_its_interface() {
    let mut resolution = Resolution::new(ORDER, 3);
    assert!(resolution.needs_dump());
    let mut datagram = Vec::new();
    // The local address wins over the peer's.
    datagram.extend(message(
        RTM_NEWADDR,
        &address_body(
            AF_INET,
            3,
            &[
                attribute(IFA_ADDRESS, &[10, 0, 0, 9]),
                attribute(IFA_LOCAL, &[10, 0, 0, 1]),
            ],
        ),
    ));
    // Another interface's address, and one that is not usable, are passed over.
    datagram.extend(message(
        RTM_NEWADDR,
        &address_body(AF_INET6, 4, &[attribute(IFA_ADDRESS, &[0xfe; 16])]),
    ));
    datagram.extend(message(
        RTM_NEWADDR,
        &address_body(
            AF_INET6,
            3,
            &[
                attribute(IFA_ADDRESS, &link_local().octets),
                attribute(IFA_FLAGS, &IFA_F_UNUSABLE.to_le_bytes()),
            ],
        ),
    ));
    datagram.extend(message(
        RTM_NEWADDR,
        &address_body(AF_INET6, 3, &[attribute(IFA_ADDRESS, &global().octets)]),
    ));
    assert_eq!(resolution.feed_addrs(&datagram), DumpProgress::More);
    assert_eq!(
        resolution.feed_addrs(&message(NLMSG_DONE, &[0; 4])),
        DumpProgress::Done
    );
    let mac = [0x02, 0, 0, 0, 0, 0x01];
    let links = message(RTM_NEWLINK, &link_body(3, &[attribute(IFLA_ADDRESS, &mac)]));
    assert_eq!(resolution.feed_links(&links), DumpProgress::More);
    assert_eq!(
        resolution.feed_links(&message(NLMSG_ERROR, &[0; 4])),
        DumpProgress::Failed
    );
    assert_eq!(
        resolution.addrs,
        InterfaceAddresses::new(
            Some(MacAddr::from(mac)),
            Some(Ipv4Addr::new(10, 0, 0, 1)),
            Some(global()),
            Some(global()),
        )
    );
}

#[test]
fn a_dump_request_asks_for_everything_of_a_kind() {
    let request = dump_request(ORDER, RTM_GETADDR, IFADDRMSG_SIZE);
    assert_eq!(request.len(), NLMSG_HEADER_SIZE + IFADDRMSG_SIZE);
    let messages = split_messages(ORDER, &request);
    assert_eq!(messages.len(), 1);
    assert_eq!(
        u32::from_le_bytes([request[0], request[1], request[2], request[3]]) as usize,
        request.len()
    );
    assert_eq!(u16::from_le_bytes([request[4], request[5]]), RTM_GETADDR);
    assert_eq!(
        u16::from_le_bytes([request[6], request[7]]),
        NLM_F_REQUEST | NLM_F_DUMP
    );
}
