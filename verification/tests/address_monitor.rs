//! Interface change notifications: the messages of both kinds of kernel, and the drain loop.

use reflector::interface::address_monitor::route;
use reflector::interface::address_monitor::rtnetlink;
use reflector::interface::address_monitor::{
    Backend, Drain, DrainStep, RecvFailure, ALL_INTERFACES,
};
use reflector::interface::rtnetlink::{
    nl_align, IFADDRMSG_SIZE, IFINFOMSG_SIZE, NLMSG_HEADER_SIZE, RTM_DELLINK, RTM_NEWADDR,
};
use reflector::net::ByteOrder;

const ORDER: ByteOrder = ByteOrder::Little;

/// A routing message of `msglen` bytes: header (length, type) plus `index` at its fixed
/// offset, the rest zero.
fn route_message(msg_type: u8, index: u16, msglen: usize) -> Vec<u8> {
    let mut m = vec![0u8; msglen];
    m[0..2].copy_from_slice(&(msglen as u16).to_le_bytes());
    m[3] = msg_type;
    m[route::INDEX_OFFSET..route::INDEX_OFFSET + 2].copy_from_slice(&index.to_le_bytes());
    m
}

/// A netlink message: a header (length, type) followed by `body`, length-padded.
fn netlink_message(msg_type: u16, body: &[u8]) -> Vec<u8> {
    let len = NLMSG_HEADER_SIZE + body.len();
    let mut m = vec![0u8; nl_align(len)];
    m[0..4].copy_from_slice(&(len as u32).to_le_bytes());
    m[4..6].copy_from_slice(&msg_type.to_le_bytes());
    m[NLMSG_HEADER_SIZE..NLMSG_HEADER_SIZE + body.len()].copy_from_slice(body);
    m
}

/// The body of an address message with the interface's index at offset 4.
fn ifaddrmsg(index: u32) -> Vec<u8> {
    let mut b = vec![0u8; IFADDRMSG_SIZE];
    b[4..8].copy_from_slice(&index.to_le_bytes());
    b
}

/// The body of a link message with the interface's index at offset 4.
fn ifinfomsg(index: i32) -> Vec<u8> {
    let mut b = vec![0u8; IFINFOMSG_SIZE];
    b[4..8].copy_from_slice(&index.to_le_bytes());
    b
}

#[test]
fn reports_index_of_address_and_link_messages() {
    let mut buf = route_message(route::RTM_NEWADDR, 7, 20);
    buf.extend(route_message(route::RTM_IFINFO, 9, 24));
    assert_eq!(route::for_each_change(ORDER, &buf), [7, 9]);
}

#[test]
fn ignores_unsubscribed_types() {
    // Type 1 (a route was added) is neither an address nor a link change.
    let buf = route_message(1, 5, 20);
    assert!(route::for_each_change(ORDER, &buf).is_empty());
}

#[test]
fn ignores_message_too_short_for_the_index() {
    // A subscribed type whose length stops before the index field must not be read past.
    let mut buf = vec![0u8; route::INDEX_OFFSET];
    buf[0..2].copy_from_slice(&(route::INDEX_OFFSET as u16).to_le_bytes());
    buf[3] = route::RTM_NEWADDR;
    assert!(route::for_each_change(ORDER, &buf).is_empty());
}

#[test]
fn route_never_forwards_index_zero() {
    // 0 names no interface and stands for all of them, so a message carrying it must not be
    // reported.
    let buf = route_message(route::RTM_NEWADDR, 0, 20);
    assert!(route::for_each_change(ORDER, &buf).is_empty());
}

#[test]
fn stops_at_a_message_claiming_a_length_past_the_buffer() {
    let mut buf = route_message(route::RTM_NEWADDR, 7, 20);
    buf[0..2].copy_from_slice(&9999u16.to_le_bytes()); // length past the datagram
    assert!(route::for_each_change(ORDER, &buf).is_empty());
}

#[test]
fn reports_index_of_addr_and_link_messages() {
    let mut buf = netlink_message(RTM_NEWADDR, &ifaddrmsg(7));
    buf.extend(netlink_message(RTM_DELLINK, &ifinfomsg(9)));
    assert_eq!(rtnetlink::for_each_change(ORDER, &buf), [7, 9]);
}

#[test]
fn ignores_other_message_types() {
    // The end of a dump (3) and any type but address and link carry no interface index.
    let buf = netlink_message(3, &ifaddrmsg(5));
    assert!(rtnetlink::for_each_change(ORDER, &buf).is_empty());
}

#[test]
fn skips_a_body_too_short_for_its_struct() {
    // A truncated address message yields nothing.
    let buf = netlink_message(RTM_NEWADDR, &[0u8; 2]);
    assert!(rtnetlink::for_each_change(ORDER, &buf).is_empty());
}

#[test]
fn rtnetlink_never_forwards_index_zero() {
    let buf = netlink_message(RTM_NEWADDR, &ifaddrmsg(0));
    assert!(rtnetlink::for_each_change(ORDER, &buf).is_empty());
}

#[test]
fn the_byte_order_is_the_hosts() {
    let mut m = vec![0u8; 20];
    m[0..2].copy_from_slice(&20u16.to_be_bytes());
    m[3] = route::RTM_NEWADDR;
    m[route::INDEX_OFFSET..route::INDEX_OFFSET + 2].copy_from_slice(&7u16.to_be_bytes());
    assert_eq!(route::for_each_change(ByteOrder::Big, &m), [7]);
    assert!(route::for_each_change(ByteOrder::Little, &m).is_empty());
}

#[test]
fn draining_collects_changes_until_nothing_is_left() {
    let mut drain = Drain::new(Backend::Rtnetlink, ORDER);
    let buf = netlink_message(RTM_NEWADDR, &ifaddrmsg(7));
    assert_eq!(drain.on_recv(Ok(&buf)), DrainStep::Continue);
    assert_eq!(
        drain.on_recv(Err(RecvFailure::Interrupted)),
        DrainStep::Continue
    );
    assert_eq!(
        drain.on_recv(Err(RecvFailure::NoBufferSpace)),
        DrainStep::Continue
    );
    assert_eq!(
        drain.on_recv(Err(RecvFailure::WouldBlock)),
        DrainStep::Finished
    );
    // An overflow lost notifications, so every interface may have changed.
    assert_eq!(drain.changed, [7, ALL_INTERFACES]);

    let mut drain = Drain::new(Backend::Route, ORDER);
    let buf = route_message(route::RTM_DELADDR, 3, 20);
    assert_eq!(drain.on_recv(Ok(&buf)), DrainStep::Continue);
    assert_eq!(drain.on_recv(Ok(&[])), DrainStep::Finished);
    assert_eq!(
        drain.on_recv(Err(RecvFailure::Other(9))),
        DrainStep::Failed(9)
    );
    assert_eq!(drain.changed, [3]);
}
