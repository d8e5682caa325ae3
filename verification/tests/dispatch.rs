//! Routing captured packets to reflectors.

use reflector::dispatch::interface_table::{Capture, InterfaceKey};
use reflector::dispatch::{
    interfaces_to_rejoin, ready_target, CaptureKey, Draining, Filter, FrameRead, PacketDispatcher,
    PacketHandler,
    ReadyTarget, RegistrationKey, MAX_FRAMES_PER_EVENT, MONITOR_TAG,
};
use reflector::interface::address_monitor::ALL_INTERFACES;
use reflector::interface::{Interface, InterfaceAddresses};
use reflector::net::addr::{IpAddr, Ipv4Addr, Ipv6Addr, SocketAddr, SocketAddrV4, SocketAddrV6};
use reflector::net::frame;
use reflector::net::mac::MacAddr;
use reflector::net::packet::Packet;
use reflector::net::{ByteOrder, HostFamilies, LinkType};
use reflector::reactor::{Handler, HandlerKey, Reactor, Readiness, ReadyEvent};
use std::cell::{Cell, RefCell};
use std::collections::VecDeque;
use std::rc::Rc;

const HOST: HostFamilies = HostFamilies {
    order: ByteOrder::Little,
    inet: 2,
    inet6: 10,
};

const READABLE: Readiness = Readiness {
    readable: true,
    writable: false,
};

/// The wire behind a capture: frames that wait to be read, and those that were injected.
#[derive(Clone, Default)]
struct Wire {
    frames: Rc<RefCell<VecDeque<Vec<u8>>>>,
    sent: Rc<RefCell<Vec<Vec<u8>>>>,
}

/// The reactor's side: it holds a dispatcher, or a handler that does nothing.
enum Node {
    Idle,
    Driver(Box<Dispatcher>),
}

type TestReactor = Reactor<Node, ()>;
type Dispatcher = PacketDispatcher<Wire, Reflector>;

impl Handler<()> for Node {
    fn on_readable(&mut self, event: ReadyEvent, reactor: &mut TestReactor) {
        if let Node::Driver(dispatcher) = self {
            if let ReadyTarget::Capture(key) = ready_target(event.user_data) {
                drain_and_route(dispatcher, key, reactor);
            }
        }
    }
    fn on_writable(&mut self, _event: ReadyEvent, _reactor: &mut TestReactor) {}
    fn next_deadline(&self) -> Option<u64> {
        None
    }
    fn on_deadline(&mut self, _now: u64, _reactor: &mut TestReactor) {}
    fn adopt_key(&mut self, _key: HandlerKey) {}
}

/// Drain a capture and route what it holds, as the program does.
fn drain_and_route(dispatcher: &mut Dispatcher, ingress: CaptureKey, reactor: &mut TestReactor) {
    let Some(capture) = dispatcher.begin_drain(ingress) else {
        return;
    };
    let mut draining = Draining::new(ingress, capture.link);
    while draining.wants_frame(false) {
        let frame = capture.io.frames.borrow_mut().pop_front();
        let read = match &frame {
            Some(frame) => FrameRead::Frame(frame),
            None => FrameRead::Empty,
        };
        if !dispatcher.drain_and_route(&mut draining, read, reactor) {
            break;
        }
    }
    dispatcher.finish_drain(ingress, capture);
}

/// What the reflectors of the tests do with a packet or a deadline.
enum Reflector {
    /// Records each payload.
    Recorder { seen: Rc<RefCell<Vec<Vec<u8>>>> },
    /// Emits each packet again on its egress, to another port, and records whether that went.
    Echo {
        egress: CaptureKey,
        seen: Rc<RefCell<Vec<(Vec<u8>, bool)>>>,
    },
    /// Carries only a timer, and counts how often it fires.
    Ticker {
        deadline: Option<u64>,
        fired: Rc<Cell<u32>>,
    },
    /// Registers a recorder once, from inside its own call.
    Registrar {
        ingress: CaptureKey,
        late: Rc<RefCell<Vec<Vec<u8>>>>,
        done: bool,
    },
    /// Drains its own ingress again from inside the call.
    Reentrant {
        ingress: CaptureKey,
        calls: Rc<Cell<u32>>,
    },
    /// Looks at its ingress while that is taken out for the drain.
    MidDrainProbe {
        ingress: CaptureKey,
        result: Rc<RefCell<Option<(Option<Ipv4Addr>, bool)>>>,
    },
}

/// The echo goes to this port, distinct from the filter's.
const ECHO_DST_PORT: u16 = 1;

impl PacketHandler<Wire, Node, ()> for Reflector {
    fn on_packet(
        &mut self,
        packet: &Packet,
        dispatcher: &mut Dispatcher,
        reactor: &mut TestReactor,
    ) {
        match self {
            Reflector::Recorder { seen } => seen.borrow_mut().push(packet.payload.to_vec()),
            Reflector::Echo { egress, seen } => {
                let (SocketAddr::V4(src), SocketAddr::V4(dst)) = (packet.source, packet.dest)
                else {
                    return;
                };
                let dst = SocketAddr::V4(SocketAddrV4::new(dst.ip, ECHO_DST_PORT));
                let mac = MacAddr::from([0xff; 6]);
                let sent = match dispatcher.send_udp(
                    *egress,
                    dst,
                    mac,
                    src.port,
                    packet.ttl,
                    packet.payload,
                ) {
                    Ok(Some(injection)) => {
                        let frame = injection.frame.to_vec();
                        injection.capture.io.sent.borrow_mut().push(frame);
                        true
                    }
                    Ok(None) => true,
                    Err(_) => false,
                };
                seen.borrow_mut().push((packet.payload.to_vec(), sent));
            }
            Reflector::Ticker { .. } => {}
            Reflector::Registrar {
                ingress,
                late,
                done,
            } => {
                if !*done {
                    *done = true;
                    dispatcher.register(
                        *ingress,
                        Filter::default(),
                        Reflector::Recorder { seen: late.clone() },
                    );
                }
            }
            Reflector::Reentrant { ingress, calls } => {
                calls.set(calls.get() + 1);
                drain_and_route(dispatcher, *ingress, reactor);
            }
            Reflector::MidDrainProbe { ingress, result } => {
                let addrs = dispatcher.egress_addrs(*ingress).and_then(|a| a.v4());
                let dropped = dispatcher.send(*ingress).is_none();
                *result.borrow_mut() = Some((addrs, dropped));
            }
        }
    }

    fn next_deadline(&self) -> Option<u64> {
        match self {
            Reflector::Ticker { deadline, .. } => *deadline,
            _ => None,
        }
    }

    fn on_deadline(&mut self, _now: u64, _: &mut Dispatcher, _: &mut TestReactor) {
        if let Reflector::Ticker { fired, .. } = self {
            fired.set(fired.get() + 1);
        }
    }
}

fn v4(a: u8, b: u8, c: u8, d: u8, port: u16) -> SocketAddr {
    SocketAddr::V4(SocketAddrV4::new(Ipv4Addr::new(a, b, c, d), port))
}

fn v6(first: u16, last: u16, port: u16) -> SocketAddr {
    let ip = Ipv6Addr::new(first, 0, 0, 0, 0, 0, 0, last);
    SocketAddr::V6(SocketAddrV6::new(ip, port, 0, 0))
}

fn packet(
    source: SocketAddr,
    dest: SocketAddr,
    dst_mac: Option<MacAddr>,
    src_mac: Option<MacAddr>,
) -> Packet<'static> {
    Packet {
        source,
        dest,
        ttl: 64,
        dst_mac,
        src_mac,
        payload: b"",
    }
}

/// A synthetic v4 UDP packet for routing tests; the default filter matches it.
fn probe_packet(payload: &[u8]) -> Packet<'_> {
    Packet {
        source: v4(10, 0, 0, 1, 5),
        dest: v4(10, 0, 0, 2, 9),
        ttl: 64,
        dst_mac: None,
        src_mac: None,
        payload,
    }
}

const PROBE: &[u8] = b"reflector-dispatch-probe";
const PROBE_PORT: u16 = 40_000;

/// The frame of a UDP probe on the loopback interface.
fn probe_frame() -> Vec<u8> {
    let ip = Ipv4Addr::new(127, 0, 0, 1);
    let mac = MacAddr::from([0; 6]);
    let mut buf = [0u8; 128];
    let n = frame::ethernet_ipv4_udp(
        mac,
        mac,
        SocketAddrV4::new(ip, 50_000),
        SocketAddrV4::new(ip, PROBE_PORT),
        64,
        PROBE,
        &mut buf,
    )
    .unwrap();
    buf[..n].to_vec()
}

fn loopback() -> Interface {
    Interface::open(
        "lo".to_owned(),
        Some(1),
        InterfaceAddresses::new(
            Some(MacAddr::from([0; 6])),
            Some(Ipv4Addr::new(127, 0, 0, 1)),
            None,
            None,
        ),
    )
}

fn open(fd: i32, wire: &Wire) -> Capture<Wire> {
    Capture {
        fd,
        link: LinkType::Ethernet,
        io: wire.clone(),
    }
}

fn to_probe_port() -> Filter {
    Filter {
        dst_port: Some(PROBE_PORT),
        ..Filter::default()
    }
}

fn dispatcher() -> Dispatcher {
    PacketDispatcher::new(HOST, None)
}

#[test]
fn wildcard_filter_matches_anything() {
    assert!(Filter::default().matches(&packet(
        v4(10, 0, 0, 1, 1),
        v4(10, 0, 0, 2, 2),
        None,
        None
    )));
}

#[test]
fn filter_matches_destination_group_and_port() {
    let f = Filter {
        dst_ip: Some(IpAddr::V4(Ipv4Addr::new(224, 0, 0, 251))),
        dst_port: Some(5353),
        ..Filter::default()
    };
    let src = v4(10, 0, 0, 1, 5353);
    assert!(f.matches(&packet(src, v4(224, 0, 0, 251, 5353), None, None)));
    // Wrong group, and wrong port, each miss.
    assert!(!f.matches(&packet(src, v4(224, 0, 0, 252, 5353), None, None)));
    assert!(!f.matches(&packet(src, v4(224, 0, 0, 251, 1900), None, None)));
}

#[test]
fn filter_matches_source_mac_and_excludes_others() {
    let device = MacAddr::from([0x02, 0, 0, 0, 0, 0x01]);
    let f = Filter {
        src_mac: Some(device),
        ..Filter::default()
    };
    let (src, dst) = (v4(10, 0, 0, 1, 5353), v4(10, 0, 0, 2, 5353));
    assert!(f.matches(&packet(src, dst, None, Some(device))));
    // A different device, and a packet without a MAC, both miss.
    let other = MacAddr::from([0x02, 0, 0, 0, 0, 0x02]);
    assert!(!f.matches(&packet(src, dst, None, Some(other))));
    assert!(!f.matches(&packet(src, dst, None, None)));
}

#[test]
fn filter_matches_destination_mac_and_excludes_others() {
    let device = MacAddr::from([0x02, 0, 0, 0, 0, 0x0a]);
    let f = Filter {
        dst_mac: Some(device),
        ..Filter::default()
    };
    let (src, dst) = (v4(10, 0, 0, 1, 5353), v4(10, 0, 0, 2, 5353));
    assert!(f.matches(&packet(src, dst, Some(device), None)));
    let other = MacAddr::from([0x02, 0, 0, 0, 0, 0x0b]);
    assert!(!f.matches(&packet(src, dst, Some(other), None)));
    assert!(!f.matches(&packet(src, dst, None, None)));
}

// An IP filter is family-specific: a v4 criterion can't match a v6 packet, or vice versa.
#[test]
fn filter_ip_does_not_match_across_families() {
    let only_v4 = Filter {
        dst_ip: Some(IpAddr::V4(Ipv4Addr::new(224, 0, 0, 251))),
        ..Filter::default()
    };
    assert!(!only_v4.matches(&packet(
        v6(0xfe80, 1, 5353),
        v6(0xff02, 0xfb, 5353),
        None,
        None
    )));
    let only_v6 = Filter {
        dst_ip: Some(IpAddr::V6(Ipv6Addr::new(0xff02, 0, 0, 0, 0, 0, 0, 0xfb))),
        ..Filter::default()
    };
    assert!(!only_v6.matches(&packet(
        v4(10, 0, 0, 1, 5353),
        v4(224, 0, 0, 251, 5353),
        None,
        None
    )));
}

// A dispatcher with two captures drains a probe off the ingress, routes it through the matching
// reflector, which emits it again on the egress.
#[test]
fn routes_a_captured_packet_to_a_matching_reflector() {
    let (in_wire, out_wire) = (Wire::default(), Wire::default());
    let mut dispatcher = dispatcher();
    let ingress = dispatcher.add_capture(open(3, &in_wire), loopback());
    let egress = dispatcher.add_capture(open(4, &out_wire), loopback());
    // The egress capture resolves to its interface's address.
    assert_eq!(
        dispatcher.egress_addrs(egress).and_then(|a| a.v4()),
        Some(Ipv4Addr::new(127, 0, 0, 1)),
    );
    let seen = Rc::new(RefCell::new(Vec::new()));
    dispatcher.register(
        ingress,
        to_probe_port(),
        Reflector::Echo {
            egress,
            seen: seen.clone(),
        },
    );

    let mut reactor = Reactor::new(());
    in_wire.frames.borrow_mut().push_back(probe_frame());
    drain_and_route(&mut dispatcher, ingress, &mut reactor);

    let records = seen.borrow();
    assert_eq!(records.len(), 1, "the reflector never fired");
    assert_eq!(records[0].0, PROBE, "reflector saw the wrong payload");
    assert!(records[0].1, "the keyed egress send failed");
    let sent = out_wire.sent.borrow();
    let echoed = Packet::parse(LinkType::Ethernet, &sent[0]).unwrap();
    assert_eq!(echoed.payload, PROBE);
    assert_eq!(echoed.dest, v4(127, 0, 0, 1, ECHO_DST_PORT));
}

#[test]
fn unregister_stops_routing_to_a_handler() {
    let mut dispatcher = dispatcher();
    let mut reactor = Reactor::new(());
    let ingress = CaptureKey::from_u64(0);
    let seen = Rc::new(RefCell::new(Vec::new()));
    let key = dispatcher.register(
        ingress,
        Filter::default(),
        Reflector::Recorder { seen: seen.clone() },
    );
    dispatcher.route(ingress, &probe_packet(b"a"), &mut reactor);
    assert_eq!(seen.borrow().len(), 1, "the registration should route once");

    dispatcher.unregister(key);
    dispatcher.route(ingress, &probe_packet(b"b"), &mut reactor);
    assert_eq!(
        seen.borrow().len(),
        1,
        "an unregistered handler is no longer routed to"
    );
    dispatcher.unregister(key); // the now-stale key removes nothing
    assert_eq!(dispatcher.registration_count(), 0);
}

#[test]
fn reports_the_soonest_deadline_and_sweeps_only_the_due_one() {
    let mut dispatcher = dispatcher();
    let mut reactor: TestReactor = Reactor::new(());
    let ingress = CaptureKey::from_u64(0);
    let base = 1_000;
    let due = Rc::new(Cell::new(0u32));
    let future = Rc::new(Cell::new(0u32));
    for (deadline, fired) in [(base, &due), (base + 10, &future)] {
        dispatcher.register(
            ingress,
            Filter::default(),
            Reflector::Ticker {
                deadline: Some(deadline),
                fired: fired.clone(),
            },
        );
    }

    // The dispatcher hands the reactor the soonest registration deadline.
    assert_eq!(dispatcher.next_deadline::<Node, ()>(), Some(base));

    // A sweep fires only the registration whose deadline has come due.
    assert!(dispatcher.on_deadline(base + 1, &mut reactor).is_empty());
    assert_eq!(due.get(), 1, "the due handler is swept");
    assert_eq!(future.get(), 0, "the future handler is not");
}

// A registration created during a route is not offered the packet in flight, whether it appends or
// reuses a freed slot.
#[test]
fn a_mid_route_registration_is_not_fed_the_in_flight_frame() {
    let mut dispatcher = dispatcher();
    let mut reactor = Reactor::new(());
    let ingress = CaptureKey::from_u64(0);
    let late = Rc::new(RefCell::new(Vec::new()));
    dispatcher.register(
        ingress,
        Filter::default(),
        Reflector::Registrar {
            ingress,
            late: late.clone(),
            done: false,
        },
    );

    dispatcher.route(ingress, &probe_packet(b"x"), &mut reactor);
    assert!(
        late.borrow().is_empty(),
        "a registration born this route must not see the in-flight frame",
    );
    // It does receive the next frame.
    dispatcher.route(ingress, &probe_packet(b"y"), &mut reactor);
    assert_eq!(late.borrow().as_slice(), [b"y".to_vec()]);
}

// A reflector that drains its own ingress from inside its call finds the capture taken out; the
// outer drain handles both frames.
#[test]
fn reentrant_drain_on_the_same_ingress_hits_the_guard() {
    let wire = Wire::default();
    let mut dispatcher = dispatcher();
    let ingress = dispatcher.add_capture(open(3, &wire), loopback());
    let calls = Rc::new(Cell::new(0u32));
    dispatcher.register(
        ingress,
        to_probe_port(),
        Reflector::Reentrant {
            ingress,
            calls: calls.clone(),
        },
    );

    let mut reactor = Reactor::new(());
    wire.frames.borrow_mut().push_back(probe_frame());
    wire.frames.borrow_mut().push_back(probe_frame());
    drain_and_route(&mut dispatcher, ingress, &mut reactor);
    assert_eq!(
        calls.get(),
        2,
        "both probes should route via the outer drain; the re-entrant call must no-op"
    );
}

// The dispatcher itself as a handler of the reactor, watching its captures: readiness names the
// exact descriptor, and the tag leads back to the capture.
#[test]
fn reactor_drives_the_dispatcher_to_route_a_packet() {
    let (in_wire, out_wire) = (Wire::default(), Wire::default());
    let mut dispatcher = dispatcher();
    let ingress = dispatcher.add_capture(open(3, &in_wire), loopback());
    let egress = dispatcher.add_capture(open(4, &out_wire), loopback());
    let seen = Rc::new(RefCell::new(Vec::new()));
    dispatcher.register(
        ingress,
        to_probe_port(),
        Reflector::Echo {
            egress,
            seen: seen.clone(),
        },
    );

    let mut reactor = Reactor::new(());
    let watches = dispatcher.capture_watches();
    let (_key, regs) = reactor
        .register_with_fds(Node::Driver(Box::new(dispatcher)), &watches)
        .unwrap();

    in_wire.frames.borrow_mut().push_back(probe_frame());
    let wait = reactor.next_wait().unwrap();
    reactor.after_wait(wait, &[(regs[0], READABLE)], 0);

    let records = seen.borrow();
    assert!(
        !records.is_empty(),
        "the reflector never fired via the reactor"
    );
    assert_eq!(records[0].0, PROBE, "reflector saw the wrong payload");
    assert!(records[0].1, "the keyed egress send failed");
}

// A dispatcher without captures: an unknown key does nothing, and never panics.
#[test]
fn unknown_capture_key_is_a_safe_no_op() {
    let mut dispatcher = dispatcher();
    let mut reactor = Reactor::new(());
    let bogus = CaptureKey::from_u64(999);
    drain_and_route(&mut dispatcher, bogus, &mut reactor);
    assert!(dispatcher.egress_addrs(bogus).is_none());
    assert!(dispatcher.link_type(bogus).is_none());
    assert!(dispatcher.send(bogus).is_none());
    assert!(dispatcher.capture_ifindex(bogus).is_none());
    // A datagram on an unknown egress is the same drop, not a build attempt.
    let dst = v4(255, 255, 255, 255, 9);
    assert!(matches!(
        dispatcher.send_udp_group(bogus, dst, 1, 64, b"x"),
        Ok(None)
    ));
}

// The drain takes out the capture alone: the interface stays, so the ingress's addresses resolve
// while it is drained, and a send to it is dropped.
#[test]
fn ingress_resolves_and_drops_while_taken_out() {
    let wire = Wire::default();
    let mut dispatcher = dispatcher();
    let ingress = dispatcher.add_capture(open(3, &wire), loopback());
    let result = Rc::new(RefCell::new(None));
    dispatcher.register(
        ingress,
        to_probe_port(),
        Reflector::MidDrainProbe {
            ingress,
            result: result.clone(),
        },
    );

    let mut reactor = Reactor::new(());
    wire.frames.borrow_mut().push_back(probe_frame());
    drain_and_route(&mut dispatcher, ingress, &mut reactor);

    let recorded = *result.borrow();
    let (addrs, dropped) = recorded.expect("the probe never fired");
    assert_eq!(
        addrs,
        Some(Ipv4Addr::new(127, 0, 0, 1)),
        "ingress addresses must resolve while the capture is taken out"
    );
    assert!(dropped, "send to the taken-out ingress must drop");
    assert!(dispatcher.send(ingress).is_some());
}

#[test]
fn monitor_fd_is_watched_under_the_sentinel_tag() {
    let dispatcher: Dispatcher = PacketDispatcher::new(HOST, Some(5));
    let watches = dispatcher.capture_watches();
    // No captures were added, so the monitor is the sole watch, under its tag.
    assert_eq!(watches.len(), 1, "only the monitor fd should be watched");
    assert_eq!(
        watches[0],
        (5, MONITOR_TAG),
        "the monitor fd must carry MONITOR_TAG"
    );
    assert_eq!(ready_target(MONITOR_TAG), ReadyTarget::Monitor);
    assert_eq!(
        ready_target(CaptureKey(7).to_u64()),
        ReadyTarget::Capture(CaptureKey(7))
    );
}

// A join on an unknown capture is skipped: not an error or a panic.
#[test]
fn join_group_ignores_an_unknown_capture() {
    let mut dispatcher = dispatcher();
    let group = IpAddr::V4(Ipv4Addr::new(224, 0, 0, 251));
    assert!(dispatcher.join_group(CaptureKey(9999), group).is_none());
}

#[test]
fn a_drain_is_bounded() {
    let mut dispatcher = dispatcher();
    let mut reactor = Reactor::new(());
    let mut draining = Draining::new(CaptureKey(0), LinkType::Ethernet);
    for taken in 0..MAX_FRAMES_PER_EVENT {
        assert_eq!(draining.drained, taken);
        assert!(draining.wants_frame(false));
        // A frame that does not parse counts too.
        assert!(dispatcher.drain_and_route(&mut draining, FrameRead::Frame(&[]), &mut reactor));
    }
    assert!(!draining.wants_frame(false));
    // What is already in the buffer is read to its end: no readiness would announce it again.
    assert!(draining.wants_frame(true));
    let before = draining;
    assert!(!dispatcher.drain_and_route(&mut draining, FrameRead::Empty, &mut reactor));
    assert!(!dispatcher.drain_and_route(&mut draining, FrameRead::Failed, &mut reactor));
    assert_eq!(draining, before);
}

#[test]
fn an_unparsable_frame_is_skipped() {
    let mut dispatcher = dispatcher();
    let mut reactor = Reactor::new(());
    let seen = Rc::new(RefCell::new(Vec::new()));
    let ingress = CaptureKey(0);
    let key = dispatcher.register(
        ingress,
        Filter::default(),
        Reflector::Recorder { seen: seen.clone() },
    );
    assert!(!dispatcher.route_frame(ingress, LinkType::Ethernet, &[0u8; 20], &mut reactor));
    assert!(dispatcher.route_frame(ingress, LinkType::Ethernet, &probe_frame(), &mut reactor));
    assert_eq!(seen.borrow().as_slice(), [PROBE.to_vec()]);
    assert!(dispatcher.is_offered(key, ingress, &probe_packet(b"")));
    assert!(!dispatcher.is_offered(key, CaptureKey(1), &probe_packet(b"")));
    let mut other = key;
    other.0.generation += 1;
    assert!(!dispatcher.is_offered(RegistrationKey(other.0), ingress, &probe_packet(b"")));
}

#[test]
fn an_address_move_evicts_the_proxies_of_its_interface() {
    let mut dispatcher = dispatcher();
    let mut reactor: TestReactor = Reactor::new(());
    let lan = Interface::open("lan".to_owned(), Some(4), loopback().addrs);
    let iot = Interface::open("iot".to_owned(), Some(5), loopback().addrs);
    let source = dispatcher.add_capture(open(3, &Wire::default()), lan);
    let target = dispatcher.add_capture(open(4, &Wire::default()), iot);
    let proxy = reactor.register(Node::Idle);
    let endpoint = SocketAddrV4::new(Ipv4Addr::new(10, 0, 0, 7), 8008);
    dispatcher
        .dial_context()
        .insert(source, target, endpoint, proxy, endpoint, 100);

    // Every report of an interface counts once, and unknown ones not at all.
    let keys = dispatcher.interfaces_to_refresh(&[5, 9, 5]);
    assert_eq!(keys.len(), 1);
    assert_eq!(
        dispatcher.interfaces_to_refresh(&[9, ALL_INTERFACES]).len(),
        2
    );

    // The same addresses leave the proxy alone.
    let same = dispatcher.egress_addrs(target).unwrap();
    assert!(dispatcher
        .refresh_changed_interfaces(&[(keys[0], Some(same))], &mut reactor)
        .is_empty());
    assert!(reactor.is_registered(proxy));

    // A v6 move does too; a v4 move evicts.
    let mut moved = same;
    moved.v6 = Some(Ipv6Addr::new(0xfe80, 0, 0, 0, 0, 0, 0, 1));
    assert!(dispatcher
        .refresh_changed_interfaces(&[(keys[0], Some(moved))], &mut reactor)
        .is_empty());
    moved.v4 = Some(Ipv4Addr::new(10, 0, 0, 2));
    let gone = dispatcher.refresh_changed_interfaces(&[(keys[0], Some(moved))], &mut reactor);
    assert_eq!(gone.len(), 1);
    assert!(!reactor.is_registered(proxy));
    assert_eq!(dispatcher.egress_addrs(target), Some(moved));
    assert_eq!(dispatcher.dial_context().proxy_count(), 0);
}

#[test]
fn a_failed_resolution_evicts_and_keeps_the_last_known_addresses() {
    let mut dispatcher = dispatcher();
    let mut reactor: TestReactor = Reactor::new(());
    let lan = Interface::open("lan".to_owned(), Some(4), loopback().addrs);
    let source = dispatcher.add_capture(open(3, &Wire::default()), lan);
    let proxy = reactor.register(Node::Idle);
    let endpoint = SocketAddrV4::new(Ipv4Addr::new(10, 0, 0, 7), 8008);
    dispatcher
        .dial_context()
        .insert(source, source, endpoint, proxy, endpoint, 100);
    let before = dispatcher.egress_addrs(source);
    let keys = dispatcher.interfaces_to_refresh(&[4]);
    let gone = dispatcher.refresh_changed_interfaces(&[(keys[0], None)], &mut reactor);
    assert_eq!(gone.len(), 1);
    assert!(!reactor.is_registered(proxy));
    assert_eq!(dispatcher.egress_addrs(source), before);
}

#[test]
fn a_mac_filter_never_matches_a_link_without_addresses() {
    let ip = Ipv4Addr::new(127, 0, 0, 1);
    let mut buf = [0u8; 128];
    let n = frame::dlt_null_ipv4_udp(
        HOST,
        SocketAddrV4::new(ip, 1),
        SocketAddrV4::new(ip, 2),
        64,
        PROBE,
        &mut buf,
    )
    .unwrap();
    let packet = Packet::parse(LinkType::DltNull, &buf[..n]).unwrap();
    assert!(Filter::default().matches(&packet));
    let by_source = Filter {
        src_mac: Some(MacAddr::from([0; 6])),
        ..Filter::default()
    };
    assert!(!by_source.matches(&packet));
    let by_destination = Filter {
        dst_mac: Some(MacAddr::from([0; 6])),
        ..Filter::default()
    };
    assert!(!by_destination.matches(&packet));
}

#[test]
fn lost_notifications_ask_for_every_group_again() {
    let results = [
        (InterfaceKey(0), None),
        (InterfaceKey(1), Some(InterfaceAddresses::default())),
    ];
    assert_eq!(interfaces_to_rejoin(&[3, 4], &results), [InterfaceKey(1)]);
    assert_eq!(
        interfaces_to_rejoin(&[3, 0], &results),
        [InterfaceKey(0), InterfaceKey(1)]
    );
}
