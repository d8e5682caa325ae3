//! What reflectors need to be built.

use reflector::config::value::AddressFamily;
use reflector::config::Config;
use reflector::dispatch::interface_table::Capture;
use reflector::dispatch::{CaptureKey, PacketDispatcher};
use reflector::error::{Error, ErrorKind};
use reflector::interface::{Interface, InterfaceAddresses};
use reflector::net::addr::{Ipv4Addr, Ipv6Addr, SocketAddr, SocketAddrV4, SocketAddrV6};
use reflector::net::tcp::{
    accepted, bound_port, device_name_len, pin_egress, sockaddr_v4, Connection, EgressPin,
    IoStatus, PendingErrnos, PinPrimitive,
};
use reflector::net::{ByteOrder, HostFamilies, LinkType};
use reflector::reflector::{
    egress_sources, interfaces_to_open, missing_required_family, require_bidirectional_families,
    BuildError, InterfaceMap, IpFamily,
};

const HOST: HostFamilies = HostFamilies {
    order: ByteOrder::Little,
    inet: 2,
    inet6: 10,
};

const PENDING: PendingErrnos = PendingErrnos {
    again: 11,
    would_block: 35,
    in_progress: 115,
};

fn v4_only() -> InterfaceAddresses {
    InterfaceAddresses::new(None, Some(Ipv4Addr::new(127, 0, 0, 1)), None, None)
}

fn v6_only() -> InterfaceAddresses {
    let v6 = Ipv6Addr::new(0xfe80, 0, 0, 0, 0, 0, 0, 1);
    InterfaceAddresses::new(None, None, Some(v6), None)
}

fn capture(fd: i32) -> Capture<()> {
    Capture {
        fd,
        link: LinkType::Ethernet,
        io: (),
    }
}

#[test]
fn missing_required_family_enforces_the_requires_policy() {
    let none = InterfaceAddresses::default();
    let v4_only = v4_only();
    // Default requires v4 only: a v4-less egress fails on v4, a v6-less one passes.
    assert_eq!(
        missing_required_family(AddressFamily::Default, &none),
        Some(IpFamily::V4)
    );
    assert_eq!(
        missing_required_family(AddressFamily::Default, &v4_only),
        None
    );
    // Dual requires both: a v4-only egress still misses v6.
    assert_eq!(
        missing_required_family(AddressFamily::Dual, &v4_only),
        Some(IpFamily::V6)
    );
    // Ipv6 requires v6.
    assert_eq!(
        missing_required_family(AddressFamily::Ipv6, &v4_only),
        Some(IpFamily::V6)
    );
}

#[test]
fn both_interfaces_must_send_every_required_family() {
    let mut dispatcher: PacketDispatcher<(), ()> = PacketDispatcher::new(HOST, None);
    let lan = dispatcher.add_capture(
        capture(3),
        Interface::open("lan".to_owned(), Some(1), v4_only()),
    );
    let iot = dispatcher.add_capture(
        capture(4),
        Interface::open("iot".to_owned(), Some(2), v6_only()),
    );
    let check = |family, source, target| {
        require_bidirectional_families(&dispatcher, family, source, "src", target, "tgt")
    };
    assert_eq!(check(AddressFamily::Ipv4, lan, lan), Ok(()));
    assert_eq!(
        check(AddressFamily::Ipv4, lan, iot),
        Err(BuildError::RequiredFamilyUnavailable {
            interface: "tgt".to_owned(),
            family: IpFamily::V4
        })
    );
    assert_eq!(
        check(AddressFamily::Ipv6, lan, iot),
        Err(BuildError::RequiredFamilyUnavailable {
            interface: "src".to_owned(),
            family: IpFamily::V6
        })
    );
    // An unknown capture has no address at all.
    let e = check(AddressFamily::Default, CaptureKey(9), lan).unwrap_err();
    assert_eq!(
        e.message(),
        "interface \"src\" cannot send IPv4, required by the reflector"
    );

    let v4 = SocketAddr::V4(SocketAddrV4::new(Ipv4Addr::new(224, 0, 0, 251), 5353));
    let v6 = SocketAddr::V6(SocketAddrV6::new(
        Ipv6Addr::new(0xff02, 0, 0, 0, 0, 0, 0, 0xfb),
        5353,
        0,
        0,
    ));
    assert!(egress_sources(&dispatcher, lan, v4));
    assert!(!egress_sources(&dispatcher, lan, v6));
    assert!(egress_sources(&dispatcher, iot, v6));
    assert!(!egress_sources(&dispatcher, CaptureKey(9), v4));
}

#[test]
fn interfaces_map_to_their_captures() {
    let mut map = InterfaceMap::default();
    assert_eq!(map.key_for("lan"), None);
    map.insert("lan".to_owned(), CaptureKey(0));
    map.insert("iot".to_owned(), CaptureKey(1));
    assert_eq!(map.key_for("iot"), Some(CaptureKey(1)));
    assert_eq!(map.require("lan"), Ok(CaptureKey(0)));
    let e = map.require("wan").unwrap_err();
    assert_eq!(e, BuildError::UnknownInterface("wan".to_owned()));
    assert_eq!(e.message(), "no capture for interface \"wan\"");
}

#[test]
fn every_interface_is_opened_once() {
    let config = Config::from_toml_str(
        r#"
        [reflectors.a]
        source_if = "lan"
        target_if = "iot"
        mdns = true

        [reflectors.b]
        source_if = "iot"
        target_if = "lan"
        ssdp = true

        [reflectors.c]
        source_if = "lan"
        target_if = "guest"
        wol = true
        "#,
    )
    .unwrap();
    assert_eq!(interfaces_to_open(&config), ["lan", "iot", "guest"]);
}

#[test]
fn errors_say_what_failed() {
    let e = Error::capture("lan", "no such device".to_owned());
    assert!(matches!(
        e.kind(),
        ErrorKind::Capture { iface, message } if iface == "lan" && message == "no such device"
    ));
    let e = Error::reflector("tv", BuildError::UnknownInterface("iot".to_owned()));
    assert!(matches!(e.kind(), ErrorKind::Reflector { name, .. } if name == "tv"));
    let e = Error::config(Config::from_toml_str("").unwrap_err());
    assert!(matches!(e.kind(), ErrorKind::Config(_)));
    let e = Error::reactor("interrupted".to_owned());
    assert!(matches!(e.kind(), ErrorKind::Reactor(m) if m == "interrupted"));
}

#[test]
fn egress_is_pinned_as_the_host_can() {
    assert_eq!(pin_egress(PinPrimitive::DeviceName, 0), EgressPin::Skip);
    assert_eq!(
        pin_egress(PinPrimitive::DeviceName, 4),
        EgressPin::ByName { ifindex: 4 }
    );
    assert_eq!(
        pin_egress(PinPrimitive::InterfaceIndex, 4),
        EgressPin::ByIndex { ifindex: 4 }
    );
    assert_eq!(
        pin_egress(PinPrimitive::InterfaceIndex, u32::MAX),
        EgressPin::TooLarge
    );
    assert_eq!(pin_egress(PinPrimitive::Unavailable, 4), EgressPin::Skip);
    assert_eq!(device_name_len(b"eth0\0\0\0"), 4);
    assert_eq!(device_name_len(b"eth0"), 4);
    assert_eq!(device_name_len(b""), 0);
}

#[test]
fn socket_calls_are_sorted() {
    assert_eq!(
        IoStatus::from_syscall(4, 0, PENDING),
        Ok(IoStatus::Ready(4))
    );
    assert_eq!(
        IoStatus::from_syscall(-1, 11, PENDING),
        Ok(IoStatus::WouldBlock)
    );
    assert_eq!(
        IoStatus::from_syscall(-1, 35, PENDING),
        Ok(IoStatus::WouldBlock)
    );
    assert_eq!(IoStatus::from_syscall(-1, 32, PENDING), Err(32));
    assert_eq!(accepted(9, 0, PENDING), Ok(Some(9)));
    assert_eq!(accepted(-1, 11, PENDING), Ok(None));
    assert_eq!(accepted(-1, 24, PENDING), Err(24));

    let done = Connection::started(0, 0, PENDING).unwrap();
    assert!(!done.is_connecting());
    let mut pending = Connection::started(-1, 115, PENDING).unwrap();
    assert!(pending.is_connecting());
    assert_eq!(pending.finish_connect(111), Err(111));
    assert!(pending.is_connecting());
    assert_eq!(pending.finish_connect(0), Ok(()));
    assert!(!pending.is_connecting());
    assert_eq!(Connection::started(-1, 101, PENDING), Err(101));
}

#[test]
fn kernel_socket_addresses_are_read() {
    let storage = [2, 0, 0x1f, 0x90, 192, 168, 1, 50, 0, 0, 0, 0, 0, 0, 0, 0];
    assert_eq!(
        sockaddr_v4(&storage),
        Some(SocketAddrV4::new(Ipv4Addr::new(192, 168, 1, 50), 8080))
    );
    assert_eq!(sockaddr_v4(&storage[..7]), None);
    assert_eq!(bound_port(&storage), Some(8080));
    assert_eq!(bound_port(&storage[..3]), None);
}
