//! Packet dispatch: the routing layer between captures and reflectors.
//!
//! [`PacketDispatcher`] owns every interface capture, each linked to its interface and addressed by
//! a `Copy` [`CaptureKey`], and the routing registrations. When a capture is readable it is taken
//! out of the table and drained; each parsed packet is offered to every registration whose
//! [`Filter`] matches, and a matching reflector re-emits on another interface by key. Taking the
//! ingress capture out keeps a reflector from draining it again from inside its own call; a send to
//! a capture that is out is a drop.

pub mod datagram;
pub mod dial_context;
pub mod interface_table;
pub mod multicast;

use crate::dispatch::datagram::{build_udp, ethernet_dst, DatagramError};
use crate::dispatch::dial_context::DialContext;
use crate::dispatch::interface_table::{Capture, InterfaceKey, InterfaceTable};
use crate::interface::{Interface, InterfaceAddresses};
use crate::net::addr::{IpAddr, SocketAddr};
use crate::net::mac::MacAddr;
use crate::net::packet::Packet;
use crate::net::{HostFamilies, LinkType};
use crate::reactor::arena::{Arena, Key};
use crate::reactor::{Reactor, Unregistered};
use vstd::prelude::*;

verus! {

/// The most frames drained per readable event before yielding, so that a flooded interface cannot
/// starve the others.
pub const MAX_FRAMES_PER_EVENT: u32 = 64;

/// The tag of the address monitor's watch. A capture's tag is its 32-bit key.
pub const MONITOR_TAG: u64 = 0xffff_ffff_ffff_ffff;

/// The size of the frame-build buffer; a datagram of standard size fits.
pub const SCRATCH_LEN: usize = 2048;

/// A handle to a capture the dispatcher owns: an index into the interface table. Captures are
/// insert-only, so the index is a stable identity.
#[derive(Clone, Copy, PartialEq, Eq, Hash, Debug, Structural)]
pub struct CaptureKey(pub u32);

impl CaptureKey {
    /// The key as the reactor's opaque tag.
    pub fn to_u64(self) -> (packed: u64)
        ensures
            packed == self.0,
            packed != MONITOR_TAG,
    {
        self.0 as u64
    }

    /// The key that a tag holds: its low 32 bits.
    pub fn from_u64(packed: u64) -> (key: Self)
        ensures
            key.0 == packed % 0x1_0000_0000,
    {
        assert(packed as u32 == packed % 0x1_0000_0000) by (bit_vector);
        CaptureKey(packed as u32)
    }
}

/// A tag gives back the key it was made from.
pub proof fn law_tags_round_trip(key: CaptureKey)
    ensures
        CaptureKey(((key.0 as u64) % 0x1_0000_0000) as u32) == key,
{
}

/// What a readable descriptor's tag stands for.
#[derive(Clone, Copy, PartialEq, Eq, Debug, Structural)]
pub enum ReadyTarget {
    /// The address monitor.
    Monitor,
    /// A capture.
    Capture(CaptureKey),
}

/// What a tag stands for.
pub fn ready_target(user_data: u64) -> (target: ReadyTarget)
    ensures
        target == if user_data == MONITOR_TAG {
            ReadyTarget::Monitor
        } else {
            ReadyTarget::Capture(CaptureKey((user_data % 0x1_0000_0000) as u32))
        },
{
    if user_data == MONITOR_TAG {
        ReadyTarget::Monitor
    } else {
        ReadyTarget::Capture(CaptureKey::from_u64(user_data))
    }
}

/// A handle to a routing registration.
#[derive(Clone, Copy, PartialEq, Eq, Hash, Debug, Structural)]
pub struct RegistrationKey(pub Key);

/// A packet filter: an unset field matches anything. A MAC field never matches a packet without L2
/// addresses.
#[derive(Clone, Copy, Debug)]
pub struct Filter {
    pub src_ip: Option<IpAddr>,
    pub dst_ip: Option<IpAddr>,
    pub src_port: Option<u16>,
    pub dst_port: Option<u16>,
    pub src_mac: Option<MacAddr>,
    pub dst_mac: Option<MacAddr>,
}

impl Default for Filter {
    /// The filter that matches anything.
    fn default() -> (filter: Self)
        ensures
            filter == (Filter {
                src_ip: None,
                dst_ip: None,
                src_port: None,
                dst_port: None,
                src_mac: None,
                dst_mac: None,
            }),
    {
        Filter {
            src_ip: None,
            dst_ip: None,
            src_port: None,
            dst_port: None,
            src_mac: None,
            dst_mac: None,
        }
    }
}

/// Whether a field admits a value: it is unset, or is that value.
pub open spec fn admits<T>(field: Option<T>, value: T) -> bool {
    field matches Some(wanted) ==> wanted == value
}

impl Filter {
    /// Whether a packet satisfies every set field.
    pub open spec fn accepts(self, p: crate::net::packet::PacketView) -> bool {
        &&& admits(self.src_ip, p.source.spec_ip())
        &&& admits(self.dst_ip, p.dest.spec_ip())
        &&& admits(self.src_port, p.source.spec_port())
        &&& admits(self.dst_port, p.dest.spec_port())
        &&& self.src_mac is Some ==> p.src_mac == self.src_mac
        &&& self.dst_mac is Some ==> p.dst_mac == self.dst_mac
    }

    /// Whether `p` satisfies every set field.
    pub fn matches(&self, p: &Packet) -> (r: bool)
        ensures
            r == self.accepts(p@),
    {
        ip_admits(self.src_ip, p.source.ip()) && ip_admits(self.dst_ip, p.dest.ip())
            && port_admits(self.src_port, p.source.port()) && port_admits(
            self.dst_port,
            p.dest.port(),
        ) && mac_admits(self.src_mac, p.src_mac) && mac_admits(self.dst_mac, p.dst_mac)
    }
}

/// A filter on a MAC address accepts no packet of a link without L2 addresses.
pub proof fn law_mac_filters_need_link_addresses(filter: Filter, frame: Seq<u8>)
    requires
        filter.src_mac is Some || filter.dst_mac is Some,
    ensures
        crate::net::packet::parsed(LinkType::DltNull, frame) matches Ok(packet)
            ==> !filter.accepts(packet),
{
}

fn ip_admits(field: Option<IpAddr>, value: IpAddr) -> (r: bool)
    ensures
        r == admits(field, value),
{
    match field {
        Some(wanted) => wanted == value,
        None => true,
    }
}

fn port_admits(field: Option<u16>, value: u16) -> (r: bool)
    ensures
        r == admits(field, value),
{
    match field {
        Some(wanted) => wanted == value,
        None => true,
    }
}

fn mac_admits(field: Option<MacAddr>, value: Option<MacAddr>) -> (r: bool)
    ensures
        r == (field is Some ==> value == field),
{
    match field {
        Some(wanted) => match value {
            Some(value) => wanted == value,
            None => false,
        },
        None => true,
    }
}

/// A reflector: re-emits matching packets through the dispatcher, and may register further work.
/// `C` is what the program reads frames through, `R` and `P` are the reactor's handlers and what it
/// keeps beside them.
pub trait PacketHandler<C, R, P>: Sized {
    /// The instant at which the reflector's timer fires; one without a timer has none.
    open spec fn deadline(&self) -> Option<u64> {
        None
    }

    /// What the packet callback does: from the reflector, the dispatcher and the reactor before the
    /// call to those after it.
    open spec fn takes(
        self,
        packet: crate::net::packet::PacketView,
        world: World<C, Self, R, P>,
        after: Self,
        world_after: World<C, Self, R, P>,
    ) -> bool {
        true
    }

    /// What the deadline callback does.
    open spec fn fires(
        self,
        now: u64,
        world: World<C, Self, R, P>,
        after: Self,
        world_after: World<C, Self, R, P>,
    ) -> bool {
        true
    }

    /// A packet that the registration's filter accepts has been captured.
    fn on_packet(
        &mut self,
        packet: &Packet,
        dispatcher: &mut PacketDispatcher<C, Self>,
        reactor: &mut Reactor<R, P>,
    )
        requires
            old(dispatcher).wf(),
            old(reactor).wf(),
        ensures
            final(dispatcher).wf(),
            final(reactor).wf(),
            old(self).takes(
                packet@,
                World { dispatcher: *old(dispatcher), reactor: *old(reactor) },
                *final(self),
                World { dispatcher: *final(dispatcher), reactor: *final(reactor) },
            ),
    ;

    /// The earliest instant at which the reflector wants its deadline callback, or `None`.
    fn next_deadline(&self) -> (at: Option<u64>)
        ensures
            at == self.deadline(),
    ;

    /// `now` has reached the reflector's deadline.
    fn on_deadline(
        &mut self,
        now: u64,
        dispatcher: &mut PacketDispatcher<C, Self>,
        reactor: &mut Reactor<R, P>,
    )
        requires
            old(dispatcher).wf(),
            old(reactor).wf(),
        ensures
            final(dispatcher).wf(),
            final(reactor).wf(),
            old(self).fires(
                now,
                World { dispatcher: *old(dispatcher), reactor: *old(reactor) },
                *final(self),
                World { dispatcher: *final(dispatcher), reactor: *final(reactor) },
            ),
    ;
}

/// What a reflector's callback is handed: the dispatcher that calls it, and the reactor.
pub struct World<C, H, R, P> {
    pub dispatcher: PacketDispatcher<C, H>,
    pub reactor: Reactor<R, P>,
}

/// One routing registration: the ingress it applies to, its filter, and its reflector, which is
/// absent only while it is out for its own call.
pub struct Registration<H> {
    pub ingress: CaptureKey,
    pub filter: Filter,
    pub handler: Option<H>,
}

/// Whether a registration is offered a packet captured on `ingress`.
pub open spec fn applies<H>(
    registration: Registration<H>,
    ingress: CaptureKey,
    packet: crate::net::packet::PacketView,
) -> bool {
    registration.ingress == ingress && registration.filter.accepts(packet)
}

/// A frame to inject, and the capture to inject it on.
pub struct Injection<'a, C> {
    pub capture: &'a Capture<C>,
    pub frame: &'a [u8],
}

/// Owns the interface table and the routing registrations.
pub struct PacketDispatcher<C, H> {
    table: InterfaceTable<C>,
    registrations: Arena<Registration<H>>,
    dial: DialContext,
    host: HostFamilies,
    monitor: Option<i32>,
    scratch: Vec<u8>,
}

impl<C, H> PacketDispatcher<C, H> {
    /// The interfaces and captures.
    pub closed spec fn spec_table(&self) -> InterfaceTable<C> {
        self.table
    }

    /// The routing registrations.
    pub closed spec fn registrations(&self) -> Map<Key, Registration<H>> {
        self.registrations@
    }

    /// The DIAL proxies.
    pub closed spec fn spec_dial(&self) -> DialContext {
        self.dial
    }

    /// How the host writes address families.
    pub closed spec fn spec_host(&self) -> HostFamilies {
        self.host
    }

    /// The address monitor's descriptor, where it is open.
    pub closed spec fn spec_monitor(&self) -> Option<i32> {
        self.monitor
    }

    /// The key that the next registration gets.
    pub closed spec fn next_registration_key(&self) -> RegistrationKey {
        RegistrationKey(self.registrations.next_key())
    }

    /// Whether another registration fits.
    pub closed spec fn registration_room(&self) -> bool {
        self.registrations.spec_has_room()
    }

    /// The table, the registrations and the DIAL registry are well formed.
    pub closed spec fn wf(&self) -> bool {
        &&& self.table.wf()
        &&& self.registrations.wf()
        &&& self.dial.wf()
        &&& self.scratch@.len() == SCRATCH_LEN
    }

    /// Whether nothing but the routing registrations differs.
    pub open spec fn same_but_registrations(&self, other: &Self) -> bool {
        &&& self.spec_table() == other.spec_table()
        &&& self.spec_dial() == other.spec_dial()
        &&& self.spec_host() == other.spec_host()
        &&& self.spec_monitor() == other.spec_monitor()
    }

    /// A dispatcher with no captures. `monitor` is the address monitor's descriptor; without one
    /// addresses stay as first resolved.
    pub fn new(host: HostFamilies, monitor: Option<i32>) -> (dispatcher: Self)
        ensures
            dispatcher.wf(),
            dispatcher.spec_table().interfaces() == Seq::<interface_table::InterfaceView>::empty(),
            dispatcher.spec_table().captures() == Seq::<Option<Capture<C>>>::empty(),
            dispatcher.spec_table().links() == Seq::<InterfaceKey>::empty(),
            dispatcher.registrations() == Map::<Key, Registration<H>>::empty(),
            dispatcher.spec_dial()@ == Seq::<dial_context::DialEntry>::empty(),
            dispatcher.spec_host() == host,
            dispatcher.spec_monitor() == monitor,
    {
        PacketDispatcher {
            table: InterfaceTable::new(),
            registrations: Arena::new(),
            dial: DialContext::new(),
            host,
            monitor,
            scratch: vec![0u8; SCRATCH_LEN],
        }
    }

    /// The interfaces and captures.
    pub fn table(&self) -> (table: &InterfaceTable<C>)
        requires
            self.wf(),
        ensures
            *table == self.spec_table(),
            table.wf(),
    {
        &self.table
    }

    /// The DIAL proxies, shared by the SSDP advertisement and response reflectors. A caller leaves
    /// the registry well formed.
    pub fn dial_context(&mut self) -> (dial: &mut DialContext)
        requires
            old(self).wf(),
        ensures
            *dial == old(self).spec_dial(),
            dial.wf(),
            final(self).spec_dial() == *final(dial),
            final(dial).wf() ==> final(self).wf(),
            final(self).spec_table() == old(self).spec_table(),
            final(self).registrations() == old(self).registrations(),
            final(self).spec_host() == old(self).spec_host(),
            final(self).spec_monitor() == old(self).spec_monitor(),
    {
        &mut self.dial
    }

    /// Hands a capture to the dispatcher; the key is how reflectors send on it. Captures on the
    /// same interface share one record: `interface` is added only where its name is new.
    pub fn add_capture(&mut self, capture: Capture<C>, interface: Interface) -> (key: CaptureKey)
        requires
            old(self).wf(),
            old(self).spec_table().interfaces().len() <= u32::MAX,
            old(self).spec_table().captures().len() <= u32::MAX,
        ensures
            final(self).wf(),
            key.0 == old(self).spec_table().captures().len(),
            final(self).spec_table().captures() == old(self).spec_table().captures().push(
                Some(capture),
            ),
            ({
                let before = old(self).spec_table();
                let after = final(self).spec_table();
                match interface_table::named(before.interfaces(), interface.name@) {
                    Some(i) => {
                        &&& after.interfaces() == before.interfaces()
                        &&& after.links() == before.links().push(InterfaceKey(i as u32))
                    },
                    None => {
                        &&& after.interfaces() == before.interfaces().push(
                            interface_table::InterfaceView {
                                name: interface.name@,
                                ifindex: interface.ifindex,
                                addrs: interface.addrs,
                                groups: Seq::empty(),
                            },
                        )
                        &&& after.links() == before.links().push(
                            InterfaceKey(before.interfaces().len() as u32),
                        )
                    },
                }
            }),
            final(self).spec_table().interface_behind(key) matches Some(behind) && behind.name
                == interface.name@,
            final(self).registrations() == old(self).registrations(),
            final(self).spec_dial() == old(self).spec_dial(),
            final(self).spec_host() == old(self).spec_host(),
            final(self).spec_monitor() == old(self).spec_monitor(),
    {
        let ghost name = interface.name@;
        proof {
            interface_table::lemma_named(self.table.interfaces(), name);
        }
        let behind = self.table.find_or_add_interface(interface);
        self.table.add_capture(capture, behind)
    }

    /// Each capture's descriptor and tag, and the address monitor's where it is open.
    pub fn capture_watches(&self) -> (watches: Vec<(i32, u64)>)
        requires
            self.wf(),
        ensures
            ({
                let captures = interface_table::watches_of(
                    self.spec_table().captures(),
                    self.spec_table().captures().len(),
                );
                watches@ == match self.spec_monitor() {
                    Some(fd) => captures.push((fd, MONITOR_TAG)),
                    None => captures,
                }
            }),
    {
        let mut watches = self.table.capture_watches();
        match self.monitor {
            Some(fd) => {
                watches.push((fd, MONITOR_TAG));
            },
            None => {},
        }
        watches
    }

    /// Whether another registration fits.
    pub fn has_registration_room(&self) -> (room: bool)
        ensures
            room == self.registration_room(),
    {
        self.registrations.has_room()
    }

    /// Registers a reflector, gated by `filter`, for packets captured on `ingress`.
    pub fn register(&mut self, ingress: CaptureKey, filter: Filter, handler: H) -> (key:
        RegistrationKey)
        requires
            old(self).wf(),
            old(self).registration_room(),
        ensures
            final(self).wf(),
            key == old(self).next_registration_key(),
            !old(self).registrations().dom().contains(key.0),
            final(self).registrations() == old(self).registrations().insert(
                key.0,
                Registration { ingress, filter, handler: Some(handler) },
            ),
            final(self).same_but_registrations(old(self)),
    {
        RegistrationKey(
            self.registrations.insert(Registration { ingress, filter, handler: Some(handler) }),
        )
    }

    /// Removes a registration; a stale key removes nothing.
    pub fn unregister(&mut self, key: RegistrationKey)
        requires
            old(self).wf(),
        ensures
            final(self).wf(),
            final(self).registrations() == old(self).registrations().remove(key.0),
            final(self).same_but_registrations(old(self)),
    {
        let _ = self.registrations.remove(key.0);
    }

    /// How many registrations are live.
    pub fn registration_count(&self) -> (n: usize)
        requires
            self.wf(),
        ensures
            n == self.registrations().dom().len(),
            self.registrations().dom().finite(),
    {
        let keys = self.registrations.keys();
        proof {
            assert(keys@.no_duplicates());
            keys@.unique_seq_to_set();
            assert(keys@.to_set() =~= self.registrations@.dom());
        }
        keys.len()
    }

    /// Records `group` for the interface behind `capture`, to be joined now and again after each
    /// address change. `None`, with nothing recorded, where the capture is unknown.
    pub fn join_group(&mut self, capture: CaptureKey, group: IpAddr) -> (on: Option<InterfaceKey>)
        requires
            old(self).wf(),
        ensures
            final(self).wf(),
            capture.0 >= old(self).spec_table().links().len() ==> on is None && *final(self)
                == *old(self),
            capture.0 < old(self).spec_table().links().len() ==> {
                let interface = old(self).spec_table().links()[capture.0 as int];
                let was = old(self).spec_table().interfaces()[interface.0 as int];
                &&& on == Some(interface)
                &&& final(self).spec_table().interfaces() == old(self).spec_table().interfaces().update(
                    interface.0 as int,
                    interface_table::InterfaceView {
                        groups: multicast::joined(was.groups, group),
                        ..was
                    },
                )
                &&& final(self).spec_table().captures() == old(self).spec_table().captures()
                &&& final(self).spec_table().links() == old(self).spec_table().links()
                &&& final(self).registrations() == old(self).registrations()
                &&& final(self).spec_dial() == old(self).spec_dial()
                &&& final(self).spec_host() == old(self).spec_host()
                &&& final(self).spec_monitor() == old(self).spec_monitor()
            },
    {
        match self.table.interface_of(capture) {
            None => None,
            Some(interface) => {
                self.table.join_on(interface, group);
                Some(interface)
            },
        }
    }

    /// The present capture to inject a frame on. `None` where the key is unknown or the capture is
    /// out: the frame is then dropped.
    pub fn send(&self, egress: CaptureKey) -> (capture: Option<&Capture<C>>)
        requires
            self.wf(),
        ensures
            match capture {
                Some(found) => egress.0 < self.spec_table().captures().len()
                    && self.spec_table().captures()[egress.0 as int] == Some(*found),
                None => egress.0 >= self.spec_table().captures().len()
                    || self.spec_table().captures()[egress.0 as int] is None,
            },
    {
        self.table.capture(egress)
    }

    /// The current source addresses of the interface behind `egress`.
    pub fn egress_addrs(&self, egress: CaptureKey) -> (addrs: Option<InterfaceAddresses>)
        requires
            self.wf(),
        ensures
            addrs == match self.spec_table().interface_behind(egress) {
                Some(iface) => Some(iface.addrs),
                None => None,
            },
    {
        self.table.egress_addrs(egress)
    }

    /// The kernel index of the interface behind `capture`.
    pub fn capture_ifindex(&self, capture: CaptureKey) -> (ifindex: Option<u32>)
        requires
            self.wf(),
        ensures
            ifindex == match self.spec_table().interface_behind(capture) {
                Some(iface) => Some(iface.ifindex),
                None => None,
            },
    {
        self.table.ifindex_of(capture)
    }

    /// The link-layer framing of the capture behind `egress`; `None` where the key is unknown or
    /// the capture is out.
    pub fn link_type(&self, egress: CaptureKey) -> (link: Option<LinkType>)
        requires
            self.wf(),
        ensures
            link == link_of(self.spec_table().captures(), egress),
    {
        match self.table.capture(egress) {
            Some(capture) => Some(capture.link),
            None => None,
        }
    }
}

/// The link-layer framing of a present capture.
pub open spec fn link_of<C>(captures: Seq<Option<Capture<C>>>, egress: CaptureKey) -> Option<
    LinkType,
> {
    if egress.0 < captures.len() && captures[egress.0 as int] is Some {
        Some(captures[egress.0 as int]->0.link)
    } else {
        None
    }
}

/// What a read of a capture yields while it is drained.
#[derive(Clone, Copy, Debug)]
pub enum FrameRead<'a> {
    /// A frame.
    Frame(&'a [u8]),
    /// Nothing more is ready.
    Empty,
    /// The read failed; what is left of the batch is abandoned.
    Failed,
}

/// The drain of a capture that is out of the table: where it reads, and how many frames it has
/// taken.
#[derive(Clone, Copy, PartialEq, Eq, Debug, Structural)]
pub struct Draining {
    pub ingress: CaptureKey,
    pub link: LinkType,
    pub drained: u32,
}

impl Draining {
    /// A drain that has taken no frame.
    pub fn new(ingress: CaptureKey, link: LinkType) -> (draining: Self)
        ensures
            draining == (Draining { ingress, link, drained: 0 }),
    {
        Draining { ingress, link, drained: 0 }
    }

    /// Whether the drain reads another frame: it stops at the cap, unless frames already read from
    /// the kernel are waiting, for which no further event would come.
    pub fn wants_frame(&self, has_buffered: bool) -> (more: bool)
        ensures
            more == (self.drained < MAX_FRAMES_PER_EVENT || has_buffered),
    {
        self.drained < MAX_FRAMES_PER_EVENT || has_buffered
    }

    /// The drain with one more frame taken; the count stays at the largest it can hold.
    pub open spec fn counted(self) -> Draining {
        Draining {
            drained: if self.drained < u32::MAX {
                (self.drained + 1) as u32
            } else {
                self.drained
            },
            ..self
        }
    }
}

impl<C, H> PacketDispatcher<C, H> {
    /// Takes the capture of a readable descriptor out for its drain. `None`, with nothing changed,
    /// where the key is unknown or the capture is out already.
    pub fn begin_drain(&mut self, ingress: CaptureKey) -> (capture: Option<Capture<C>>)
        requires
            old(self).wf(),
        ensures
            final(self).wf(),
            ingress.0 >= old(self).spec_table().captures().len() ==> {
                &&& capture is None
                &&& final(self).spec_table().captures() == old(self).spec_table().captures()
            },
            ingress.0 < old(self).spec_table().captures().len() ==> {
                &&& capture == old(self).spec_table().captures()[ingress.0 as int]
                &&& final(self).spec_table().captures() == old(self).spec_table().captures().update(
                    ingress.0 as int,
                    None,
                )
            },
            final(self).spec_table().interfaces() == old(self).spec_table().interfaces(),
            final(self).spec_table().links() == old(self).spec_table().links(),
            final(self).registrations() == old(self).registrations(),
            final(self).spec_dial() == old(self).spec_dial(),
            final(self).spec_host() == old(self).spec_host(),
            final(self).spec_monitor() == old(self).spec_monitor(),
    {
        self.table.take(ingress)
    }

    /// Puts a drained capture back, and says whether its slot was there.
    pub fn finish_drain(&mut self, ingress: CaptureKey, capture: Capture<C>) -> (restored: bool)
        requires
            old(self).wf(),
        ensures
            final(self).wf(),
            restored == (ingress.0 < old(self).spec_table().captures().len()),
            restored ==> final(self).spec_table().captures()
                == old(self).spec_table().captures().update(ingress.0 as int, Some(capture)),
            !restored ==> final(self).spec_table().captures() == old(self).spec_table().captures(),
            final(self).spec_table().interfaces() == old(self).spec_table().interfaces(),
            final(self).spec_table().links() == old(self).spec_table().links(),
            final(self).registrations() == old(self).registrations(),
            final(self).spec_dial() == old(self).spec_dial(),
            final(self).spec_host() == old(self).spec_host(),
            final(self).spec_monitor() == old(self).spec_monitor(),
    {
        self.table.restore(ingress, capture)
    }

    /// The frame for a UDP datagram from the egress's own address, and the capture to inject it
    /// on. `dst_mac` is the L2 destination, so that this serves unicast, multicast and broadcast
    /// alike. `Ok(None)`, a drop, where the egress is unknown or out.
    pub fn send_udp(
        &mut self,
        egress: CaptureKey,
        dst: SocketAddr,
        dst_mac: MacAddr,
        src_port: u16,
        ttl: u8,
        payload: &[u8],
    ) -> (r: Result<Option<Injection<'_, C>>, DatagramError>)
        requires
            old(self).wf(),
        ensures
            final(self).wf(),
            final(self).registrations() == old(self).registrations(),
            final(self).same_but_registrations(old(self)),
            sent(
                *old(self),
                egress,
                dst,
                dst_mac,
                src_port,
                ttl,
                payload@,
                r,
            ),
    {
        let addrs = match self.table.egress_addrs(egress) {
            Some(addrs) => addrs,
            None => {
                return Ok(None);
            },
        };
        let link = match self.link_type(egress) {
            Some(link) => link,
            None => {
                return Ok(None);
            },
        };
        let built = build_udp(
            &addrs,
            link,
            self.host,
            dst,
            dst_mac,
            src_port,
            ttl,
            payload,
            self.scratch.as_mut_slice(),
        );
        let n: usize = match built {
            Ok(n) => n,
            Err(e) => {
                return Err(e);
            },
        };
        match self.table.capture(egress) {
            Some(capture) => {
                let frame = vstd::slice::slice_subrange(self.scratch.as_slice(), 0, n);
                proof {
                    let bytes = datagram::datagram_frame(
                        addrs,
                        link,
                        self.host,
                        dst,
                        dst_mac,
                        src_port,
                        ttl,
                        payload@,
                        SCRATCH_LEN as int,
                    )->Ok_0;
                    assert(frame@ =~= bytes);
                }
                Ok(Some(Injection { capture, frame }))
            },
            None => Ok(None),
        }
    }

    /// As [`PacketDispatcher::send_udp`], to a broadcast or multicast destination, whose L2 address
    /// follows from it; a unicast destination has none, and is an error.
    pub fn send_udp_group(
        &mut self,
        egress: CaptureKey,
        dst: SocketAddr,
        src_port: u16,
        ttl: u8,
        payload: &[u8],
    ) -> (r: Result<Option<Injection<'_, C>>, DatagramError>)
        requires
            old(self).wf(),
        ensures
            final(self).wf(),
            final(self).registrations() == old(self).registrations(),
            final(self).same_but_registrations(old(self)),
            match datagram::group_mac(dst.spec_ip()) {
                None => r is Err && r->Err_0 is UnicastDestination,
                Some(octets) => sent(
                    *old(self),
                    egress,
                    dst,
                    crate::net::mac::mac_from(octets),
                    src_port,
                    ttl,
                    payload@,
                    r,
                ),
            },
    {
        match ethernet_dst(dst.ip()) {
            Err(e) => Err(e),
            Ok(dst_mac) => {
                proof {
                    crate::net::mac::lemma_mac_from(dst_mac);
                }
                self.send_udp(egress, dst, dst_mac, src_port, ttl, payload)
            },
        }
    }
}

/// Whether `r` is what a send of the datagram yields: nothing where the egress is unknown or out,
/// else the frame built from the egress's addresses, on the egress's capture.
pub open spec fn sent<C, H>(
    dispatcher: PacketDispatcher<C, H>,
    egress: CaptureKey,
    dst: SocketAddr,
    dst_mac: MacAddr,
    src_port: u16,
    ttl: u8,
    payload: Seq<u8>,
    r: Result<Option<Injection<'_, C>>, DatagramError>,
) -> bool {
    match (
        dispatcher.spec_table().interface_behind(egress),
        link_of(dispatcher.spec_table().captures(), egress),
    ) {
        (Some(iface), Some(link)) => match datagram::datagram_frame(
            iface.addrs,
            link,
            dispatcher.spec_host(),
            dst,
            dst_mac,
            src_port,
            ttl,
            payload,
            SCRATCH_LEN as int,
        ) {
            Ok(bytes) => {
                &&& r matches Ok(Some(injection))
                &&& injection.frame@ == bytes
                &&& dispatcher.spec_table().captures()[egress.0 as int] == Some(*injection.capture)
            },
            Err(e) => r is Err && r->Err_0 == e,
        },
        _ => r matches Ok(None),
    }
}

/// Whether `after` is `before` but for the reflector of one registration, which is `handler`.
pub open spec fn only_handler_changed<H>(
    before: Map<Key, Registration<H>>,
    after: Map<Key, Registration<H>>,
    key: Key,
    handler: Option<H>,
) -> bool {
    &&& before.dom().contains(key)
    &&& after == before.insert(key, Registration { handler, ..before[key] })
}

/// Whether the reflector of a registration is present and due at `now`.
pub open spec fn is_due<C, R, P, H: PacketHandler<C, R, P>>(
    registration: Registration<H>,
    now: u64,
) -> bool {
    registration.handler matches Some(h) && h.deadline() matches Some(at) && at <= now
}

/// Whether `at` is the soonest deadline of the present reflectors; `None` where none has one.
pub open spec fn is_soonest<C, R, P, H: PacketHandler<C, R, P>>(
    registrations: Map<Key, Registration<H>>,
    at: Option<u64>,
) -> bool {
    &&& forall|k: Key| #[trigger]
        registrations.dom().contains(k) && registrations[k].handler is Some
            && registrations[k].handler->0.deadline() is Some ==> at is Some && at->0
            <= registrations[k].handler->0.deadline()->0
    &&& at is Some ==> exists|k: Key| #[trigger]
        registrations.dom().contains(k) && registrations[k].handler is Some
            && registrations[k].handler->0.deadline() == at
}

/// The earlier of two instants, either of which may be absent.
pub open spec fn earlier(a: Option<u64>, b: Option<u64>) -> Option<u64> {
    match (a, b) {
        (Some(x), Some(y)) => if y < x {
            b
        } else {
            a
        },
        (None, _) => b,
        (_, None) => a,
    }
}

/// Whether `out` is `before` with the reflector under `key` taken out of its slot.
pub open spec fn taken_out<C, H>(
    before: PacketDispatcher<C, H>,
    key: Key,
    out: PacketDispatcher<C, H>,
) -> bool {
    &&& out.same_but_registrations(&before)
    &&& only_handler_changed(before.registrations(), out.registrations(), key, None)
}

/// Whether `after` is `before` with `handler` returned to the slot under `key`, or dropped where
/// that is gone.
pub open spec fn returned<C, H>(
    before: PacketDispatcher<C, H>,
    key: Key,
    handler: H,
    after: PacketDispatcher<C, H>,
) -> bool {
    &&& after.same_but_registrations(&before)
    &&& if before.registrations().dom().contains(key) {
        only_handler_changed(before.registrations(), after.registrations(), key, Some(handler))
    } else {
        after.registrations() == before.registrations()
    }
}

/// The states that one callback passes through: the dispatcher without the reflector, then all of
/// it after the callback.
pub struct CallSteps<C, H, R, P> {
    pub out: PacketDispatcher<C, H>,
    pub handler: H,
    pub world: World<C, H, R, P>,
}

/// Whether the packet goes to the reflector under `key` between `before` and `after`, through
/// `steps`.
pub open spec fn packet_goes<C, R, P, H: PacketHandler<C, R, P>>(
    before: World<C, H, R, P>,
    key: Key,
    packet: crate::net::packet::PacketView,
    after: World<C, H, R, P>,
    steps: CallSteps<C, H, R, P>,
) -> bool {
    &&& taken_out(before.dispatcher, key, steps.out)
    &&& before.dispatcher.registrations()[key].handler->0.takes(
        packet,
        World { dispatcher: steps.out, reactor: before.reactor },
        steps.handler,
        steps.world,
    )
    &&& returned(steps.world.dispatcher, key, steps.handler, after.dispatcher)
    &&& after.reactor == steps.world.reactor
}

/// Whether the deadline callback of the reflector under `key` ran between `before` and `after`,
/// through `steps`.
pub open spec fn fire_goes<C, R, P, H: PacketHandler<C, R, P>>(
    before: World<C, H, R, P>,
    key: Key,
    now: u64,
    after: World<C, H, R, P>,
    steps: CallSteps<C, H, R, P>,
) -> bool {
    &&& taken_out(before.dispatcher, key, steps.out)
    &&& before.dispatcher.registrations()[key].handler->0.fires(
        now,
        World { dispatcher: steps.out, reactor: before.reactor },
        steps.handler,
        steps.world,
    )
    &&& returned(steps.world.dispatcher, key, steps.handler, after.dispatcher)
    &&& after.reactor == steps.world.reactor
}

/// Whether nothing was changed.
pub open spec fn unchanged<C, H, R, P>(
    before: World<C, H, R, P>,
    after: World<C, H, R, P>,
) -> bool {
    &&& after.dispatcher.same_but_registrations(&before.dispatcher)
    &&& after.dispatcher.registrations() == before.dispatcher.registrations()
    &&& after.reactor == before.reactor
}

/// Whether the registration under `key` was offered a packet between `before` and `after`: its
/// reflector gets it where the registration is live, applies, and is not out for a call; otherwise
/// nothing changes.
pub open spec fn offered<C, R, P, H: PacketHandler<C, R, P>>(
    before: World<C, H, R, P>,
    key: Key,
    ingress: CaptureKey,
    packet: crate::net::packet::PacketView,
    after: World<C, H, R, P>,
) -> bool {
    let registrations = before.dispatcher.registrations();
    if registrations.dom().contains(key) && applies(registrations[key], ingress, packet)
        && registrations[key].handler is Some {
        exists|steps: CallSteps<C, H, R, P>| #[trigger]
            packet_goes(before, key, packet, after, steps)
    } else {
        unchanged(before, after)
    }
}

/// Whether the registrations under `keys` were offered a packet one after the other between
/// `before` and `after`.
pub open spec fn routed<C, R, P, H: PacketHandler<C, R, P>>(
    before: World<C, H, R, P>,
    keys: Seq<Key>,
    ingress: CaptureKey,
    packet: crate::net::packet::PacketView,
    after: World<C, H, R, P>,
) -> bool
    decreases keys.len(),
{
    if keys.len() == 0 {
        after == before
    } else {
        exists|mid: World<C, H, R, P>|
            routed(before, keys.drop_last(), ingress, packet, mid) && #[trigger] offered(
                mid,
                keys.last(),
                ingress,
                packet,
                after,
            )
    }
}

/// Whether a captured frame was routed between `before` and `after`: its packet was offered to the
/// registrations live in `before`, in slot order; one that does not parse changes nothing.
pub open spec fn frame_routed<C, R, P, H: PacketHandler<C, R, P>>(
    before: World<C, H, R, P>,
    ingress: CaptureKey,
    link: LinkType,
    frame: Seq<u8>,
    after: World<C, H, R, P>,
) -> bool {
    match crate::net::packet::parsed(link, frame) {
        Ok(packet) => exists|keys: Seq<Key>|
            is_live_list(before.dispatcher.registrations(), keys) && #[trigger] routed(
                before,
                keys,
                ingress,
                packet,
                after,
            ),
        Err(_) => after == before,
    }
}

/// Whether `keys` are the keys of the live registrations, in slot order.
pub open spec fn is_live_list<H>(registrations: Map<Key, Registration<H>>, keys: Seq<Key>) -> bool {
    &&& forall|k: Key| #[trigger] keys.contains(k) <==> registrations.dom().contains(k)
    &&& forall|i: int, j: int|
        0 <= i < j < keys.len() ==> (#[trigger] keys[i]).index < (#[trigger] keys[j]).index
}

/// Every registration that is live when a packet arrives is offered it once, and no other.
pub proof fn law_live_registrations_are_offered_once<H>(
    registrations: Map<Key, Registration<H>>,
    keys: Seq<Key>,
    key: Key,
)
    requires
        is_live_list(registrations, keys),
    ensures
        keys.no_duplicates(),
        keys.contains(key) <==> registrations.dom().contains(key),
{
}

/// Whether the reflector under `key` had its deadline between `before` and `after`: it fired, or it
/// was gone or out for a call and nothing changed.
pub open spec fn handled<C, R, P, H: PacketHandler<C, R, P>>(
    before: World<C, H, R, P>,
    key: Key,
    now: u64,
    after: World<C, H, R, P>,
) -> bool {
    let registrations = before.dispatcher.registrations();
    if registrations.dom().contains(key) && registrations[key].handler is Some {
        exists|steps: CallSteps<C, H, R, P>| #[trigger] fire_goes(before, key, now, after, steps)
    } else {
        unchanged(before, after)
    }
}

/// Whether the reflectors under `due` had their deadline one after the other between `before` and
/// `after`.
pub open spec fn fired<C, R, P, H: PacketHandler<C, R, P>>(
    before: World<C, H, R, P>,
    due: Seq<RegistrationKey>,
    now: u64,
    after: World<C, H, R, P>,
) -> bool
    decreases due.len(),
{
    if due.len() == 0 {
        after == before
    } else {
        exists|mid: World<C, H, R, P>|
            fired(before, due.drop_last(), now, mid) && #[trigger] handled(
                mid,
                due.last().0,
                now,
                after,
            )
    }
}

/// Whether `due` are the keys of the registrations whose reflector is due at `now`, in slot order.
pub open spec fn is_due_list<C, R, P, H: PacketHandler<C, R, P>>(
    registrations: Map<Key, Registration<H>>,
    now: u64,
    due: Seq<RegistrationKey>,
) -> bool {
    &&& forall|k: Key| #[trigger]
        due.contains(RegistrationKey(k)) <==> registrations.dom().contains(k) && is_due::<C, R, P, H>(
            registrations[k],
            now,
        )
    &&& forall|i: int, j: int|
        0 <= i < j < due.len() ==> (#[trigger] due[i]).0.index < (#[trigger] due[j]).0.index
}

/// Whether the DIAL proxies whose grace has lapsed at `now` were evicted between `before` and
/// `after`, with `gone` the handlers that left the reactor.
pub open spec fn graces_swept<C, H, R, P>(
    before: World<C, H, R, P>,
    now: u64,
    after: World<C, H, R, P>,
    gone: Seq<Unregistered<R>>,
) -> bool {
    let proxies = before.dispatcher.spec_dial()@;
    let marked = dial_context::past_grace(proxies, now);
    let live = before.reactor.handlers().dom();
    &&& after.dispatcher.registrations() == before.dispatcher.registrations()
    &&& after.dispatcher.spec_table() == before.dispatcher.spec_table()
    &&& after.dispatcher.spec_host() == before.dispatcher.spec_host()
    &&& after.dispatcher.spec_monitor() == before.dispatcher.spec_monitor()
    &&& after.dispatcher.spec_dial()@ == dial_context::kept(proxies, marked, live, proxies.len())
    &&& dial_context::reactor_without(
        before.reactor,
        after.reactor,
        dial_context::evicted(proxies, marked, proxies.len()),
    )
    &&& dial_context::handed_back(
        before.reactor,
        dial_context::leaving(proxies, marked, live, proxies.len()),
        gone,
    )
}

impl<C, H> PacketDispatcher<C, H> {
    fn take_handler(&mut self, key: Key) -> (handler: Option<H>)
        requires
            old(self).wf(),
        ensures
            final(self).wf(),
            final(self).same_but_registrations(old(self)),
            handler == if old(self).registrations().dom().contains(key) {
                old(self).registrations()[key].handler
            } else {
                None
            },
            handler is None ==> final(self).registrations() == old(self).registrations(),
            handler is Some ==> only_handler_changed(
                old(self).registrations(),
                final(self).registrations(),
                key,
                None,
            ),
    {
        let ghost before = self.registrations@;
        match self.registrations.get_mut(key) {
            None => None,
            Some(registration) => {
                let taken = registration.handler.take();
                assert(taken is None ==> self.registrations@ =~= before);
                taken
            },
        }
    }

    fn put_back(&mut self, key: Key, handler: H)
        requires
            old(self).wf(),
        ensures
            final(self).wf(),
            final(self).same_but_registrations(old(self)),
            old(self).registrations().dom().contains(key) ==> only_handler_changed(
                old(self).registrations(),
                final(self).registrations(),
                key,
                Some(handler),
            ),
            !old(self).registrations().dom().contains(key) ==> final(self).registrations() == old(
                self).registrations(),
    {
        match self.registrations.get_mut(key) {
            None => {},
            Some(registration) => {
                registration.handler = Some(handler);
            },
        }
    }

    /// Whether a registration is live and is offered a packet captured on `ingress`.
    pub fn is_offered(&self, key: RegistrationKey, ingress: CaptureKey, packet: &Packet) -> (r:
        bool)
        ensures
            r == (self.registrations().dom().contains(key.0) && applies(
                self.registrations()[key.0],
                ingress,
                packet@,
            )),
    {
        match self.registrations.get(key.0) {
            Some(registration) => registration.ingress == ingress && registration.filter.matches(
                packet,
            ),
            None => false,
        }
    }

    /// Offers a packet captured on `ingress` to every registration that applies, in slot order. The
    /// registrations are those live at the start: one that a reflector registers meanwhile is not
    /// offered this packet, and one that is removed meanwhile is skipped.
    pub fn route<R, P>(&mut self, ingress: CaptureKey, packet: &Packet, reactor: &mut Reactor<R, P>)
        where H: PacketHandler<C, R, P>
        requires
            old(self).wf(),
            old(reactor).wf(),
        ensures
            final(self).wf(),
            final(reactor).wf(),
            exists|keys: Seq<Key>|
                is_live_list(old(self).registrations(), keys) && #[trigger] routed(
                    World { dispatcher: *old(self), reactor: *old(reactor) },
                    keys,
                    ingress,
                    packet@,
                    World { dispatcher: *final(self), reactor: *final(reactor) },
                ),
            (forall|k: Key| #[trigger]
                old(self).registrations().dom().contains(k) ==> !applies(
                    old(self).registrations()[k],
                    ingress,
                    packet@,
                )) ==> *final(self) == *old(self) && *final(reactor) == *old(reactor),
    {
        let keys = self.registrations.keys();
        let ghost start = World { dispatcher: *self, reactor: *reactor };
        let n: usize = keys.len();
        let mut i: usize = 0;
        assert(keys@.take(0) =~= Seq::<Key>::empty());
        while i < n
            invariant
                self.wf(),
                reactor.wf(),
                n == keys@.len(),
                i <= n,
                start == (World { dispatcher: *old(self), reactor: *old(reactor) }),
                routed(
                    start,
                    keys@.take(i as int),
                    ingress,
                    packet@,
                    World { dispatcher: *self, reactor: *reactor },
                ),
                forall|k: Key| #[trigger]
                    keys@.contains(k) <==> old(self).registrations().dom().contains(k),
                (forall|k: Key| #[trigger]
                    old(self).registrations().dom().contains(k) ==> !applies(
                        old(self).registrations()[k],
                        ingress,
                        packet@,
                    )) ==> *self == *old(self) && *reactor == *old(reactor),
            decreases n - i,
        {
            let key = keys[i];
            let ghost mid = World { dispatcher: *self, reactor: *reactor };
            assert(keys@.contains(keys@[i as int]));
            if self.is_offered(RegistrationKey(key), ingress, packet) {
                match self.take_handler(key) {
                    None => {},
                    Some(handler) => {
                        let ghost out = *self;
                        let mut handler = handler;
                        handler.on_packet(packet, self, reactor);
                        let ghost world = World { dispatcher: *self, reactor: *reactor };
                        self.put_back(key, handler);
                        assert(packet_goes(
                            mid,
                            key,
                            packet@,
                            World { dispatcher: *self, reactor: *reactor },
                            CallSteps { out, handler, world },
                        ));
                    },
                }
            }
            proof {
                assert(keys@.take(i + 1).drop_last() =~= keys@.take(i as int));
                assert(keys@.take(i + 1).last() == keys@[i as int]);
                assert(offered(
                    mid,
                    key,
                    ingress,
                    packet@,
                    World { dispatcher: *self, reactor: *reactor },
                ));
            }
            i += 1;
        }
        assert(keys@.take(n as int) =~= keys@);
    }

    /// Parses a captured frame and routes its packet; a frame that does not parse is skipped.
    pub fn route_frame<R, P>(
        &mut self,
        ingress: CaptureKey,
        link: LinkType,
        frame: &[u8],
        reactor: &mut Reactor<R, P>,
    ) -> (routed: bool) where H: PacketHandler<C, R, P>
        requires
            old(self).wf(),
            old(reactor).wf(),
        ensures
            final(self).wf(),
            final(reactor).wf(),
            routed == crate::net::packet::parsed(link, frame@) is Ok,
            frame_routed(
                World { dispatcher: *old(self), reactor: *old(reactor) },
                ingress,
                link,
                frame@,
                World { dispatcher: *final(self), reactor: *final(reactor) },
            ),
            !routed || (forall|k: Key| #[trigger]
                old(self).registrations().dom().contains(k) ==> !applies(
                    old(self).registrations()[k],
                    ingress,
                    crate::net::packet::parsed(link, frame@)->Ok_0,
                )) ==> *final(self) == *old(self) && *final(reactor) == *old(reactor),
    {
        match Packet::parse(link, frame) {
            Ok(packet) => {
                let ghost start = World { dispatcher: *self, reactor: *reactor };
                self.route(ingress, &packet, reactor);
                proof {
                    let end = World { dispatcher: *self, reactor: *reactor };
                    let keys = choose|keys: Seq<Key>|
                        is_live_list(start.dispatcher.registrations(), keys) && #[trigger] routed(
                            start,
                            keys,
                            ingress,
                            packet@,
                            end,
                        );
                    assert(packet@ == crate::net::packet::parsed(link, frame@)->Ok_0);
                    assert(routed(start, keys, ingress, packet@, end));
                    assert(start == (World { dispatcher: *old(self), reactor: *old(reactor) }));
                }
                true
            },
            Err(_) => false,
        }
    }

    /// Takes in one read of a capture that is drained, routes the frame it yields, and says whether
    /// the drain goes on.
    pub fn drain_and_route<R, P>(
        &mut self,
        draining: &mut Draining,
        read: FrameRead<'_>,
        reactor: &mut Reactor<R, P>,
    ) -> (goes_on: bool) where H: PacketHandler<C, R, P>
        requires
            old(self).wf(),
            old(reactor).wf(),
        ensures
            final(self).wf(),
            final(reactor).wf(),
            goes_on == read is Frame,
            match read {
                FrameRead::Frame(frame) => {
                    &&& *final(draining) == old(draining).counted()
                    &&& frame_routed(
                        World { dispatcher: *old(self), reactor: *old(reactor) },
                        old(draining).ingress,
                        old(draining).link,
                        frame@,
                        World { dispatcher: *final(self), reactor: *final(reactor) },
                    )
                },
                _ => {
                    &&& *final(draining) == *old(draining)
                    &&& *final(self) == *old(self)
                    &&& *final(reactor) == *old(reactor)
                },
            },
    {
        match read {
            FrameRead::Frame(frame) => {
                let _ = self.route_frame(draining.ingress, draining.link, frame, reactor);
                if draining.drained < u32::MAX {
                    draining.drained += 1;
                }
                true
            },
            FrameRead::Empty | FrameRead::Failed => false,
        }
    }

    /// The soonest deadline any reflector keeps, or the soonest DIAL grace if that is earlier.
    pub fn next_deadline<R, P>(&self) -> (at: Option<u64>) where H: PacketHandler<C, R, P>
        requires
            self.wf(),
        ensures
            exists|timer: Option<u64>, grace: Option<u64>|
                {
                    &&& #[trigger] is_soonest::<C, R, P, H>(self.registrations(), timer)
                    &&& #[trigger] is_soonest_grace(self.spec_dial()@, grace)
                    &&& at == earlier(timer, grace)
                },
    {
        let keys = self.registrations.keys();
        let n: usize = keys.len();
        let mut soonest: Option<u64> = None;
        let mut i: usize = 0;
        while i < n
            invariant
                self.wf(),
                n == keys@.len(),
                i <= n,
                forall|k: Key| #[trigger]
                    keys@.contains(k) <==> self.registrations@.dom().contains(k),
                forall|j: int|
                    0 <= j < i && self.registrations@[#[trigger] keys@[j]].handler is Some
                        && self.registrations@[keys@[j]].handler->0.deadline() is Some ==> soonest
                        is Some && soonest->0
                        <= self.registrations@[keys@[j]].handler->0.deadline()->0,
                soonest is Some ==> exists|k: Key| #[trigger]
                    self.registrations@.dom().contains(k) && self.registrations@[k].handler is Some
                        && self.registrations@[k].handler->0.deadline() == soonest,
            decreases n - i,
        {
            let key = keys[i];
            assert(keys@.contains(keys@[i as int]));
            match self.registrations.get(key) {
                Some(registration) => match &registration.handler {
                    Some(handler) => {
                        let deadline = handler.next_deadline();
                        match (deadline, soonest) {
                            (Some(d), Some(s)) => {
                                if d < s {
                                    soonest = deadline;
                                }
                            },
                            (Some(_), None) => {
                                soonest = deadline;
                            },
                            _ => {},
                        }
                    },
                    None => {},
                },
                None => {},
            }
            i += 1;
        }
        assert forall|k: Key| #[trigger]
            self.registrations().dom().contains(k) && self.registrations()[k].handler is Some
                && self.registrations()[k].handler->0.deadline() is Some implies soonest is Some
            && soonest->0 <= self.registrations()[k].handler->0.deadline()->0 by {
            assert(keys@.contains(k));
            let j = choose|j: int| 0 <= j < keys@.len() && keys@[j] == k;
            assert(keys@[j] == k);
        }
        assert(is_soonest::<C, R, P, H>(self.registrations(), soonest));
        let grace = self.dial.next_grace();
        assert(is_soonest_grace(self.spec_dial()@, grace));
        match (soonest, grace) {
            (Some(s), Some(g)) => if g < s {
                grace
            } else {
                soonest
            },
            (None, _) => grace,
            (_, None) => soonest,
        }
    }

    /// The registrations whose reflector is due at `now`, in slot order.
    pub fn due<R, P>(&self, now: u64) -> (due: Vec<RegistrationKey>) where
        H: PacketHandler<C, R, P>
        requires
            self.wf(),
        ensures
            is_due_list::<C, R, P, H>(self.registrations(), now, due@),
    {
        let keys = self.registrations.keys();
        let n: usize = keys.len();
        let mut due: Vec<RegistrationKey> = Vec::new();
        let mut i: usize = 0;
        while i < n
            invariant
                self.wf(),
                n == keys@.len(),
                i <= n,
                forall|k: Key| #[trigger]
                    keys@.contains(k) <==> self.registrations@.dom().contains(k),
                forall|a: int, b: int|
                    0 <= a < b < keys@.len() ==> (#[trigger] keys@[a]).index < (
                    #[trigger] keys@[b]).index,
                forall|j: int|
                    0 <= j < i && is_due::<C, R, P, H>(self.registrations@[#[trigger] keys@[j]], now)
                        ==> due@.contains(RegistrationKey(keys@[j])),
                forall|d: int|
                    0 <= d < due@.len() ==> self.registrations@.dom().contains(
                        (#[trigger] due@[d]).0,
                    ) && is_due::<C, R, P, H>(self.registrations@[due@[d].0], now),
                forall|d: int|
                    i < n && 0 <= d < due@.len() ==> (#[trigger] due@[d]).0.index
                        < keys@[i as int].index,
                forall|a: int, b: int|
                    0 <= a < b < due@.len() ==> (#[trigger] due@[a]).0.index < (
                    #[trigger] due@[b]).0.index,
            decreases n - i,
        {
            let key = keys[i];
            let ghost before = due@;
            assert(keys@.contains(keys@[i as int]));
            let fires: bool = match self.registrations.get(key) {
                Some(registration) => match &registration.handler {
                    Some(handler) => match handler.next_deadline() {
                        Some(at) => at <= now,
                        None => false,
                    },
                    None => false,
                },
                None => false,
            };
            if fires {
                due.push(RegistrationKey(key));
            }
            assert forall|j: int|
                0 <= j < i + 1 && is_due::<C, R, P, H>(self.registrations@[#[trigger] keys@[j]], now)
                    implies due@.contains(RegistrationKey(keys@[j])) by {
                if j < i {
                    assert(before.contains(RegistrationKey(keys@[j])));
                    let d = choose|d: int|
                        0 <= d < before.len() && before[d] == RegistrationKey(keys@[j]);
                    assert(due@[d] == RegistrationKey(keys@[j]));
                } else {
                    assert(due@[before.len() as int] == RegistrationKey(key));
                }
            }
            i += 1;
        }
        assert forall|k: Key| #[trigger]
            due@.contains(RegistrationKey(k)) <==> self.registrations().dom().contains(k) && is_due::<
                C,
                R,
                P,
                H,
            >(self.registrations()[k], now) by {
            if due@.contains(RegistrationKey(k)) {
                let d = choose|d: int| 0 <= d < due@.len() && due@[d] == RegistrationKey(k);
                assert(due@[d].0 == k);
            }
            if self.registrations().dom().contains(k) && is_due::<C, R, P, H>(
                self.registrations()[k],
                now,
            ) {
                assert(keys@.contains(k));
                let j = choose|j: int| 0 <= j < keys@.len() && keys@[j] == k;
                assert(keys@[j] == k);
            }
        }
        due
    }

    /// Fires the deadline callback of every reflector due at `now`, as the snapshot at the start
    /// finds them, then evicts the DIAL proxies whose grace has lapsed. The handlers that leave the
    /// reactor are handed back, for the program to remove their kernel interests.
    pub fn on_deadline<R, P>(&mut self, now: u64, reactor: &mut Reactor<R, P>) -> (gone: Vec<
        Unregistered<R>,
    >) where H: PacketHandler<C, R, P>
        requires
            old(self).wf(),
            old(reactor).wf(),
        ensures
            final(self).wf(),
            final(reactor).wf(),
            exists|due: Seq<RegistrationKey>, mid: World<C, H, R, P>|
                {
                    &&& is_due_list::<C, R, P, H>(old(self).registrations(), now, due)
                    &&& #[trigger] fired(
                        World { dispatcher: *old(self), reactor: *old(reactor) },
                        due,
                        now,
                        mid,
                    )
                    &&& graces_swept(
                        mid,
                        now,
                        World { dispatcher: *final(self), reactor: *final(reactor) },
                        gone@,
                    )
                },
            (forall|k: Key| #[trigger]
                old(self).registrations().dom().contains(k) ==> !is_due::<C, R, P, H>(
                    old(self).registrations()[k],
                    now,
                )) ==> graces_swept(
                World { dispatcher: *old(self), reactor: *old(reactor) },
                now,
                World { dispatcher: *final(self), reactor: *final(reactor) },
                gone@,
            ),
            forall|j: int|
                0 <= j < final(self).spec_dial()@.len() ==> now < (
                #[trigger] final(self).spec_dial()@[j]).desc_grace,
    {
        let due = self.due::<R, P>(now);
        let ghost start = World { dispatcher: *self, reactor: *reactor };
        let n: usize = due.len();
        let mut i: usize = 0;
        assert(due@.take(0) =~= Seq::<RegistrationKey>::empty());
        while i < n
            invariant
                self.wf(),
                reactor.wf(),
                n == due@.len(),
                i <= n,
                start == (World { dispatcher: *old(self), reactor: *old(reactor) }),
                fired(
                    start,
                    due@.take(i as int),
                    now,
                    World { dispatcher: *self, reactor: *reactor },
                ),
                i == 0 ==> *self == *old(self) && *reactor == *old(reactor),
            decreases n - i,
        {
            let key = due[i].0;
            let ghost mid = World { dispatcher: *self, reactor: *reactor };
            match self.take_handler(key) {
                None => {},
                Some(handler) => {
                    let ghost out = *self;
                    let mut handler = handler;
                    handler.on_deadline(now, self, reactor);
                    let ghost world = World { dispatcher: *self, reactor: *reactor };
                    self.put_back(key, handler);
                    assert(fire_goes(
                        mid,
                        key,
                        now,
                        World { dispatcher: *self, reactor: *reactor },
                        CallSteps { out, handler, world },
                    ));
                },
            }
            proof {
                assert(due@.take(i + 1).drop_last() =~= due@.take(i as int));
                assert(due@.take(i + 1).last() == due@[i as int]);
                assert(handled(
                    mid,
                    key,
                    now,
                    World { dispatcher: *self, reactor: *reactor },
                ));
            }
            i += 1;
        }
        assert(due@.take(n as int) =~= due@);
        let ghost mid = World { dispatcher: *self, reactor: *reactor };
        proof {
            if n > 0 {
                assert(due@.contains(RegistrationKey(due@[0].0)));
            }
            dial_context::lemma_kept_unmarked(
                self.dial@,
                dial_context::past_grace(self.dial@, now),
                reactor.handlers().dom(),
                self.dial@.len(),
            );
        }
        let ghost proxies = self.dial@;
        let gone = self.dial.sweep(now, reactor);
        assert forall|j: int| 0 <= j < self.spec_dial()@.len() implies now < (
        #[trigger] self.spec_dial()@[j]).desc_grace by {
            let k = choose|k: int|
                0 <= k < proxies.len() && proxies[k] == self.dial@[j] && !dial_context::past_grace(
                    proxies,
                    now,
                )[k];
            assert(proxies[k] == self.dial@[j]);
        }
        gone
    }
}

/// Whether `grace` is the soonest grace of the proxies; `None` where there are none.
pub open spec fn is_soonest_grace(proxies: Seq<dial_context::DialEntry>, grace: Option<u64>) -> bool {
    &&& grace is None <==> proxies.len() == 0
    &&& grace matches Some(at) ==> {
        &&& exists|i: int| 0 <= i < proxies.len() && (#[trigger] proxies[i]).desc_grace == at
        &&& forall|i: int| 0 <= i < proxies.len() ==> at <= (#[trigger] proxies[i]).desc_grace
    }
}

/// The reported indices without repeats, in the order they were first reported.
pub open spec fn coalesced(reported: Seq<u32>) -> Seq<u32>
    decreases reported.len(),
{
    if reported.len() == 0 {
        reported
    } else {
        let before = coalesced(reported.drop_last());
        if before.contains(reported.last()) {
            before
        } else {
            before.push(reported.last())
        }
    }
}

/// The interfaces of the table that the indices name.
pub open spec fn watched(
    list: Seq<interface_table::InterfaceView>,
    indices: Seq<u32>,
) -> Seq<InterfaceKey>
    decreases indices.len(),
{
    if indices.len() == 0 {
        Seq::empty()
    } else {
        let before = watched(list, indices.drop_last());
        match interface_table::with_ifindex(list, indices.last()) {
            Some(i) => before.push(InterfaceKey(i as u32)),
            None => before,
        }
    }
}

/// The interfaces to resolve anew after a drain of the address monitor: each that a notification
/// names, once; every interface where the overflow signal is among the reports.
pub open spec fn to_refresh(
    list: Seq<interface_table::InterfaceView>,
    reported: Seq<u32>,
) -> Seq<InterfaceKey> {
    if reported.contains(crate::interface::address_monitor::ALL_INTERFACES) {
        Seq::new(list.len(), |i: int| InterfaceKey(i as u32))
    } else {
        watched(list, coalesced(reported))
    }
}

/// The outcome of resolving an interface anew: its addresses, or `None` where that failed.
pub type Resolved = (InterfaceKey, Option<InterfaceAddresses>);

/// The interfaces after the first `n` outcomes; a failure leaves the last-known addresses.
pub open spec fn refreshed(
    list: Seq<interface_table::InterfaceView>,
    results: Seq<Resolved>,
    n: nat,
) -> Seq<interface_table::InterfaceView>
    decreases n,
{
    if n == 0 {
        list
    } else {
        let before = refreshed(list, results, (n - 1) as nat);
        let k = results[n - 1].0.0 as int;
        match results[n - 1].1 {
            Some(addrs) => before.update(
                k,
                interface_table::InterfaceView { addrs, ..before[k] },
            ),
            None => before,
        }
    }
}

/// The kernel indices whose IPv4 address moved with the first `n` outcomes, or may have: a failed
/// resolution cannot confirm that the address survived.
pub open spec fn v4_moved(
    list: Seq<interface_table::InterfaceView>,
    results: Seq<Resolved>,
    n: nat,
) -> Seq<u32>
    decreases n,
{
    if n == 0 {
        Seq::empty()
    } else {
        let before = v4_moved(list, results, (n - 1) as nat);
        let was = refreshed(list, results, (n - 1) as nat)[results[n - 1].0.0 as int];
        match results[n - 1].1 {
            Some(addrs) => if was.addrs.v4 != addrs.v4 {
                before.push(was.ifindex)
            } else {
                before
            },
            None => before.push(was.ifindex),
        }
    }
}

/// The captures among the first `n` that run on an interface with one of the indices.
pub open spec fn captures_on(
    list: Seq<interface_table::InterfaceView>,
    links: Seq<InterfaceKey>,
    indices: Seq<u32>,
    n: nat,
) -> Seq<CaptureKey>
    decreases n,
{
    if n == 0 {
        Seq::empty()
    } else {
        let before = captures_on(list, links, indices, (n - 1) as nat);
        if indices.contains(list[links[n - 1].0 as int].ifindex) {
            before.push(CaptureKey((n - 1) as u32))
        } else {
            before
        }
    }
}

fn has_index(indices: &[u32], index: u32) -> (has: bool)
    ensures
        has == indices@.contains(index),
{
    let n: usize = indices.len();
    let mut i: usize = 0;
    while i < n
        invariant
            n == indices@.len(),
            i <= n,
            forall|j: int| 0 <= j < i ==> indices@[j] != index,
        decreases n - i,
    {
        if indices[i] == index {
            assert(indices@[i as int] == index);
            return true;
        }
        i += 1;
    }
    false
}

fn coalesce(reported: &[u32]) -> (indices: Vec<u32>)
    ensures
        indices@ == coalesced(reported@),
{
    let mut indices: Vec<u32> = Vec::new();
    let n: usize = reported.len();
    let mut i: usize = 0;
    assert(reported@.take(0) =~= Seq::<u32>::empty());
    while i < n
        invariant
            n == reported@.len(),
            i <= n,
            indices@ == coalesced(reported@.take(i as int)),
        decreases n - i,
    {
        assert(reported@.take(i + 1).drop_last() =~= reported@.take(i as int));
        let index: u32 = reported[i];
        if !has_index(indices.as_slice(), index) {
            indices.push(index);
        }
        i += 1;
    }
    assert(reported@.take(n as int) =~= reported@);
    indices
}

/// The interfaces whose groups to ask for again once they were resolved anew: all of them where
/// notifications were lost, else those that resolved.
pub open spec fn to_rejoin(reported: Seq<u32>, results: Seq<Resolved>) -> Seq<InterfaceKey>
    decreases results.len(),
{
    if results.len() == 0 {
        Seq::empty()
    } else {
        let before = to_rejoin(reported, results.drop_last());
        if reported.contains(crate::interface::address_monitor::ALL_INTERFACES)
            || results.last().1 is Some {
            before.push(results.last().0)
        } else {
            before
        }
    }
}

/// The interfaces whose groups to ask for again, after a drain of the address monitor reported
/// these indices and the interfaces to refresh were resolved with these results.
pub fn interfaces_to_rejoin(reported: &[u32], results: &[Resolved]) -> (keys: Vec<InterfaceKey>)
    ensures
        keys@ == to_rejoin(reported@, results@),
{
    let all = has_index(reported, crate::interface::address_monitor::ALL_INTERFACES);
    let mut keys: Vec<InterfaceKey> = Vec::new();
    let n: usize = results.len();
    let mut i: usize = 0;
    assert(results@.take(0) =~= Seq::<Resolved>::empty());
    while i < n
        invariant
            all == reported@.contains(crate::interface::address_monitor::ALL_INTERFACES),
            n == results@.len(),
            i <= n,
            keys@ == to_rejoin(reported@, results@.take(i as int)),
        decreases n - i,
    {
        assert(results@.take(i + 1).drop_last() =~= results@.take(i as int));
        if all || results[i].1.is_some() {
            keys.push(results[i].0);
        }
        i += 1;
    }
    assert(results@.take(n as int) =~= results@);
    keys
}

impl<C, H> PacketDispatcher<C, H> {
    /// The interfaces to resolve anew after a drain of the address monitor reported these indices.
    pub fn interfaces_to_refresh(&self, reported: &[u32]) -> (keys: Vec<InterfaceKey>)
        requires
            self.wf(),
        ensures
            keys@ == to_refresh(self.spec_table().interfaces(), reported@),
            forall|i: int|
                0 <= i < keys@.len() ==> (#[trigger] keys@[i]).0
                    < self.spec_table().interfaces().len(),
    {
        let ghost list = self.table.interfaces();
        let mut keys: Vec<InterfaceKey> = Vec::new();
        if has_index(reported, crate::interface::address_monitor::ALL_INTERFACES) {
            let n: usize = self.table.interface_count();
            let mut i: usize = 0;
            while i < n
                invariant
                    self.wf(),
                    list == self.table.interfaces(),
                    n == list.len(),
                    i <= n,
                    keys@.len() == i,
                    forall|j: int| 0 <= j < i ==> keys@[j] == InterfaceKey(j as u32),
                decreases n - i,
            {
                keys.push(InterfaceKey(i as u32));
                i += 1;
            }
            assert(keys@ =~= to_refresh(list, reported@));
            return keys;
        }
        let indices = coalesce(reported);
        let n: usize = indices.len();
        let mut i: usize = 0;
        assert(indices@.take(0) =~= Seq::<u32>::empty());
        while i < n
            invariant
                self.wf(),
                list == self.table.interfaces(),
                n == indices@.len(),
                i <= n,
                keys@ == watched(list, indices@.take(i as int)),
                forall|j: int| 0 <= j < keys@.len() ==> (#[trigger] keys@[j]).0 < list.len(),
            decreases n - i,
        {
            assert(indices@.take(i + 1).drop_last() =~= indices@.take(i as int));
            match self.table.find_ifindex(indices[i]) {
                Some(key) => {
                    proof {
                        interface_table::lemma_with_ifindex(list, indices@[i as int]);
                    }
                    keys.push(key);
                },
                None => {},
            }
            i += 1;
        }
        assert(indices@.take(n as int) =~= indices@);
        keys
    }

    /// The captures that run on an interface with one of the kernel indices.
    fn captures_of(&self, indices: &[u32]) -> (keys: Vec<CaptureKey>)
        requires
            self.wf(),
        ensures
            keys@ == captures_on(
                self.spec_table().interfaces(),
                self.spec_table().links(),
                indices@,
                self.spec_table().links().len(),
            ),
    {
        let ghost list = self.table.interfaces();
        let ghost links = self.table.links();
        let n: usize = self.table.capture_count();
        let mut keys: Vec<CaptureKey> = Vec::new();
        let mut i: usize = 0;
        while i < n
            invariant
                self.wf(),
                list == self.table.interfaces(),
                links == self.table.links(),
                n == links.len(),
                i <= n,
                keys@ == captures_on(list, links, indices@, i as nat),
            decreases n - i,
        {
            let key = CaptureKey(i as u32);
            match self.table.ifindex_of(key) {
                Some(ifindex) => {
                    if has_index(indices, ifindex) {
                        keys.push(key);
                    }
                },
                None => {},
            }
            i += 1;
        }
        keys
    }

    /// Takes over the outcomes of resolving interfaces anew, then evicts the DIAL proxies whose
    /// source or target interface lost the IPv4 address they are bound to, or may have: their
    /// listeners and cached locations are stale. The handlers that leave the reactor are handed
    /// back, for the program to remove their kernel interests.
    pub fn refresh_changed_interfaces<R, P>(
        &mut self,
        results: &[Resolved],
        reactor: &mut Reactor<R, P>,
    ) -> (gone: Vec<Unregistered<R>>)
        requires
            old(self).wf(),
            old(reactor).wf(),
            forall|i: int|
                0 <= i < results@.len() ==> (#[trigger] results@[i]).0.0
                    < old(self).spec_table().interfaces().len(),
        ensures
            final(self).wf(),
            final(reactor).wf(),
            ({
                let list = old(self).spec_table().interfaces();
                let links = old(self).spec_table().links();
                let n = results@.len();
                let after = refreshed(list, results@, n);
                let changed = captures_on(
                    after,
                    links,
                    v4_moved(list, results@, n),
                    links.len(),
                );
                let proxies = old(self).spec_dial()@;
                let marked = dial_context::on_changed(proxies, changed);
                let live = old(reactor).handlers().dom();
                &&& final(self).spec_table().interfaces() == after
                &&& final(self).spec_table().captures() == old(self).spec_table().captures()
                &&& final(self).spec_table().links() == links
                &&& final(self).registrations() == old(self).registrations()
                &&& final(self).spec_host() == old(self).spec_host()
                &&& final(self).spec_monitor() == old(self).spec_monitor()
                &&& final(self).spec_dial()@ == dial_context::kept(
                    proxies,
                    marked,
                    live,
                    proxies.len(),
                )
                &&& dial_context::reactor_without(
                    *old(reactor),
                    *final(reactor),
                    dial_context::evicted(proxies, marked, proxies.len()),
                )
                &&& dial_context::handed_back(
                    *old(reactor),
                    dial_context::leaving(proxies, marked, live, proxies.len()),
                    gone@,
                )
            }),
    {
        let ghost list = self.table.interfaces();
        let mut moved: Vec<u32> = Vec::new();
        let n: usize = results.len();
        let mut i: usize = 0;
        while i < n
            invariant
                self.wf(),
                n == results@.len(),
                i <= n,
                list == old(self).table.interfaces(),
                forall|j: int| 0 <= j < results@.len() ==> (#[trigger] results@[j]).0.0 < list.len(),
                self.table.interfaces() == refreshed(list, results@, i as nat),
                self.table.interfaces().len() == list.len(),
                self.table.captures() == old(self).table.captures(),
                self.table.links() == old(self).table.links(),
                self.registrations == old(self).registrations,
                self.dial == old(self).dial,
                self.host == old(self).host,
                self.monitor == old(self).monitor,
                *reactor == *old(reactor),
                moved@ == v4_moved(list, results@, i as nat),
            decreases n - i,
        {
            let key = results[i].0;
            match results[i].1 {
                Some(addrs) => {
                    let (ifindex, change) = self.table.refresh(key, addrs);
                    if change.v4 {
                        moved.push(ifindex);
                    }
                },
                None => {
                    moved.push(self.table.ifindex(key));
                },
            }
            i += 1;
        }
        let changed = self.captures_of(moved.as_slice());
        self.dial.evict_on_interface_change(reactor, changed.as_slice())
    }
}

/// Only an IPv4 move evicts: where every interface is resolved anew to the IPv4 address it had, no
/// proxy is marked, whatever became of its other addresses.
pub proof fn law_only_an_ipv4_move_evicts(
    list: Seq<interface_table::InterfaceView>,
    links: Seq<InterfaceKey>,
    results: Seq<Resolved>,
    proxies: Seq<dial_context::DialEntry>,
)
    requires
        forall|i: int|
            0 <= i < results.len() ==> {
                &&& (#[trigger] results[i]).0.0 < list.len()
                &&& results[i].1 matches Some(addrs) && addrs.v4
                    == list[results[i].0.0 as int].addrs.v4
            },
    ensures
        ({
            let n = results.len();
            let moved = v4_moved(list, results, n);
            let changed = captures_on(refreshed(list, results, n), links, moved, links.len());
            let marked = dial_context::on_changed(proxies, changed);
            &&& changed.len() == 0
            &&& forall|i: int| 0 <= i < proxies.len() ==> !#[trigger] marked[i]
            &&& dial_context::evicted(proxies, marked, proxies.len()) == Set::<Key>::empty()
        }),
{
    let n = results.len();
    lemma_ipv4_stays(list, results, n);
    let after = refreshed(list, results, n);
    let moved = v4_moved(list, results, n);
    lemma_no_captures_on(after, links, links.len());
    let changed = captures_on(after, links, moved, links.len());
    let marked = dial_context::on_changed(proxies, changed);
    assert forall|i: int| 0 <= i < proxies.len() implies !#[trigger] marked[i] by {
        assert(!changed.contains(proxies[i].source));
        assert(!changed.contains(proxies[i].target));
    }
    dial_context::lemma_none_evicted(proxies, marked, proxies.len());
}

proof fn lemma_ipv4_stays(
    list: Seq<interface_table::InterfaceView>,
    results: Seq<Resolved>,
    n: nat,
)
    requires
        n <= results.len(),
        forall|i: int|
            0 <= i < results.len() ==> {
                &&& (#[trigger] results[i]).0.0 < list.len()
                &&& results[i].1 matches Some(addrs) && addrs.v4
                    == list[results[i].0.0 as int].addrs.v4
            },
    ensures
        v4_moved(list, results, n) == Seq::<u32>::empty(),
        refreshed(list, results, n).len() == list.len(),
        forall|k: int|
            0 <= k < list.len() ==> (#[trigger] refreshed(list, results, n)[k]).addrs.v4
                == list[k].addrs.v4,
    decreases n,
{
    if n > 0 {
        lemma_ipv4_stays(list, results, (n - 1) as nat);
        let k = results[n - 1].0.0 as int;
        assert(refreshed(list, results, (n - 1) as nat)[k].addrs.v4 == list[k].addrs.v4);
    }
}

proof fn lemma_no_captures_on(
    list: Seq<interface_table::InterfaceView>,
    links: Seq<InterfaceKey>,
    n: nat,
)
    ensures
        captures_on(list, links, Seq::<u32>::empty(), n) == Seq::<CaptureKey>::empty(),
    decreases n,
{
    if n > 0 {
        lemma_no_captures_on(list, links, (n - 1) as nat);
    }
}

/// A drain of the monitor resolves each interface at most once, however often it is reported.
pub proof fn law_reports_are_coalesced(reported: Seq<u32>)
    ensures
        coalesced(reported).no_duplicates(),
        forall|index: u32| #[trigger]
            coalesced(reported).contains(index) <==> reported.contains(index),
    decreases reported.len(),
{
    if reported.len() > 0 {
        let front = reported.drop_last();
        let last = reported.last();
        law_reports_are_coalesced(front);
        assert(reported =~= front.push(last));
        assert forall|index: u32| #[trigger]
            coalesced(reported).contains(index) <==> reported.contains(index) by {
            lemma_contains_push(front, last, index);
            lemma_contains_push(coalesced(front), last, index);
        }
        let before = coalesced(front);
        let after = coalesced(reported);
        assert forall|i: int, j: int|
            0 <= i < after.len() && 0 <= j < after.len() && i != j implies after[i] != after[j] by {
            if !before.contains(last) {
                if i == before.len() {
                    assert(before.contains(before[j]));
                } else if j == before.len() {
                    assert(before.contains(before[i]));
                }
            }
        }
    }
}

proof fn lemma_contains_push(s: Seq<u32>, last: u32, x: u32)
    ensures
        s.push(last).contains(x) <==> s.contains(x) || x == last,
{
    if s.contains(x) {
        let j = choose|j: int| 0 <= j < s.len() && s[j] == x;
        assert(s.push(last)[j] == x);
    }
    if x == last {
        assert(s.push(last)[s.len() as int] == x);
    }
    if s.push(last).contains(x) {
        let j = choose|j: int| 0 <= j < s.push(last).len() && s.push(last)[j] == x;
        if j < s.len() {
            assert(s[j] == x);
        }
    }
}

} // verus!
