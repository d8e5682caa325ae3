//! What every reflector needs to be built: the captures opened for the configured interfaces, and
//! the address families its interfaces have to send.

use crate::config::value::AddressFamily;
use crate::config::{Config, Reflector};
use crate::dispatch::{CaptureKey, PacketDispatcher};
use crate::interface::InterfaceAddresses;
use crate::net::addr::SocketAddr;
use crate::text;
use vstd::prelude::*;

verus! {

/// One IP version: the family that a reflector requires of an interface.
#[derive(Debug, Clone, Copy, PartialEq, Eq, Structural)]
pub enum IpFamily {
    V4,
    V6,
}

impl IpFamily {
    /// The family's name.
    pub fn name(self) -> (name: &'static str)
        ensures
            self is V4 ==> name@ == "IPv4"@,
            self is V6 ==> name@ == "IPv6"@,
    {
        match self {
            IpFamily::V4 => "IPv4",
            IpFamily::V6 => "IPv6",
        }
    }
}

/// Why a reflector cannot be built.
#[allow(inconsistent_fields)]
#[derive(Debug, PartialEq, Eq)]
pub enum BuildError {
    /// No capture was opened for the interface.
    UnknownInterface(String),
    /// The interface has no address of a family that the reflector requires.
    RequiredFamilyUnavailable { interface: String, family: IpFamily },
}

/// A [`BuildError`] with its texts as sequences.
#[verifier::ext_equal]
pub enum BuildFault {
    UnknownInterface(Seq<char>),
    RequiredFamilyUnavailable { interface: Seq<char>, family: IpFamily },
}

impl View for BuildError {
    type V = BuildFault;

    open spec fn view(&self) -> BuildFault {
        match self {
            BuildError::UnknownInterface(name) => BuildFault::UnknownInterface(name@),
            BuildError::RequiredFamilyUnavailable { interface, family } =>
                BuildFault::RequiredFamilyUnavailable { interface: interface@, family: *family },
        }
    }
}

/// A [`BuildError`] in words.
pub open spec fn build_words(e: BuildFault) -> Seq<char> {
    match e {
        BuildFault::UnknownInterface(name) => "no capture for interface \""@ + name + "\""@,
        BuildFault::RequiredFamilyUnavailable { interface, family } => "interface \""@ + interface
            + "\" cannot send "@ + (match family {
            IpFamily::V4 => "IPv4"@,
            IpFamily::V6 => "IPv6"@,
        }) + ", required by the reflector"@,
    }
}

impl BuildError {
    /// The error in words.
    pub fn message(&self) -> (text: String)
        ensures
            text@ == build_words(self@),
    {
        let mut out = String::new();
        match self {
            BuildError::UnknownInterface(name) => {
                text::push_text(&mut out, "no capture for interface \"");
                text::push_text(&mut out, name.as_str());
                text::push_text(&mut out, "\"");
            },
            BuildError::RequiredFamilyUnavailable { interface, family } => {
                text::push_text(&mut out, "interface \"");
                text::push_text(&mut out, interface.as_str());
                text::push_text(&mut out, "\" cannot send ");
                text::push_text(&mut out, family.name());
                text::push_text(&mut out, ", required by the reflector");
            },
        }
        out
    }
}

/// The captures opened for the configured interfaces, by interface name.
#[derive(Debug)]
pub struct InterfaceMap {
    entries: Vec<(String, CaptureKey)>,
}

impl View for InterfaceMap {
    type V = Seq<(Seq<char>, CaptureKey)>;

    closed spec fn view(&self) -> Seq<(Seq<char>, CaptureKey)> {
        self.entries@.map_values(|e: (String, CaptureKey)| (e.0@, e.1))
    }
}

/// The first key recorded for `name`.
pub open spec fn recorded(entries: Seq<(Seq<char>, CaptureKey)>, name: Seq<char>) -> Option<
    CaptureKey,
>
    decreases entries.len(),
{
    if entries.len() == 0 {
        None
    } else if entries[0].0 == name {
        Some(entries[0].1)
    } else {
        recorded(entries.drop_first(), name)
    }
}

impl InterfaceMap {
    /// A map that records nothing.
    pub fn new() -> (map: Self)
        ensures
            map@ == Seq::<(Seq<char>, CaptureKey)>::empty(),
    {
        let map = InterfaceMap { entries: Vec::new() };
        assert(map@ =~= Seq::<(Seq<char>, CaptureKey)>::empty());
        map
    }

    /// Records the capture opened for `name`.
    pub fn insert(&mut self, name: String, key: CaptureKey)
        ensures
            final(self)@ == old(self)@.push((name@, key)),
    {
        let ghost text = name@;
        self.entries.push((name, key));
        assert(self@ =~= old(self)@.push((text, key)));
    }

    /// The capture recorded for `name`.
    pub fn key_for(&self, name: &str) -> (key: Option<CaptureKey>)
        ensures
            key == recorded(self@, name@),
    {
        let n: usize = self.entries.len();
        let mut i: usize = 0;
        assert(self@.skip(0) =~= self@);
        while i < n
            invariant
                n == self.entries@.len(),
                n == self@.len(),
                i <= n,
                recorded(self@, name@) == recorded(self@.skip(i as int), name@),
            decreases n - i,
        {
            proof {
                assert(self@.skip(i as int)[0] == self@[i as int]);
                assert(self@.skip(i as int).drop_first() =~= self@.skip(i + 1));
            }
            if text::str_eq(self.entries[i].0.as_str(), name) {
                return Some(self.entries[i].1);
            }
            i += 1;
        }
        None
    }

    /// The capture recorded for `name`, which has to have one.
    pub fn require(&self, name: &str) -> (r: Result<CaptureKey, BuildError>)
        ensures
            match r {
                Ok(key) => recorded(self@, name@) == Some(key),
                Err(e) => recorded(self@, name@) is None && e@ == BuildFault::UnknownInterface(
                    name@,
                ),
            },
    {
        match self.key_for(name) {
            Some(key) => Ok(key),
            None => Err(BuildError::UnknownInterface(name.to_owned())),
        }
    }
}

impl Default for InterfaceMap {
    fn default() -> (map: Self)
        ensures
            map@ == Seq::<(Seq<char>, CaptureKey)>::empty(),
    {
        InterfaceMap::new()
    }
}

/// What was recorded for a name is found again, and recording another name does not change that.
pub proof fn law_recorded_captures_are_found(
    entries: Seq<(Seq<char>, CaptureKey)>,
    name: Seq<char>,
    key: CaptureKey,
    other: Seq<char>,
)
    ensures
        recorded(entries, name) is None ==> recorded(entries.push((name, key)), name) == Some(key),
        recorded(entries, other) is Some || other != name ==> recorded(
            entries.push((name, key)),
            other,
        ) == recorded(entries, other),
    decreases entries.len(),
{
    let after = entries.push((name, key));
    if entries.len() > 0 {
        law_recorded_captures_are_found(entries.drop_first(), name, key, other);
        assert(after.drop_first() =~= entries.drop_first().push((name, key)));
    } else {
        assert(after.drop_first() =~= Seq::<(Seq<char>, CaptureKey)>::empty());
        reveal_with_fuel(recorded, 2);
    }
}

/// Whether an interface has an address to send `dst`'s family from.
pub open spec fn sources(addrs: InterfaceAddresses, dst: SocketAddr) -> bool {
    match dst {
        SocketAddr::V4(_) => addrs.v4 is Some,
        SocketAddr::V6(_) => addrs.v6 is Some,
    }
}

/// Whether the interface behind `egress` currently has an address to send `dst`'s family from. A
/// reflector asks before it emits a packet, so that a family whose address has gone is dropped.
pub fn egress_sources<C, H>(
    dispatcher: &PacketDispatcher<C, H>,
    egress: CaptureKey,
    dst: SocketAddr,
) -> (r: bool)
    requires
        dispatcher.wf(),
    ensures
        r == match dispatcher.spec_table().interface_behind(egress) {
            Some(iface) => sources(iface.addrs, dst),
            None => false,
        },
{
    match dispatcher.egress_addrs(egress) {
        Some(addrs) => match dst {
            SocketAddr::V4(_) => addrs.has_v4(),
            SocketAddr::V6(_) => addrs.has_v6(),
        },
        None => false,
    }
}

/// The first family, IPv4 before IPv6, that the policy requires and the addresses lack.
pub open spec fn missing_family(family: AddressFamily, addrs: InterfaceAddresses) -> Option<
    IpFamily,
> {
    if requires_v4(family) && addrs.v4 is None {
        Some(IpFamily::V4)
    } else if requires_v6(family) && addrs.v6 is None {
        Some(IpFamily::V6)
    } else {
        None
    }
}

/// Whether a policy does not do without IPv4.
pub open spec fn requires_v4(family: AddressFamily) -> bool {
    family is Default || family is Dual || family is Ipv4
}

/// Whether a policy does not do without IPv6.
pub open spec fn requires_v6(family: AddressFamily) -> bool {
    family is Dual || family is Ipv6
}

/// The family that `family` requires and `addrs` cannot send, if any.
pub fn missing_required_family(family: AddressFamily, addrs: &InterfaceAddresses) -> (missing:
    Option<IpFamily>)
    ensures
        missing == missing_family(family, *addrs),
{
    if family.requires_ipv4() && !addrs.has_v4() {
        Some(IpFamily::V4)
    } else if family.requires_ipv6() && !addrs.has_v6() {
        Some(IpFamily::V6)
    } else {
        None
    }
}

/// The addresses of the interface behind a capture; none where there is no such capture.
pub open spec fn addresses_behind<C, H>(
    dispatcher: &PacketDispatcher<C, H>,
    key: CaptureKey,
) -> InterfaceAddresses {
    match dispatcher.spec_table().interface_behind(key) {
        Some(iface) => iface.addrs,
        None => crate::interface::no_addresses(),
    }
}

/// The first required family, IPv4 before IPv6, that not both interfaces can send, with the
/// interface that lacks it: the source, where that is one of them.
pub open spec fn missing_on_either(
    family: AddressFamily,
    source: InterfaceAddresses,
    source_if: Seq<char>,
    target: InterfaceAddresses,
    target_if: Seq<char>,
) -> Option<BuildFault> {
    if requires_v4(family) && (source.v4 is None || target.v4 is None) {
        Some(
            BuildFault::RequiredFamilyUnavailable {
                interface: if source.v4 is None {
                    source_if
                } else {
                    target_if
                },
                family: IpFamily::V4,
            },
        )
    } else if requires_v6(family) && (source.v6 is None || target.v6 is None) {
        Some(
            BuildFault::RequiredFamilyUnavailable {
                interface: if source.v6 is None {
                    source_if
                } else {
                    target_if
                },
                family: IpFamily::V6,
            },
        )
    } else {
        None
    }
}

fn unavailable(
    missing_on_source: bool,
    source_if: &str,
    target_if: &str,
    family: IpFamily,
) -> (e: BuildError)
    ensures
        e@ == (BuildFault::RequiredFamilyUnavailable {
            interface: if missing_on_source {
                source_if@
            } else {
                target_if@
            },
            family,
        }),
{
    let interface = if missing_on_source {
        source_if.to_owned()
    } else {
        target_if.to_owned()
    };
    BuildError::RequiredFamilyUnavailable { interface, family }
}

/// Enforces that a reflector that emits on both interfaces can send every required family on each.
///
/// # Errors
/// [`BuildError::RequiredFamilyUnavailable`] with the interface and the family that it cannot send.
pub fn require_bidirectional_families<C, H>(
    dispatcher: &PacketDispatcher<C, H>,
    address_family: AddressFamily,
    source: CaptureKey,
    source_if: &str,
    target: CaptureKey,
    target_if: &str,
) -> (r: Result<(), BuildError>)
    requires
        dispatcher.wf(),
    ensures
        match r {
            Ok(_) => missing_on_either(
                address_family,
                addresses_behind(dispatcher, source),
                source_if@,
                addresses_behind(dispatcher, target),
                target_if@,
            ) is None,
            Err(e) => missing_on_either(
                address_family,
                addresses_behind(dispatcher, source),
                source_if@,
                addresses_behind(dispatcher, target),
                target_if@,
            ) == Some(e@),
        },
{
    let src = match dispatcher.egress_addrs(source) {
        Some(addrs) => addrs,
        None => InterfaceAddresses::default(),
    };
    let tgt = match dispatcher.egress_addrs(target) {
        Some(addrs) => addrs,
        None => InterfaceAddresses::default(),
    };
    if address_family.requires_ipv4() && !(src.has_v4() && tgt.has_v4()) {
        return Err(unavailable(!src.has_v4(), source_if, target_if, IpFamily::V4));
    }
    if address_family.requires_ipv6() && !(src.has_v6() && tgt.has_v6()) {
        return Err(unavailable(!src.has_v6(), source_if, target_if, IpFamily::V6));
    }
    Ok(())
}

/// A reflector passes the check of both interfaces exactly where neither lacks a required family.
pub proof fn law_both_directions_are_checked(
    family: AddressFamily,
    source: InterfaceAddresses,
    source_if: Seq<char>,
    target: InterfaceAddresses,
    target_if: Seq<char>,
)
    ensures
        missing_on_either(family, source, source_if, target, target_if) is None <==>
            missing_family(family, source) is None && missing_family(family, target) is None,
{
}

/// The interfaces of reflectors: of each the one it listens on and the one it emits on.
pub open spec fn interfaces_of(list: Seq<crate::config::ReflectorView>) -> Seq<Seq<char>>
    decreases list.len(),
{
    if list.len() == 0 {
        Seq::empty()
    } else {
        interfaces_of(list.drop_last()).push(list.last().source_if).push(list.last().target_if)
    }
}

/// The names of a list, each where it stands first.
pub open spec fn first_seen(names: Seq<Seq<char>>) -> Seq<Seq<char>>
    decreases names.len(),
{
    if names.len() == 0 {
        Seq::empty()
    } else {
        let before = first_seen(names.drop_last());
        if before.contains(names.last()) {
            before
        } else {
            before.push(names.last())
        }
    }
}

/// Every name of a list is seen, each once.
pub proof fn law_every_interface_is_seen_once(names: Seq<Seq<char>>)
    ensures
        first_seen(names).no_duplicates(),
        forall|name: Seq<char>| #[trigger]
            first_seen(names).contains(name) <==> names.contains(name),
    decreases names.len(),
{
    if names.len() > 0 {
        let front = names.drop_last();
        let last = names.last();
        law_every_interface_is_seen_once(front);
        assert forall|name: Seq<char>| #[trigger]
            first_seen(names).contains(name) <==> names.contains(name) by {
            if names.contains(name) {
                let i = choose|i: int| 0 <= i < names.len() && names[i] == name;
                if i < front.len() {
                    assert(front[i] == name);
                    assert(front.contains(name));
                    assert(first_seen(front).contains(name));
                    let k = choose|k: int|
                        0 <= k < first_seen(front).len() && first_seen(front)[k] == name;
                    assert(first_seen(names)[k] == name);
                } else if !first_seen(front).contains(last) {
                    assert(first_seen(names)[first_seen(front).len() as int] == name);
                }
            }
            if first_seen(names).contains(name) {
                let k = choose|k: int|
                    0 <= k < first_seen(names).len() && first_seen(names)[k] == name;
                if k < first_seen(front).len() {
                    assert(first_seen(front)[k] == name);
                    assert(first_seen(front).contains(name));
                    let i = choose|i: int| 0 <= i < front.len() && front[i] == name;
                    assert(names[i] == name);
                } else {
                    assert(names[names.len() - 1] == name);
                }
            }
        }
    }
}

fn note_interface(seen: &mut Vec<String>, name: &str)
    ensures
        text::views(final(seen)@) == (if text::views(old(seen)@).contains(name@) {
            text::views(old(seen)@)
        } else {
            text::views(old(seen)@).push(name@)
        }),
{
    let n: usize = seen.len();
    let mut i: usize = 0;
    while i < n
        invariant
            n == seen@.len(),
            i <= n,
            seen@ == old(seen)@,
            forall|j: int| 0 <= j < i ==> text::views(seen@)[j] != name@,
        decreases n - i,
    {
        assert(text::views(seen@)[i as int] == seen@[i as int]@);
        if text::str_eq(seen[i].as_str(), name) {
            return;
        }
        i += 1;
    }
    seen.push(name.to_owned());
    assert(text::views(seen@) =~= text::views(old(seen)@).push(name@));
}

/// The interfaces to open a capture on: those that the reflectors listen or emit on, each once, in
/// the order in which they come up.
pub fn interfaces_to_open(config: &Config) -> (names: Vec<String>)
    ensures
        text::views(names@) == first_seen(interfaces_of(config@.reflectors)),
{
    let ghost all = config@.reflectors;
    let mut seen: Vec<String> = Vec::new();
    let n: usize = config.reflectors.len();
    let mut i: usize = 0;
    assert(all.take(0) =~= Seq::<crate::config::ReflectorView>::empty());
    assert(text::views(seen@) =~= Seq::<Seq<char>>::empty());
    while i < n
        invariant
            all == config@.reflectors,
            n == config.reflectors@.len(),
            i <= n,
            text::views(seen@) == first_seen(interfaces_of(all.take(i as int))),
        decreases n - i,
    {
        let reflector: &Reflector = &config.reflectors[i];
        let ghost before = interfaces_of(all.take(i as int));
        let ghost middle = before.push(reflector@.source_if);
        proof {
            assert(all[i as int] == reflector@);
            assert(all.take(i + 1).drop_last() =~= all.take(i as int));
            assert(all.take(i + 1).last() == reflector@);
            assert(interfaces_of(all.take(i + 1)) == middle.push(reflector@.target_if));
            assert(middle.drop_last() =~= before);
            assert(middle.push(reflector@.target_if).drop_last() =~= middle);
        }
        note_interface(&mut seen, reflector.source_if.as_str());
        assert(text::views(seen@) == first_seen(middle));
        note_interface(&mut seen, reflector.target_if.as_str());
        assert(text::views(seen@) == first_seen(middle.push(reflector@.target_if)));
        i += 1;
    }
    assert(all.take(n as int) =~= all);
    seen
}

} // verus!
