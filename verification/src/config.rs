//! Configuration loading and validation.
//!
//! The file and the environment are each read into a raw form and combined; the raw form is then
//! validated into a [`Config`], whose types leave no room for what the rules forbid.

pub mod decode;
pub mod document;
pub mod env;
pub mod error;
pub mod messages;
pub mod raw;
pub mod soundness;
pub mod table;
pub mod value;

use crate::config::document::Field;
use crate::config::error::{ConfigError, DocumentError, Protocol};
use crate::config::raw::{RawConfig, RawReflector};
use crate::config::table::Table;
use crate::config::value::{AddressFamily, InterfaceName, LogLevel, ReflectorName, WolPorts};
use crate::net::mac::{MacAddr, MacSet};
use crate::text;
#[allow(unused_imports)]
use crate::config::document::Node;
#[allow(unused_imports)]
use crate::config::error::{ConfigFault, DocumentFault};
#[allow(unused_imports)]
use crate::config::raw::{RawConfigView, RawReflectorView};
use vstd::prelude::*;

verus! {

/// Wake-on-LAN settings, present only where a reflector enables Wake-on-LAN.
#[derive(Debug, Clone, PartialEq, Eq)]
pub struct Wol {
    /// The UDP destination ports whose magic packets are reflected.
    pub ports: WolPorts,
}

/// SSDP settings, present only where a reflector enables SSDP.
#[derive(Debug, Clone, Copy, PartialEq, Eq, Structural)]
pub struct Ssdp {
    /// Whether the DIAL HTTP proxy is layered on top of SSDP.
    pub dial: bool,
}

/// One reflector: bridges `source_if` to `target_if` for the enabled protocols.
#[derive(Debug, Clone, PartialEq, Eq)]
pub struct Reflector {
    /// The name for logs.
    pub name: ReflectorName,
    /// The interface to listen on.
    pub source_if: InterfaceName,
    /// The interface to emit on, always another than `source_if`.
    pub target_if: InterfaceName,
    /// The devices to reflect for, or `None` for any.
    pub macs: Option<MacSet>,
    /// The IP-version policy.
    pub address_family: AddressFamily,
    /// Wake-on-LAN settings, or `None` where it is disabled.
    pub wol: Option<Wol>,
    pub mdns: bool,
    /// SSDP settings, or `None` where it is disabled.
    pub ssdp: Option<Ssdp>,
}

/// A [`Reflector`] over plain values.
#[verifier::ext_equal]
pub struct ReflectorView {
    pub name: Seq<char>,
    pub source_if: Seq<char>,
    pub target_if: Seq<char>,
    pub macs: Option<Seq<MacAddr>>,
    pub address_family: AddressFamily,
    /// The ports, where Wake-on-LAN is enabled.
    pub wol: Option<Seq<u16>>,
    pub mdns: bool,
    /// The DIAL flag, where SSDP is enabled.
    pub ssdp: Option<bool>,
}

/// Optional Wake-on-LAN settings as their ports.
pub open spec fn wol_view(wol: Option<Wol>) -> Option<Seq<u16>> {
    match wol {
        Some(wol) => Some(wol.ports@),
        None => None,
    }
}

/// Optional SSDP settings as their DIAL flag.
pub open spec fn ssdp_view(ssdp: Option<Ssdp>) -> Option<bool> {
    match ssdp {
        Some(ssdp) => Some(ssdp.dial),
        None => None,
    }
}

impl View for Reflector {
    type V = ReflectorView;

    open spec fn view(&self) -> ReflectorView {
        ReflectorView {
            name: self.name@,
            source_if: self.source_if@,
            target_if: self.target_if@,
            macs: crate::config::raw::macs_view(self.macs),
            address_family: self.address_family,
            wol: wol_view(self.wol),
            mdns: self.mdns,
            ssdp: ssdp_view(self.ssdp),
        }
    }
}

/// The name of a reflector: the one that was set, or its key without the white space around it.
pub open spec fn display_name(
    key: Seq<char>,
    raw: RawReflectorView,
) -> Option<Seq<char>> {
    match raw.name {
        Some(name) => Some(name),
        None => if text::trimmed(key).len() > 0 {
            Some(text::trimmed(key))
        } else {
            None
        },
    }
}

/// The validated reflector, or the first rule that the raw one breaks.
pub open spec fn valid_reflector(
    key: Seq<char>,
    raw: RawReflectorView,
) -> Result<ReflectorView, ConfigFault> {
    match display_name(key, raw) {
        None => Err(ConfigFault::EmptyReflectorName { key }),
        Some(name) => if raw.source_if == raw.target_if {
            Err(ConfigFault::SameInterface { name, value: raw.source_if })
        } else if !raw.wol && !raw.mdns && !raw.ssdp {
            Err(ConfigFault::NoProtocol { name })
        } else if raw.wol_ports is Some && !raw.wol {
            Err(ConfigFault::WolPortsWithoutWol { name })
        } else if raw.dial && !raw.ssdp {
            Err(ConfigFault::DialWithoutSsdp { name })
        } else if raw.dial && !raw.address_family.v4() {
            Err(ConfigFault::DialRequiresIpv4 { name })
        } else {
            Ok(
                ReflectorView {
                    name,
                    source_if: raw.source_if,
                    target_if: raw.target_if,
                    macs: raw.macs,
                    address_family: raw.address_family,
                    wol: if !raw.wol {
                        None
                    } else if raw.wol_ports is Some {
                        raw.wol_ports
                    } else {
                        Some(seq![7u16, 9u16])
                    },
                    mdns: raw.mdns,
                    ssdp: if raw.ssdp {
                        Some(raw.dial)
                    } else {
                        None
                    },
                },
            )
        },
    }
}

/// Whether two lists have an item in common.
pub open spec fn share<T>(a: Seq<T>, b: Seq<T>) -> bool {
    exists|i: int, j: int|
        0 <= i < a.len() && 0 <= j < b.len() && #[trigger] a[i] == #[trigger] b[j]
}

/// Whether two selections of devices overlap: they share one, or either takes any.
pub open spec fn macs_overlap(a: Option<Seq<MacAddr>>, b: Option<Seq<MacAddr>>) -> bool {
    match (a, b) {
        (Some(a), Some(b)) => share(a, b),
        _ => true,
    }
}

/// Whether two policies carry the same IP version.
pub open spec fn families_overlap(a: AddressFamily, b: AddressFamily) -> bool {
    a.v4() && b.v4() || a.v6() && b.v6()
}

/// The first protocol of which two reflectors would reflect the same packet twice: same direction,
/// overlapping devices and address families, and both enable it (for Wake-on-LAN, on a shared
/// port).
pub open spec fn conflict(a: ReflectorView, b: ReflectorView) -> Option<Protocol> {
    if a.source_if != b.source_if || a.target_if != b.target_if {
        None
    } else if !macs_overlap(a.macs, b.macs) || !families_overlap(
        a.address_family,
        b.address_family,
    ) {
        None
    } else if a.wol is Some && b.wol is Some && share(a.wol->0, b.wol->0) {
        Some(Protocol::Wol)
    } else if a.mdns && b.mdns {
        Some(Protocol::Mdns)
    } else if a.ssdp is Some && b.ssdp is Some {
        Some(Protocol::Ssdp)
    } else {
        None
    }
}

/// Two reflectors conflict on the same protocol, whichever comes first.
pub proof fn law_conflict_is_symmetric(a: ReflectorView, b: ReflectorView)
    ensures
        conflict(a, b) == conflict(b, a),
{
    if a.macs is Some && b.macs is Some {
        lemma_share_symmetric(a.macs->0, b.macs->0);
    }
    if a.wol is Some && b.wol is Some {
        lemma_share_symmetric(a.wol->0, b.wol->0);
    }
}

proof fn lemma_share_symmetric<T>(a: Seq<T>, b: Seq<T>)
    ensures
        share(a, b) == share(b, a),
{
    if share(a, b) {
        let (i, j) = choose|i: int, j: int|
            0 <= i < a.len() && 0 <= j < b.len() && #[trigger] a[i] == #[trigger] b[j];
        assert(b[j] == a[i]);
    }
    if share(b, a) {
        let (i, j) = choose|i: int, j: int|
            0 <= i < b.len() && 0 <= j < a.len() && #[trigger] b[i] == #[trigger] a[j];
        assert(a[j] == b[i]);
    }
}

/// A validated reflector obeys every rule: its name is not empty and has no white space around it,
/// it listens and emits on different
/// interfaces, enables a protocol, and proxies DIAL only over IPv4; a list of ports it was given is
/// kept.
pub proof fn law_valid_reflectors_obey_the_rules(
    key: Seq<char>,
    raw: RawReflectorView,
)
    requires
        valid_reflector(key, raw) is Ok,
        raw.name matches Some(name) ==> name.len() > 0 && text::trimmed(name) == name,
    ensures
        ({
            let r = valid_reflector(key, raw)->Ok_0;
            &&& r.name.len() > 0
            &&& text::trimmed(r.name) == r.name
            &&& r.source_if != r.target_if
            &&& r.wol is Some || r.mdns || r.ssdp is Some
            &&& r.ssdp == Some(true) ==> r.address_family.v4()
            &&& raw.wol_ports is Some ==> r.wol == raw.wol_ports
            &&& raw.dial ==> r.ssdp == Some(true)
        }),
{
    text::lemma_trimmed_stays(key);
}

fn macs_share(a: &MacSet, b: &MacSet) -> (r: bool)
    ensures
        r == share(a@, b@),
{
    let list = a.as_slice();
    let n: usize = list.len();
    let mut i: usize = 0;
    while i < n
        invariant
            list@ == a@,
            n == list@.len(),
            i <= n,
            forall|x: int, y: int|
                0 <= x < i && 0 <= y < b@.len() ==> #[trigger] a@[x] != #[trigger] b@[y],
        decreases n - i,
    {
        if b.contains(&list[i]) {
            assert(exists|j: int| 0 <= j < b@.len() && b@[j] == a@[i as int]);
            return true;
        }
        assert(forall|y: int| 0 <= y < b@.len() ==> a@[i as int] != #[trigger] b@[y]);
        i += 1;
    }
    false
}

fn ports_share(a: &WolPorts, b: &WolPorts) -> (r: bool)
    ensures
        r == share(a@, b@),
{
    let list = a.as_slice();
    let n: usize = list.len();
    let mut i: usize = 0;
    while i < n
        invariant
            crate::config::value::port_numbers(list@) == a@,
            n == list@.len(),
            i <= n,
            forall|x: int, y: int|
                0 <= x < i && 0 <= y < b@.len() ==> #[trigger] a@[x] != #[trigger] b@[y],
        decreases n - i,
    {
        assert(a@[i as int] == list@[i as int]@);
        if b.contains(list[i]) {
            assert(exists|j: int| 0 <= j < b@.len() && b@[j] == a@[i as int]);
            return true;
        }
        assert(forall|y: int| 0 <= y < b@.len() ==> a@[i as int] != #[trigger] b@[y]);
        i += 1;
    }
    false
}

impl Reflector {
    /// Validates a raw reflector under its key.
    pub fn try_from(key: String, raw: RawReflector) -> (r: Result<Reflector, ConfigError>)
        ensures
            match r {
                Ok(reflector) => valid_reflector(key@, raw@)
                    == Ok::<ReflectorView, ConfigFault>(reflector@),
                Err(e) => valid_reflector(key@, raw@) == Err::<ReflectorView, ConfigFault>(e@),
            },
    {
        let name = match raw.name {
            Some(name) => name,
            None => match ReflectorName::parse(key.as_str()) {
                Ok(name) => name,
                Err(_) => {
                    return Err(ConfigError::EmptyReflectorName { key });
                },
            },
        };
        if raw.source_if.same(&raw.target_if) {
            return Err(ConfigError::SameInterface { name, value: raw.source_if });
        }
        if !raw.wol && !raw.mdns && !raw.ssdp {
            return Err(ConfigError::NoProtocol { name });
        }
        if raw.wol_ports.is_some() && !raw.wol {
            return Err(ConfigError::WolPortsWithoutWol { name });
        }
        if raw.dial && !raw.ssdp {
            return Err(ConfigError::DialWithoutSsdp { name });
        }
        if raw.dial && !raw.address_family.uses_ipv4() {
            return Err(ConfigError::DialRequiresIpv4 { name });
        }
        let wol = if raw.wol {
            let ports = match raw.wol_ports {
                Some(ports) => ports,
                None => WolPorts::default(),
            };
            Some(Wol { ports })
        } else {
            None
        };
        let ssdp = if raw.ssdp {
            Some(Ssdp { dial: raw.dial })
        } else {
            None
        };
        Ok(
            Reflector {
                name,
                source_if: raw.source_if,
                target_if: raw.target_if,
                macs: raw.macs,
                address_family: raw.address_family,
                wol,
                mdns: raw.mdns,
                ssdp,
            },
        )
    }

    /// The protocol of which this reflector and `other` would reflect the same packet twice, if
    /// any.
    pub fn conflicts_with(&self, other: &Reflector) -> (r: Option<Protocol>)
        ensures
            r == conflict(self@, other@),
    {
        if !self.source_if.same(&other.source_if) || !self.target_if.same(&other.target_if) {
            return None;
        }
        let same_devices = match (&self.macs, &other.macs) {
            (Some(a), Some(b)) => macs_share(a, b),
            _ => true,
        };
        let (a, b) = (self.address_family, other.address_family);
        let same_family = a.uses_ipv4() && b.uses_ipv4() || a.uses_ipv6() && b.uses_ipv6();
        if !same_devices || !same_family {
            return None;
        }
        let same_ports = match (&self.wol, &other.wol) {
            (Some(a), Some(b)) => ports_share(&a.ports, &b.ports),
            _ => false,
        };
        if same_ports {
            Some(Protocol::Wol)
        } else if self.mdns && other.mdns {
            Some(Protocol::Mdns)
        } else if self.ssdp.is_some() && other.ssdp.is_some() {
            Some(Protocol::Ssdp)
        } else {
            None
        }
    }
}

/// The enabled protocols of a reflector, with the Wake-on-LAN ports and the DIAL flag.
pub open spec fn protocol_names(r: ReflectorView) -> Seq<Seq<char>> {
    (match r.wol {
        Some(ports) => seq![
            "wol("@ + text::joined(port_texts(ports), ","@) + ")"@,
        ],
        None => Seq::empty(),
    }) + (if r.mdns {
        seq!["mdns"@]
    } else {
        Seq::empty()
    }) + (match r.ssdp {
        Some(true) => seq!["ssdp+dial"@],
        Some(false) => seq!["ssdp"@],
        None => Seq::empty(),
    })
}

/// Ports in decimal.
pub open spec fn port_texts(ports: Seq<u16>) -> Seq<Seq<char>> {
    ports.map_values(|p: u16| text::decimal(p as nat))
}

fn port_list(ports: &WolPorts) -> (list: Vec<String>)
    ensures
        text::views(list@) == port_texts(ports@),
{
    let all = ports.as_slice();
    let mut list: Vec<String> = Vec::new();
    let n: usize = all.len();
    let mut i: usize = 0;
    while i < n
        invariant
            crate::config::value::port_numbers(all@) == ports@,
            n == all@.len(),
            i <= n,
            text::views(list@) =~= port_texts(ports@.take(i as int)),
        decreases n - i,
    {
        let mut number = String::new();
        text::push_padded(&mut number, all[i].get() as u64, 0);
        let ghost before = list@;
        list.push(number);
        proof {
            assert(number@ =~= text::decimal(ports@[i as int] as nat));
            assert(text::views(list@) =~= text::views(before).push(number@));
            assert(ports@.take(i + 1) =~= ports@.take(i as int).push(ports@[i as int]));
        }
        i += 1;
    }
    assert(ports@.take(n as int) =~= ports@);
    list
}

/// The enabled protocols of `reflector` as a comma-separated summary for logs.
pub fn protocol_list(reflector: &Reflector) -> (list: String)
    ensures
        list@ == text::joined(protocol_names(reflector@), ", "@),
{
    let mut protocols: Vec<String> = Vec::new();
    let ghost none = Seq::<Seq<char>>::empty();
    assert(text::views(protocols@) =~= none);
    match &reflector.wol {
        Some(wol) => {
            let ports = port_list(&wol.ports);
            let mut name = String::new();
            text::push_text(&mut name, "wol(");
            text::push_text(&mut name, text::join(ports.as_slice(), ",").as_str());
            text::push_text(&mut name, ")");
            assert(name@ =~= "wol("@ + text::joined(port_texts(wol.ports@), ","@) + ")"@);
            protocols.push(name);
        },
        None => {},
    }
    if reflector.mdns {
        protocols.push("mdns".to_owned());
    }
    match &reflector.ssdp {
        Some(ssdp) => {
            if ssdp.dial {
                protocols.push("ssdp+dial".to_owned());
            } else {
                protocols.push("ssdp".to_owned());
            }
        },
        None => {},
    }
    assert(text::views(protocols@) =~= protocol_names(reflector@));
    text::join(protocols.as_slice(), ", ")
}

/// A validated configuration.
#[derive(Debug, Clone, PartialEq, Eq)]
pub struct Config {
    /// The minimum severity to log.
    pub log_level: LogLevel,
    /// Whether to log memory-footprint diagnostics from time to time.
    pub debug_memory: bool,
    pub reflectors: Vec<Reflector>,
}

/// A [`Config`] over plain values.
#[verifier::ext_equal]
pub struct ConfigView {
    pub log_level: LogLevel,
    pub debug_memory: bool,
    pub reflectors: Seq<ReflectorView>,
}

/// The views of some reflectors.
pub open spec fn reflector_views(list: Seq<Reflector>) -> Seq<ReflectorView> {
    list.map_values(|r: Reflector| r@)
}

impl View for Config {
    type V = ConfigView;

    open spec fn view(&self) -> ConfigView {
        ConfigView {
            log_level: self.log_level,
            debug_memory: self.debug_memory,
            reflectors: reflector_views(self.reflectors@),
        }
    }
}

/// The validated reflectors in order, or the error of the first that breaks a rule.
pub open spec fn valid_reflectors(
    list: Seq<(Seq<char>, RawReflectorView)>,
) -> Result<Seq<ReflectorView>, ConfigFault>
    decreases list.len(),
{
    if list.len() == 0 {
        Ok(Seq::empty())
    } else {
        match valid_reflectors(list.drop_last()) {
            Err(e) => Err(e),
            Ok(before) => match valid_reflector(list.last().0, list.last().1) {
                Err(e) => Err(e),
                Ok(r) => Ok(before.push(r)),
            },
        }
    }
}

/// Whether the reflectors at `i` and `j` conflict.
pub open spec fn conflict_at(list: Seq<ReflectorView>, i: int, j: int) -> bool {
    0 <= i < j < list.len() && conflict(list[i], list[j]) is Some
}

/// The first conflicting pair from `(i, j)` on, in order of the first and then of the second.
pub open spec fn first_conflict(list: Seq<ReflectorView>, i: int, j: int) -> Option<(int, int)>
    decreases list.len() - i, list.len() - j,
{
    if i < 0 || i >= list.len() {
        None
    } else if j >= list.len() {
        first_conflict(list, i + 1, i + 2)
    } else if conflict_at(list, i, j) {
        Some((i, j))
    } else {
        first_conflict(list, i, j + 1)
    }
}

/// The error of a conflicting pair.
pub open spec fn conflict_fault(a: ReflectorView, b: ReflectorView) -> ConfigFault {
    ConfigFault::ConflictingReflectors {
        protocol: conflict(a, b)->0,
        first: a.name,
        second: b.name,
        source_if: a.source_if,
        target_if: a.target_if,
    }
}

/// The validated configuration, or the first rule that the raw one breaks.
pub open spec fn valid_config(raw: RawConfigView) -> Result<
    ConfigView,
    ConfigFault,
> {
    match valid_reflectors(raw.reflectors) {
        Err(e) => Err(e),
        Ok(reflectors) => if reflectors.len() == 0 {
            Err(ConfigFault::NoReflectors)
        } else {
            match first_conflict(reflectors, 0, 1) {
                Some(pair) => Err(conflict_fault(reflectors[pair.0], reflectors[pair.1])),
                None => Ok(
                    ConfigView {
                        log_level: match raw.log_level {
                            Some(level) => level,
                            None => LogLevel::Info,
                        },
                        debug_memory: raw.debug_memory == Some(true),
                        reflectors,
                    },
                ),
            }
        },
    }
}

/// What the search for a conflict finds conflicts, and where it finds none there is none.
pub proof fn lemma_first_conflict(list: Seq<ReflectorView>, i: int, j: int)
    requires
        0 <= i < j,
    ensures
        match first_conflict(list, i, j) {
            Some(pair) => conflict_at(list, pair.0, pair.1),
            None => forall|a: int, b: int|
                (i < a || i == a && j <= b) ==> !#[trigger] conflict_at(list, a, b),
        },
    decreases list.len() - i, list.len() - j,
{
    if i < list.len() {
        if j >= list.len() {
            lemma_first_conflict(list, i + 1, i + 2);
        } else if !conflict_at(list, i, j) {
            lemma_first_conflict(list, i, j + 1);
        }
    }
}

/// A validated configuration has a reflector, and no two of its reflectors would reflect the same
/// packet twice.
pub proof fn law_no_packet_is_reflected_twice(raw: RawConfigView)
    requires
        valid_config(raw) is Ok,
    ensures
        valid_config(raw)->Ok_0.reflectors.len() > 0,
        forall|i: int, j: int|
            0 <= i < valid_config(raw)->Ok_0.reflectors.len() && 0 <= j < valid_config(
                raw,
            )->Ok_0.reflectors.len() && i != j ==> (#[trigger] conflict(
                valid_config(raw)->Ok_0.reflectors[i],
                valid_config(raw)->Ok_0.reflectors[j],
            )) is None,
{
    let list = valid_config(raw)->Ok_0.reflectors;
    lemma_first_conflict(list, 0, 1);
    assert forall|i: int, j: int|
        0 <= i < list.len() && 0 <= j < list.len() && i != j implies (#[trigger] conflict(
        list[i],
        list[j],
    )) is None by {
        if i < j {
            assert(!conflict_at(list, i, j));
        } else {
            assert(!conflict_at(list, j, i));
            law_conflict_is_symmetric(list[i], list[j]);
        }
    }
}

/// Rejects any pair of reflectors that would reflect the same packet twice.
pub fn check_conflicts(reflectors: &[Reflector]) -> (r: Result<(), ConfigError>)
    ensures
        match r {
            Ok(_) => first_conflict(reflector_views(reflectors@), 0, 1) is None,
            Err(e) => {
                &&& first_conflict(reflector_views(reflectors@), 0, 1) matches Some(pair)
                &&& e@ == conflict_fault(reflectors@[pair.0]@, reflectors@[pair.1]@)
            },
        },
{
    let ghost all = reflector_views(reflectors@);
    let n: usize = reflectors.len();
    let mut i: usize = 0;
    while i < n
        invariant
            n == reflectors@.len(),
            i <= n,
            all == reflector_views(reflectors@),
            first_conflict(all, 0, 1) == first_conflict(all, i as int, i + 1),
        decreases n - i,
    {
        let mut j: usize = i + 1;
        while j < n
            invariant
                n == reflectors@.len(),
                i < j <= n,
                all == reflector_views(reflectors@),
                first_conflict(all, 0, 1) == first_conflict(all, i as int, j as int),
            decreases n - j,
        {
            let (a, b) = (&reflectors[i], &reflectors[j]);
            assert(all[i as int] == a@ && all[j as int] == b@);
            if let Some(protocol) = a.conflicts_with(b) {
                return Err(
                    ConfigError::ConflictingReflectors {
                        protocol,
                        first: a.name.clone(),
                        second: b.name.clone(),
                        source_if: a.source_if.clone(),
                        target_if: a.target_if.clone(),
                    },
                );
            }
            j += 1;
        }
        i += 1;
    }
    Ok(())
}

proof fn lemma_reflector_error(
    list: Seq<(Seq<char>, RawReflectorView)>,
    n: int,
)
    requires
        0 <= n <= list.len(),
        valid_reflectors(list.take(n)) is Err,
    ensures
        valid_reflectors(list) == valid_reflectors(list.take(n)),
    decreases list.len() - n,
{
    if n < list.len() {
        assert(list.take(n + 1).drop_last() =~= list.take(n));
        lemma_reflector_error(list, n + 1);
    } else {
        assert(list.take(n) =~= list);
    }
}

/// Every raw reflector is validated, each into the reflector at its place.
pub proof fn law_every_reflector_is_validated(
    list: Seq<(Seq<char>, RawReflectorView)>,
)
    requires
        valid_reflectors(list) is Ok,
    ensures
        valid_reflectors(list)->Ok_0.len() == list.len(),
        forall|i: int|
            0 <= i < list.len() ==> valid_reflector(list[i].0, list[i].1)
                == Ok::<ReflectorView, ConfigFault>(#[trigger] valid_reflectors(list)->Ok_0[i]),
    decreases list.len(),
{
    if list.len() > 0 {
        law_every_reflector_is_validated(list.drop_last());
    }
}

/// The configuration that a document's fields, where there is a document, and the environment make
/// together, or the first error: those of the document come first, then those of the environment,
/// then a name that both define, then the rules.
pub open spec fn configured(
    document: Option<Result<Seq<(Seq<char>, Node)>, Seq<char>>>,
    vars: Seq<(Seq<char>, Seq<char>)>,
) -> Result<ConfigView, ConfigFault> {
    match file_config(document) {
        Err(e) => Err(e),
        Ok(file) => match crate::config::env::env_config(vars) {
            Err(e) => Err(e),
            Ok(env) => match crate::config::raw::merged(file, env) {
                Err(e) => Err(e),
                Ok(raw) => valid_config(raw),
            },
        },
    }
}

/// The raw configuration of a document, or why it has none.
pub open spec fn file_config(
    document: Option<Result<Seq<(Seq<char>, Node)>, Seq<char>>>,
) -> Result<RawConfigView, ConfigFault> {
    match document {
        None => Ok(crate::config::raw::empty_raw()),
        Some(Err(message)) => Err(
            ConfigFault::Parse(
                DocumentFault::Syntax(message),
            ),
        ),
        Some(Ok(list)) => match crate::config::decode::decoded(list) {
            Ok(raw) => Ok(raw),
            Err(e) => Err(ConfigFault::Parse(e)),
        },
    }
}

/// The configuration that a document makes by itself.
pub open spec fn configured_by_file(
    document: Option<Result<Seq<(Seq<char>, Node)>, Seq<char>>>,
) -> Result<ConfigView, ConfigFault> {
    match file_config(document) {
        Err(e) => Err(e),
        Ok(raw) => valid_config(raw),
    }
}

/// An environment without variables changes nothing.
pub proof fn law_an_empty_environment_changes_nothing(
    document: Option<Result<Seq<(Seq<char>, Node)>, Seq<char>>>,
)
    ensures
        configured(document, Seq::empty()) == configured_by_file(document),
{
    let vars = Seq::<(Seq<char>, Seq<char>)>::empty();
    if let Ok(file) = file_config(document) {
        let env = crate::config::env::env_config(vars);
        assert(env == Ok::<RawConfigView, ConfigFault>(
            crate::config::raw::empty_raw(),
        ));
        assert(crate::config::raw::merged(file, env->Ok_0)
            == Ok::<RawConfigView, ConfigFault>(file));
    }
}

/// The document of a configuration file's text, where there is one.
pub open spec fn document_of(text: Option<&str>) -> Option<
    Result<Seq<(Seq<char>, Node)>, Seq<char>>,
> {
    match text {
        Some(text) => Some(crate::config::document::parsed_document(text@)),
        None => None,
    }
}

/// What reading a document gave, over sequences.
pub open spec fn document_view(document: Option<Result<Vec<Field>, String>>) -> Option<
    Result<Seq<(Seq<char>, Node)>, Seq<char>>,
> {
    match document {
        Some(Ok(list)) => Some(Ok(crate::config::document::fields(list@))),
        Some(Err(message)) => Some(Err(message@)),
        None => None,
    }
}

fn read_text(text: Option<&str>) -> (document: Option<Result<Vec<Field>, String>>)
    ensures
        document_view(document) == document_of(text),
{
    match text {
        Some(text) => Some(crate::config::document::read_document(text)),
        None => None,
    }
}

/// A configuration file and what reading it gave: its text, or why it could not be read.
#[derive(Debug)]
pub struct ConfigFile {
    pub path: String,
    pub text: Result<String, String>,
}

impl Config {
    /// Validates a raw configuration.
    pub fn try_from(raw: RawConfig) -> (r: Result<Config, ConfigError>)
        requires
            raw.wf(),
        ensures
            match r {
                Ok(config) => valid_config(raw@) == Ok::<ConfigView, ConfigFault>(config@),
                Err(e) => valid_config(raw@) == Err::<ConfigView, ConfigFault>(e@),
            },
    {
        let ghost all = raw@.reflectors;
        let RawConfig { log_level, debug_memory, reflectors: table } = raw;
        let mut table: Table<RawReflector> = table;
        let mut reflectors: Vec<Reflector> = Vec::new();
        let ghost mut done: int = 0;
        assert(all.take(0) =~= Seq::<(Seq<char>, RawReflectorView)>::empty());
        assert(all.skip(0) =~= all);
        assert(reflector_views(reflectors@) =~= Seq::<ReflectorView>::empty());
        loop
            invariant_except_break
                table.wf(),
                all == raw@.reflectors,
                0 <= done <= all.len(),
                all.skip(done) == crate::config::table::mapped(
                    table@,
                    |r: RawReflector| r@,
                ),
                valid_reflectors(all.take(done))
                    == Ok::<Seq<ReflectorView>, ConfigFault>(reflector_views(reflectors@)),
            ensures
                valid_reflectors(all)
                    == Ok::<Seq<ReflectorView>, ConfigFault>(reflector_views(reflectors@)),
            decreases table@.len(),
        {
            let ghost left = all.skip(done);
            assert(left.len() == table@.len());
            match table.take_first() {
                None => {
                    assert(left.len() == 0);
                    assert(all.take(done) =~= all);
                    break;
                },
                Some((name, raw_reflector)) => {
                    proof {
                        assert(left.len() == all.len() - done);
                        assert(left[0] == all[done]);
                        assert(all.skip(done + 1) =~= left.drop_first());
                        assert(left.drop_first() =~= crate::config::table::mapped(
                            table@,
                            |r: RawReflector| r@,
                        ));
                        assert(all.take(done + 1).drop_last() =~= all.take(done));
                        assert(all.take(done + 1).last() == all[done]);
                    }
                    match Reflector::try_from(name, raw_reflector) {
                        Ok(reflector) => {
                            let ghost before = reflectors@;
                            reflectors.push(reflector);
                            assert(reflector_views(reflectors@) =~= reflector_views(before).push(
                                reflector@,
                            ));
                        },
                        Err(e) => {
                            proof {
                                lemma_reflector_error(all, done + 1);
                            }
                            return Err(e);
                        },
                    }
                    proof {
                        done = done + 1;
                    }
                },
            }
        }
        if reflectors.len() == 0 {
            return Err(ConfigError::NoReflectors);
        }
        match check_conflicts(reflectors.as_slice()) {
            Ok(_) => {},
            Err(e) => {
                proof {
                    lemma_first_conflict(reflector_views(reflectors@), 0, 1);
                }
                return Err(e);
            },
        }
        let log_level = match log_level {
            Some(level) => level,
            None => LogLevel::default(),
        };
        let debug_memory = match debug_memory {
            Some(b) => b,
            None => false,
        };
        Ok(Config { log_level, debug_memory, reflectors })
    }

    fn read_raw(document: Option<Result<Vec<Field>, String>>) -> (r: Result<RawConfig, ConfigError>)
        ensures
            match r {
                Ok(raw) => raw.wf() && file_config(document_view(document))
                    == Ok::<RawConfigView, ConfigFault>(raw@),
                Err(e) => file_config(document_view(document))
                    == Err::<RawConfigView, ConfigFault>(e@),
            },
    {
        match document {
            None => Ok(RawConfig::empty()),
            Some(Err(message)) => Err(ConfigError::Parse(DocumentError::Syntax(message))),
            Some(Ok(list)) => match crate::config::decode::read_config(list.as_slice()) {
                Ok(raw) => Ok(raw),
                Err(e) => Err(ConfigError::Parse(e)),
            },
        }
    }

    /// The configuration that a document, already read, and the environment make together.
    pub fn from_document(
        document: Option<Result<Vec<Field>, String>>,
        env: &[(String, String)],
    ) -> (r: Result<Config, ConfigError>)
        ensures
            match r {
                Ok(config) => configured(
                    document_view(document),
                    crate::config::env::vars_view(env@),
                ) == Ok::<ConfigView, ConfigFault>(config@),
                Err(e) => configured(
                    document_view(document),
                    crate::config::env::vars_view(env@),
                ) == Err::<ConfigView, ConfigFault>(e@),
            },
    {
        let mut raw = match Config::read_raw(document) {
            Ok(raw) => raw,
            Err(e) => {
                return Err(e);
            },
        };
        let env_raw = match crate::config::env::parse_env(env) {
            Ok(env_raw) => env_raw,
            Err(e) => {
                return Err(e);
            },
        };
        match raw.merge_env(env_raw) {
            Ok(_) => Config::try_from(raw),
            Err(e) => Err(e),
        }
    }

    /// The configuration that TOML text, where there is one, and the environment make together:
    /// the environment overrides the text's global settings, and the reflectors of both are
    /// combined.
    pub fn from_sources(text: Option<&str>, env: &[(String, String)]) -> (r: Result<
        Config,
        ConfigError,
    >)
        ensures
            match r {
                Ok(config) => configured(
                    document_of(text),
                    crate::config::env::vars_view(env@),
                ) == Ok::<ConfigView, ConfigFault>(config@),
                Err(e) => configured(
                    document_of(text),
                    crate::config::env::vars_view(env@),
                ) == Err::<ConfigView, ConfigFault>(e@),
            },
    {
        Config::from_document(read_text(text), env)
    }

    /// The configuration that TOML text makes by itself.
    pub fn from_toml_str(text: &str) -> (r: Result<Config, ConfigError>)
        ensures
            match r {
                Ok(config) => configured_by_file(
                    Some(crate::config::document::parsed_document(text@)),
                ) == Ok::<ConfigView, ConfigFault>(config@),
                Err(e) => configured_by_file(
                    Some(crate::config::document::parsed_document(text@)),
                ) == Err::<ConfigView, ConfigFault>(e@),
            },
    {
        match Config::read_raw(Some(crate::config::document::read_document(text))) {
            Ok(raw) => Config::try_from(raw),
            Err(e) => Err(e),
        }
    }

    /// The configuration of a file, where there is one, with the environment on top.
    ///
    /// # Errors
    /// [`ConfigError::ReadFile`] where the file could not be read, or any error of
    /// [`Config::from_sources`].
    pub fn load(file: Option<ConfigFile>, env: &[(String, String)]) -> (r: Result<
        Config,
        ConfigError,
    >)
        ensures
            match file {
                Some(ConfigFile { path, text: Err(message) }) => {
                    &&& r matches Err(e)
                    &&& e@ == (ConfigFault::ReadFile {
                        path: path@,
                        message: message@,
                    })
                },
                _ => {
                    let document = match file {
                        Some(f) => Some(
                            crate::config::document::parsed_document(f.text->Ok_0@),
                        ),
                        None => None,
                    };
                    match r {
                        Ok(config) => configured(
                            document,
                            crate::config::env::vars_view(env@),
                        ) == Ok::<ConfigView, ConfigFault>(config@),
                        Err(e) => configured(
                            document,
                            crate::config::env::vars_view(env@),
                        ) == Err::<ConfigView, ConfigFault>(e@),
                    }
                },
            },
    {
        match file {
            None => Config::from_sources(None, env),
            Some(ConfigFile { path, text: Err(message) }) => Err(
                ConfigError::ReadFile { path, message },
            ),
            Some(ConfigFile { path: _, text: Ok(text) }) => Config::from_sources(
                Some(text.as_str()),
                env,
            ),
        }
    }
}

/// The log level before the whole configuration is read: that of the environment, else that of the
/// document, else the default. Nothing else of either is looked at.
pub open spec fn resolved_log_level(
    document: Option<Result<Seq<(Seq<char>, Node)>, Seq<char>>>,
    vars: Seq<(Seq<char>, Seq<char>)>,
) -> Result<LogLevel, ConfigFault> {
    match crate::config::env::env_log_level(vars) {
        Err(e) => Err(e),
        Ok(Some(level)) => Ok(level),
        Ok(None) => match document {
            None => Ok(LogLevel::Info),
            Some(Err(message)) => Err(
                ConfigFault::Parse(
                    DocumentFault::Syntax(message),
                ),
            ),
            Some(Ok(list)) => match crate::config::decode::probed(list) {
                Err(e) => Err(ConfigFault::Parse(e)),
                Ok(Some(level)) => Ok(level),
                Ok(None) => Ok(LogLevel::Info),
            },
        },
    }
}

/// The log level that a document, already read, and the environment set.
pub fn log_level_of_document(
    document: Option<Result<Vec<Field>, String>>,
    env: &[(String, String)],
) -> (r: Result<LogLevel, ConfigError>)
    ensures
        match r {
            Ok(level) => resolved_log_level(
                document_view(document),
                crate::config::env::vars_view(env@),
            ) == Ok::<LogLevel, ConfigFault>(level),
            Err(e) => resolved_log_level(
                document_view(document),
                crate::config::env::vars_view(env@),
            ) == Err::<LogLevel, ConfigFault>(e@),
        },
{
    match crate::config::env::log_level_from_env(env) {
        Err(e) => Err(e),
        Ok(Some(level)) => Ok(level),
        Ok(None) => match document {
            None => Ok(LogLevel::default()),
            Some(Err(message)) => Err(ConfigError::Parse(DocumentError::Syntax(message))),
            Some(Ok(list)) => match crate::config::decode::read_log_level(list.as_slice()) {
                Err(e) => Err(ConfigError::Parse(e)),
                Ok(Some(level)) => Ok(level),
                Ok(None) => Ok(LogLevel::default()),
            },
        },
    }
}

/// The log level that TOML text, where there is one, and the environment set, for the time before
/// the whole configuration is read.
pub fn resolve_log_level(text: Option<&str>, env: &[(String, String)]) -> (r: Result<
    LogLevel,
    ConfigError,
>)
    ensures
        match r {
            Ok(level) => resolved_log_level(
                document_of(text),
                crate::config::env::vars_view(env@),
            ) == Ok::<LogLevel, ConfigFault>(level),
            Err(e) => resolved_log_level(
                document_of(text),
                crate::config::env::vars_view(env@),
            ) == Err::<LogLevel, ConfigFault>(e@),
        },
{
    log_level_of_document(read_text(text), env)
}

/// Whether no name stands twice in a list of named things.
pub open spec fn names_distinct<T>(list: Seq<(Seq<char>, T)>) -> bool {
    forall|i: int, j: int|
        0 <= i < j < list.len() ==> (#[trigger] list[i]).0 != (#[trigger] list[j]).0
}

proof fn lemma_log_level_var(var: Seq<char>)
    ensures
        var == "REFLECTOR_LOG_LEVEL"@ <==> crate::config::env::after_prefix(var, "REFLECTOR_"@)
            == Some("LOG_LEVEL"@),
{
    reveal_strlit("REFLECTOR_LOG_LEVEL");
    reveal_strlit("REFLECTOR_");
    reveal_strlit("LOG_LEVEL");
    assert("REFLECTOR_LOG_LEVEL"@.take(10) =~= "REFLECTOR_"@);
    assert("REFLECTOR_LOG_LEVEL"@.skip(10) =~= "LOG_LEVEL"@);
    if let Some(rest) = crate::config::env::after_prefix(var, "REFLECTOR_"@) {
        assert(var =~= var.take(10) + rest);
        if rest == "LOG_LEVEL"@ {
            assert(var =~= "REFLECTOR_LOG_LEVEL"@);
        }
    }
}

proof fn lemma_env_level_of_last(vars: Seq<(Seq<char>, Seq<char>)>)
    requires
        vars.len() > 0,
    ensures
        crate::config::env::env_log_level(vars) == match crate::config::env::env_log_level(
            vars.drop_last(),
        ) {
            Ok(None) => crate::config::env::env_log_level(seq![vars.last()]),
            other => other,
        },
    decreases vars.len(),
{
    if vars.len() == 1 {
        assert(vars =~= seq![vars.last()]);
        assert(vars.drop_last() =~= Seq::<(Seq<char>, Seq<char>)>::empty());
    } else if vars[0].0 != "REFLECTOR_LOG_LEVEL"@ {
        lemma_env_level_of_last(vars.drop_first());
        assert(vars.drop_first().drop_last() =~= vars.drop_last().drop_first());
    }
}

proof fn lemma_env_levels_agree(vars: Seq<(Seq<char>, Seq<char>)>)
    requires
        names_distinct(vars),
        crate::config::env::read_vars(vars) is Ok,
    ensures
        crate::config::env::env_log_level(vars)
            == Ok::<Option<LogLevel>, ConfigFault>(crate::config::env::read_vars(vars)->Ok_0.log_level),
        (forall|i: int| 0 <= i < vars.len() ==> (#[trigger] vars[i]).0 != "REFLECTOR_LOG_LEVEL"@)
            ==> crate::config::env::read_vars(vars)->Ok_0.log_level is None,
    decreases vars.len(),
{
    if vars.len() > 0 {
        let before = vars.drop_last();
        let last = vars.last();
        assert(forall|i: int| 0 <= i < before.len() ==> before[i] == vars[i]);
        lemma_env_levels_agree(before);
        lemma_env_level_of_last(vars);
        lemma_log_level_var(last.0);
        assert(seq![last].drop_first() =~= Seq::<(Seq<char>, Seq<char>)>::empty());
        reveal_with_fuel(crate::config::env::env_log_level, 2);
        if last.0 == "REFLECTOR_LOG_LEVEL"@ {
            assert forall|i: int| 0 <= i < before.len() implies (#[trigger] before[i]).0
                != "REFLECTOR_LOG_LEVEL"@ by {
                assert(vars[i].0 != vars[vars.len() - 1].0);
            }
        } else {
            assert(vars[vars.len() - 1] == last);
        }
    }
}

proof fn lemma_probe_of_last(list: Seq<(Seq<char>, Node)>)
    requires
        list.len() > 0,
    ensures
        crate::config::decode::probed(list) == match crate::config::decode::probed(
            list.drop_last(),
        ) {
            Ok(None) => crate::config::decode::probed(seq![list.last()]),
            other => other,
        },
    decreases list.len(),
{
    if list.len() == 1 {
        assert(list =~= seq![list.last()]);
        assert(list.drop_last() =~= Seq::<(Seq<char>, Node)>::empty());
    } else if list[0].0 != "log_level"@ {
        lemma_probe_of_last(list.drop_first());
        assert(list.drop_first().drop_last() =~= list.drop_last().drop_first());
    }
}

proof fn lemma_probe_agrees(list: Seq<(Seq<char>, Node)>)
    requires
        names_distinct(list),
        crate::config::decode::decoded(list) is Ok,
    ensures
        crate::config::decode::probed(list)
            == Ok::<Option<LogLevel>, DocumentFault>(crate::config::decode::decoded(list)->Ok_0.log_level),
        (forall|i: int| 0 <= i < list.len() ==> (#[trigger] list[i]).0 != "log_level"@)
            ==> crate::config::decode::decoded(list)->Ok_0.log_level is None,
    decreases list.len(),
{
    if list.len() > 0 {
        let before = list.drop_last();
        let last = list.last();
        assert(forall|i: int| 0 <= i < before.len() ==> before[i] == list[i]);
        lemma_probe_agrees(before);
        lemma_probe_of_last(list);
        assert(seq![last].drop_first() =~= Seq::<
            (Seq<char>, Node),
        >::empty());
        reveal_with_fuel(crate::config::decode::probed, 2);
        if last.0 == "log_level"@ {
            assert forall|i: int| 0 <= i < before.len() implies (#[trigger] before[i]).0
                != "log_level"@ by {
                assert(list[i].0 != list[list.len() - 1].0);
            }
        } else {
            assert(list[list.len() - 1] == last);
        }
    }
}

/// The log level that is resolved early is the one of the whole configuration, wherever that
/// configuration is valid.
pub proof fn law_the_early_log_level_is_the_configured_one(
    document: Option<Result<Seq<(Seq<char>, Node)>, Seq<char>>>,
    vars: Seq<(Seq<char>, Seq<char>)>,
)
    requires
        names_distinct(vars),
        document matches Some(Ok(list)) ==> names_distinct(list),
        configured(document, vars) is Ok,
    ensures
        resolved_log_level(document, vars) == Ok::<LogLevel, ConfigFault>(
            configured(document, vars)->Ok_0.log_level,
        ),
{
    lemma_env_levels_agree(vars);
    if let Some(Ok(list)) = document {
        lemma_probe_agrees(list);
    }
}

} // verus!
