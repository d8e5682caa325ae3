//! Laws of the configuration: which reflectors go together, which are valid, and what the words,
//! lists, variables and fields of a configuration mean.

#[allow(unused_imports)]
use crate::config::env::{
    bool_named, finished, no_fields, on, with_param, with_var, EnvView, MacsParam, PartialView,
};
#[allow(unused_imports)]
use crate::config::error::{ConfigFault, Protocol, RequiredField, ValueFault};
#[allow(unused_imports)]
use crate::config::raw::{RawConfigView, RawReflectorView};
#[allow(unused_imports)]
use crate::config::soundness::law_accepted_configurations_are_sound;
#[allow(unused_imports)]
use crate::config::value::{
    address_family_named, log_level_named, port_named, AddressFamily, LogLevel, WolPortsFault,
};
#[allow(unused_imports)]
use crate::config::{
    configured, conflict, conflict_at, first_conflict, law_every_reflector_is_validated,
    lemma_first_conflict, valid_config, valid_reflector, valid_reflectors, ReflectorView,
};
#[allow(unused_imports)]
use crate::laws::strings::{glued, law_lower_case, law_splitting_a_text_undoes_gluing, white};
#[allow(unused_imports)]
use crate::net::mac::MacAddr;
#[allow(unused_imports)]
use crate::text;
use vstd::prelude::*;

verus! {

/// Whether a family carries IPv4.
pub open spec fn carries_v4(f: AddressFamily) -> bool {
    f == AddressFamily::Default || f == AddressFamily::Dual || f == AddressFamily::Ipv4
}

/// Whether a family carries IPv6.
pub open spec fn carries_v6(f: AddressFamily) -> bool {
    f == AddressFamily::Default || f == AddressFamily::Dual || f == AddressFamily::Ipv6
}

/// Whether a reflector reflects for a device.
pub open spec fn serves(r: ReflectorView, mac: MacAddr) -> bool {
    r.macs is None || r.macs->0.contains(mac)
}

/// Whether a reflector reflects packets of a protocol; of Wake-on-LAN, those to a port.
pub open spec fn reflects(r: ReflectorView, protocol: Protocol, port: u16) -> bool {
    match protocol {
        Protocol::Wol => r.wol is Some && r.wol->0.contains(port),
        Protocol::Mdns => r.mdns,
        Protocol::Ssdp => r.ssdp is Some,
    }
}

/// Whether two reflectors both reflect, between the same two interfaces in the same direction, a
/// packet of this protocol, to this port, for this device, over an IP version that both carry.
pub open spec fn doubled(
    a: ReflectorView,
    b: ReflectorView,
    protocol: Protocol,
    port: u16,
    mac: MacAddr,
) -> bool {
    &&& a.source_if == b.source_if
    &&& a.target_if == b.target_if
    &&& serves(a, mac) && serves(b, mac)
    &&& carries_v4(a.address_family) && carries_v4(b.address_family) || carries_v6(
        a.address_family,
    ) && carries_v6(b.address_family)
    &&& reflects(a, protocol, port) && reflects(b, protocol, port)
}

/// The devices of a reflector, where it lists any, are at least one.
pub open spec fn lists_devices(r: ReflectorView) -> bool {
    r.macs matches Some(macs) ==> macs.len() > 0
}

proof fn lemma_served_by_both(a: ReflectorView, b: ReflectorView) -> (mac: MacAddr)
    requires
        lists_devices(a),
        lists_devices(b),
        crate::config::macs_overlap(a.macs, b.macs),
    ensures
        serves(a, mac) && serves(b, mac),
{
    match (a.macs, b.macs) {
        (Some(x), Some(y)) => {
            let (i, j) = choose|i: int, j: int|
                0 <= i < x.len() && 0 <= j < y.len() && #[trigger] x[i] == #[trigger] y[j];
            assert(x.contains(x[i]) && y.contains(y[j]));
            x[i]
        },
        (Some(x), None) => {
            assert(x.contains(x[0]));
            x[0]
        },
        (None, Some(y)) => {
            assert(y.contains(y[0]));
            y[0]
        },
        (None, None) => MacAddr { octets: [0, 0, 0, 0, 0, 0] },
    }
}

proof fn lemma_overlap(a: ReflectorView, b: ReflectorView, mac: MacAddr)
    requires
        serves(a, mac),
        serves(b, mac),
    ensures
        crate::config::macs_overlap(a.macs, b.macs),
{
    if let (Some(x), Some(y)) = (a.macs, b.macs) {
        let i = choose|i: int| 0 <= i < x.len() && x[i] == mac;
        let j = choose|j: int| 0 <= j < y.len() && y[j] == mac;
        assert(x[i] == y[j]);
    }
}

/// Two reflectors conflict where some packet would be reflected by both, whatever their DIAL
/// flags; nowhere else; and on the first of Wake-on-LAN, mDNS and SSDP of which there is such a
/// packet.
pub proof fn law_reflectors_conflict_where_both_reflect_a_packet(
    a: ReflectorView,
    b: ReflectorView,
)
    requires
        lists_devices(a),
        lists_devices(b),
    ensures
        forall|protocol: Protocol, port: u16, mac: MacAddr| #[trigger]
            doubled(a, b, protocol, port, mac) ==> conflict(a, b) is Some,
        conflict(a, b) matches Some(protocol) ==> (exists|port: u16, mac: MacAddr| #[trigger]
            doubled(a, b, protocol, port, mac)),
        forall|port: u16, mac: MacAddr| #[trigger]
            doubled(a, b, Protocol::Wol, port, mac) ==> conflict(a, b) == Some(Protocol::Wol),
        forall|port: u16, mac: MacAddr| #[trigger]
            doubled(a, b, Protocol::Mdns, port, mac) ==> conflict(a, b) != Some(Protocol::Ssdp),
{
    assert forall|protocol: Protocol, port: u16, mac: MacAddr| #[trigger]
        doubled(a, b, protocol, port, mac) implies conflict(a, b) is Some && (protocol
        == Protocol::Wol ==> conflict(a, b) == Some(Protocol::Wol)) && (protocol == Protocol::Mdns
        ==> conflict(a, b) != Some(Protocol::Ssdp)) by {
        lemma_overlap(a, b, mac);
        if protocol == Protocol::Wol {
            let x = a.wol->0;
            let y = b.wol->0;
            let i = choose|i: int| 0 <= i < x.len() && x[i] == port;
            let j = choose|j: int| 0 <= j < y.len() && y[j] == port;
            assert(x[i] == y[j]);
            assert(crate::config::share(x, y));
        }
    }
    if let Some(protocol) = conflict(a, b) {
        let mac = lemma_served_by_both(a, b);
        if protocol == Protocol::Wol {
            let x = a.wol->0;
            let y = b.wol->0;
            let (i, j) = choose|i: int, j: int|
                0 <= i < x.len() && 0 <= j < y.len() && #[trigger] x[i] == #[trigger] y[j];
            assert(x.contains(x[i]) && y.contains(y[j]));
            assert(doubled(a, b, protocol, x[i], mac));
        } else {
            assert(doubled(a, b, protocol, 0, mac));
        }
    }
}

/// An accepted configuration has no two reflectors of which both reflect the same packet: none
/// between the same two interfaces, for a common device, over a common IP version, that both enable
/// mDNS, or both enable SSDP whatever their DIAL flags, or both reflect Wake-on-LAN on a common
/// port.
pub proof fn law_accepted_reflectors_share_no_packet(
    document: Option<
        Result<Seq<(Seq<char>, crate::config::document::Node)>, Seq<char>>,
    >,
    vars: Seq<(Seq<char>, Seq<char>)>,
    i: int,
    j: int,
    protocol: Protocol,
    port: u16,
    mac: MacAddr,
)
    requires
        configured(document, vars) is Ok,
        0 <= i < configured(document, vars)->Ok_0.reflectors.len(),
        0 <= j < configured(document, vars)->Ok_0.reflectors.len(),
        i != j,
    ensures
        ({
            let list = configured(document, vars)->Ok_0.reflectors;
            !doubled(list[i], list[j], protocol, port, mac)
        }),
{
    law_accepted_configurations_are_sound(document, vars);
    let list = configured(document, vars)->Ok_0.reflectors;
    assert(crate::config::soundness::sound(list[i]));
    assert(crate::config::soundness::sound(list[j]));
    assert(conflict(list[i], list[j]) is None);
    law_reflectors_conflict_where_both_reflect_a_packet(list[i], list[j]);
}

/// Whether two reflectors reflect some packet twice.
pub open spec fn overlap(a: ReflectorView, b: ReflectorView) -> bool {
    exists|protocol: Protocol, port: u16, mac: MacAddr| #[trigger]
        doubled(a, b, protocol, port, mac)
}

proof fn lemma_overlap_is_conflict(a: ReflectorView, b: ReflectorView)
    requires
        lists_devices(a),
        lists_devices(b),
    ensures
        overlap(a, b) <==> conflict(a, b) is Some,
{
    law_reflectors_conflict_where_both_reflect_a_packet(a, b);
    if let Some(protocol) = conflict(a, b) {
        let (port, mac) = choose|port: u16, mac: MacAddr| #[trigger]
            doubled(a, b, protocol, port, mac);
        assert(doubled(a, b, protocol, port, mac));
    }
}

/// What a configuration of valid reflectors is refused for. Without any it is refused as empty;
/// with an overlapping pair, for the first such pair, which the error names together with the
/// protocol and the interfaces; else it is accepted, with the reflectors in order, the log level
/// that was set or `Info`, and a memory report only where it was asked for.
#[verifier::spinoff_prover]
pub proof fn law_overlapping_reflectors_are_refused(raw: RawConfigView)
    requires
        valid_reflectors(raw.reflectors) is Ok,
        forall|k: int|
            0 <= k < valid_reflectors(raw.reflectors)->Ok_0.len() ==> lists_devices(
                #[trigger] valid_reflectors(raw.reflectors)->Ok_0[k],
            ),
    ensures
        ({
            let list = valid_reflectors(raw.reflectors)->Ok_0;
            match valid_config(raw) {
                Ok(config) => {
                    &&& raw.reflectors.len() > 0
                    &&& config.reflectors == list
                    &&& raw.log_level is Some ==> config.log_level == raw.log_level->0
                    &&& raw.log_level is None ==> config.log_level == LogLevel::Info
                    &&& config.debug_memory <==> raw.debug_memory == Some(true)
                    &&& forall|i: int, j: int|
                        0 <= i < j < list.len() ==> !overlap(#[trigger] list[i], #[trigger] list[j])
                },
                Err(ConfigFault::NoReflectors) => raw.reflectors.len() == 0,
                Err(ConfigFault::ConflictingReflectors {
                    protocol,
                    first,
                    second,
                    source_if,
                    target_if,
                }) => exists|i: int, j: int|
                    #![trigger list[i], list[j]]
                    {
                        &&& 0 <= i < j < list.len()
                        &&& first == list[i].name
                        &&& second == list[j].name
                        &&& source_if == list[i].source_if
                        &&& target_if == list[i].target_if
                        &&& exists|port: u16, mac: MacAddr| #[trigger]
                            doubled(list[i], list[j], protocol, port, mac)
                        &&& forall|a: int, b: int|
                            0 <= a < b < list.len() && (a < i || a == i && b < j) ==> !overlap(
                                #[trigger] list[a],
                                #[trigger] list[b],
                            )
                    },
                Err(_) => false,
            }
        }),
{
    let list = valid_reflectors(raw.reflectors)->Ok_0;
    law_every_reflector_is_validated(raw.reflectors);
    lemma_first_conflict(list, 0, 1);
    assert forall|i: int, j: int| 0 <= i < j < list.len() implies (overlap(
        #[trigger] list[i],
        #[trigger] list[j],
    ) <==> conflict_at(list, i, j)) by {
        lemma_overlap_is_conflict(list[i], list[j]);
    }
    if list.len() > 0 {
        match first_conflict(list, 0, 1) {
            Some(pair) => {
                let (i, j) = pair;
                lemma_first_pair(list, 0, 1);
                lemma_overlap_is_conflict(list[i], list[j]);
                law_reflectors_conflict_where_both_reflect_a_packet(list[i], list[j]);
                assert forall|a: int, b: int|
                    0 <= a < b < list.len() && (a < i || a == i && b < j) implies !overlap(
                    #[trigger] list[a],
                    #[trigger] list[b],
                ) by {
                    assert(!conflict_at(list, a, b));
                }
            },
            None => {
                assert forall|i: int, j: int| 0 <= i < j < list.len() implies !overlap(
                    #[trigger] list[i],
                    #[trigger] list[j],
                ) by {
                    assert(!conflict_at(list, i, j));
                }
            },
        }
    }
}

proof fn lemma_first_pair(list: Seq<ReflectorView>, i: int, j: int)
    requires
        0 <= i < j,
        first_conflict(list, i, j) is Some,
    ensures
        ({
            let (x, y) = first_conflict(list, i, j)->0;
            &&& i <= x
            &&& x < y
            &&& forall|a: int, b: int|
                (i < a || i == a && j <= b) && (a < x || a == x && b < y) ==> !#[trigger] conflict_at(
                    list,
                    a,
                    b,
                )
        }),
    decreases list.len() - i, list.len() - j,
{
    if i < list.len() {
        if j >= list.len() {
            lemma_first_pair(list, i + 1, i + 2);
        } else if !conflict_at(list, i, j) {
            lemma_first_pair(list, i, j + 1);
        }
    }
}

/// The reflectors of a configuration are validated in order: the first that is invalid decides the
/// error, and where none is, each stands at its place.
pub proof fn law_the_first_invalid_reflector_decides(list: Seq<(Seq<char>, RawReflectorView)>)
    ensures
        match valid_reflectors(list) {
            Ok(done) => done.len() == list.len() && forall|i: int|
                0 <= i < list.len() ==> valid_reflector(list[i].0, list[i].1)
                    == Ok::<ReflectorView, ConfigFault>(#[trigger] done[i]),
            Err(e) => exists|k: int|
                #![trigger list[k]]
                {
                    &&& 0 <= k < list.len()
                    &&& valid_reflector(list[k].0, list[k].1) == Err::<ReflectorView, ConfigFault>(e)
                    &&& forall|i: int|
                        0 <= i < k ==> valid_reflector((#[trigger] list[i]).0, list[i].1) is Ok
                },
        },
    decreases list.len(),
{
    if list.len() > 0 {
        let rest = list.drop_last();
        law_the_first_invalid_reflector_decides(rest);
        match valid_reflectors(rest) {
            Ok(before) => {
                let n = list.len() - 1;
                assert forall|i: int| 0 <= i < n implies valid_reflector(
                    (#[trigger] list[i]).0,
                    list[i].1,
                ) is Ok by {
                    assert(rest[i] == list[i]);
                    assert(valid_reflector(rest[i].0, rest[i].1) == Ok::<ReflectorView, ConfigFault>(
                        before[i],
                    ));
                }
                if let Ok(done) = valid_reflectors(list) {
                    assert forall|i: int| 0 <= i < list.len() implies valid_reflector(
                        list[i].0,
                        list[i].1,
                    ) == Ok::<ReflectorView, ConfigFault>(#[trigger] done[i]) by {
                        if i < n {
                            assert(done[i] == before[i]);
                            assert(rest[i] == list[i]);
                        }
                    }
                } else {
                    assert(list[n] == list.last());
                }
            },
            Err(e) => {
                let k = choose|k: int|
                    #![trigger rest[k]]
                    {
                        &&& 0 <= k < rest.len()
                        &&& valid_reflector(rest[k].0, rest[k].1) == Err::<
                            ReflectorView,
                            ConfigFault,
                        >(e)
                        &&& forall|i: int|
                            0 <= i < k ==> valid_reflector((#[trigger] rest[i]).0, rest[i].1) is Ok
                    };
                assert(list[k] == rest[k]);
                assert forall|i: int| 0 <= i < k implies valid_reflector(
                    (#[trigger] list[i]).0,
                    list[i].1,
                ) is Ok by {
                    assert(rest[i] == list[i]);
                }
            },
        }
    }
}

/// Whether the name of a reflector, or else the key it stands under, has a character that is not
/// white space.
pub open spec fn has_name(key: Seq<char>, raw: RawReflectorView) -> bool {
    raw.name is Some || exists|i: int| 0 <= i < key.len() && !white(#[trigger] key[i])
}

/// A reflector is valid exactly where it has a name, its two interfaces differ, it enables a
/// protocol, it lists Wake-on-LAN ports only with Wake-on-LAN, and it enables DIAL only with SSDP
/// and over IPv4. The fields of a valid one are those it was given; without a list of ports,
/// Wake-on-LAN is reflected on ports 7 and 9.
pub proof fn law_valid_reflectors(key: Seq<char>, raw: RawReflectorView)
    ensures
        valid_reflector(key, raw) is Ok <==> {
            &&& has_name(key, raw)
            &&& raw.source_if != raw.target_if
            &&& raw.wol || raw.mdns || raw.ssdp
            &&& raw.wol_ports is Some ==> raw.wol
            &&& raw.dial ==> raw.ssdp && carries_v4(raw.address_family)
        },
        valid_reflector(key, raw) matches Ok(r) ==> {
            &&& raw.name is Some ==> r.name == raw.name->0
            &&& raw.name is None ==> r.name == text::trimmed(key)
            &&& r.source_if == raw.source_if
            &&& r.target_if == raw.target_if
            &&& r.macs == raw.macs
            &&& r.address_family == raw.address_family
            &&& r.mdns == raw.mdns
            &&& raw.wol <==> r.wol is Some
            &&& raw.wol_ports is Some ==> r.wol == raw.wol_ports
            &&& raw.wol && raw.wol_ports is None ==> r.wol->0.len() == 2 && r.wol->0[0] == 7
                && r.wol->0[1] == 9
            &&& raw.ssdp <==> r.ssdp is Some
            &&& raw.ssdp ==> r.ssdp->0 == raw.dial
        },
{
    lemma_blank_trims_to_nothing(key);
}

proof fn lemma_trim_end_nonempty(s: Seq<char>, i: int)
    requires
        0 <= i < s.len(),
        !white(s[i]),
    ensures
        text::trimmed_end(s).len() > 0,
    decreases s.len(),
{
    if text::is_white(s.last()) {
        assert(i < s.len() - 1);
        lemma_trim_end_nonempty(s.drop_last(), i);
    }
}

proof fn lemma_trim_start_nonempty(s: Seq<char>, i: int) -> (j: int)
    requires
        0 <= i < s.len(),
        !white(s[i]),
    ensures
        0 <= j < text::trimmed_start(s).len(),
        !white(text::trimmed_start(s)[j]),
    decreases s.len(),
{
    if text::is_white(s[0]) {
        assert(s.drop_first()[i - 1] == s[i]);
        lemma_trim_start_nonempty(s.drop_first(), i - 1)
    } else {
        i
    }
}

pub proof fn lemma_blank_trims_to_nothing(s: Seq<char>)
    ensures
        text::trimmed(s).len() > 0 <==> exists|i: int| 0 <= i < s.len() && !white(#[trigger] s[i]),
{
    if exists|i: int| 0 <= i < s.len() && !white(#[trigger] s[i]) {
        let i = choose|i: int| 0 <= i < s.len() && !white(#[trigger] s[i]);
        let j = lemma_trim_start_nonempty(s, i);
        lemma_trim_end_nonempty(text::trimmed_start(s), j);
    } else {
        lemma_all_white(s);
        assert(text::trimmed_end(text::trimmed_start(s)).len() == 0);
    }
}

proof fn lemma_all_white(s: Seq<char>)
    requires
        forall|i: int| 0 <= i < s.len() ==> white(#[trigger] s[i]),
    ensures
        text::trimmed_start(s).len() == 0,
    decreases s.len(),
{
    if s.len() > 0 {
        assert(white(s[0]));
        let rest = s.drop_first();
        assert forall|i: int| 0 <= i < rest.len() implies white(#[trigger] rest[i]) by {
            assert(rest[i] == s[i + 1]);
        }
        lemma_all_white(rest);
    }
}

/// What an invalid reflector is refused for: each error comes only where its rule is broken, and
/// names the reflector.
pub proof fn law_invalid_reflectors_are_refused_for_a_reason(key: Seq<char>, raw: RawReflectorView)
    ensures
        match valid_reflector(key, raw) {
            Ok(_) => true,
            Err(ConfigFault::EmptyReflectorName { key: k }) => k == key && !has_name(key, raw),
            Err(ConfigFault::SameInterface { name, value }) => named(key, raw, name)
                && raw.source_if == raw.target_if && value == raw.source_if,
            Err(ConfigFault::NoProtocol { name }) => named(key, raw, name) && !raw.wol && !raw.mdns
                && !raw.ssdp,
            Err(ConfigFault::WolPortsWithoutWol { name }) => named(key, raw, name)
                && raw.wol_ports is Some && !raw.wol,
            Err(ConfigFault::DialWithoutSsdp { name }) => named(key, raw, name) && raw.dial
                && !raw.ssdp,
            Err(ConfigFault::DialRequiresIpv4 { name }) => named(key, raw, name) && raw.dial
                && raw.address_family == AddressFamily::Ipv6,
            Err(_) => false,
        },
{
    lemma_blank_trims_to_nothing(key);
}

/// Whether an error names a reflector as it should: by its name, or else by its key without the
/// white space around it.
pub open spec fn named(key: Seq<char>, raw: RawReflectorView, name: Seq<char>) -> bool {
    raw.name == Some(name) || raw.name is None && name == text::trimmed(key)
}

/// Whether a text is a word in any case; the word is given in small letters.
pub open spec fn in_any_case(s: Seq<char>, word: Seq<char>) -> bool {
    s.len() == word.len() && forall|i: int|
        0 <= i < s.len() ==> (#[trigger] s[i] == word[i] || 65 <= s[i] as int && s[i] as int <= 90
            && s[i] as int + 32 == word[i] as int)
}

/// A word of small letters and other characters, but no capitals.
pub open spec fn no_capitals(word: Seq<char>) -> bool {
    forall|i: int|
        0 <= i < word.len() ==> !(65 <= (#[trigger] word[i]) as int && word[i] as int <= 90)
}

pub proof fn lemma_in_any_case(s: Seq<char>, word: Seq<char>)
    requires
        no_capitals(word),
    ensures
        text::lowered(s) == word <==> in_any_case(s, word),
{
    law_lower_case(s);
    let low = text::lowered(s);
    if low == word {
        assert forall|i: int| 0 <= i < s.len() implies (#[trigger] s[i] == word[i] || 65
            <= s[i] as int && s[i] as int <= 90 && s[i] as int + 32 == word[i] as int) by {
            assert(low[i] == word[i]);
        }
    }
    if in_any_case(s, word) {
        assert forall|i: int| 0 <= i < s.len() implies low[i] == word[i] by {
            assert(s[i] == word[i] || 65 <= s[i] as int && s[i] as int <= 90 && s[i] as int + 32
                == word[i] as int);
            assert(!(65 <= word[i] as int && word[i] as int <= 90));
        }
        assert(low =~= word);
    }
}

/// A text names a log level exactly where it is that level's word, in any case.
pub proof fn law_log_levels_are_words(s: Seq<char>)
    ensures
        log_level_named(s) == Some(LogLevel::Off) <==> in_any_case(s, seq!['o', 'f', 'f']),
        log_level_named(s) == Some(LogLevel::Error) <==> in_any_case(
            s,
            seq!['e', 'r', 'r', 'o', 'r'],
        ),
        log_level_named(s) == Some(LogLevel::Warning) <==> in_any_case(
            s,
            seq!['w', 'a', 'r', 'n', 'i', 'n', 'g'],
        ),
        log_level_named(s) == Some(LogLevel::Info) <==> in_any_case(s, seq!['i', 'n', 'f', 'o']),
        log_level_named(s) == Some(LogLevel::Debug) <==> in_any_case(
            s,
            seq!['d', 'e', 'b', 'u', 'g'],
        ),
        log_level_named(s) == Some(LogLevel::Trace) <==> in_any_case(
            s,
            seq!['t', 'r', 'a', 'c', 'e'],
        ),
{
    reveal_strlit("off");
    reveal_strlit("error");
    reveal_strlit("warning");
    reveal_strlit("info");
    reveal_strlit("debug");
    reveal_strlit("trace");
    assert("off"@ =~= seq!['o', 'f', 'f']);
    assert("error"@ =~= seq!['e', 'r', 'r', 'o', 'r']);
    assert("warning"@ =~= seq!['w', 'a', 'r', 'n', 'i', 'n', 'g']);
    assert("info"@ =~= seq!['i', 'n', 'f', 'o']);
    assert("debug"@ =~= seq!['d', 'e', 'b', 'u', 'g']);
    assert("trace"@ =~= seq!['t', 'r', 'a', 'c', 'e']);
    lemma_in_any_case(s, "off"@);
    lemma_in_any_case(s, "error"@);
    lemma_in_any_case(s, "warning"@);
    lemma_in_any_case(s, "info"@);
    lemma_in_any_case(s, "debug"@);
    lemma_in_any_case(s, "trace"@);
    assert("off"@.len() == 3 && "info"@.len() == 4 && "warning"@.len() == 7);
    assert("error"@[0] == 'e' && "debug"@[0] == 'd' && "trace"@[0] == 't');
}

/// A text names an address family exactly where it is that family's word, in any case.
pub proof fn law_families_are_words(s: Seq<char>)
    ensures
        address_family_named(s) == Some(AddressFamily::Default) <==> in_any_case(
            s,
            seq!['d', 'e', 'f', 'a', 'u', 'l', 't'],
        ),
        address_family_named(s) == Some(AddressFamily::Dual) <==> in_any_case(
            s,
            seq!['d', 'u', 'a', 'l'],
        ),
        address_family_named(s) == Some(AddressFamily::Ipv4) <==> in_any_case(
            s,
            seq!['i', 'p', 'v', '4'],
        ),
        address_family_named(s) == Some(AddressFamily::Ipv6) <==> in_any_case(
            s,
            seq!['i', 'p', 'v', '6'],
        ),
{
    reveal_strlit("default");
    reveal_strlit("dual");
    reveal_strlit("ipv4");
    reveal_strlit("ipv6");
    assert("default"@ =~= seq!['d', 'e', 'f', 'a', 'u', 'l', 't']);
    assert("dual"@ =~= seq!['d', 'u', 'a', 'l']);
    assert("ipv4"@ =~= seq!['i', 'p', 'v', '4']);
    assert("ipv6"@ =~= seq!['i', 'p', 'v', '6']);
    lemma_in_any_case(s, "default"@);
    lemma_in_any_case(s, "dual"@);
    lemma_in_any_case(s, "ipv4"@);
    lemma_in_any_case(s, "ipv6"@);
    assert("default"@.len() == 7 && "dual"@.len() == 4);
    assert("dual"@[0] == 'd' && "ipv4"@[3] == '4' && "ipv6"@[3] == '6' && "ipv4"@[0] == 'i'
        && "ipv6"@[0] == 'i');
}

/// A text is true where it is `true`, in any case, or `1`; false where it is `false`, in any case,
/// or `0`; and nothing else is a truth value.
pub proof fn law_truth_values_are_words(s: Seq<char>)
    ensures
        bool_named(s) == Some(true) <==> in_any_case(s, seq!['t', 'r', 'u', 'e']) || s == seq!['1'],
        bool_named(s) == Some(false) <==> in_any_case(s, seq!['f', 'a', 'l', 's', 'e']) || s
            == seq!['0'],
{
    reveal_strlit("true");
    reveal_strlit("false");
    reveal_strlit("1");
    reveal_strlit("0");
    assert("true"@ =~= seq!['t', 'r', 'u', 'e']);
    assert("false"@ =~= seq!['f', 'a', 'l', 's', 'e']);
    assert("1"@ =~= seq!['1']);
    assert("0"@ =~= seq!['0']);
    lemma_in_any_case(s, "true"@);
    lemma_in_any_case(s, "false"@);
    lemma_in_any_case(s, "1"@);
    lemma_in_any_case(s, "0"@);
    assert("true"@.len() == 4 && "false"@.len() == 5 && "1"@.len() == 1 && "0"@.len() == 1);
    assert("1"@[0] == '1' && "0"@[0] == '0');
    if in_any_case(s, "1"@) {
        assert(s[0] == '1');
        assert(s =~= seq!['1']);
    }
    if in_any_case(s, "0"@) {
        assert(s[0] == '0');
        assert(s =~= seq!['0']);
    }
    if s == seq!['1'] {
        assert(s[0] == '1');
        assert(in_any_case(s, "1"@));
    }
    if s == seq!['0'] {
        assert(s[0] == '0');
        assert(in_any_case(s, "0"@));
    }
}

} // verus!
