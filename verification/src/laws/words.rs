//! Laws of what is said in words: where an error stands in a file, and that an error names what it
//! is about.

#[allow(unused_imports)]
use crate::config::error::{ConfigFault, DocumentFault};
#[allow(unused_imports)]
use crate::config::messages::{config_words, document_words, place_in, utf8_len, walked};
#[allow(unused_imports)]
use crate::config::{protocol_names, ReflectorView};
#[allow(unused_imports)]
use crate::reflector::{build_words, BuildFault, IpFamily};
#[allow(unused_imports)]
use crate::text;
use vstd::prelude::*;

verus! {

/// How many bytes a text takes in UTF-8.
pub open spec fn bytes_of(s: Seq<char>) -> int
    decreases s.len(),
{
    if s.len() == 0 {
        0
    } else {
        bytes_of(s.drop_first()) + if (s[0] as int) < 128 {
            1int
        } else if (s[0] as int) < 2048 {
            2
        } else if (s[0] as int) < 65536 {
            3
        } else {
            4
        }
    }
}

/// How many line breaks a text has.
pub open spec fn breaks_in(s: Seq<char>) -> int
    decreases s.len(),
{
    if s.len() == 0 {
        0
    } else {
        breaks_in(s.drop_first()) + if s[0] == '\n' {
            1int
        } else {
            0
        }
    }
}

proof fn lemma_walked(before: Seq<char>, behind: Seq<char>, line: int, column: int)
    ensures
        walked(before + behind, bytes_of(before), line, column).0 == line + breaks_in(before),
        breaks_in(before) == 0 ==> walked(before + behind, bytes_of(before), line, column).1
            == column + before.len(),
    decreases before.len(),
{
    let s = before + behind;
    if before.len() == 0 {
        assert(s =~= behind);
    } else {
        let rest = before.drop_first();
        assert(s[0] == before[0]);
        assert(s.drop_first() =~= rest + behind);
        lemma_bytes_nonneg(rest);
        lemma_breaks_nonneg(rest);
        assert('\n' as int == 10);
        if before[0] == '\n' {
            lemma_walked(rest, behind, line + 1, 1);
        } else {
            lemma_walked(rest, behind, line, column + 1);
        }
    }
}

proof fn lemma_bytes_nonneg(s: Seq<char>)
    ensures
        bytes_of(s) >= 0,
    decreases s.len(),
{
    if s.len() > 0 {
        lemma_bytes_nonneg(s.drop_first());
    }
}

proof fn lemma_breaks_nonneg(s: Seq<char>)
    ensures
        breaks_in(s) >= 0,
    decreases s.len(),
{
    if s.len() > 0 {
        lemma_breaks_nonneg(s.drop_first());
    }
}

proof fn lemma_walk_through(a: Seq<char>, b: Seq<char>, extra: int, line: int, column: int)
    requires
        extra >= 0,
    ensures
        walked(a + b, bytes_of(a) + extra, line, column) == ({
            let (l, c) = walked(a + b, bytes_of(a), line, column);
            walked(b, extra, l, c)
        }),
    decreases a.len(),
{
    let s = a + b;
    if a.len() == 0 {
        assert(s =~= b);
    } else {
        let rest = a.drop_first();
        assert(s[0] == a[0]);
        assert(s.drop_first() =~= rest + b);
        lemma_bytes_nonneg(rest);
        assert('\n' as int == 10);
        if a[0] == '\n' {
            lemma_walk_through(rest, b, extra, line + 1, 1);
        } else {
            lemma_walk_through(rest, b, extra, line, column + 1);
        }
    }
}

/// A place in a file is a line and a column, both counted from one: the line is one more than the
/// line breaks before the place, the column one more than the characters since the last of them.
/// The place is given in bytes.
pub proof fn law_places_are_counted_from_one(
    earlier: Seq<char>,
    line: Seq<char>,
    behind: Seq<char>,
)
    requires
        !line.contains('\n'),
        earlier.len() > 0 ==> earlier.last() == '\n',
    ensures
        place_in(earlier + line + behind, bytes_of(earlier) + bytes_of(line)) == (
            1 + breaks_in(earlier),
            1 + line.len() as int,
        ),
{
    let rest = line + behind;
    assert(earlier + line + behind =~= earlier + rest);
    lemma_bytes_nonneg(line);
    lemma_no_breaks(line);
    lemma_walk_through(earlier, rest, bytes_of(line), 1, 1);
    lemma_walked(earlier, rest, 1, 1);
    lemma_column_after_break(earlier, rest, 1, 1);
    let (l, c) = walked(earlier + rest, bytes_of(earlier), 1, 1);
    lemma_walked(line, behind, l, c);
}

proof fn lemma_no_breaks(s: Seq<char>)
    requires
        !s.contains('\n'),
    ensures
        breaks_in(s) == 0,
    decreases s.len(),
{
    if s.len() > 0 {
        assert(s[0] != '\n');
        let rest = s.drop_first();
        if rest.contains('\n') {
            let i = choose|i: int| 0 <= i < rest.len() && rest[i] == '\n';
            assert(s[i + 1] == '\n');
        }
        lemma_no_breaks(rest);
    }
}

proof fn lemma_column_after_break(a: Seq<char>, b: Seq<char>, line: int, column: int)
    requires
        a.len() > 0 ==> a.last() == '\n',
        a.len() == 0 ==> column == 1,
    ensures
        walked(a + b, bytes_of(a), line, column).1 == 1,
    decreases a.len(),
{
    let s = a + b;
    if a.len() == 0 {
        assert(s =~= b);
    } else {
        let rest = a.drop_first();
        assert(s[0] == a[0]);
        assert(s.drop_first() =~= rest + b);
        lemma_bytes_nonneg(rest);
        assert('\n' as int == 10);
        if a[0] == '\n' {
            lemma_column_after_break(rest, b, line + 1, 1);
        } else {
            assert(rest.len() > 0);
            lemma_column_after_break(rest, b, line, column + 1);
        }
    }
}

/// Whether a text has another in it.
pub open spec fn mentions(s: Seq<char>, part: Seq<char>) -> bool {
    exists|i: int|
        0 <= i && i + part.len() <= s.len() && #[trigger] s.subrange(i, i + part.len()) == part
}

proof fn lemma_mentions(before: Seq<char>, part: Seq<char>, behind: Seq<char>)
    ensures
        mentions(before + part + behind, part),
{
    let s = before + part + behind;
    let i = before.len() as int;
    assert(s.subrange(i, i + part.len()) =~= part);
}

proof fn lemma_still_mentions(s: Seq<char>, part: Seq<char>, behind: Seq<char>)
    requires
        mentions(s, part),
    ensures
        mentions(s + behind, part),
{
    let i = choose|i: int|
        0 <= i && i + part.len() <= s.len() && #[trigger] s.subrange(i, i + part.len()) == part;
    assert((s + behind).subrange(i, i + part.len()) =~= s.subrange(i, i + part.len()));
}

/// An error about a reflector, a variable, a key or an interface names it.
pub proof fn law_errors_name_what_they_are_about(e: ConfigFault, file: Option<Seq<char>>)
    ensures
        match e {
            ConfigFault::EmptyReflectorName { key } => mentions(config_words(e, file), key),
            ConfigFault::SameInterface { name, value } => mentions(config_words(e, file), name)
                && mentions(config_words(e, file), value),
            ConfigFault::NoProtocol { name } => mentions(config_words(e, file), name),
            ConfigFault::WolPortsWithoutWol { name } => mentions(config_words(e, file), name),
            ConfigFault::DialWithoutSsdp { name } => mentions(config_words(e, file), name),
            ConfigFault::DialRequiresIpv4 { name } => mentions(config_words(e, file), name),
            ConfigFault::DuplicateReflector { name } => mentions(config_words(e, file), name),
            ConfigFault::ConflictingReflectors { protocol, first, second, source_if, target_if } => {
                &&& mentions(config_words(e, file), first)
                &&& mentions(config_words(e, file), second)
                &&& mentions(config_words(e, file), source_if)
                &&& mentions(config_words(e, file), target_if)
                &&& mentions(config_words(e, file), protocol.spec_name())
            },
            ConfigFault::EnvMalformedVar { var } => mentions(config_words(e, file), var),
            ConfigFault::EnvInvalidTag { var, tag } => mentions(config_words(e, file), var)
                && mentions(config_words(e, file), tag),
            ConfigFault::EnvReservedTag { var } => mentions(config_words(e, file), var),
            ConfigFault::EnvUnknownParam { var, param } => mentions(config_words(e, file), var)
                && mentions(config_words(e, file), param),
            ConfigFault::EnvMacsTwice { var } => mentions(config_words(e, file), var),
            ConfigFault::EnvBadValue { var, value, source } => mentions(config_words(e, file), var)
                && mentions(config_words(e, file), value),
            ConfigFault::EnvMissingField { name, field } => mentions(config_words(e, file), name)
                && mentions(config_words(e, file), field.spec_name()),
            ConfigFault::ReadFile { path, message } => mentions(config_words(e, file), path)
                && mentions(config_words(e, file), message),
            _ => true,
        },
{
    match e {
        ConfigFault::EmptyReflectorName { key } => {
            lemma_mentions("reflector name \""@, key, "\" is empty or whitespace-only"@);
        },
        ConfigFault::SameInterface { name, value } => {
            let a = "reflector \""@;
            let b = "\" source_if and target_if must differ (both are \""@;
            let c = "\")"@;
            lemma_mentions(a, name, b);
            lemma_still_mentions(a + name + b, name, value);
            lemma_still_mentions(a + name + b + value, name, c);
            lemma_mentions(a + name + b, value, c);
        },
        ConfigFault::NoProtocol { name } => {
            lemma_mentions(
                "reflector \""@,
                name,
                "\" enables no protocol (set wol, mdns, or ssdp)"@,
            );
        },
        ConfigFault::WolPortsWithoutWol { name } => {
            lemma_mentions("reflector \""@, name, "\" sets wol_ports but does not enable wol"@);
        },
        ConfigFault::DialWithoutSsdp { name } => {
            lemma_mentions("reflector \""@, name, "\" sets dial but does not enable ssdp"@);
        },
        ConfigFault::DialRequiresIpv4 { name } => {
            lemma_mentions(
                "reflector \""@,
                name,
                "\" enables dial but the address family has no IPv4 (DIAL is IPv4-only)"@,
            );
        },
        ConfigFault::DuplicateReflector { name } => {
            lemma_mentions(
                "reflector \""@,
                name,
                "\" is defined in both the configuration file and the environment"@,
            );
        },
        ConfigFault::ConflictingReflectors { protocol, first, second, source_if, target_if } => {
            let a = "reflectors \""@;
            let b = "\" and \""@;
            let c = "\" both reflect "@;
            let d = " on "@;
            let f = " -> "@;
            let g = " with overlapping MAC selection and address family"@;
            let p = protocol.spec_name();
            let t1 = a + first + b;
            let t2 = t1 + second + c;
            let t3 = t2 + p + d;
            let t4 = t3 + source_if + f;
            let t5 = t4 + target_if + g;
            lemma_mentions(a, first, b);
            lemma_mentions(t1, second, c);
            lemma_mentions(t2, p, d);
            lemma_mentions(t3, source_if, f);
            lemma_mentions(t4, target_if, g);
            lemma_still_mentions(t1, first, second + c);
            assert(t1 + (second + c) =~= t2);
            lemma_still_mentions(t2, first, p + d);
            lemma_still_mentions(t2, second, p + d);
            assert(t2 + (p + d) =~= t3);
            lemma_still_mentions(t3, first, source_if + f);
            lemma_still_mentions(t3, second, source_if + f);
            lemma_still_mentions(t3, p, source_if + f);
            assert(t3 + (source_if + f) =~= t4);
            lemma_still_mentions(t4, first, target_if + g);
            lemma_still_mentions(t4, second, target_if + g);
            lemma_still_mentions(t4, p, target_if + g);
            lemma_still_mentions(t4, source_if, target_if + g);
            assert(t4 + (target_if + g) =~= t5);
        },
        ConfigFault::EnvMalformedVar { var } => {
            lemma_mentions(
                "environment variable \""@,
                var,
                "\" is malformed (expected REFLECTOR_<tag>_<param>)"@,
            );
        },
        ConfigFault::EnvInvalidTag { var, tag } => {
            let a = "environment variable \""@;
            let b = "\" has invalid tag \""@;
            let c = "\" (tags must be non-empty and alphanumeric)"@;
            lemma_mentions(a, var, b);
            lemma_still_mentions(a + var + b, var, tag);
            lemma_still_mentions(a + var + b + tag, var, c);
            lemma_mentions(a + var + b, tag, c);
        },
        ConfigFault::EnvReservedTag { var } => {
            lemma_mentions(
                "environment variable \""@,
                var,
                "\" uses a reserved tag (log and debug are globals)"@,
            );
        },
        ConfigFault::EnvUnknownParam { var, param } => {
            let a = "environment variable \""@;
            let b = "\" sets unknown parameter \""@;
            let c = "\""@;
            lemma_mentions(a, var, b);
            lemma_still_mentions(a + var + b, var, param);
            lemma_still_mentions(a + var + b + param, var, c);
            lemma_mentions(a + var + b, param, c);
        },
        ConfigFault::EnvMacsTwice { var } => {
            lemma_mentions(
                "environment variable \""@,
                var,
                "\" sets the addresses twice (give either mac or macs)"@,
            );
        },
        ConfigFault::EnvBadValue { var, value, source } => {
            let a = "environment variable \""@;
            let b = "\" has invalid value \""@;
            let c = "\": "@;
            let w = crate::config::messages::value_words(source);
            lemma_mentions(a, var, b);
            lemma_still_mentions(a + var + b, var, value);
            lemma_still_mentions(a + var + b + value, var, c);
            lemma_still_mentions(a + var + b + value + c, var, w);
            lemma_mentions(a + var + b, value, c);
            lemma_still_mentions(a + var + b + value + c, value, w);
        },
        ConfigFault::EnvMissingField { name, field } => {
            let a = "reflector \""@;
            let b = "\" (from the environment) has no "@;
            let f = field.spec_name();
            lemma_mentions(a, name, b);
            lemma_still_mentions(a + name + b, name, f);
            lemma_still_mentions(a + name + b + f, name, ""@);
            lemma_mentions(a + name + b, f, ""@);
        },
        ConfigFault::ReadFile { path, message } => {
            let a = "cannot read config file \""@;
            let b = "\": "@;
            lemma_mentions(a, path, b);
            lemma_still_mentions(a + path + b, path, message);
            lemma_still_mentions(a + path + b + message, path, ""@);
            lemma_mentions(a + path + b, message, ""@);
        },
        _ => {},
    }
}

/// A reflector's protocols are listed in order: Wake-on-LAN with its ports, mDNS, and SSDP, marked
/// where DIAL is on; only those that are enabled.
pub proof fn law_enabled_protocols_are_listed(r: ReflectorView)
    ensures
        ({
            let list = protocol_names(r);
            let wol: int = if r.wol is Some {
                1
            } else {
                0
            };
            let mdns: int = if r.mdns {
                1
            } else {
                0
            };
            let ssdp: int = if r.ssdp is Some {
                1
            } else {
                0
            };
            &&& list.len() == wol + mdns + ssdp
            &&& r.wol matches Some(ports) ==> list[0] == seq!['w', 'o', 'l', '('] + text::joined(
                ports.map_values(|p: u16| text::decimal(p as nat)),
                seq![','],
            ) + seq![')']
            &&& r.mdns ==> list[wol] == seq!['m', 'd', 'n', 's']
            &&& r.ssdp == Some(false) ==> list[wol + mdns] == seq!['s', 's', 'd', 'p']
            &&& r.ssdp == Some(true) ==> list[wol + mdns] == seq![
                's',
                's',
                'd',
                'p',
                '+',
                'd',
                'i',
                'a',
                'l',
            ]
        }),
{
    reveal_strlit("wol(");
    reveal_strlit(",");
    reveal_strlit(")");
    reveal_strlit("mdns");
    reveal_strlit("ssdp");
    reveal_strlit("ssdp+dial");
    assert("wol("@ =~= seq!['w', 'o', 'l', '(']);
    assert(","@ =~= seq![',']);
    assert(")"@ =~= seq![')']);
    assert("mdns"@ =~= seq!['m', 'd', 'n', 's']);
    assert("ssdp"@ =~= seq!['s', 's', 'd', 'p']);
    assert("ssdp+dial"@ =~= seq!['s', 's', 'd', 'p', '+', 'd', 'i', 'a', 'l']);
    if let Some(ports) = r.wol {
        assert(crate::config::port_texts(ports) =~= ports.map_values(
            |p: u16| text::decimal(p as nat),
        ));
    }
}

/// An error of building a reflector names the interface it is about.
pub proof fn law_building_errors_name_the_interface(e: BuildFault)
    ensures
        match e {
            BuildFault::UnknownInterface(name) => mentions(build_words(e), name),
            BuildFault::RequiredFamilyUnavailable { interface, family } => mentions(
                build_words(e),
                interface,
            ),
        },
{
    match e {
        BuildFault::UnknownInterface(name) => {
            lemma_mentions("no capture for interface \""@, name, "\""@);
        },
        BuildFault::RequiredFamilyUnavailable { interface, family } => {
            let a = "interface \""@;
            let b = "\" cannot send "@;
            let f = match family {
                IpFamily::V4 => "IPv4"@,
                IpFamily::V6 => "IPv6"@,
            };
            lemma_mentions(a, interface, b);
            lemma_still_mentions(a + interface + b, interface, f);
            lemma_still_mentions(a + interface + b + f, interface, ", required by the reflector"@);
        },
    }
}

/// A list that is refused for one entry names it, behind the field it stands in; one that is refused
/// for having none names the field alone.
pub proof fn law_refused_lists_name_the_entry(
    mac: crate::net::mac::MacAddr,
    port: u16,
    token: Seq<char>,
)
    ensures
        ({
            let m = crate::config::messages::mac_set_words(
                crate::net::mac::MacSetFault::Duplicate(mac),
            );
            let t = crate::net::mac::octets_text(mac@, 6);
            "macs"@.is_prefix_of(m) && t.len() <= m.len() && m.skip(m.len() - t.len()) == t
        }),
        ({
            let m = crate::config::messages::wol_ports_words(
                crate::config::value::WolPortsFault::Duplicate(port),
            );
            let t = text::decimal(port as nat);
            "wol_ports"@.is_prefix_of(m) && t.len() <= m.len() && m.skip(m.len() - t.len()) == t
        }),
        ({
            let m = crate::config::messages::mac_set_words(
                crate::net::mac::MacSetFault::BadMac(token),
            );
            "macs"@.is_prefix_of(m) && m.len() > token.len() && m.last() == '"' && m.drop_last().skip(
                m.len() - 1 - token.len(),
            ) == token
        }),
        ({
            let m = crate::config::messages::wol_ports_words(
                crate::config::value::WolPortsFault::BadPort(token),
            );
            "wol_ports"@.is_prefix_of(m) && m.len() > token.len() && m.last() == '"'
                && m.drop_last().skip(m.len() - 1 - token.len()) == token
        }),
{
    reveal_strlit("macs");
    reveal_strlit("wol_ports");
    reveal_strlit("");
    reveal_strlit("\"");
    reveal_strlit("macs contains duplicate address ");
    reveal_strlit("wol_ports contains duplicate port ");
    reveal_strlit("macs has an invalid address \"");
    reveal_strlit("wol_ports has an invalid port \"");
    let a = crate::config::messages::mac_set_words(crate::net::mac::MacSetFault::Duplicate(mac));
    let t = crate::net::mac::octets_text(mac@, 6);
    assert(a.skip(a.len() - t.len()) =~= t);
    let b = crate::config::messages::wol_ports_words(
        crate::config::value::WolPortsFault::Duplicate(port),
    );
    let u = text::decimal(port as nat);
    assert(b.skip(b.len() - u.len()) =~= u);
    let c = crate::config::messages::mac_set_words(crate::net::mac::MacSetFault::BadMac(token));
    assert(c.drop_last().skip(c.len() - 1 - token.len()) =~= token);
    let d = crate::config::messages::wol_ports_words(
        crate::config::value::WolPortsFault::BadPort(token),
    );
    assert(d.drop_last().skip(d.len() - 1 - token.len()) =~= token);
}

} // verus!
