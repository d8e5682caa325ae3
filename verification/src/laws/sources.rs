//! Laws of the two sources of a configuration, the environment and the document: what each variable
//! and each field sets, and what is refused.

#[allow(unused_imports)]
use crate::config::decode::{
    decoded, mac_items, port_at, port_items, port_number, positional, positions, read_fields,
    read_reflectors, reflector_of, reflector_value, with_field, with_top,
};
#[allow(unused_imports)]
use crate::config::document::{Node, NodeKind};
#[allow(unused_imports)]
use crate::config::env::{
    after_prefix, bool_named, env_config, finished, no_fields, read_vars, with_param,
    with_reflector_var, with_var, EnvView, MacsParam, PartialView,
};
#[allow(unused_imports)]
use crate::config::error::{ConfigFault, DocumentFault, Expected, RequiredField, ValueFault};
#[allow(unused_imports)]
use crate::config::raw::{clashes, RawConfigView, RawReflectorView};
#[allow(unused_imports)]
use crate::config::table::{ascending, law_put_keeps_order, law_put_leaves_other_keys, lookup, put};
#[allow(unused_imports)]
use crate::config::value::{address_family_named, log_level_named, ports_text, AddressFamily};
#[allow(unused_imports)]
use crate::laws::config::{in_any_case, lemma_blank_trims_to_nothing};
#[allow(unused_imports)]
use crate::laws::http::number;
#[allow(unused_imports)]
use crate::laws::lists::ascii_text;
#[allow(unused_imports)]
use crate::laws::strings::white;
#[allow(unused_imports)]
use crate::net::mac::{mac_value, set_of, set_text, MacAddr};
#[allow(unused_imports)]
use crate::text;
use vstd::prelude::*;

verus! {

/// What can be set of a reflector.
pub enum Part {
    Name,
    SourceIf,
    TargetIf,
    Mac,
    Macs,
    WolPorts,
    AddressFamily,
    Wol,
    Mdns,
    Ssdp,
    Dial,
}

/// The words for the parts.
pub open spec fn word(part: Part) -> Seq<char> {
    match part {
        Part::Name => seq!['n', 'a', 'm', 'e'],
        Part::SourceIf => seq!['s', 'o', 'u', 'r', 'c', 'e', '_', 'i', 'f'],
        Part::TargetIf => seq!['t', 'a', 'r', 'g', 'e', 't', '_', 'i', 'f'],
        Part::Mac => seq!['m', 'a', 'c'],
        Part::Macs => seq!['m', 'a', 'c', 's'],
        Part::WolPorts => seq!['w', 'o', 'l', '_', 'p', 'o', 'r', 't', 's'],
        Part::AddressFamily => seq![
            'a',
            'd',
            'd',
            'r',
            'e',
            's',
            's',
            '_',
            'f',
            'a',
            'm',
            'i',
            'l',
            'y',
        ],
        Part::Wol => seq!['w', 'o', 'l'],
        Part::Mdns => seq!['m', 'd', 'n', 's'],
        Part::Ssdp => seq!['s', 's', 'd', 'p'],
        Part::Dial => seq!['d', 'i', 'a', 'l'],
    }
}

proof fn lemma_words()
    ensures
        "name"@ == word(Part::Name),
        "source_if"@ == word(Part::SourceIf),
        "target_if"@ == word(Part::TargetIf),
        "mac"@ == word(Part::Mac),
        "macs"@ == word(Part::Macs),
        "wol_ports"@ == word(Part::WolPorts),
        "address_family"@ == word(Part::AddressFamily),
        "wol"@ == word(Part::Wol),
        "mdns"@ == word(Part::Mdns),
        "ssdp"@ == word(Part::Ssdp),
        "dial"@ == word(Part::Dial),
{
    reveal_strlit("name");
    reveal_strlit("source_if");
    reveal_strlit("target_if");
    reveal_strlit("mac");
    reveal_strlit("macs");
    reveal_strlit("wol_ports");
    reveal_strlit("address_family");
    reveal_strlit("wol");
    reveal_strlit("mdns");
    reveal_strlit("ssdp");
    reveal_strlit("dial");
    assert("name"@ =~= word(Part::Name));
    assert("source_if"@ =~= word(Part::SourceIf));
    assert("target_if"@ =~= word(Part::TargetIf));
    assert("mac"@ =~= word(Part::Mac));
    assert("macs"@ =~= word(Part::Macs));
    assert("wol_ports"@ =~= word(Part::WolPorts));
    assert("address_family"@ =~= word(Part::AddressFamily));
    assert("wol"@ =~= word(Part::Wol));
    assert("mdns"@ =~= word(Part::Mdns));
    assert("ssdp"@ =~= word(Part::Ssdp));
    assert("dial"@ =~= word(Part::Dial));
}

/// No two parts have the same word.
proof fn lemma_words_differ(a: Part, b: Part)
    requires
        word(a) == word(b),
    ensures
        a == b,
{
    assert(word(a).len() == word(b).len());
    assert(word(a)[0] == word(b)[0]);
    assert(word(a)[1] == word(b)[1]);
    assert(word(a)[2] == word(b)[2]);
    assert(word(Part::Name).len() == 4 && word(Part::Macs).len() == 4 && word(Part::Mdns).len() == 4
        && word(Part::Ssdp).len() == 4 && word(Part::Dial).len() == 4);
    assert(word(Part::SourceIf).len() == 9 && word(Part::TargetIf).len() == 9 && word(
        Part::WolPorts,
    ).len() == 9);
    assert(word(Part::Mac).len() == 3 && word(Part::Wol).len() == 3);
    assert(word(Part::AddressFamily).len() == 14);
    assert(word(Part::Name)[0] == 'n' && word(Part::Macs)[0] == 'm' && word(Part::Mdns)[0] == 'm'
        && word(Part::Ssdp)[0] == 's' && word(Part::Dial)[0] == 'd');
    assert(word(Part::Macs)[1] == 'a' && word(Part::Mdns)[1] == 'd');
    assert(word(Part::SourceIf)[0] == 's' && word(Part::TargetIf)[0] == 't' && word(
        Part::WolPorts,
    )[0] == 'w');
    assert(word(Part::Mac)[0] == 'm' && word(Part::Wol)[0] == 'w');
}

/// Whether two readings of a reflector agree in every part but one.
pub open spec fn same_but(p: PartialView, q: PartialView, part: Part) -> bool {
    &&& part is Name || q.name == p.name
    &&& part is SourceIf || q.source_if == p.source_if
    &&& part is TargetIf || q.target_if == p.target_if
    &&& part is Mac || part is Macs || q.macs == p.macs && q.macs_by == p.macs_by
    &&& part is WolPorts || q.wol_ports == p.wol_ports
    &&& part is AddressFamily || q.address_family == p.address_family
    &&& part is Wol || q.wol == p.wol
    &&& part is Mdns || q.mdns == p.mdns
    &&& part is Ssdp || q.ssdp == p.ssdp
    &&& part is Dial || q.dial == p.dial
}

/// Whether a text has a character that is not white space.
pub open spec fn not_blank(s: Seq<char>) -> bool {
    exists|i: int| 0 <= i < s.len() && !white(#[trigger] s[i])
}

/// Whether a value can be given to a part.
pub open spec fn fits(p: PartialView, part: Part, value: Seq<char>) -> bool {
    match part {
        Part::Name => not_blank(value),
        Part::SourceIf | Part::TargetIf => value.len() > 0,
        Part::Mac => p.macs_by != Some(MacsParam::Macs) && mac_value(value) is Some,
        Part::Macs => p.macs_by != Some(MacsParam::Mac) && set_text(value) is Ok,
        Part::WolPorts => ports_text(value) is Ok,
        Part::AddressFamily => address_family_named(value) is Some,
        Part::Wol | Part::Mdns | Part::Ssdp | Part::Dial => bool_named(value) is Some,
    }
}

/// Whether a reading holds the value that was given to a part.
pub open spec fn holds(q: PartialView, part: Part, value: Seq<char>) -> bool {
    match part {
        Part::Name => q.name == Some(text::trimmed(value)),
        Part::SourceIf => q.source_if == Some(value),
        Part::TargetIf => q.target_if == Some(value),
        Part::Mac => q.macs == Some(seq![mac_value(value)->0]) && q.macs_by == Some(MacsParam::Mac),
        Part::Macs => q.macs == Some(set_text(value)->Ok_0) && q.macs_by == Some(MacsParam::Macs),
        Part::WolPorts => q.wol_ports == Some(ports_text(value)->Ok_0),
        Part::AddressFamily => q.address_family == address_family_named(value),
        Part::Wol => q.wol == bool_named(value),
        Part::Mdns => q.mdns == bool_named(value),
        Part::Ssdp => q.ssdp == bool_named(value),
        Part::Dial => q.dial == bool_named(value),
    }
}

/// Whether a refusal says why: the addresses are given under the other word already; or the value
/// does not parse as what the part takes.
pub open spec fn explains(p: PartialView, part: Part, value: Seq<char>, var: Seq<char>, e: ConfigFault) -> bool {
    match e {
        ConfigFault::EnvMacsTwice { var: v } => v == var && (part is Mac && p.macs_by == Some(
            MacsParam::Macs,
        ) || part is Macs && p.macs_by == Some(MacsParam::Mac)),
        ConfigFault::EnvBadValue { var: v, value: w, source } => v == var && w == value && match part {
            Part::Name => source is ReflectorName,
            Part::SourceIf | Part::TargetIf => source is Interface,
            Part::Mac => source is Mac,
            Part::Macs => set_text(value) is Err && source == ValueFault::Macs(
                set_text(value)->Err_0,
            ),
            Part::WolPorts => ports_text(value) is Err && source == ValueFault::WolPorts(
                ports_text(value)->Err_0,
            ),
            Part::AddressFamily => source is AddressFamily,
            Part::Wol | Part::Mdns | Part::Ssdp | Part::Dial => source is Bool,
        },
        _ => false,
    }
}

/// A variable sets the part that its parameter names, to what its value says, and nothing else; it
/// is refused, with the reason, exactly where its value does not fit.
#[verifier::spinoff_prover]
pub proof fn law_variables_set_the_part_they_name(
    p: PartialView,
    part: Part,
    value: Seq<char>,
    var: Seq<char>,
)
    ensures
        with_param(p, word(part), value, var) is Ok <==> fits(p, part, value),
        with_param(p, word(part), value, var) matches Ok(q) ==> holds(q, part, value) && same_but(
            p,
            q,
            part,
        ),
        with_param(p, word(part), value, var) matches Err(e) ==> explains(p, part, value, var, e),
{
    lemma_words();
    lemma_blank_trims_to_nothing(value);
    let other = |x: Part| word(x) == word(part) ==> x == part;
    assert forall|x: Part| #[trigger] other(x) by {
        if word(x) == word(part) {
            lemma_words_differ(x, part);
        }
    }
    assert(other(Part::Name) && other(Part::SourceIf) && other(Part::TargetIf) && other(Part::Mac)
        && other(Part::Macs) && other(Part::WolPorts) && other(Part::AddressFamily) && other(
        Part::Wol,
    ) && other(Part::Mdns) && other(Part::Ssdp) && other(Part::Dial));
}

/// A parameter that names no part is refused.
pub proof fn law_unknown_parameters_are_refused(
    p: PartialView,
    param: Seq<char>,
    value: Seq<char>,
    var: Seq<char>,
)
    requires
        forall|part: Part| #[trigger] word(part) != param,
    ensures
        with_param(p, param, value, var) == Err::<PartialView, ConfigFault>(
            ConfigFault::EnvUnknownParam { var, param },
        ),
{
    lemma_words();
    assert(word(Part::Name) != param && word(Part::SourceIf) != param && word(Part::TargetIf)
        != param && word(Part::Mac) != param && word(Part::Macs) != param && word(Part::WolPorts)
        != param && word(Part::AddressFamily) != param && word(Part::Wol) != param && word(
        Part::Mdns,
    ) != param && word(Part::Ssdp) != param && word(Part::Dial) != param);
}

/// `REFLECTOR_`.
pub open spec fn prefix() -> Seq<char> {
    seq!['R', 'E', 'F', 'L', 'E', 'C', 'T', 'O', 'R', '_']
}

/// Whether a character is an ASCII letter or digit.
pub open spec fn letter_or_digit(c: char) -> bool {
    let u = c as int;
    48 <= u <= 57 || 65 <= u <= 90 || 97 <= u <= 122
}

/// Whether a text can be a reflector's tag.
pub open spec fn is_tag(s: Seq<char>) -> bool {
    s.len() > 0 && forall|i: int| 0 <= i < s.len() ==> letter_or_digit(#[trigger] s[i])
}

/// `LOG_LEVEL`.
pub open spec fn log_level_word() -> Seq<char> {
    seq!['L', 'O', 'G', '_', 'L', 'E', 'V', 'E', 'L']
}

/// `DEBUG_MEMORY`.
pub open spec fn debug_memory_word() -> Seq<char> {
    seq!['D', 'E', 'B', 'U', 'G', '_', 'M', 'E', 'M', 'O', 'R', 'Y']
}

proof fn lemma_globals()
    ensures
        "REFLECTOR_"@ == prefix(),
        "LOG_LEVEL"@ == log_level_word(),
        "DEBUG_MEMORY"@ == debug_memory_word(),
        "log"@ == seq!['l', 'o', 'g'],
        "debug"@ == seq!['d', 'e', 'b', 'u', 'g'],
{
    reveal_strlit("REFLECTOR_");
    reveal_strlit("LOG_LEVEL");
    reveal_strlit("DEBUG_MEMORY");
    reveal_strlit("log");
    reveal_strlit("debug");
    assert("REFLECTOR_"@ =~= prefix());
    assert("LOG_LEVEL"@ =~= log_level_word());
    assert("DEBUG_MEMORY"@ =~= debug_memory_word());
    assert("log"@ =~= seq!['l', 'o', 'g']);
    assert("debug"@ =~= seq!['d', 'e', 'b', 'u', 'g']);
}

proof fn lemma_after_prefix(rest: Seq<char>)
    ensures
        after_prefix(prefix() + rest, "REFLECTOR_"@) == Some(rest),
{
    lemma_globals();
    assert((prefix() + rest).take(10) =~= prefix());
    assert((prefix() + rest).skip(10) =~= rest);
}

/// A variable whose name does not begin with `REFLECTOR_` sets nothing.
pub proof fn law_foreign_variables_set_nothing(state: EnvView, var: Seq<char>, value: Seq<char>)
    requires
        !prefix().is_prefix_of(var),
    ensures
        with_var(state, var, value) == Ok::<EnvView, ConfigFault>(state),
{
    lemma_globals();
    if var.len() >= 10 && var.take(10) == prefix() {
        assert(prefix().is_prefix_of(var)) by {
            assert(var.take(10) =~= prefix());
            assert forall|i: int| 0 <= i < 10 implies prefix()[i] == var[i] by {
                assert(var.take(10)[i] == var[i]);
            }
        }
    }
}

/// `REFLECTOR_LOG_LEVEL` sets the log level and `REFLECTOR_DEBUG_MEMORY` the memory report, to what
/// their values name, and nothing else; a value that names nothing is refused.
pub proof fn law_globals_are_set_by_their_variables(state: EnvView, value: Seq<char>)
    ensures
        ({
            let var = prefix() + log_level_word();
            match with_var(state, var, value) {
                Ok(after) => {
                    &&& log_level_named(value) is Some
                    &&& after.log_level == log_level_named(value)
                    &&& after.debug_memory == state.debug_memory
                    &&& after.partials == state.partials
                },
                Err(e) => log_level_named(value) is None && e == (ConfigFault::EnvBadValue {
                    var,
                    value,
                    source: ValueFault::LogLevel,
                }),
            }
        }),
        ({
            let var = prefix() + debug_memory_word();
            match with_var(state, var, value) {
                Ok(after) => {
                    &&& bool_named(value) is Some
                    &&& after.debug_memory == bool_named(value)
                    &&& after.log_level == state.log_level
                    &&& after.partials == state.partials
                },
                Err(e) => bool_named(value) is None && e == (ConfigFault::EnvBadValue {
                    var,
                    value,
                    source: ValueFault::Bool,
                }),
            }
        }),
{
    lemma_globals();
    lemma_after_prefix(log_level_word());
    lemma_after_prefix(debug_memory_word());
    assert(log_level_word().len() == 9 && debug_memory_word().len() == 12);
}

/// A variable `REFLECTOR_<tag>_<param>` adds its parameter, in any case, to the reflector of its
/// tag, in any case, and touches no other. The tag ends at the first underscore and is of letters
/// and digits; `log` and `debug` are no tags.
#[verifier::spinoff_prover]
pub proof fn law_variables_add_to_the_reflector_of_their_tag(
    state: EnvView,
    tag: Seq<char>,
    param: Seq<char>,
    value: Seq<char>,
    other: Seq<char>,
)
    requires
        ascending(state.partials),
        !tag.contains('_'),
        tag + seq!['_'] + param != log_level_word(),
        tag + seq!['_'] + param != debug_memory_word(),
    ensures
        ({
            let var = prefix() + (tag + seq!['_'] + param);
            let reserved = in_any_case(tag, seq!['l', 'o', 'g']) || in_any_case(
                tag,
                seq!['d', 'e', 'b', 'u', 'g'],
            );
            let key = text::lowered(tag);
            let before = match lookup(state.partials, key) {
                Some(p) => p,
                None => no_fields(),
            };
            if !is_tag(tag) {
                with_var(state, var, value) == Err::<EnvView, ConfigFault>(
                    ConfigFault::EnvInvalidTag { var, tag },
                )
            } else if reserved {
                with_var(state, var, value) == Err::<EnvView, ConfigFault>(
                    ConfigFault::EnvReservedTag { var },
                )
            } else {
                match with_param(before, text::lowered(param), value, var) {
                    Ok(now) => {
                        &&& with_var(state, var, value) matches Ok(after)
                        &&& lookup(after.partials, key) == Some(now)
                        &&& other != key ==> lookup(after.partials, other) == lookup(
                            state.partials,
                            other,
                        )
                        &&& after.log_level == state.log_level
                        &&& after.debug_memory == state.debug_memory
                    },
                    Err(e) => with_var(state, var, value) == Err::<EnvView, ConfigFault>(e),
                }
            }
        }),
{
    let rest = tag + seq!['_'] + param;
    let var = prefix() + rest;
    lemma_globals();
    lemma_after_prefix(rest);
    let n = tag.len() as int;
    crate::laws::strings::law_first_character_found(rest, '_', 0);
    assert(rest[n] == '_');
    assert(text::first_index(rest, '_', 0) == Some(n)) by {
        let i = text::first_index(rest, '_', 0)->0;
        if i < n {
            assert(rest[i] == tag[i]);
            assert(tag.contains('_'));
        }
    }
    assert(rest.take(n) =~= tag);
    assert(rest.skip(n + 1) =~= param);
    lemma_tags(tag);
    crate::laws::config::lemma_in_any_case(tag, seq!['l', 'o', 'g']);
    crate::laws::config::lemma_in_any_case(tag, seq!['d', 'e', 'b', 'u', 'g']);
    let key = text::lowered(tag);
    let before = match lookup(state.partials, key) {
        Some(p) => p,
        None => no_fields(),
    };
    if let Ok(now) = with_param(before, text::lowered(param), value, var) {
        law_put_keeps_order(state.partials, key, now);
        if other != key {
            law_put_leaves_other_keys(state.partials, key, now, other);
        }
    }
}

proof fn lemma_tags(tag: Seq<char>)
    ensures
        crate::config::env::valid_tag(tag) <==> is_tag(tag),
{
    assert forall|c: char| #[trigger] crate::config::env::alphanumeric(c) <==> letter_or_digit(c) by {
        assert('a' as int == 97 && 'z' as int == 122 && 'A' as int == 65 && 'Z' as int == 90 && '0' as int
            == 48 && '9' as int == 57);
    }
    if is_tag(tag) {
        assert forall|i: int| 0 <= i < tag.len() implies crate::config::env::alphanumeric(
            #[trigger] tag[i],
        ) by {
            assert(letter_or_digit(tag[i]));
        }
    }
    if crate::config::env::valid_tag(tag) {
        assert forall|i: int| 0 <= i < tag.len() implies letter_or_digit(#[trigger] tag[i]) by {
            assert(crate::config::env::alphanumeric(tag[i]));
        }
    }
}

/// A variable with the prefix but no underscore behind it is malformed.
pub proof fn law_variables_need_a_parameter(state: EnvView, rest: Seq<char>, value: Seq<char>)
    requires
        !rest.contains('_'),
    ensures
        with_var(state, prefix() + rest, value) == Err::<EnvView, ConfigFault>(
            ConfigFault::EnvMalformedVar { var: prefix() + rest },
        ),
{
    lemma_globals();
    lemma_after_prefix(rest);
    assert(log_level_word()[3] == '_');
    assert(debug_memory_word()[5] == '_');
    assert(rest != log_level_word() && rest != debug_memory_word());
    crate::laws::strings::law_first_character_found(rest, '_', 0);
}

/// The variables are read one by one, in order, from nothing set; the first refusal stands.
pub proof fn law_variables_are_read_in_order(
    first: Seq<(Seq<char>, Seq<char>)>,
    var: Seq<char>,
    value: Seq<char>,
)
    ensures
        read_vars(Seq::empty()) matches Ok(none) && none.log_level is None && none.debug_memory
            is None && none.partials.len() == 0,
        read_vars(first.push((var, value))) == match read_vars(first) {
            Ok(state) => with_var(state, var, value),
            Err(e) => Err(e),
        },
{
    assert(first.push((var, value)).drop_last() =~= first);
}

/// A reflector needs its two interfaces; a flag that was not set is off, and the family is then the
/// default one. Everything else is as it was set.
pub proof fn law_unset_parts_have_defaults(p: PartialView, name: Seq<char>)
    ensures
        match finished(p, name) {
            Ok(r) => {
                &&& p.source_if == Some(r.source_if)
                &&& p.target_if == Some(r.target_if)
                &&& r.name == p.name
                &&& r.macs == p.macs
                &&& r.wol_ports == p.wol_ports
                &&& r.wol <==> p.wol == Some(true)
                &&& r.mdns <==> p.mdns == Some(true)
                &&& r.ssdp <==> p.ssdp == Some(true)
                &&& r.dial <==> p.dial == Some(true)
                &&& p.address_family is Some ==> r.address_family == p.address_family->0
                &&& p.address_family is None ==> r.address_family == AddressFamily::Default
            },
            Err(ConfigFault::EnvMissingField { name: n, field }) => n == name && (p.source_if is None
                && field == RequiredField::SourceIf || p.source_if is Some && p.target_if is None
                && field == RequiredField::TargetIf),
            Err(_) => false,
        },
        p.source_if is Some && p.target_if is Some ==> finished(p, name) is Ok,
{
}

/// A name clashes with a key of a list where the two are the same text, the white space around the
/// key and the case of letters aside.
pub proof fn law_names_clash_whatever_their_case(
    list: Seq<(Seq<char>, RawReflectorView)>,
    name: Seq<char>,
)
    ensures
        clashes(list, name) <==> exists|i: int|
            0 <= i < list.len() && same_word(text::trimmed((#[trigger] list[i]).0), name),
{
    assert forall|a: Seq<char>, b: Seq<char>| #[trigger]
        same_word(a, b) <==> text::lowered(a) == text::lowered(b) by {
        lemma_same_word(a, b);
    }
    if clashes(list, name) {
        let i = choose|i: int|
            0 <= i < list.len() && text::lowered(text::trimmed((#[trigger] list[i]).0))
                == text::lowered(name);
        assert(same_word(text::trimmed(list[i].0), name));
    }
    if exists|i: int|
        0 <= i < list.len() && same_word(text::trimmed((#[trigger] list[i]).0), name) {
        let i = choose|i: int|
            0 <= i < list.len() && same_word(text::trimmed((#[trigger] list[i]).0), name);
        assert(text::lowered(text::trimmed(list[i].0)) == text::lowered(name));
    }
}

/// The same text but for the case of ASCII letters.
pub open spec fn same_word(a: Seq<char>, b: Seq<char>) -> bool {
    a.len() == b.len() && forall|i: int|
        0 <= i < a.len() ==> {
            let x = (#[trigger] a[i]) as int;
            let y = b[i] as int;
            x == y || 65 <= x <= 90 && y == x + 32 || 65 <= y <= 90 && x == y + 32
        }
}

proof fn lemma_same_word(a: Seq<char>, b: Seq<char>)
    ensures
        same_word(a, b) <==> text::lowered(a) == text::lowered(b),
{
    crate::laws::strings::law_lower_case(a);
    crate::laws::strings::law_lower_case(b);
    let x = text::lowered(a);
    let y = text::lowered(b);
    if same_word(a, b) {
        assert forall|i: int| 0 <= i < a.len() implies x[i] == y[i] by {
            let u = a[i] as int;
            assert(x[i] as int == y[i] as int);
        }
        assert(x =~= y);
    }
    if x == y {
        assert(a.len() == b.len());
        assert forall|i: int| 0 <= i < a.len() implies {
            let x = (#[trigger] a[i]) as int;
            let y = b[i] as int;
            x == y || 65 <= x <= 90 && y == x + 32 || 65 <= y <= 90 && x == y + 32
        } by {
            assert(x[i] == y[i]);
        }
    }
}

/// Whether a value of a document can be given to a part.
pub open spec fn node_fits(part: Part, node: Node) -> bool {
    match part {
        Part::SourceIf | Part::TargetIf => node.kind matches NodeKind::Text(s) && s.len() > 0,
        Part::Macs => node.kind matches NodeKind::List(items) && mac_items(word(part), items) matches Ok(
            macs,
        ) && set_of(macs) is Ok,
        Part::WolPorts => node.kind matches NodeKind::List(items) && port_items(
            word(part),
            items,
        ) matches Ok(ports) && crate::config::value::ports_of(ports) is Ok,
        Part::AddressFamily => node.kind matches NodeKind::Text(s) && address_family_named(s) is Some,
        Part::Wol | Part::Mdns | Part::Ssdp | Part::Dial => node.kind is Boolean,
        Part::Name | Part::Mac => false,
    }
}

/// Whether a reading holds the value of a document that was given to a part.
pub open spec fn node_held(q: PartialView, part: Part, node: Node) -> bool {
    match part {
        Part::SourceIf => node.kind matches NodeKind::Text(s) && q.source_if == Some(s),
        Part::TargetIf => node.kind matches NodeKind::Text(s) && q.target_if == Some(s),
        Part::Macs => node.kind matches NodeKind::List(items) && q.macs == Some(
            mac_items(word(part), items)->Ok_0,
        ),
        Part::WolPorts => node.kind matches NodeKind::List(items) && q.wol_ports == Some(
            port_items(word(part), items)->Ok_0,
        ),
        Part::AddressFamily => node.kind matches NodeKind::Text(s) && q.address_family
            == address_family_named(s),
        Part::Wol => node.kind matches NodeKind::Boolean(b) && q.wol == Some(b),
        Part::Mdns => node.kind matches NodeKind::Boolean(b) && q.mdns == Some(b),
        Part::Ssdp => node.kind matches NodeKind::Boolean(b) && q.ssdp == Some(b),
        Part::Dial => node.kind matches NodeKind::Boolean(b) && q.dial == Some(b),
        Part::Name | Part::Mac => false,
    }
}

/// A field of a reflector's table sets the part that its key names, to what its value says, and
/// nothing else; it is refused exactly where its value does not fit. A document names neither a
/// `name` nor a `mac`.
#[verifier::spinoff_prover]
pub proof fn law_fields_set_the_part_they_name(p: PartialView, part: Part, node: Node)
    ensures
        with_field(p, word(part), node) is Ok <==> node_fits(part, node),
        with_field(p, word(part), node) matches Ok(q) ==> node_held(q, part, node) && same_but(
            p,
            q,
            part,
        ) && q.macs_by == p.macs_by,
        part is Name || part is Mac ==> with_field(p, word(part), node) == Err::<
            PartialView,
            DocumentFault,
        >(DocumentFault::UnknownField { field: word(part), at: node.place.key }),
{
    lemma_words();
    let other = |x: Part| word(x) == word(part) ==> x == part;
    assert forall|x: Part| #[trigger] other(x) by {
        if word(x) == word(part) {
            lemma_words_differ(x, part);
        }
    }
    assert(other(Part::Name) && other(Part::SourceIf) && other(Part::TargetIf) && other(Part::Mac)
        && other(Part::Macs) && other(Part::WolPorts) && other(Part::AddressFamily) && other(
        Part::Wol,
    ) && other(Part::Mdns) && other(Part::Ssdp) && other(Part::Dial));
    if let NodeKind::List(items) = node.kind {
        if let Ok(macs) = mac_items(word(Part::Macs), items) {
            crate::laws::lists::law_sets_of_addresses_repeat_nothing(macs);
        }
        if let Ok(ports) = port_items(word(Part::WolPorts), items) {
            crate::laws::lists::law_lists_of_ports_repeat_nothing(ports);
        }
    }
}

/// A key that names no part is refused.
pub proof fn law_unknown_fields_are_refused(p: PartialView, key: Seq<char>, node: Node)
    requires
        forall|part: Part| #[trigger] word(part) != key,
    ensures
        with_field(p, key, node) == Err::<PartialView, DocumentFault>(
            DocumentFault::UnknownField { field: key, at: node.place.key },
        ),
{
    lemma_words();
    assert(word(Part::SourceIf) != key && word(Part::TargetIf) != key && word(Part::Macs) != key
        && word(Part::WolPorts) != key && word(Part::AddressFamily) != key && word(Part::Wol) != key
        && word(Part::Mdns) != key && word(Part::Ssdp) != key && word(Part::Dial) != key);
}

/// The items of a list of addresses are texts that are addresses, in order; the first item that is
/// not decides the refusal.
pub proof fn law_listed_addresses(field: Seq<char>, items: Seq<Node>)
    ensures
        mac_items(field, items) is Ok <==> forall|i: int|
            0 <= i < items.len() ==> is_mac_node(#[trigger] items[i]),
        mac_items(field, items) matches Ok(macs) ==> macs.len() == items.len() && forall|i: int|
            0 <= i < items.len() ==> (items[i].kind matches NodeKind::Text(s) && mac_value(s) == Some(
                #[trigger] macs[i],
            )),
    decreases items.len(),
{
    if items.len() > 0 {
        let rest = items.drop_last();
        let n = items.len() - 1;
        law_listed_addresses(field, rest);
        assert forall|i: int| 0 <= i < n implies #[trigger] rest[i] == items[i] by {}
        if mac_items(field, items) is Ok {
            assert forall|i: int| 0 <= i < items.len() implies is_mac_node(#[trigger] items[i]) by {
                if i < n {
                    assert(is_mac_node(rest[i]));
                }
            }
        } else if forall|i: int| 0 <= i < items.len() ==> is_mac_node(#[trigger] items[i]) {
            assert forall|i: int| 0 <= i < rest.len() implies is_mac_node(#[trigger] rest[i]) by {
                assert(is_mac_node(items[i]));
            }
            assert(is_mac_node(items[n]));
        }
        if let Ok(macs) = mac_items(field, items) {
            let before = mac_items(field, rest)->Ok_0;
            assert forall|i: int| 0 <= i < items.len() implies (items[i].kind matches NodeKind::Text(
                s,
            ) && mac_value(s) == Some(#[trigger] macs[i])) by {
                if i < n {
                    assert(macs[i] == before[i]);
                    assert(rest[i] == items[i]);
                }
            }
        }
    }
}

/// Whether a value is a text that is an address.
pub open spec fn is_mac_node(node: Node) -> bool {
    node.kind matches NodeKind::Text(s) && mac_value(s) is Some
}

/// The items of a list of ports are integers from 1 to 65535, in order, in any of the document's
/// radixes.
pub proof fn law_listed_ports(field: Seq<char>, items: Seq<Node>)
    ensures
        port_items(field, items) is Ok <==> forall|i: int|
            0 <= i < items.len() ==> (#[trigger] port_of(items[i])) is Some,
        port_items(field, items) matches Ok(ports) ==> ports.len() == items.len() && forall|i: int|
            0 <= i < items.len() ==> port_of(items[i]) == Some(#[trigger] ports[i] as int),
    decreases items.len(),
{
    if items.len() > 0 {
        let rest = items.drop_last();
        let n = items.len() - 1;
        law_listed_ports(field, rest);
        lemma_port_of(items[n]);
        assert forall|i: int| 0 <= i < n implies #[trigger] rest[i] == items[i] by {}
        if port_items(field, items) is Ok {
            assert forall|i: int| 0 <= i < items.len() implies (#[trigger] port_of(items[i]))
                is Some by {
                if i < n {
                    assert(port_of(rest[i]) is Some);
                }
            }
        } else if forall|i: int| 0 <= i < items.len() ==> (#[trigger] port_of(items[i])) is Some {
            assert forall|i: int| 0 <= i < rest.len() implies (#[trigger] port_of(rest[i]))
                is Some by {
                assert(port_of(items[i]) is Some);
            }
            assert(port_of(items[n]) is Some);
        }
        if let Ok(ports) = port_items(field, items) {
            let before = port_items(field, rest)->Ok_0;
            assert forall|i: int| 0 <= i < items.len() implies port_of(items[i]) == Some(
                #[trigger] ports[i] as int,
            ) by {
                if i < n {
                    assert(ports[i] == before[i]);
                    assert(rest[i] == items[i]);
                }
            }
        }
    }
}

/// The port that a value is: an integer of radix 2, 8, 10 or 16 whose number is from 1 to 65535.
pub open spec fn port_of(node: Node) -> Option<int> {
    match node.kind {
        NodeKind::Integer { digits, radix } => if (radix == 2 || radix == 8 || radix == 10 || radix
            == 16) && number(ascii_text(digits), radix as int, 65535) is Some && number(
            ascii_text(digits),
            radix as int,
            65535,
        )->0 > 0 {
            number(ascii_text(digits), radix as int, 65535)
        } else {
            None
        },
        _ => None,
    }
}

proof fn lemma_port_of(node: Node)
    ensures
        match port_at(node) {
            Some(port) => port_of(node) == Some(port as int),
            None => port_of(node) is None,
        },
{
    if let NodeKind::Integer { digits, radix } = node.kind {
        if radix == 2 || radix == 8 || radix == 10 || radix == 16 {
            let s = ascii_text(digits);
            assert(text::narrowed(digits) =~= s);
            crate::laws::http::lemma_number(s, radix as int, 65535);
            lemma_value_nonneg(crate::laws::http::unsigned(s), radix as int);
        }
    }
}

proof fn lemma_value_nonneg(s: Seq<u8>, radix: int)
    requires
        radix > 0,
    ensures
        crate::laws::strings::place_value(s, radix) >= 0,
    decreases s.len(),
{
    if s.len() > 0 {
        lemma_value_nonneg(s.drop_last(), radix);
        let rest = crate::laws::strings::place_value(s.drop_last(), radix);
        assert(radix * rest >= 0) by (nonlinear_arith)
            requires
                radix > 0,
                rest >= 0,
        ;
    }
}

/// The fields of a table are read one by one, in order, from nothing set; the first refusal stands.
pub proof fn law_fields_are_read_in_order(
    first: Seq<(Seq<char>, Node)>,
    key: Seq<char>,
    node: Node,
)
    ensures
        read_fields(Seq::empty()) == Ok::<PartialView, DocumentFault>(no_fields()),
        read_fields(first.push((key, node))) == match read_fields(first) {
            Ok(p) => with_field(p, key, node),
            Err(e) => Err(e),
        },
{
    assert(first.push((key, node)).drop_last() =~= first);
}

/// A reflector that a list gives by position is the one that a table gives with the names in their
/// order: source_if, target_if, macs, wol, mdns, ssdp, dial, wol_ports, address_family. A list
/// without at least the first eight is no reflector.
pub proof fn law_positions_stand_for_names(key: Seq<char>, list: Node, table: Node, items: Seq<Node>)
    requires
        list.kind == NodeKind::List(items),
        table.place == list.place,
        table.kind == NodeKind::Table(
            Seq::new(
                if items.len() < 9 {
                    items.len()
                } else {
                    9
                },
                |i: int| (word(part_at(i)), items[i]),
            ),
        ),
    ensures
        items.len() >= 8 ==> reflector_value(key, list) == reflector_value(key, table),
        items.len() < 8 ==> reflector_value(key, list) == Err::<RawReflectorView, DocumentFault>(
            DocumentFault::WrongType { field: key, expected: Expected::Table, at: list.place.value },
        ),
{
    lemma_words();
    let named = Seq::new(
        if items.len() < 9 {
            items.len()
        } else {
            9
        },
        |i: int| (word(part_at(i)), items[i]),
    );
    assert(positional(items) =~= named) by {
        assert forall|i: int| 0 <= i < named.len() implies positional(items)[i] == named[i] by {
            assert(i == 0 || i == 1 || i == 2 || i == 3 || i == 4 || i == 5 || i == 6 || i == 7 || i
                == 8);
        }
    }
}

/// The part at a position.
pub open spec fn part_at(i: int) -> Part {
    if i == 0 {
        Part::SourceIf
    } else if i == 1 {
        Part::TargetIf
    } else if i == 2 {
        Part::Macs
    } else if i == 3 {
        Part::Wol
    } else if i == 4 {
        Part::Mdns
    } else if i == 5 {
        Part::Ssdp
    } else if i == 6 {
        Part::Dial
    } else if i == 7 {
        Part::WolPorts
    } else {
        Part::AddressFamily
    }
}

/// The top-level fields: `log_level` is a text that names a level, `debug_memory` a truth value,
/// `reflectors` a table; each sets what it names and nothing else. Any other is refused.
pub proof fn law_top_level_fields(raw: RawConfigView, key: Seq<char>, node: Node)
    ensures
        ({
            let level = seq!['l', 'o', 'g', '_', 'l', 'e', 'v', 'e', 'l'];
            let memory = seq!['d', 'e', 'b', 'u', 'g', '_', 'm', 'e', 'm', 'o', 'r', 'y'];
            let reflectors = seq!['r', 'e', 'f', 'l', 'e', 'c', 't', 'o', 'r', 's'];
            &&& with_top(raw, key, node) matches Ok(after) ==> {
                ||| key == level && (node.kind matches NodeKind::Text(s) && log_level_named(s)
                    is Some && after == (RawConfigView { log_level: log_level_named(s), ..raw }))
                ||| key == memory && (node.kind matches NodeKind::Boolean(b) && after == (
                RawConfigView { debug_memory: Some(b), ..raw }))
                ||| key == reflectors && (node.kind matches NodeKind::Table(list)
                    && read_reflectors(list) is Ok && after == (RawConfigView {
                    reflectors: read_reflectors(list)->Ok_0,
                    ..raw
                }))
            }
            &&& key == level && (node.kind matches NodeKind::Text(s) && log_level_named(s) is Some)
                ==> with_top(raw, key, node) is Ok
            &&& key == memory && node.kind is Boolean ==> with_top(raw, key, node) is Ok
            &&& key == reflectors && (node.kind matches NodeKind::Table(list) && read_reflectors(
                list,
            ) is Ok) ==> with_top(raw, key, node) is Ok
            &&& key != level && key != memory && key != reflectors ==> with_top(raw, key, node)
                == Err::<RawConfigView, DocumentFault>(
                DocumentFault::UnknownField { field: key, at: node.place.key },
            )
        }),
{
    reveal_strlit("log_level");
    reveal_strlit("debug_memory");
    reveal_strlit("reflectors");
    let level = seq!['l', 'o', 'g', '_', 'l', 'e', 'v', 'e', 'l'];
    let memory = seq!['d', 'e', 'b', 'u', 'g', '_', 'm', 'e', 'm', 'o', 'r', 'y'];
    let reflectors = seq!['r', 'e', 'f', 'l', 'e', 'c', 't', 'o', 'r', 's'];
    assert("log_level"@ =~= level);
    assert("debug_memory"@ =~= memory);
    assert("reflectors"@ =~= reflectors);
    assert(level.len() == 9 && memory.len() == 12 && reflectors.len() == 10);
}

proof fn lemma_clashes_after_put(
    list: Seq<(Seq<char>, RawReflectorView)>,
    name: Seq<char>,
    reflector: RawReflectorView,
    key: Seq<char>,
)
    requires
        clashes(put(list, name, reflector), key),
    ensures
        clashes(list, key) || text::lowered(text::trimmed(name)) == text::lowered(key),
{
    let after = put(list, name, reflector);
    let i = choose|i: int|
        0 <= i < after.len() && text::lowered(text::trimmed((#[trigger] after[i]).0))
            == text::lowered(key);
    let at = crate::config::table::slot(list, name);
    crate::config::table::lemma_slot(list, name);
    if i != at {
        if at < list.len() && list[at].0 == name {
            assert(list[i] == after[i]);
        } else if i < at {
            assert(list[i] == after[i]);
        } else {
            assert(list[i - 1] == after[i]);
        }
    }
}

/// The reflectors of the environment are added to those of the file where no name of the one is a
/// name of the other, and no two names of the environment are the same, the white space around a
/// key and the case of letters aside.
pub proof fn law_different_names_are_combined(
    list: Seq<(Seq<char>, RawReflectorView)>,
    env: Seq<(Seq<char>, RawReflectorView)>,
)
    requires
        forall|i: int, j: int|
            0 <= i < list.len() && 0 <= j < env.len() ==> !same_word(
                text::trimmed((#[trigger] list[i]).0),
                (#[trigger] env[j]).0,
            ),
        forall|i: int, j: int|
            0 <= i < env.len() && 0 <= j < env.len() && i != j ==> !same_word(
                text::trimmed((#[trigger] env[i]).0),
                (#[trigger] env[j]).0,
            ),
    ensures
        crate::config::raw::merged_reflectors(list, env) is Ok,
    decreases env.len(),
{
    if env.len() > 0 {
        let (name, reflector) = env[0];
        law_names_clash_whatever_their_case(list, name);
        assert(!clashes(list, name)) by {
            if clashes(list, name) {
                let i = choose|i: int|
                    0 <= i < list.len() && same_word(text::trimmed((#[trigger] list[i]).0), name);
                assert(!same_word(text::trimmed(list[i].0), env[0].0));
            }
        }
        let next = put(list, name, reflector);
        let rest = env.drop_first();
        assert forall|i: int, j: int|
            0 <= i < next.len() && 0 <= j < rest.len() implies !same_word(
            text::trimmed((#[trigger] next[i]).0),
            (#[trigger] rest[j]).0,
        ) by {
            let key = rest[j].0;
            assert(rest[j] == env[j + 1]);
            lemma_same_word(text::trimmed(next[i].0), key);
            if same_word(text::trimmed(next[i].0), key) {
                assert(clashes(next, key));
                lemma_clashes_after_put(list, name, reflector, key);
                lemma_same_word(text::trimmed(name), key);
                assert(!same_word(text::trimmed(env[0].0), env[j + 1].0));
                law_names_clash_whatever_their_case(list, key);
                let k = choose|k: int|
                    0 <= k < list.len() && same_word(text::trimmed((#[trigger] list[k]).0), key);
                assert(!same_word(text::trimmed(list[k].0), env[j + 1].0));
            }
        }
        assert forall|i: int, j: int|
            0 <= i < rest.len() && 0 <= j < rest.len() && i != j implies !same_word(
            text::trimmed((#[trigger] rest[i]).0),
            (#[trigger] rest[j]).0,
        ) by {
            assert(rest[i] == env[i + 1] && rest[j] == env[j + 1]);
        }
        law_different_names_are_combined(next, rest);
    }
}

/// A name of the environment that is also a name of the file is refused, and the error names it.
pub proof fn law_a_name_in_both_sources_is_refused(
    list: Seq<(Seq<char>, RawReflectorView)>,
    env: Seq<(Seq<char>, RawReflectorView)>,
)
    ensures
        crate::config::raw::merged_reflectors(list, env) matches Err(e) ==> exists|j: int|
            0 <= j < env.len() && e == (ConfigFault::DuplicateReflector {
                name: (#[trigger] env[j]).0,
            }),
        env.len() > 0 && clashes(list, env[0].0) ==> crate::config::raw::merged_reflectors(
            list,
            env,
        ) == Err::<Seq<(Seq<char>, RawReflectorView)>, ConfigFault>(
            ConfigFault::DuplicateReflector { name: env[0].0 },
        ),
    decreases env.len(),
{
    if env.len() > 0 && !clashes(list, env[0].0) {
        let rest = env.drop_first();
        law_a_name_in_both_sources_is_refused(put(list, env[0].0, env[0].1), rest);
        if let Err(e) = crate::config::raw::merged_reflectors(list, env) {
            let j = choose|j: int|
                0 <= j < rest.len() && e == (ConfigFault::DuplicateReflector {
                    name: (#[trigger] rest[j]).0,
                });
            assert(env[j + 1] == rest[j]);
        }
    }
}

/// The reflectors that the variables describe are finished in order of their tags, each at its
/// place; the first that lacks an interface decides the refusal.
pub proof fn law_described_reflectors_are_finished(partials: Seq<(Seq<char>, PartialView)>)
    requires
        ascending(partials),
    ensures
        match crate::config::env::finished_all(partials) {
            Ok(done) => done.len() == partials.len() && forall|i: int|
                0 <= i < partials.len() ==> (#[trigger] done[i]).0 == partials[i].0 && finished(
                    partials[i].1,
                    partials[i].0,
                ) == Ok::<RawReflectorView, ConfigFault>(done[i].1),
            Err(e) => exists|k: int|
                0 <= k < partials.len() && finished((#[trigger] partials[k]).1, partials[k].0)
                    == Err::<RawReflectorView, ConfigFault>(e) && forall|i: int|
                    0 <= i < k ==> finished((#[trigger] partials[i]).1, partials[i].0) is Ok,
        },
    decreases partials.len(),
{
    if partials.len() > 0 {
        let rest = partials.drop_last();
        let n = partials.len() - 1;
        let (key, p) = partials.last();
        assert forall|i: int, j: int| 0 <= i < j < rest.len() implies text::less(
            (#[trigger] rest[i]).0,
            (#[trigger] rest[j]).0,
        ) by {
            assert(text::less(partials[i].0, partials[j].0));
        }
        law_described_reflectors_are_finished(rest);
        assert(partials[n] == partials.last());
        assert forall|i: int| 0 <= i < n implies #[trigger] rest[i] == partials[i] by {}
        match crate::config::env::finished_all(rest) {
            Ok(before) => {
                assert forall|i: int| 0 <= i < n implies finished(
                    (#[trigger] partials[i]).1,
                    partials[i].0,
                ) is Ok by {
                    assert(before[i].0 == rest[i].0);
                }
                if let Ok(raw) = finished(p, key) {
                    crate::config::table::lemma_slot(before, key);
                    let at = crate::config::table::slot(before, key);
                    if at < n {
                        assert(before[at].0 == rest[at].0);
                        assert(text::less(partials[at].0, partials[n].0));
                    }
                    let done = put(before, key, raw);
                    assert(done =~= before.push((key, raw)));
                    assert forall|i: int| 0 <= i < partials.len() implies (#[trigger] done[i]).0
                        == partials[i].0 && finished(partials[i].1, partials[i].0) == Ok::<
                        RawReflectorView,
                        ConfigFault,
                    >(done[i].1) by {
                        if i < n {
                            assert(done[i] == before[i]);
                            assert(rest[i] == partials[i]);
                        }
                    }
                }
            },
            Err(e) => {
                let k = choose|k: int|
                    0 <= k < rest.len() && finished((#[trigger] rest[k]).1, rest[k].0) == Err::<
                        RawReflectorView,
                        ConfigFault,
                    >(e) && forall|i: int|
                        0 <= i < k ==> finished((#[trigger] rest[i]).1, rest[i].0) is Ok;
                assert(partials[k] == rest[k]);
                assert forall|i: int| 0 <= i < k implies finished(
                    (#[trigger] partials[i]).1,
                    partials[i].0,
                ) is Ok by {
                    assert(rest[i] == partials[i]);
                }
            },
        }
    }
}

/// The reflectors of a document's table are read one by one, each under its key; the first refusal
/// stands.
pub proof fn law_reflectors_are_read_in_order(
    first: Seq<(Seq<char>, Node)>,
    key: Seq<char>,
    node: Node,
)
    ensures
        read_reflectors(Seq::empty()) matches Ok(none) && none.len() == 0,
        match read_reflectors(first) {
            Err(e) => read_reflectors(first.push((key, node))) == Err::<
                Seq<(Seq<char>, RawReflectorView)>,
                DocumentFault,
            >(e),
            Ok(before) => match reflector_value(key, node) {
                Err(e) => read_reflectors(first.push((key, node))) == Err::<
                    Seq<(Seq<char>, RawReflectorView)>,
                    DocumentFault,
                >(e),
                Ok(raw) => {
                    &&& read_reflectors(first.push((key, node))) matches Ok(after)
                    &&& ascending(before) ==> ascending(after) && lookup(after, key) == Some(raw)
                        && forall|other: Seq<char>|
                        other != key ==> #[trigger] lookup(after, other) == lookup(before, other)
                },
            },
        },
{
    assert(first.push((key, node)).drop_last() =~= first);
    if let Ok(before) = read_reflectors(first) {
        if let Ok(raw) = reflector_value(key, node) {
            if ascending(before) {
                law_put_keeps_order(before, key, raw);
                assert forall|other: Seq<char>| other != key implies #[trigger] lookup(
                    put(before, key, raw),
                    other,
                ) == lookup(before, other) by {
                    law_put_leaves_other_keys(before, key, raw, other);
                }
            }
        }
    }
}

/// A reflector that a table describes needs both interfaces, and the error says which is missing,
/// the source first; its fields are then those of the table.
pub proof fn law_tables_need_both_interfaces(list: Seq<(Seq<char>, Node)>, at: usize)
    ensures
        read_fields(list) matches Err(e) ==> reflector_of(list, at) == Err::<
            RawReflectorView,
            DocumentFault,
        >(e),
        read_fields(list) matches Ok(p) ==> {
            &&& p.source_if is None ==> reflector_of(list, at) == Err::<
                RawReflectorView,
                DocumentFault,
            >(DocumentFault::MissingField { field: RequiredField::SourceIf, at })
            &&& p.source_if is Some && p.target_if is None ==> reflector_of(list, at) == Err::<
                RawReflectorView,
                DocumentFault,
            >(DocumentFault::MissingField { field: RequiredField::TargetIf, at })
            &&& p.source_if is Some && p.target_if is Some ==> reflector_of(list, at) is Ok
                && reflector_of(list, at)->Ok_0 == finished(p, Seq::empty())->Ok_0
        },
{
}

/// Where a configuration's error comes from: the document's text first, then its fields, then the
/// variables, then a name that both define, then the rules.
pub proof fn law_the_first_source_of_error_decides(
    document: Option<Result<Seq<(Seq<char>, Node)>, Seq<char>>>,
    vars: Seq<(Seq<char>, Seq<char>)>,
)
    ensures
        document matches Some(Err(message)) ==> crate::config::configured(document, vars) == Err::<
            crate::config::ConfigView,
            ConfigFault,
        >(ConfigFault::Parse(DocumentFault::Syntax(message))),
        document matches Some(Ok(list)) ==> (decoded(list) matches Err(e)
            ==> crate::config::configured(document, vars) == Err::<
            crate::config::ConfigView,
            ConfigFault,
        >(ConfigFault::Parse(e))),
        document matches Some(Ok(list)) ==> (decoded(list) matches Ok(file) ==> both_sources(
            file,
            document,
            vars,
        )),
        document is None ==> both_sources(
            RawConfigView { log_level: None, debug_memory: None, reflectors: Seq::empty() },
            document,
            vars,
        ),
{
}

/// What a configuration is, the document's part having been read.
pub open spec fn both_sources(
    file: RawConfigView,
    document: Option<Result<Seq<(Seq<char>, Node)>, Seq<char>>>,
    vars: Seq<(Seq<char>, Seq<char>)>,
) -> bool {
    let whole = crate::config::configured(document, vars);
    match env_config(vars) {
        Err(e) => whole == Err::<crate::config::ConfigView, ConfigFault>(e),
        Ok(env) => match crate::config::raw::merged(file, env) {
            Err(e) => whole == Err::<crate::config::ConfigView, ConfigFault>(e),
            Ok(raw) => whole == crate::config::valid_config(raw),
        },
    }
}

/// The log level is resolved early from the first variable that sets it, whatever else the sources
/// hold: it is the level of that name, or the variable is refused.
pub proof fn law_the_first_log_level_variable_decides(
    document: Option<Result<Seq<(Seq<char>, Node)>, Seq<char>>>,
    vars: Seq<(Seq<char>, Seq<char>)>,
    at: int,
)
    requires
        0 <= at < vars.len(),
        vars[at].0 == "REFLECTOR_LOG_LEVEL"@,
        forall|i: int| 0 <= i < at ==> (#[trigger] vars[i]).0 != "REFLECTOR_LOG_LEVEL"@,
    ensures
        ({
            let level = log_level_named(vars[at].1);
            let resolved = crate::config::resolved_log_level(document, vars);
            &&& level is Some ==> resolved == Ok::<crate::config::value::LogLevel, ConfigFault>(
                level->0,
            )
            &&& level is None ==> resolved == Err::<crate::config::value::LogLevel, ConfigFault>(
                ConfigFault::EnvBadValue {
                    var: "REFLECTOR_LOG_LEVEL"@,
                    value: vars[at].1,
                    source: ValueFault::LogLevel,
                },
            )
        }),
    decreases vars.len(),
{
    if at > 0 {
        let rest = vars.drop_first();
        assert forall|i: int| 0 <= i < at - 1 implies (#[trigger] rest[i]).0
            != "REFLECTOR_LOG_LEVEL"@ by {
            assert(rest[i] == vars[i + 1]);
        }
        assert(rest[at - 1] == vars[at]);
        assert(vars[0].0 != "REFLECTOR_LOG_LEVEL"@);
        law_the_first_log_level_variable_decides(document, rest, at - 1);
    }
}

/// Without such a variable the first field of that name decides, by its text; without that field,
/// or without a document, the level is info. A document that is none is refused.
pub proof fn law_the_first_log_level_field_decides(
    document: Option<Result<Seq<(Seq<char>, Node)>, Seq<char>>>,
    vars: Seq<(Seq<char>, Seq<char>)>,
    at: int,
)
    requires
        forall|i: int| 0 <= i < vars.len() ==> (#[trigger] vars[i]).0 != "REFLECTOR_LOG_LEVEL"@,
    ensures
        ({
            let resolved = crate::config::resolved_log_level(document, vars);
            &&& document is None ==> resolved == Ok::<crate::config::value::LogLevel, ConfigFault>(
                crate::config::value::LogLevel::Info,
            )
            &&& document matches Some(Err(message)) ==> resolved == Err::<
                crate::config::value::LogLevel,
                ConfigFault,
            >(ConfigFault::Parse(DocumentFault::Syntax(message)))
            &&& document matches Some(Ok(list)) ==> {
                &&& (forall|i: int| 0 <= i < list.len() ==> (#[trigger] list[i]).0 != "log_level"@)
                    ==> resolved == Ok::<crate::config::value::LogLevel, ConfigFault>(
                    crate::config::value::LogLevel::Info,
                )
                &&& first_log_level_field(list, at) ==> match list[at].1.kind {
                    NodeKind::Text(s) => match log_level_named(s) {
                        Some(level) => resolved == Ok::<
                            crate::config::value::LogLevel,
                            ConfigFault,
                        >(level),
                        None => resolved matches Err(ConfigFault::Parse(DocumentFault::BadValue {
                            ..
                        })),
                    },
                    _ => resolved matches Err(ConfigFault::Parse(DocumentFault::WrongType { .. })),
                }
            }
        }),
{
    lemma_no_log_level_variable(vars);
    if let Some(Ok(list)) = document {
        if forall|i: int| 0 <= i < list.len() ==> (#[trigger] list[i]).0 != "log_level"@ {
            lemma_no_log_level_field(list);
        }
        if first_log_level_field(list, at) {
            lemma_log_level_field(list, at);
        }
    }
}

/// Whether the field at a place is the first that is called `log_level`.
pub open spec fn first_log_level_field(list: Seq<(Seq<char>, Node)>, at: int) -> bool {
    &&& 0 <= at < list.len()
    &&& list[at].0 == "log_level"@
    &&& forall|i: int| 0 <= i < at ==> (#[trigger] list[i]).0 != "log_level"@
}

proof fn lemma_no_log_level_variable(vars: Seq<(Seq<char>, Seq<char>)>)
    requires
        forall|i: int| 0 <= i < vars.len() ==> (#[trigger] vars[i]).0 != "REFLECTOR_LOG_LEVEL"@,
    ensures
        crate::config::env::env_log_level(vars) == Ok::<
            Option<crate::config::value::LogLevel>,
            ConfigFault,
        >(None),
    decreases vars.len(),
{
    if vars.len() > 0 {
        let rest = vars.drop_first();
        assert forall|i: int| 0 <= i < rest.len() implies (#[trigger] rest[i]).0
            != "REFLECTOR_LOG_LEVEL"@ by {
            assert(rest[i] == vars[i + 1]);
        }
        assert(vars[0].0 != "REFLECTOR_LOG_LEVEL"@);
        lemma_no_log_level_variable(rest);
    }
}

proof fn lemma_no_log_level_field(list: Seq<(Seq<char>, Node)>)
    requires
        forall|i: int| 0 <= i < list.len() ==> (#[trigger] list[i]).0 != "log_level"@,
    ensures
        crate::config::decode::probed(list) == Ok::<
            Option<crate::config::value::LogLevel>,
            DocumentFault,
        >(None),
    decreases list.len(),
{
    if list.len() > 0 {
        let rest = list.drop_first();
        assert forall|i: int| 0 <= i < rest.len() implies (#[trigger] rest[i]).0
            != "log_level"@ by {
            assert(rest[i] == list[i + 1]);
        }
        assert(list[0].0 != "log_level"@);
        lemma_no_log_level_field(rest);
    }
}

proof fn lemma_log_level_field(list: Seq<(Seq<char>, Node)>, at: int)
    requires
        first_log_level_field(list, at),
    ensures
        match list[at].1.kind {
            NodeKind::Text(s) => match log_level_named(s) {
                Some(level) => crate::config::decode::probed(list) == Ok::<
                    Option<crate::config::value::LogLevel>,
                    DocumentFault,
                >(Some(level)),
                None => crate::config::decode::probed(list) matches Err(DocumentFault::BadValue {
                    ..
                }),
            },
            _ => crate::config::decode::probed(list) matches Err(DocumentFault::WrongType { .. }),
        },
    decreases list.len(),
{
    if at > 0 {
        let rest = list.drop_first();
        assert forall|i: int| 0 <= i < at - 1 implies (#[trigger] rest[i]).0 != "log_level"@ by {
            assert(rest[i] == list[i + 1]);
        }
        assert(rest[at - 1] == list[at]);
        assert(list[0].0 != "log_level"@);
        lemma_log_level_field(rest, at - 1);
    }
}

} // verus!
