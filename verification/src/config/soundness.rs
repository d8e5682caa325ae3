//! What holds of every configuration that was accepted, whichever sources it came from.

#[allow(unused_imports)]
use crate::config::decode::{
    decoded, read_fields, read_reflectors, reflector_value, with_field,
};
#[allow(unused_imports)]
use crate::config::document::{Node, NodeKind};
#[allow(unused_imports)]
use crate::config::env::{
    env_config, finished, finished_all, no_fields, read_vars, with_param, with_var, EnvView,
    PartialView,
};
#[allow(unused_imports)]
use crate::config::raw::{merged, merged_reflectors, RawReflectorView};
#[allow(unused_imports)]
use crate::config::table::{lemma_found_is_an_entry, lemma_slot, lookup, put};
#[allow(unused_imports)]
use crate::config::{
    configured, conflict, file_config, law_every_reflector_is_validated,
    law_no_packet_is_reflected_twice, valid_reflector, valid_reflectors, ReflectorView,
};
#[allow(unused_imports)]
use crate::net::mac::MacAddr;
#[allow(unused_imports)]
use crate::text;
use vstd::prelude::*;

verus! {

/// A name: not empty, and with no white space around it.
pub open spec fn sound_name(name: Seq<char>) -> bool {
    name.len() > 0 && text::trimmed(name) == name
}

/// A list: not empty, and with nothing in it twice.
pub open spec fn sound_list<T>(list: Seq<T>) -> bool {
    list.len() > 0 && list.no_duplicates()
}

/// What was read of a reflector is sound, as far as it was read.
spec fn sound_fields(p: PartialView) -> bool {
    &&& p.name matches Some(name) ==> sound_name(name)
    &&& p.source_if matches Some(name) ==> name.len() > 0
    &&& p.target_if matches Some(name) ==> name.len() > 0
    &&& p.macs matches Some(macs) ==> sound_list(macs)
    &&& p.wol_ports matches Some(ports) ==> sound_list(ports)
}

/// The fields of a raw reflector are sound.
pub open spec fn sound_raw(r: RawReflectorView) -> bool {
    &&& r.name matches Some(name) ==> sound_name(name)
    &&& r.source_if.len() > 0
    &&& r.target_if.len() > 0
    &&& r.macs matches Some(macs) ==> sound_list(macs)
    &&& r.wol_ports matches Some(ports) ==> sound_list(ports)
}

/// A reflector that obeys every rule.
pub open spec fn sound(r: ReflectorView) -> bool {
    &&& sound_name(r.name)
    &&& r.source_if.len() > 0
    &&& r.target_if.len() > 0
    &&& r.source_if != r.target_if
    &&& r.macs matches Some(macs) ==> sound_list(macs)
    &&& r.wol is Some || r.mdns || r.ssdp is Some
    &&& r.wol matches Some(ports) ==> sound_list(ports)
    &&& r.ssdp == Some(true) ==> r.address_family.v4()
}

proof fn lemma_ports_are_sound(ports: Seq<u16>)
    requires
        crate::config::value::ports_of(ports) is Ok,
    ensures
        sound_list(crate::config::value::ports_of(ports)->Ok_0),
{
    assert(ports.take(0) =~= Seq::<u16>::empty());
    crate::config::value::lemma_no_repeat(ports, 0);
}

proof fn lemma_macs_are_sound(macs: Seq<MacAddr>)
    requires
        crate::net::mac::set_of(macs) is Ok,
    ensures
        sound_list(crate::net::mac::set_of(macs)->Ok_0),
{
    assert(macs.take(0) =~= Seq::<MacAddr>::empty());
    crate::net::mac::lemma_no_repeat(macs, 0);
}

proof fn lemma_param_keeps_sound(
    p: PartialView,
    param: Seq<char>,
    value: Seq<char>,
    var: Seq<char>,
)
    requires
        sound_fields(p),
    ensures
        with_param(p, param, value, var) matches Ok(q) ==> sound_fields(q),
{
    text::lemma_trimmed_stays(value);
    if with_param(p, param, value, var) is Ok {
        if param == "macs"@ && crate::net::mac::set_text(value) is Ok {
            let tokens = crate::net::mac::tokens(value);
            lemma_macs_are_sound(
                Seq::new(tokens.len(), |i: int| crate::net::mac::mac_value(tokens[i])->0),
            );
        }
        if param == "wol_ports"@ && crate::config::value::ports_text(value) is Ok {
            let tokens = crate::net::mac::tokens(value);
            lemma_ports_are_sound(
                Seq::new(tokens.len(), |i: int| crate::config::value::port_named(tokens[i])->0),
            );
        }
    }
}

proof fn lemma_field_keeps_sound(p: PartialView, key: Seq<char>, node: Node)
    requires
        sound_fields(p),
    ensures
        with_field(p, key, node) matches Ok(q) ==> sound_fields(q),
{
    if let NodeKind::List(items) = node.kind {
        if key == "macs"@ {
            if let Ok(macs) = crate::config::decode::mac_items(key, items) {
                if crate::net::mac::set_of(macs) is Ok {
                    lemma_macs_are_sound(macs);
                }
            }
        }
        if key == "wol_ports"@ {
            if let Ok(ports) = crate::config::decode::port_items(key, items) {
                if crate::config::value::ports_of(ports) is Ok {
                    lemma_ports_are_sound(ports);
                }
            }
        }
    }
}

spec fn all_fields_sound(list: Seq<(Seq<char>, PartialView)>) -> bool {
    forall|i: int| 0 <= i < list.len() ==> sound_fields((#[trigger] list[i]).1)
}

spec fn all_sound(list: Seq<(Seq<char>, RawReflectorView)>) -> bool {
    forall|i: int| 0 <= i < list.len() ==> sound_raw((#[trigger] list[i]).1)
}

/// The entries after a value was put are those before it, and the new one.
proof fn lemma_put_entries<V>(list: Seq<(Seq<char>, V)>, key: Seq<char>, value: V, i: int)
    requires
        0 <= i < put(list, key, value).len(),
    ensures
        put(list, key, value)[i] == (key, value) || (exists|j: int|
            0 <= j < list.len() && #[trigger] list[j] == put(list, key, value)[i]),
{
    lemma_slot(list, key);
    let at = crate::config::table::slot(list, key);
    let after = put(list, key, value);
    if at < list.len() && list[at].0 == key {
        if i != at {
            assert(list[i] == after[i]);
        }
    } else if i < at {
        assert(list[i] == after[i]);
    } else if i > at {
        assert(list[i - 1] == after[i]);
    }
}

proof fn lemma_put_fields(
    list: Seq<(Seq<char>, PartialView)>,
    key: Seq<char>,
    value: PartialView,
)
    requires
        all_fields_sound(list),
        sound_fields(value),
    ensures
        all_fields_sound(put(list, key, value)),
{
    assert forall|i: int| 0 <= i < put(list, key, value).len() implies sound_fields(
        (#[trigger] put(list, key, value)[i]).1,
    ) by {
        lemma_put_entries(list, key, value, i);
    }
}

proof fn lemma_put_raw(
    list: Seq<(Seq<char>, RawReflectorView)>,
    key: Seq<char>,
    value: RawReflectorView,
)
    requires
        all_sound(list),
        sound_raw(value),
    ensures
        all_sound(put(list, key, value)),
{
    assert forall|i: int| 0 <= i < put(list, key, value).len() implies sound_raw(
        (#[trigger] put(list, key, value)[i]).1,
    ) by {
        lemma_put_entries(list, key, value, i);
    }
}

proof fn lemma_var_keeps_sound(state: EnvView, var: Seq<char>, value: Seq<char>)
    requires
        all_fields_sound(state.partials),
    ensures
        with_var(state, var, value) matches Ok(after) ==> all_fields_sound(after.partials),
{
    if let Some(rest) = crate::config::env::after_prefix(var, "REFLECTOR_"@) {
        if let Some(i) = text::first_index(rest, '_', 0) {
            let name = text::lowered(rest.take(i));
            let param = text::lowered(rest.skip(i + 1));
            let fields = match lookup(state.partials, name) {
                Some(fields) => fields,
                None => no_fields(),
            };
            lemma_found_is_an_entry(state.partials, name);
            lemma_param_keeps_sound(fields, param, value, var);
            if let Ok(now) = with_param(fields, param, value, var) {
                lemma_put_fields(state.partials, name, now);
            }
        }
    }
}

proof fn lemma_vars_are_sound(vars: Seq<(Seq<char>, Seq<char>)>)
    ensures
        read_vars(vars) matches Ok(state) ==> all_fields_sound(state.partials),
    decreases vars.len(),
{
    if vars.len() > 0 {
        lemma_vars_are_sound(vars.drop_last());
        if let Ok(state) = read_vars(vars.drop_last()) {
            lemma_var_keeps_sound(state, vars.last().0, vars.last().1);
        }
    }
}

proof fn lemma_finished_are_sound(partials: Seq<(Seq<char>, PartialView)>)
    requires
        all_fields_sound(partials),
    ensures
        finished_all(partials) matches Ok(list) ==> all_sound(list),
    decreases partials.len(),
{
    if partials.len() > 0 {
        let rest = partials.drop_last();
        assert forall|i: int| 0 <= i < rest.len() implies sound_fields((#[trigger] rest[i]).1) by {
            assert(rest[i] == partials[i]);
        }
        lemma_finished_are_sound(rest);
        let n = partials.len() - 1;
        assert(sound_fields(partials[n].1));
        if let Ok(before) = finished_all(rest) {
            if let Ok(raw) = finished(partials.last().1, partials.last().0) {
                lemma_put_raw(before, partials.last().0, raw);
            }
        }
    }
}

proof fn lemma_table_is_sound(list: Seq<(Seq<char>, Node)>)
    ensures
        read_fields(list) matches Ok(p) ==> sound_fields(p),
    decreases list.len(),
{
    if list.len() > 0 {
        lemma_table_is_sound(list.drop_last());
        if let Ok(p) = read_fields(list.drop_last()) {
            lemma_field_keeps_sound(p, list.last().0, list.last().1);
        }
    }
}

proof fn lemma_reflectors_are_sound(list: Seq<(Seq<char>, Node)>)
    ensures
        read_reflectors(list) matches Ok(reflectors) ==> all_sound(reflectors),
    decreases list.len(),
{
    if list.len() > 0 {
        lemma_reflectors_are_sound(list.drop_last());
        let (key, value) = list.last();
        match value.kind {
            NodeKind::Table(fields) => lemma_table_is_sound(fields),
            NodeKind::List(items) => lemma_table_is_sound(crate::config::decode::positional(items)),
            _ => {},
        }
        if let Ok(before) = read_reflectors(list.drop_last()) {
            if let Ok(raw) = reflector_value(key, value) {
                lemma_put_raw(before, key, raw);
            }
        }
    }
}

proof fn lemma_document_is_sound(list: Seq<(Seq<char>, Node)>)
    ensures
        decoded(list) matches Ok(raw) ==> all_sound(raw.reflectors),
    decreases list.len(),
{
    if list.len() > 0 {
        lemma_document_is_sound(list.drop_last());
        if let NodeKind::Table(reflectors) = list.last().1.kind {
            lemma_reflectors_are_sound(reflectors);
        }
    }
}

proof fn lemma_merged_are_sound(
    list: Seq<(Seq<char>, RawReflectorView)>,
    env: Seq<(Seq<char>, RawReflectorView)>,
)
    requires
        all_sound(list),
        all_sound(env),
    ensures
        merged_reflectors(list, env) matches Ok(all) ==> all_sound(all),
    decreases env.len(),
{
    if env.len() > 0 {
        let rest = env.drop_first();
        assert forall|i: int| 0 <= i < rest.len() implies sound_raw((#[trigger] rest[i]).1) by {
            assert(rest[i] == env[i + 1]);
        }
        assert(sound_raw(env[0].1));
        lemma_put_raw(list, env[0].0, env[0].1);
        lemma_merged_are_sound(put(list, env[0].0, env[0].1), rest);
    }
}

/// A reflector that was accepted obeys the rules.
proof fn lemma_valid_is_sound(key: Seq<char>, raw: RawReflectorView)
    requires
        sound_raw(raw),
        valid_reflector(key, raw) is Ok,
    ensures
        sound(valid_reflector(key, raw)->Ok_0),
{
    text::lemma_trimmed_stays(key);
    let defaults = seq![7u16, 9u16];
    assert(defaults[0] != defaults[1]);
    assert(sound_list(defaults));
}

/// Every configuration that is accepted, whatever its document and its environment, has a
/// reflector; every reflector has a name with no white space around it, listens and emits on
/// different interfaces, enables a protocol, has ports without repeats where it wakes devices, and
/// proxies DIAL only over IPv4; and no two reflectors would reflect the same packet.
pub proof fn law_accepted_configurations_are_sound(
    document: Option<Result<Seq<(Seq<char>, Node)>, Seq<char>>>,
    vars: Seq<(Seq<char>, Seq<char>)>,
)
    requires
        configured(document, vars) is Ok,
    ensures
        ({
            let reflectors = configured(document, vars)->Ok_0.reflectors;
            &&& reflectors.len() > 0
            &&& forall|i: int| 0 <= i < reflectors.len() ==> sound(#[trigger] reflectors[i])
            &&& forall|i: int, j: int|
                0 <= i < reflectors.len() && 0 <= j < reflectors.len() && i != j ==> (
                #[trigger] conflict(reflectors[i], reflectors[j])) is None
        }),
{
    let file = file_config(document)->Ok_0;
    let env = env_config(vars)->Ok_0;
    let raw = merged(file, env)->Ok_0;
    if let Some(Ok(list)) = document {
        lemma_document_is_sound(list);
    }
    lemma_vars_are_sound(vars);
    lemma_finished_are_sound(read_vars(vars)->Ok_0.partials);
    lemma_merged_are_sound(file.reflectors, env.reflectors);
    law_no_packet_is_reflected_twice(raw);
    law_every_reflector_is_validated(raw.reflectors);
    let reflectors = configured(document, vars)->Ok_0.reflectors;
    assert forall|i: int| 0 <= i < reflectors.len() implies sound(#[trigger] reflectors[i]) by {
        assert(reflectors[i] == valid_reflectors(raw.reflectors)->Ok_0[i]);
        assert(sound_raw(raw.reflectors[i].1));
        lemma_valid_is_sound(raw.reflectors[i].0, raw.reflectors[i].1);
    }
}

} // verus!
