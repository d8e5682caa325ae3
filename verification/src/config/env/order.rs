//! The order of the environment's variables does not matter, nor do variables that are none of
//! ours.

#[allow(unused_imports)]
use crate::config::env::{
    after_prefix, env_config, finished, finished_all, no_fields, read_vars, with_param,
    with_reflector_var, with_var, EnvView, MacsParam, PartialView,
};
#[allow(unused_imports)]
use crate::config::error::ConfigFault;
#[allow(unused_imports)]
use crate::config::raw::RawReflectorView;
#[allow(unused_imports)]
use crate::config::table::{
    ascending, law_put_keeps_order, law_put_leaves_other_keys, lemma_entry_is_found,
    lemma_found_is_an_entry, lemma_same_lookups, lookup, put,
};
#[allow(unused_imports)]
use crate::config::value::AddressFamily;
#[allow(unused_imports)]
use crate::net::mac::MacAddr;
#[allow(unused_imports)]
use crate::text;
use vstd::prelude::*;

verus! {

/// A variable: its name and its value.
pub type Var = (Seq<char>, Seq<char>);

/// What a variable sets: the log level, the memory report, or a parameter of a tag's reflector.
pub enum Setting {
    LogLevel,
    DebugMemory,
    Param { tag: Seq<char>, param: Seq<char> },
}

/// What the variable called `var` sets, tag and parameter in lower case.
pub open spec fn setting(var: Seq<char>) -> Option<Setting> {
    match after_prefix(var, "REFLECTOR_"@) {
        None => None,
        Some(rest) => if rest == "LOG_LEVEL"@ {
            Some(Setting::LogLevel)
        } else if rest == "DEBUG_MEMORY"@ {
            Some(Setting::DebugMemory)
        } else {
            match text::first_index(rest, '_', 0) {
                None => None,
                Some(i) => Some(
                    Setting::Param {
                        tag: text::lowered(rest.take(i)),
                        param: text::lowered(rest.skip(i + 1)),
                    },
                ),
            }
        },
    }
}

/// The tag, in lower case, of the reflector that the variable called `var` describes.
pub open spec fn tag_of(var: Seq<char>) -> Option<Seq<char>> {
    match setting(var) {
        Some(Setting::Param { tag, param }) => Some(tag),
        _ => None,
    }
}

/// Whether two variables set the same thing.
pub open spec fn rivals(a: Var, b: Var) -> bool {
    setting(a.0) is Some && setting(a.0) == setting(b.0)
}

/// Whether no two different variables of a list set the same thing.
pub open spec fn no_rivals(vars: Seq<Var>) -> bool {
    forall|a: Var, b: Var| #[trigger]
        vars.contains(a) && #[trigger] vars.contains(b) && a != b ==> !rivals(a, b)
}

/// Reading a variable keeps the reflectors in order.
proof fn lemma_read_keeps_order(state: EnvView, var: Var)
    requires
        ascending(state.partials),
    ensures
        with_var(state, var.0, var.1) matches Ok(after) ==> ascending(after.partials),
{
    if let Some(rest) = after_prefix(var.0, "REFLECTOR_"@) {
        if let Some(i) = text::first_index(rest, '_', 0) {
            let name = text::lowered(rest.take(i));
            let param = text::lowered(rest.skip(i + 1));
            let fields = match lookup(state.partials, name) {
                Some(fields) => fields,
                None => no_fields(),
            };
            if let Ok(now) = with_param(fields, param, var.1, var.0) {
                law_put_keeps_order(state.partials, name, now);
            }
        }
    }
}

proof fn lemma_vars_keep_order(vars: Seq<Var>)
    ensures
        read_vars(vars) matches Ok(state) ==> ascending(state.partials),
    decreases vars.len(),
{
    if vars.len() > 0 {
        lemma_vars_keep_order(vars.drop_last());
        if let Ok(state) = read_vars(vars.drop_last()) {
            lemma_read_keeps_order(state, vars.last());
        }
    }
}

/// Values put under two keys, in either order.
proof fn lemma_puts_commute<V>(
    list: Seq<(Seq<char>, V)>,
    k: Seq<char>,
    v: V,
    l: Seq<char>,
    w: V,
)
    requires
        ascending(list),
        k != l,
    ensures
        put(put(list, k, v), l, w) == put(put(list, l, w), k, v),
{
    let a = put(put(list, k, v), l, w);
    let b = put(put(list, l, w), k, v);
    law_put_keeps_order(list, k, v);
    law_put_keeps_order(list, l, w);
    law_put_keeps_order(put(list, k, v), l, w);
    law_put_keeps_order(put(list, l, w), k, v);
    assert forall|key: Seq<char>| lookup(a, key) == lookup(b, key) by {
        if key != l {
            law_put_leaves_other_keys(put(list, k, v), l, w, key);
        }
        if key != k {
            law_put_leaves_other_keys(list, k, v, key);
            law_put_leaves_other_keys(put(list, l, w), k, v, key);
        }
        if key != l {
            law_put_leaves_other_keys(list, l, w, key);
        }
    }
    lemma_same_lookups(a, b);
}

/// Of two values put under one key, the second stays.
proof fn lemma_put_overrides<V>(list: Seq<(Seq<char>, V)>, k: Seq<char>, v: V, w: V)
    requires
        ascending(list),
    ensures
        put(put(list, k, v), k, w) == put(list, k, w),
{
    let a = put(put(list, k, v), k, w);
    let b = put(list, k, w);
    law_put_keeps_order(list, k, v);
    law_put_keeps_order(list, k, w);
    law_put_keeps_order(put(list, k, v), k, w);
    assert forall|key: Seq<char>| lookup(a, key) == lookup(b, key) by {
        if key != k {
            law_put_leaves_other_keys(put(list, k, v), k, w, key);
            law_put_leaves_other_keys(list, k, v, key);
            law_put_leaves_other_keys(list, k, w, key);
        }
    }
    lemma_same_lookups(a, b);
}

/// A field of a reflector and its value.
enum Assigned {
    Name(Seq<char>),
    SourceIf(Seq<char>),
    TargetIf(Seq<char>),
    Macs(Seq<MacAddr>, MacsParam),
    WolPorts(Seq<u16>),
    Family(AddressFamily),
    Wol(bool),
    Mdns(bool),
    Ssdp(bool),
    Dial(bool),
}

/// Which field it is.
spec fn field_of(a: Assigned) -> int {
    match a {
        Assigned::Name(_) => 0,
        Assigned::SourceIf(_) => 1,
        Assigned::TargetIf(_) => 2,
        Assigned::Macs(_, _) => 3,
        Assigned::WolPorts(_) => 4,
        Assigned::Family(_) => 5,
        Assigned::Wol(_) => 6,
        Assigned::Mdns(_) => 7,
        Assigned::Ssdp(_) => 8,
        Assigned::Dial(_) => 9,
    }
}

/// The fields with one of them set.
spec fn assign(p: PartialView, a: Assigned) -> PartialView {
    match a {
        Assigned::Name(v) => PartialView { name: Some(v), ..p },
        Assigned::SourceIf(v) => PartialView { source_if: Some(v), ..p },
        Assigned::TargetIf(v) => PartialView { target_if: Some(v), ..p },
        Assigned::Macs(v, by) => PartialView { macs: Some(v), macs_by: Some(by), ..p },
        Assigned::WolPorts(v) => PartialView { wol_ports: Some(v), ..p },
        Assigned::Family(v) => PartialView { address_family: Some(v), ..p },
        Assigned::Wol(v) => PartialView { wol: Some(v), ..p },
        Assigned::Mdns(v) => PartialView { mdns: Some(v), ..p },
        Assigned::Ssdp(v) => PartialView { ssdp: Some(v), ..p },
        Assigned::Dial(v) => PartialView { dial: Some(v), ..p },
    }
}

/// The field that a parameter names.
spec fn field_named(param: Seq<char>) -> int {
    if param == "name"@ {
        0
    } else if param == "source_if"@ {
        1
    } else if param == "target_if"@ {
        2
    } else if param == "mac"@ || param == "macs"@ {
        3
    } else if param == "wol_ports"@ {
        4
    } else if param == "address_family"@ {
        5
    } else if param == "wol"@ {
        6
    } else if param == "mdns"@ {
        7
    } else if param == "ssdp"@ {
        8
    } else if param == "dial"@ {
        9
    } else {
        10
    }
}

/// The field that a parameter sets, where its value is accepted.
proof fn lemma_assigned(
    p: PartialView,
    q: PartialView,
    param: Seq<char>,
    value: Seq<char>,
    var: Seq<char>,
) -> (a: Assigned)
    requires
        with_param(p, param, value, var) is Ok,
        field_named(param) == 3 ==> q.macs_by == p.macs_by,
    ensures
        with_param(p, param, value, var) == Ok::<PartialView, ConfigFault>(assign(p, a)),
        with_param(q, param, value, var) == Ok::<PartialView, ConfigFault>(assign(q, a)),
        field_of(a) == field_named(param),
{
    let r = with_param(p, param, value, var)->Ok_0;
    if param == "name"@ {
        Assigned::Name(r.name->0)
    } else if param == "source_if"@ {
        Assigned::SourceIf(r.source_if->0)
    } else if param == "target_if"@ {
        Assigned::TargetIf(r.target_if->0)
    } else if param == "mac"@ || param == "macs"@ {
        Assigned::Macs(r.macs->0, r.macs_by->0)
    } else if param == "wol_ports"@ {
        Assigned::WolPorts(r.wol_ports->0)
    } else if param == "address_family"@ {
        Assigned::Family(r.address_family->0)
    } else if param == "wol"@ {
        Assigned::Wol(r.wol->0)
    } else if param == "mdns"@ {
        Assigned::Mdns(r.mdns->0)
    } else if param == "ssdp"@ {
        Assigned::Ssdp(r.ssdp->0)
    } else {
        Assigned::Dial(r.dial->0)
    }
}

proof fn lemma_assignments_commute(p: PartialView, a: Assigned, b: Assigned)
    requires
        field_of(a) != field_of(b),
    ensures
        assign(assign(p, a), b) == assign(assign(p, b), a),
{
}

/// Two parameters of one reflector, in either order.
proof fn lemma_params_commute(
    p: PartialView,
    a: Seq<char>,
    va: Seq<char>,
    na: Seq<char>,
    b: Seq<char>,
    vb: Seq<char>,
    nb: Seq<char>,
)
    requires
        field_named(a) != field_named(b),
        with_param(p, a, va, na) is Ok,
        with_param(with_param(p, a, va, na)->Ok_0, b, vb, nb) is Ok,
    ensures
        with_param(p, b, vb, nb) is Ok,
        with_param(with_param(p, b, vb, nb)->Ok_0, a, va, na) == with_param(
            with_param(p, a, va, na)->Ok_0,
            b,
            vb,
            nb,
        ),
{
    let x = with_param(p, a, va, na)->Ok_0;
    let first = lemma_assigned(p, p, a, va, na);
    let sb = lemma_assigned(x, p, b, vb, nb);
    let y = assign(p, sb);
    let sa = lemma_assigned(p, y, a, va, na);
    lemma_assignments_commute(p, sa, sb);
}

/// Different parameters name different fields, but for the two that name the devices.
proof fn lemma_names_differ(a: Seq<char>, b: Seq<char>)
    requires
        a != b,
        field_named(b) != 3,
        field_named(b) != 10,
    ensures
        field_named(a) != field_named(b),
{
}

/// Where the devices were named by one of the two parameters, the other is refused.
proof fn lemma_devices_named_once(
    p: PartialView,
    a: Seq<char>,
    va: Seq<char>,
    na: Seq<char>,
    b: Seq<char>,
    vb: Seq<char>,
    nb: Seq<char>,
)
    requires
        a != b,
        field_named(a) == 3,
        field_named(b) == 3,
        with_param(p, a, va, na) is Ok,
    ensures
        with_param(with_param(p, a, va, na)->Ok_0, b, vb, nb) is Err,
{
}

/// Two different parameters that are both accepted name different fields.
proof fn lemma_fields_differ(
    p: PartialView,
    a: Seq<char>,
    va: Seq<char>,
    na: Seq<char>,
    b: Seq<char>,
    vb: Seq<char>,
    nb: Seq<char>,
)
    requires
        a != b,
        with_param(p, a, va, na) is Ok,
        with_param(with_param(p, a, va, na)->Ok_0, b, vb, nb) is Ok,
    ensures
        field_named(a) != field_named(b),
{
    let x = with_param(p, a, va, na)->Ok_0;
    if field_named(a) == field_named(b) {
        if field_named(b) == 3 {
            lemma_devices_named_once(p, a, va, na, b, vb, nb);
        } else {
            let assigned = lemma_assigned(x, x, b, vb, nb);
            lemma_names_differ(a, b);
        }
    }
}

/// Two variables of reflectors, in either order.
proof fn lemma_reflector_vars_commute(
    state: EnvView,
    ra: Seq<char>,
    a: Var,
    rb: Seq<char>,
    b: Var,
)
    requires
        ascending(state.partials),
        after_prefix(a.0, "REFLECTOR_"@) == Some(ra),
        after_prefix(b.0, "REFLECTOR_"@) == Some(rb),
        ra != "LOG_LEVEL"@ && ra != "DEBUG_MEMORY"@,
        rb != "LOG_LEVEL"@ && rb != "DEBUG_MEMORY"@,
        !rivals(a, b),
        with_reflector_var(state, ra, a.1, a.0) is Ok,
        with_reflector_var(with_reflector_var(state, ra, a.1, a.0)->Ok_0, rb, b.1, b.0) is Ok,
    ensures
        with_reflector_var(state, rb, b.1, b.0) is Ok,
        with_reflector_var(with_reflector_var(state, rb, b.1, b.0)->Ok_0, ra, a.1, a.0)
            == with_reflector_var(
            with_reflector_var(state, ra, a.1, a.0)->Ok_0,
            rb,
            b.1,
            b.0,
        ),
{
    let i = text::first_index(ra, '_', 0)->0;
    let j = text::first_index(rb, '_', 0)->0;
    let ka = text::lowered(ra.take(i));
    let pa = text::lowered(ra.skip(i + 1));
    let kb = text::lowered(rb.take(j));
    let pb = text::lowered(rb.skip(j + 1));
    let list = state.partials;
    let fa = match lookup(list, ka) {
        Some(fields) => fields,
        None => no_fields(),
    };
    let fb = match lookup(list, kb) {
        Some(fields) => fields,
        None => no_fields(),
    };
    let va = with_param(fa, pa, a.1, a.0)->Ok_0;
    law_put_keeps_order(list, ka, va);
    if ka == kb {
        lemma_fields_differ(fa, pa, a.1, a.0, pb, b.1, b.0);
        lemma_params_commute(fa, pa, a.1, a.0, pb, b.1, b.0);
        let vb = with_param(fa, pb, b.1, b.0)->Ok_0;
        law_put_keeps_order(list, kb, vb);
        let both = with_param(va, pb, b.1, b.0)->Ok_0;
        lemma_put_overrides(list, ka, va, both);
        lemma_put_overrides(list, ka, vb, both);
    } else {
        law_put_leaves_other_keys(list, ka, va, kb);
        let vb = with_param(fb, pb, b.1, b.0)->Ok_0;
        law_put_keeps_order(list, kb, vb);
        law_put_leaves_other_keys(list, kb, vb, ka);
        lemma_puts_commute(list, ka, va, kb, vb);
    }
}

/// Two variables that are no rivals, in either order.
proof fn lemma_vars_commute(state: EnvView, a: Var, b: Var)
    requires
        ascending(state.partials),
        a == b || !rivals(a, b),
        with_var(state, a.0, a.1) is Ok,
        with_var(with_var(state, a.0, a.1)->Ok_0, b.0, b.1) is Ok,
    ensures
        with_var(state, b.0, b.1) is Ok,
        with_var(with_var(state, b.0, b.1)->Ok_0, a.0, a.1) == with_var(
            with_var(state, a.0, a.1)->Ok_0,
            b.0,
            b.1,
        ),
{
    if a != b {
        match (after_prefix(a.0, "REFLECTOR_"@), after_prefix(b.0, "REFLECTOR_"@)) {
            (Some(ra), Some(rb)) => {
                let global_a = ra == "LOG_LEVEL"@ || ra == "DEBUG_MEMORY"@;
                let global_b = rb == "LOG_LEVEL"@ || rb == "DEBUG_MEMORY"@;
                if !global_a && !global_b {
                    lemma_reflector_vars_commute(state, ra, a, rb, b);
                }
            },
            _ => {},
        }
    }
}

/// [`read_vars`], unfolded only where it is revealed.
#[verifier::opaque]
spec fn read(vars: Seq<Var>) -> Result<EnvView, ConfigFault> {
    read_vars(vars)
}

/// [`with_var`], unfolded only where it is revealed.
#[verifier::opaque]
spec fn step(state: EnvView, var: Var) -> Result<EnvView, ConfigFault> {
    with_var(state, var.0, var.1)
}

proof fn lemma_read_one_more(vars: Seq<Var>, x: Var)
    ensures
        read(vars.push(x)) == match read(vars) {
            Ok(state) => step(state, x),
            Err(e) => Err(e),
        },
        read(vars) matches Ok(state) ==> ascending(state.partials),
{
    reveal(read);
    reveal(step);
    assert(vars.push(x).drop_last() =~= vars);
    lemma_vars_keep_order(vars);
}

proof fn lemma_steps_commute(state: EnvView, a: Var, b: Var)
    requires
        ascending(state.partials),
        a == b || !rivals(a, b),
        step(state, a) is Ok,
        step(step(state, a)->Ok_0, b) is Ok,
    ensures
        step(state, b) is Ok,
        step(step(state, b)->Ok_0, a) == step(step(state, a)->Ok_0, b),
{
    reveal(step);
    lemma_vars_commute(state, a, b);
}

/// The last variable of a list, read earlier.
proof fn lemma_read_earlier(front: Seq<Var>, x: Var, back: Seq<Var>)
    requires
        forall|i: int| 0 <= i < back.len() ==> #[trigger] back[i] == x || !rivals(back[i], x),
        read((front + back).push(x)) is Ok,
    ensures
        read(front.push(x) + back) == read((front + back).push(x)),
    decreases back.len(),
{
    if back.len() == 0 {
        assert(front.push(x) + back =~= (front + back).push(x));
    } else {
        let y = back.last();
        let less = back.drop_last();
        let before = front + less;
        assert(back[back.len() - 1] == y);
        assert(front + back =~= before.push(y));
        lemma_read_one_more(before, y);
        lemma_read_one_more(before.push(y), x);
        lemma_read_one_more(before, x);
        lemma_steps_commute(read(before)->Ok_0, y, x);
        assert forall|i: int| 0 <= i < less.len() implies #[trigger] less[i] == x || !rivals(
            less[i],
            x,
        ) by {
            assert(less[i] == back[i]);
        }
        lemma_read_earlier(front, x, less);
        assert(front.push(x) + back =~= (front.push(x) + less).push(y));
        lemma_read_one_more(front.push(x) + less, y);
    }
}

proof fn lemma_fewer_no_rivals(vars: Seq<Var>)
    requires
        vars.len() > 0,
        no_rivals(vars),
    ensures
        no_rivals(vars.drop_last()),
{
    let rest = vars.drop_last();
    assert forall|a: Var, b: Var| #[trigger]
        rest.contains(a) && #[trigger] rest.contains(b) && a != b implies !rivals(a, b) by {
        let p = choose|p: int| 0 <= p < rest.len() && rest[p] == a;
        let q = choose|q: int| 0 <= q < rest.len() && rest[q] == b;
        assert(vars[p] == a && vars[q] == b);
        assert(vars.contains(a) && vars.contains(b));
    }
}

proof fn lemma_read_in_any_order(vars: Seq<Var>, other: Seq<Var>)
    requires
        vars.to_multiset() == other.to_multiset(),
        no_rivals(vars),
        read(vars) is Ok,
    ensures
        read(other) == read(vars),
    decreases vars.len(),
{
    broadcast use vstd::seq_lib::group_to_multiset_ensures;

    assert(vars.len() == vars.to_multiset().len());
    assert(other.len() == other.to_multiset().len());
    if vars.len() == 0 {
        assert(vars =~= other);
    } else {
        let x = vars.last();
        let n = vars.len() - 1;
        let rest = vars.drop_last();
        assert(vars[n] == x);
        assert(vars.contains(x));
        assert(vars.to_multiset().count(x) > 0);
        assert(other.contains(x));
        let j = choose|j: int| 0 <= j < other.len() && other[j] == x;
        let front = other.take(j);
        let back = other.skip(j + 1);
        assert(other.remove(j) =~= front + back);
        assert(vars.remove(n) =~= rest);
        assert(rest.to_multiset() == (front + back).to_multiset());
        lemma_fewer_no_rivals(vars);
        assert(vars =~= rest.push(x));
        lemma_read_one_more(rest, x);
        lemma_read_in_any_order(rest, front + back);
        lemma_read_one_more(front + back, x);
        assert forall|i: int| 0 <= i < back.len() implies #[trigger] back[i] == x || !rivals(
            back[i],
            x,
        ) by {
            assert(other[j + 1 + i] == back[i]);
            assert(other.contains(back[i]));
            assert(vars.to_multiset().count(back[i]) > 0);
            assert(vars.contains(back[i]));
        }
        lemma_read_earlier(front, x, back);
        assert(front.push(x) + back =~= other);
    }
}

/// The order of the variables does not matter: where no two of them name the same tag and
/// parameter, but for ASCII case, variables that describe a configuration describe the same one in
/// every order.
pub proof fn law_the_order_of_variables_does_not_matter(vars: Seq<Var>, other: Seq<Var>)
    requires
        vars.to_multiset() == other.to_multiset(),
        no_rivals(vars),
        env_config(vars) is Ok,
    ensures
        env_config(other) == env_config(vars),
{
    reveal(read);
    lemma_read_in_any_order(vars, other);
}

/// The variables whose names carry the prefix.
pub open spec fn ours(vars: Seq<Var>) -> Seq<Var> {
    vars.filter(|v: Var| after_prefix(v.0, "REFLECTOR_"@) is Some)
}

/// Variables without the prefix change nothing.
pub proof fn law_other_variables_are_ignored(vars: Seq<Var>)
    ensures
        env_config(ours(vars)) == env_config(vars),
{
    lemma_ours_suffice(vars);
}

proof fn lemma_ours_suffice(vars: Seq<Var>)
    ensures
        read_vars(ours(vars)) == read_vars(vars),
    decreases vars.len(),
{
    reveal(Seq::filter);
    if vars.len() > 0 {
        let rest = vars.drop_last();
        lemma_ours_suffice(rest);
        if after_prefix(vars.last().0, "REFLECTOR_"@) is Some {
            assert(ours(vars) =~= ours(rest).push(vars.last()));
            assert(ours(rest).push(vars.last()).drop_last() =~= ours(rest));
        } else {
            assert(ours(vars) =~= ours(rest));
        }
    }
}

/// Whether some variable of the list describes the reflector `tag`.
pub open spec fn described(vars: Seq<Var>, tag: Seq<char>) -> bool {
    exists|i: int| 0 <= i < vars.len() && tag_of(#[trigger] vars[i].0) == Some(tag)
}

proof fn lemma_partials_are_described(vars: Seq<Var>, tag: Seq<char>)
    ensures
        read_vars(vars) matches Ok(state) ==> (lookup(state.partials, tag) is Some <==> described(
            vars,
            tag,
        )),
    decreases vars.len(),
{
    if vars.len() > 0 && read_vars(vars) is Ok {
        let rest = vars.drop_last();
        let var = vars.last();
        let n = vars.len() - 1;
        lemma_partials_are_described(rest, tag);
        lemma_vars_keep_order(rest);
        let before = read_vars(rest)->Ok_0;
        let after = read_vars(vars)->Ok_0;
        if described(rest, tag) {
            let i = choose|i: int| 0 <= i < rest.len() && tag_of(#[trigger] rest[i].0) == Some(tag);
            assert(vars[i].0 == rest[i].0);
        }
        if described(vars, tag) {
            let i = choose|i: int| 0 <= i < vars.len() && tag_of(#[trigger] vars[i].0) == Some(tag);
            if i < n {
                assert(rest[i].0 == vars[i].0);
            }
        }
        match tag_of(var.0) {
            Some(name) => {
                let rest_text = after_prefix(var.0, "REFLECTOR_"@)->0;
                let i = text::first_index(rest_text, '_', 0)->0;
                let param = text::lowered(rest_text.skip(i + 1));
                let fields = match lookup(before.partials, name) {
                    Some(fields) => fields,
                    None => no_fields(),
                };
                let now = with_param(fields, param, var.1, var.0)->Ok_0;
                law_put_keeps_order(before.partials, name, now);
                if name != tag {
                    law_put_leaves_other_keys(before.partials, name, now, tag);
                } else {
                    assert(tag_of(vars[n].0) == Some(tag));
                }
            },
            None => {},
        }
    }
}

/// The finished reflectors stand under the keys of the partial ones.
proof fn lemma_finished_keys(partials: Seq<(Seq<char>, PartialView)>, tag: Seq<char>)
    requires
        ascending(partials),
    ensures
        finished_all(partials) matches Ok(done) ==> {
            &&& ascending(done)
            &&& lookup(done, tag) is Some <==> lookup(partials, tag) is Some
        },
    decreases partials.len(),
{
    if partials.len() > 0 && finished_all(partials) is Ok {
        let rest = partials.drop_last();
        let n = partials.len() - 1;
        assert forall|i: int, j: int| 0 <= i < j < rest.len() implies text::less(
            (#[trigger] rest[i]).0,
            (#[trigger] rest[j]).0,
        ) by {
            assert(text::less(partials[i].0, partials[j].0));
        }
        lemma_finished_keys(rest, tag);
        let key = partials.last().0;
        let before = finished_all(rest)->Ok_0;
        let raw = finished(partials.last().1, key)->Ok_0;
        law_put_keeps_order(before, key, raw);
        if tag != key {
            law_put_leaves_other_keys(before, key, raw, tag);
        } else {
            lemma_entry_is_found(partials, key, n);
        }
        lemma_found_is_an_entry(rest, tag);
        lemma_found_is_an_entry(partials, tag);
        if lookup(rest, tag) is Some {
            let i = crate::config::table::slot(rest, tag);
            assert(partials[i] == rest[i]);
            lemma_entry_is_found(partials, tag, i);
        }
        if lookup(partials, tag) is Some && tag != key {
            let i = crate::config::table::slot(partials, tag);
            assert(rest[i] == partials[i]);
            lemma_entry_is_found(rest, tag, i);
        }
    }
}

/// There is one reflector for each tag that the variables name, in lower case, and no other.
pub proof fn law_one_reflector_per_tag(vars: Seq<Var>, tag: Seq<char>)
    requires
        env_config(vars) is Ok,
    ensures
        ascending(env_config(vars)->Ok_0.reflectors),
        lookup(env_config(vars)->Ok_0.reflectors, tag) is Some <==> described(vars, tag),
{
    lemma_vars_keep_order(vars);
    lemma_partials_are_described(vars, tag);
    lemma_finished_keys(read_vars(vars)->Ok_0.partials, tag);
}

} // verus!
