//! The raw configuration, before validation. The file and the environment both produce it, and
//! [`RawConfig::merge_env`] overlays the second onto the first.

use crate::config::error::ConfigError;
use crate::config::table::Table;
use crate::config::value::{AddressFamily, InterfaceName, LogLevel, ReflectorName, WolPorts};
use crate::net::mac::{MacAddr, MacSet};
use crate::text;
#[allow(unused_imports)]
use crate::config::error::ConfigFault;
use vstd::prelude::*;

verus! {

/// One reflector before validation. The name is set only by the environment; a reflector of the
/// file takes its name from its key.
#[derive(Debug)]
pub struct RawReflector {
    pub name: Option<ReflectorName>,
    pub source_if: InterfaceName,
    pub target_if: InterfaceName,
    pub macs: Option<MacSet>,
    pub wol: bool,
    pub mdns: bool,
    pub ssdp: bool,
    pub dial: bool,
    pub wol_ports: Option<WolPorts>,
    pub address_family: AddressFamily,
}

/// A [`RawReflector`] over plain values.
#[verifier::ext_equal]
pub struct RawReflectorView {
    pub name: Option<Seq<char>>,
    pub source_if: Seq<char>,
    pub target_if: Seq<char>,
    pub macs: Option<Seq<MacAddr>>,
    pub wol: bool,
    pub mdns: bool,
    pub ssdp: bool,
    pub dial: bool,
    pub wol_ports: Option<Seq<u16>>,
    pub address_family: AddressFamily,
}

/// An optional name as its text.
pub open spec fn name_view(name: Option<ReflectorName>) -> Option<Seq<char>> {
    match name {
        Some(name) => Some(name@),
        None => None,
    }
}

/// An optional set of addresses as its list.
pub open spec fn macs_view(macs: Option<MacSet>) -> Option<Seq<MacAddr>> {
    match macs {
        Some(macs) => Some(macs@),
        None => None,
    }
}

/// An optional list of ports as their numbers.
pub open spec fn ports_view(ports: Option<WolPorts>) -> Option<Seq<u16>> {
    match ports {
        Some(ports) => Some(ports@),
        None => None,
    }
}

impl View for RawReflector {
    type V = RawReflectorView;

    open spec fn view(&self) -> RawReflectorView {
        RawReflectorView {
            name: name_view(self.name),
            source_if: self.source_if@,
            target_if: self.target_if@,
            macs: macs_view(self.macs),
            wol: self.wol,
            mdns: self.mdns,
            ssdp: self.ssdp,
            dial: self.dial,
            wol_ports: ports_view(self.wol_ports),
            address_family: self.address_family,
        }
    }
}

/// The configuration before validation.
#[derive(Debug)]
pub struct RawConfig {
    pub log_level: Option<LogLevel>,
    pub debug_memory: Option<bool>,
    pub reflectors: Table<RawReflector>,
}

/// A [`RawConfig`] over plain values, its reflectors in order of their keys.
#[verifier::ext_equal]
pub struct RawConfigView {
    pub log_level: Option<LogLevel>,
    pub debug_memory: Option<bool>,
    pub reflectors: Seq<(Seq<char>, RawReflectorView)>,
}

impl View for RawConfig {
    type V = RawConfigView;

    open spec fn view(&self) -> RawConfigView {
        RawConfigView {
            log_level: self.log_level,
            debug_memory: self.debug_memory,
            reflectors: crate::config::table::mapped(
                self.reflectors@,
                |r: RawReflector| r@,
            ),
        }
    }
}

/// The configuration that sets nothing.
pub open spec fn empty_raw() -> RawConfigView {
    RawConfigView { log_level: None, debug_memory: None, reflectors: Seq::empty() }
}

/// Whether some reflector has a key that names `name`, white space around it and ASCII case aside.
pub open spec fn clashes(list: Seq<(Seq<char>, RawReflectorView)>, name: Seq<char>) -> bool {
    exists|i: int|
        0 <= i < list.len() && text::lowered(text::trimmed((#[trigger] list[i]).0))
            == text::lowered(name)
}

/// The reflectors with those of the environment added, in order; a name defined by both is refused.
pub open spec fn merged_reflectors(
    list: Seq<(Seq<char>, RawReflectorView)>,
    env: Seq<(Seq<char>, RawReflectorView)>,
) -> Result<Seq<(Seq<char>, RawReflectorView)>, ConfigFault>
    decreases env.len(),
{
    if env.len() == 0 {
        Ok(list)
    } else if clashes(list, env[0].0) {
        Err(ConfigFault::DuplicateReflector { name: env[0].0 })
    } else {
        merged_reflectors(
            crate::config::table::put(list, env[0].0, env[0].1),
            env.drop_first(),
        )
    }
}

/// The reflectors with those of the environment added, up to the first whose name is defined
/// already.
pub open spec fn merged_until(
    list: Seq<(Seq<char>, RawReflectorView)>,
    env: Seq<(Seq<char>, RawReflectorView)>,
) -> Seq<(Seq<char>, RawReflectorView)>
    decreases env.len(),
{
    if env.len() == 0 || clashes(list, env[0].0) {
        list
    } else {
        merged_until(crate::config::table::put(list, env[0].0, env[0].1), env.drop_first())
    }
}

/// The configuration of the file overlaid with that of the environment, whose globals win.
pub open spec fn merged(file: RawConfigView, env: RawConfigView) -> Result<
    RawConfigView,
    ConfigFault,
> {
    match merged_reflectors(file.reflectors, env.reflectors) {
        Ok(reflectors) => Ok(
            RawConfigView {
                log_level: if env.log_level is Some {
                    env.log_level
                } else {
                    file.log_level
                },
                debug_memory: if env.debug_memory is Some {
                    env.debug_memory
                } else {
                    file.debug_memory
                },
                reflectors,
            },
        ),
        Err(e) => Err(e),
    }
}

impl RawConfig {
    /// The table of reflectors is in order.
    pub open spec fn wf(&self) -> bool {
        self.reflectors.wf()
    }

    /// The configuration that sets nothing.
    pub fn empty() -> (raw: Self)
        ensures
            raw.wf(),
            raw@ == empty_raw(),
    {
        let raw = RawConfig { log_level: None, debug_memory: None, reflectors: Table::new() };
        assert(raw@.reflectors =~= empty_raw().reflectors);
        raw
    }

    fn has_clash(&self, name: &str) -> (r: bool)
        requires
            self.wf(),
        ensures
            r == clashes(self@.reflectors, name@),
    {
        let n: usize = self.reflectors.len();
        let mut i: usize = 0;
        while i < n
            invariant
                self.wf(),
                n == self.reflectors@.len(),
                i <= n,
                forall|j: int|
                    0 <= j < i ==> text::lowered(text::trimmed((#[trigger] self@.reflectors[j]).0))
                        != text::lowered(name@),
            decreases n - i,
        {
            let key = text::trim(self.reflectors.key(i));
            assert(self@.reflectors[i as int].0 == self.reflectors@[i as int].0);
            if text::eq_ignore_ascii_case(key.as_str(), name) {
                return true;
            }
            i += 1;
        }
        false
    }

    /// Overlays what the environment sets: its globals win, its reflectors are added, and a name
    /// defined by both sources is refused.
    pub fn merge_env(&mut self, env: RawConfig) -> (r: Result<(), ConfigError>)
        requires
            old(self).wf(),
            env.wf(),
        ensures
            final(self).wf(),
            match r {
                Ok(_) => merged(old(self)@, env@) == Ok::<RawConfigView, ConfigFault>(final(self)@),
                Err(e) => merged(old(self)@, env@) == Err::<RawConfigView, ConfigFault>(e@),
            },
            final(self).log_level == if env.log_level is Some {
                env.log_level
            } else {
                old(self).log_level
            },
            final(self).debug_memory == if env.debug_memory is Some {
                env.debug_memory
            } else {
                old(self).debug_memory
            },
            final(self)@.reflectors == merged_until(old(self)@.reflectors, env@.reflectors),
    {
        let ghost f = |r: RawReflector| r@;
        let RawConfig { log_level, debug_memory, reflectors } = env;
        if log_level.is_some() {
            self.log_level = log_level;
        }
        if debug_memory.is_some() {
            self.debug_memory = debug_memory;
        }
        let mut rest = reflectors;
        let ghost all = crate::config::table::mapped(rest@, f);
        loop
            invariant
                self.wf(),
                rest.wf(),
                f == (|r: RawReflector| r@),
                merged_reflectors(
                    self@.reflectors,
                    crate::config::table::mapped(rest@, f),
                ) == merged_reflectors(old(self)@.reflectors, all),
                merged_until(self@.reflectors, crate::config::table::mapped(rest@, f))
                    == merged_until(old(self)@.reflectors, all),
                all == env@.reflectors,
                self.log_level == (if env.log_level is Some {
                    env.log_level
                } else {
                    old(self).log_level
                }),
                self.debug_memory == (if env.debug_memory is Some {
                    env.debug_memory
                } else {
                    old(self).debug_memory
                }),
            decreases rest@.len(),
        {
            let ghost left = crate::config::table::mapped(rest@, f);
            match rest.take_first() {
                None => {
                    return Ok(());
                },
                Some((name, reflector)) => {
                    assert(left.drop_first() =~= crate::config::table::mapped(rest@, f));
                    if self.has_clash(name.as_str()) {
                        return Err(ConfigError::DuplicateReflector { name });
                    }
                    proof {
                        crate::config::table::lemma_put_mapped(
                            self.reflectors@,
                            f,
                            name@,
                            reflector,
                        );
                    }
                    self.reflectors.put(name, reflector);
                },
            }
        }
    }
}

/// What the environment says of a global holds, whatever the file says of it.
pub proof fn law_environment_overrides_the_file(file: RawConfigView, env: RawConfigView)
    requires
        merged(file, env) is Ok,
    ensures
        env.log_level is Some ==> merged(file, env)->Ok_0.log_level == env.log_level,
        env.log_level is None ==> merged(file, env)->Ok_0.log_level == file.log_level,
        env.debug_memory is Some ==> merged(file, env)->Ok_0.debug_memory == env.debug_memory,
        env.debug_memory is None ==> merged(file, env)->Ok_0.debug_memory == file.debug_memory,
{
}

/// The reflectors of the two sources are combined: under each key stands what the environment
/// defines there, else what the file does; and no name of the environment is one of the file.
pub proof fn law_the_sources_are_combined(
    file: RawConfigView,
    env: RawConfigView,
    key: Seq<char>,
)
    requires
        crate::config::table::ascending(file.reflectors),
        crate::config::table::ascending(env.reflectors),
        merged(file, env) is Ok,
    ensures
        crate::config::table::lookup(merged(file, env)->Ok_0.reflectors, key)
            == match crate::config::table::lookup(env.reflectors, key) {
            Some(reflector) => Some(reflector),
            None => crate::config::table::lookup(file.reflectors, key),
        },
        crate::config::table::lookup(env.reflectors, key) is Some ==> !clashes(
            file.reflectors,
            key,
        ),
{
    lemma_combined(file.reflectors, env.reflectors, key);
}

proof fn lemma_combined(
    list: Seq<(Seq<char>, RawReflectorView)>,
    env: Seq<(Seq<char>, RawReflectorView)>,
    key: Seq<char>,
)
    requires
        crate::config::table::ascending(list),
        crate::config::table::ascending(env),
        merged_reflectors(list, env) is Ok,
    ensures
        crate::config::table::lookup(merged_reflectors(list, env)->Ok_0, key)
            == match crate::config::table::lookup(env, key) {
            Some(reflector) => Some(reflector),
            None => crate::config::table::lookup(list, key),
        },
        crate::config::table::lookup(env, key) is Some ==> !clashes(list, key),
    decreases env.len(),
{
    if env.len() > 0 {
        let (name, reflector) = env[0];
        let next = crate::config::table::put(list, name, reflector);
        let rest = env.drop_first();
        crate::config::table::law_put_keeps_order(list, name, reflector);
        assert(crate::config::table::ascending(rest)) by {
            assert forall|i: int, j: int| 0 <= i < j < rest.len() implies text::less(
                (#[trigger] rest[i]).0,
                (#[trigger] rest[j]).0,
            ) by {
                assert(text::less(env[i + 1].0, env[j + 1].0));
            }
        }
        lemma_combined(next, rest, key);
        crate::config::table::lemma_found_is_an_entry(rest, key);
        crate::config::table::lemma_found_is_an_entry(env, key);
        if key == name {
            crate::config::table::lemma_entry_is_found(env, key, 0);
            if crate::config::table::lookup(rest, key) is Some {
                let i = crate::config::table::slot(rest, key);
                assert(text::less(env[0].0, env[i + 1].0));
                text::lemma_less_irreflexive(key);
            }
        } else {
            crate::config::table::law_put_leaves_other_keys(list, name, reflector, key);
            if crate::config::table::lookup(rest, key) is Some {
                let i = crate::config::table::slot(rest, key);
                assert(env[i + 1] == rest[i]);
                crate::config::table::lemma_entry_is_found(env, key, i + 1);
                if clashes(list, key) {
                    lemma_clashes_put(list, name, reflector, key);
                }
            } else if crate::config::table::lookup(env, key) is Some {
                let i = crate::config::table::slot(env, key);
                assert(i > 0);
                assert(rest[i - 1] == env[i]);
                crate::config::table::lemma_entry_is_found(rest, key, i - 1);
            }
        }
    }
}

/// A name that clashes still does when a reflector is added.
proof fn lemma_clashes_put(
    list: Seq<(Seq<char>, RawReflectorView)>,
    name: Seq<char>,
    reflector: RawReflectorView,
    key: Seq<char>,
)
    requires
        clashes(list, key),
    ensures
        clashes(crate::config::table::put(list, name, reflector), key),
{
    let i = choose|i: int|
        0 <= i < list.len() && text::lowered(text::trimmed((#[trigger] list[i]).0))
            == text::lowered(key);
    let at = crate::config::table::slot(list, name);
    let after = crate::config::table::put(list, name, reflector);
    crate::config::table::lemma_slot(list, name);
    let j = if (at < list.len() && list[at].0 == name) || i < at {
        i
    } else {
        i + 1
    };
    assert(after[j].0 == list[i].0);
}

} // verus!
