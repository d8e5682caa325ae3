//! Environment-variable configuration. `REFLECTOR_LOG_LEVEL` and `REFLECTOR_DEBUG_MEMORY` set the
//! globals; every other `REFLECTOR_<tag>_<param>` contributes to the reflector under the lowercase
//! tag. Variables without the prefix are ignored.

use crate::config::error::{ConfigError, ParseBoolError, ParseValueError, RequiredField};
use crate::config::raw::{RawConfig, RawReflector};
use crate::config::table::Table;
use crate::config::value::{AddressFamily, InterfaceName, LogLevel, ReflectorName, WolPorts};
use crate::net::mac::{MacAddr, MacSet};
use crate::text;
#[allow(unused_imports)]
use crate::config::error::{ConfigFault, ValueFault};
#[allow(unused_imports)]
use crate::config::raw::{RawConfigView, RawReflectorView};
use vstd::prelude::*;

pub mod order;

verus! {

/// The parameters that name a reflector's devices: one address, or a list of them. A reflector is
/// given one of the two.
#[derive(Debug, Clone, Copy, PartialEq, Eq, Structural)]
pub enum MacsParam {
    Mac,
    Macs,
}

/// A reflector's fields while its variables are read.
#[derive(Debug)]
pub struct PartialReflector {
    pub name: Option<ReflectorName>,
    pub source_if: Option<InterfaceName>,
    pub target_if: Option<InterfaceName>,
    pub macs: Option<MacSet>,
    /// The parameter that set the addresses, where a variable did.
    pub macs_by: Option<MacsParam>,
    pub wol: Option<bool>,
    pub mdns: Option<bool>,
    pub ssdp: Option<bool>,
    pub dial: Option<bool>,
    pub wol_ports: Option<WolPorts>,
    pub address_family: Option<AddressFamily>,
}

/// A [`PartialReflector`] over plain values.
#[verifier::ext_equal]
pub struct PartialView {
    pub name: Option<Seq<char>>,
    pub source_if: Option<Seq<char>>,
    pub target_if: Option<Seq<char>>,
    pub macs: Option<Seq<MacAddr>>,
    pub macs_by: Option<MacsParam>,
    pub wol: Option<bool>,
    pub mdns: Option<bool>,
    pub ssdp: Option<bool>,
    pub dial: Option<bool>,
    pub wol_ports: Option<Seq<u16>>,
    pub address_family: Option<AddressFamily>,
}

/// An optional interface as its name.
pub open spec fn interface_view(name: Option<InterfaceName>) -> Option<Seq<char>> {
    match name {
        Some(name) => Some(name@),
        None => None,
    }
}

impl View for PartialReflector {
    type V = PartialView;

    open spec fn view(&self) -> PartialView {
        PartialView {
            name: crate::config::raw::name_view(self.name),
            source_if: interface_view(self.source_if),
            target_if: interface_view(self.target_if),
            macs: crate::config::raw::macs_view(self.macs),
            macs_by: self.macs_by,
            wol: self.wol,
            mdns: self.mdns,
            ssdp: self.ssdp,
            dial: self.dial,
            wol_ports: crate::config::raw::ports_view(self.wol_ports),
            address_family: self.address_family,
        }
    }
}

/// A reflector of which no variable has been read.
pub open spec fn no_fields() -> PartialView {
    PartialView {
        name: None,
        source_if: None,
        target_if: None,
        macs: None,
        macs_by: None,
        wol: None,
        mdns: None,
        ssdp: None,
        dial: None,
        wol_ports: None,
        address_family: None,
    }
}

/// The error of a variable whose value does not parse.
pub open spec fn bad_value(
    var: Seq<char>,
    value: Seq<char>,
    source: ValueFault,
) -> ConfigFault {
    ConfigFault::EnvBadValue { var, value, source }
}

/// The boolean that a text writes: true, false, 1 or 0, without regard to ASCII case.
pub open spec fn bool_named(s: Seq<char>) -> Option<bool> {
    let name = text::lowered(s);
    if name == "true"@ || name == "1"@ {
        Some(true)
    } else if name == "false"@ || name == "0"@ {
        Some(false)
    } else {
        None
    }
}

/// The boolean value of a variable.
pub open spec fn env_bool_of(value: Seq<char>, var: Seq<char>) -> Result<
    bool,
    ConfigFault,
> {
    match bool_named(value) {
        Some(b) => Ok(b),
        None => Err(bad_value(var, value, ValueFault::Bool)),
    }
}

/// The interface that a variable's value names.
pub open spec fn env_interface_of(value: Seq<char>, var: Seq<char>) -> Result<
    Seq<char>,
    ConfigFault,
> {
    if value.len() > 0 {
        Ok(value)
    } else {
        Err(bad_value(var, value, ValueFault::Interface))
    }
}

/// The fields after the variable `var` set `param`, in lower case, to `value`.
pub open spec fn with_param(
    p: PartialView,
    param: Seq<char>,
    value: Seq<char>,
    var: Seq<char>,
) -> Result<PartialView, ConfigFault> {
    if param == "name"@ {
        if text::trimmed(value).len() > 0 {
            Ok(PartialView { name: Some(text::trimmed(value)), ..p })
        } else {
            Err(bad_value(var, value, ValueFault::ReflectorName))
        }
    } else if param == "source_if"@ {
        match env_interface_of(value, var) {
            Ok(name) => Ok(PartialView { source_if: Some(name), ..p }),
            Err(e) => Err(e),
        }
    } else if param == "target_if"@ {
        match env_interface_of(value, var) {
            Ok(name) => Ok(PartialView { target_if: Some(name), ..p }),
            Err(e) => Err(e),
        }
    } else if param == "mac"@ {
        if p.macs_by == Some(MacsParam::Macs) {
            Err(ConfigFault::EnvMacsTwice { var })
        } else {
            match crate::net::mac::mac_value(value) {
                Some(mac) => Ok(
                    PartialView { macs: Some(seq![mac]), macs_by: Some(MacsParam::Mac), ..p },
                ),
                None => Err(bad_value(var, value, ValueFault::Mac)),
            }
        }
    } else if param == "macs"@ {
        if p.macs_by == Some(MacsParam::Mac) {
            Err(ConfigFault::EnvMacsTwice { var })
        } else {
            match crate::net::mac::set_text(value) {
                Ok(macs) => Ok(
                    PartialView { macs: Some(macs), macs_by: Some(MacsParam::Macs), ..p },
                ),
                Err(e) => Err(bad_value(var, value, ValueFault::Macs(e))),
            }
        }
    } else if param == "wol_ports"@ {
        match crate::config::value::ports_text(value) {
            Ok(ports) => Ok(PartialView { wol_ports: Some(ports), ..p }),
            Err(e) => Err(bad_value(var, value, ValueFault::WolPorts(e))),
        }
    } else if param == "address_family"@ {
        match crate::config::value::address_family_named(value) {
            Some(family) => Ok(PartialView { address_family: Some(family), ..p }),
            None => Err(bad_value(var, value, ValueFault::AddressFamily)),
        }
    } else if param == "wol"@ {
        match env_bool_of(value, var) {
            Ok(b) => Ok(PartialView { wol: Some(b), ..p }),
            Err(e) => Err(e),
        }
    } else if param == "mdns"@ {
        match env_bool_of(value, var) {
            Ok(b) => Ok(PartialView { mdns: Some(b), ..p }),
            Err(e) => Err(e),
        }
    } else if param == "ssdp"@ {
        match env_bool_of(value, var) {
            Ok(b) => Ok(PartialView { ssdp: Some(b), ..p }),
            Err(e) => Err(e),
        }
    } else if param == "dial"@ {
        match env_bool_of(value, var) {
            Ok(b) => Ok(PartialView { dial: Some(b), ..p }),
            Err(e) => Err(e),
        }
    } else {
        Err(ConfigFault::EnvUnknownParam { var, param })
    }
}

fn bad(value: &str, var: &str, source: ParseValueError) -> (e: ConfigError)
    ensures
        e@ == bad_value(var@, value@, source@),
{
    ConfigError::EnvBadValue { var: var.to_owned(), value: value.to_owned(), source }
}

/// The boolean value of the variable `var`.
pub fn env_bool(value: &str, var: &str) -> (r: Result<bool, ConfigError>)
    ensures
        match r {
            Ok(b) => env_bool_of(value@, var@) == Ok::<bool, ConfigFault>(b),
            Err(e) => env_bool_of(value@, var@) == Err::<bool, ConfigFault>(
                e@,
            ),
        },
{
    let name = text::to_ascii_lowercase(value);
    let name = name.as_str();
    if text::str_eq(name, "true") || text::str_eq(name, "1") {
        Ok(true)
    } else if text::str_eq(name, "false") || text::str_eq(name, "0") {
        Ok(false)
    } else {
        Err(bad(value, var, ParseValueError::Bool(ParseBoolError)))
    }
}

fn env_interface(value: &str, var: &str) -> (r: Result<InterfaceName, ConfigError>)
    ensures
        match r {
            Ok(name) => env_interface_of(value@, var@) == Ok::<Seq<char>, ConfigFault>(name@),
            Err(e) => env_interface_of(value@, var@) == Err::<Seq<char>, ConfigFault>(e@),
        },
{
    match InterfaceName::parse(value) {
        Ok(name) => Ok(name),
        Err(e) => Err(bad(value, var, ParseValueError::Interface(e))),
    }
}

impl PartialReflector {
    /// A reflector of which no variable has been read.
    pub fn new() -> (p: Self)
        ensures
            p@ == no_fields(),
    {
        PartialReflector {
            name: None,
            source_if: None,
            target_if: None,
            macs: None,
            macs_by: None,
            wol: None,
            mdns: None,
            ssdp: None,
            dial: None,
            wol_ports: None,
            address_family: None,
        }
    }

    fn set_by(&self, param: MacsParam) -> (r: bool)
        ensures
            r == (self@.macs_by == Some(param)),
    {
        match self.macs_by {
            Some(by) => by == param,
            None => false,
        }
    }

    /// Sets the field that `param`, in lower case, names to `value`. `var` is the variable's whole
    /// name, which labels errors.
    pub fn set(&mut self, param: &str, value: &str, var: &str) -> (r: Result<(), ConfigError>)
        ensures
            match r {
                Ok(_) => with_param(old(self)@, param@, value@, var@)
                    == Ok::<PartialView, ConfigFault>(final(self)@),
                Err(e) => {
                    &&& with_param(old(self)@, param@, value@, var@)
                        == Err::<PartialView, ConfigFault>(e@)
                    &&& final(self)@ == old(self)@
                },
            },
    {
        if text::str_eq(param, "name") {
            match ReflectorName::parse(value) {
                Ok(name) => {
                    self.name = Some(name);
                    Ok(())
                },
                Err(e) => Err(bad(value, var, ParseValueError::ReflectorName(e))),
            }
        } else if text::str_eq(param, "source_if") {
            match env_interface(value, var) {
                Ok(name) => {
                    self.source_if = Some(name);
                    Ok(())
                },
                Err(e) => Err(e),
            }
        } else if text::str_eq(param, "target_if") {
            match env_interface(value, var) {
                Ok(name) => {
                    self.target_if = Some(name);
                    Ok(())
                },
                Err(e) => Err(e),
            }
        } else if text::str_eq(param, "mac") {
            if self.set_by(MacsParam::Macs) {
                return Err(ConfigError::EnvMacsTwice { var: var.to_owned() });
            }
            match MacAddr::parse(value) {
                Ok(mac) => {
                    self.macs = Some(MacSet::single(mac));
                    self.macs_by = Some(MacsParam::Mac);
                    Ok(())
                },
                Err(e) => Err(bad(value, var, ParseValueError::Mac(e))),
            }
        } else if text::str_eq(param, "macs") {
            if self.set_by(MacsParam::Mac) {
                return Err(ConfigError::EnvMacsTwice { var: var.to_owned() });
            }
            match MacSet::parse(value) {
                Ok(macs) => {
                    self.macs = Some(macs);
                    self.macs_by = Some(MacsParam::Macs);
                    Ok(())
                },
                Err(e) => Err(bad(value, var, ParseValueError::Macs(e))),
            }
        } else if text::str_eq(param, "wol_ports") {
            match WolPorts::parse(value) {
                Ok(ports) => {
                    self.wol_ports = Some(ports);
                    Ok(())
                },
                Err(e) => Err(bad(value, var, ParseValueError::WolPorts(e))),
            }
        } else if text::str_eq(param, "address_family") {
            match AddressFamily::parse(value) {
                Ok(family) => {
                    self.address_family = Some(family);
                    Ok(())
                },
                Err(e) => Err(bad(value, var, ParseValueError::AddressFamily(e))),
            }
        } else if text::str_eq(param, "wol") {
            match env_bool(value, var) {
                Ok(b) => {
                    self.wol = Some(b);
                    Ok(())
                },
                Err(e) => Err(e),
            }
        } else if text::str_eq(param, "mdns") {
            match env_bool(value, var) {
                Ok(b) => {
                    self.mdns = Some(b);
                    Ok(())
                },
                Err(e) => Err(e),
            }
        } else if text::str_eq(param, "ssdp") {
            match env_bool(value, var) {
                Ok(b) => {
                    self.ssdp = Some(b);
                    Ok(())
                },
                Err(e) => Err(e),
            }
        } else if text::str_eq(param, "dial") {
            match env_bool(value, var) {
                Ok(b) => {
                    self.dial = Some(b);
                    Ok(())
                },
                Err(e) => Err(e),
            }
        } else {
            Err(ConfigError::EnvUnknownParam { var: var.to_owned(), param: param.to_owned() })
        }
    }
}

/// Whether a flag is set, and set to true.
pub open spec fn on(flag: Option<bool>) -> bool {
    flag == Some(true)
}

/// The raw reflector that the fields make, or the first required one that is missing.
pub open spec fn finished(p: PartialView, name: Seq<char>) -> Result<
    RawReflectorView,
    ConfigFault,
> {
    match (p.source_if, p.target_if) {
        (None, _) => Err(
            ConfigFault::EnvMissingField {
                name,
                field: RequiredField::SourceIf,
            },
        ),
        (_, None) => Err(
            ConfigFault::EnvMissingField {
                name,
                field: RequiredField::TargetIf,
            },
        ),
        (Some(source_if), Some(target_if)) => Ok(
            RawReflectorView {
                name: p.name,
                source_if,
                target_if,
                macs: p.macs,
                wol: on(p.wol),
                mdns: on(p.mdns),
                ssdp: on(p.ssdp),
                dial: on(p.dial),
                wol_ports: p.wol_ports,
                address_family: match p.address_family {
                    Some(family) => family,
                    None => AddressFamily::Default,
                },
            },
        ),
    }
}

fn flag(value: Option<bool>) -> (r: bool)
    ensures
        r == on(value),
{
    match value {
        Some(b) => b,
        None => false,
    }
}

impl PartialReflector {
    /// The raw reflector that the fields make; both interfaces are required.
    pub fn into_raw(self, name: &str) -> (r: Result<RawReflector, ConfigError>)
        ensures
            match r {
                Ok(raw) => finished(self@, name@) == Ok::<RawReflectorView, ConfigFault>(raw@),
                Err(e) => finished(self@, name@) == Err::<RawReflectorView, ConfigFault>(e@),
            },
    {
        let source_if = match self.source_if {
            Some(name) => name,
            None => {
                return Err(
                    ConfigError::EnvMissingField {
                        name: name.to_owned(),
                        field: RequiredField::SourceIf,
                    },
                );
            },
        };
        let target_if = match self.target_if {
            Some(name) => name,
            None => {
                return Err(
                    ConfigError::EnvMissingField {
                        name: name.to_owned(),
                        field: RequiredField::TargetIf,
                    },
                );
            },
        };
        let address_family = match self.address_family {
            Some(family) => family,
            None => AddressFamily::Default,
        };
        Ok(
            RawReflector {
                name: self.name,
                source_if,
                target_if,
                macs: self.macs,
                wol: flag(self.wol),
                mdns: flag(self.mdns),
                ssdp: flag(self.ssdp),
                dial: flag(self.dial),
                wol_ports: self.wol_ports,
                address_family,
            },
        )
    }
}

/// What the variables read so far set.
#[verifier::ext_equal]
pub struct EnvView {
    pub log_level: Option<LogLevel>,
    pub debug_memory: Option<bool>,
    pub partials: Seq<(Seq<char>, PartialView)>,
}

/// What remains of `s` behind `prefix`.
pub open spec fn after_prefix(s: Seq<char>, prefix: Seq<char>) -> Option<Seq<char>> {
    if prefix.len() <= s.len() && s.take(prefix.len() as int) == prefix {
        Some(s.skip(prefix.len() as int))
    } else {
        None
    }
}

/// An ASCII letter or digit.
pub open spec fn alphanumeric(c: char) -> bool {
    ('a' <= c && c <= 'z') || ('A' <= c && c <= 'Z') || ('0' <= c && c <= '9')
}

/// A non-empty text of ASCII letters and digits.
pub open spec fn valid_tag(tag: Seq<char>) -> bool {
    tag.len() > 0 && forall|i: int| 0 <= i < tag.len() ==> alphanumeric(#[trigger] tag[i])
}

/// What the variables set after one more, `var`, whose name goes on with `rest` behind the prefix.
pub open spec fn with_reflector_var(
    state: EnvView,
    rest: Seq<char>,
    value: Seq<char>,
    var: Seq<char>,
) -> Result<EnvView, ConfigFault> {
    match text::first_index(rest, '_', 0) {
        None => Err(ConfigFault::EnvMalformedVar { var }),
        Some(i) => {
            let tag = rest.take(i);
            let name = text::lowered(tag);
            let param = text::lowered(rest.skip(i + 1));
            if !valid_tag(tag) {
                Err(ConfigFault::EnvInvalidTag { var, tag })
            } else if name == "log"@ || name == "debug"@ {
                Err(ConfigFault::EnvReservedTag { var })
            } else {
                let fields = match crate::config::table::lookup(state.partials, name) {
                    Some(fields) => fields,
                    None => no_fields(),
                };
                match with_param(fields, param, value, var) {
                    Ok(now) => Ok(
                        EnvView {
                            partials: crate::config::table::put(state.partials, name, now),
                            ..state
                        },
                    ),
                    Err(e) => Err(e),
                }
            }
        },
    }
}

/// What the variables set after one more.
pub open spec fn with_var(state: EnvView, var: Seq<char>, value: Seq<char>) -> Result<
    EnvView,
    ConfigFault,
> {
    match after_prefix(var, "REFLECTOR_"@) {
        None => Ok(state),
        Some(rest) => if rest == "LOG_LEVEL"@ {
            match crate::config::value::log_level_named(value) {
                Some(level) => Ok(EnvView { log_level: Some(level), ..state }),
                None => Err(bad_value(var, value, ValueFault::LogLevel)),
            }
        } else if rest == "DEBUG_MEMORY"@ {
            match env_bool_of(value, var) {
                Ok(b) => Ok(EnvView { debug_memory: Some(b), ..state }),
                Err(e) => Err(e),
            }
        } else {
            with_reflector_var(state, rest, value, var)
        },
    }
}

/// A list of variables as texts.
pub open spec fn vars_view(vars: Seq<(String, String)>) -> Seq<(Seq<char>, Seq<char>)> {
    vars.map_values(|v: (String, String)| (v.0@, v.1@))
}

/// What a list of variables sets, or the error of the first that is invalid.
pub open spec fn read_vars(vars: Seq<(Seq<char>, Seq<char>)>) -> Result<
    EnvView,
    ConfigFault,
>
    decreases vars.len(),
{
    if vars.len() == 0 {
        Ok(EnvView { log_level: None, debug_memory: None, partials: Seq::empty() })
    } else {
        match read_vars(vars.drop_last()) {
            Ok(state) => with_var(state, vars.last().0, vars.last().1),
            Err(e) => Err(e),
        }
    }
}

/// The raw reflectors that the partial ones make, in order, or the error of the first that lacks a
/// required field.
pub open spec fn finished_all(partials: Seq<(Seq<char>, PartialView)>) -> Result<
    Seq<(Seq<char>, RawReflectorView)>,
    ConfigFault,
>
    decreases partials.len(),
{
    if partials.len() == 0 {
        Ok(Seq::empty())
    } else {
        match finished_all(partials.drop_last()) {
            Err(e) => Err(e),
            Ok(before) => match finished(partials.last().1, partials.last().0) {
                Ok(raw) => Ok(
                    crate::config::table::put(before, partials.last().0, raw),
                ),
                Err(e) => Err(e),
            },
        }
    }
}

/// The raw configuration that the environment describes.
pub open spec fn env_config(vars: Seq<(Seq<char>, Seq<char>)>) -> Result<
    RawConfigView,
    ConfigFault,
> {
    match read_vars(vars) {
        Err(e) => Err(e),
        Ok(state) => match finished_all(state.partials) {
            Err(e) => Err(e),
            Ok(reflectors) => Ok(
                RawConfigView {
                    log_level: state.log_level,
                    debug_memory: state.debug_memory,
                    reflectors,
                },
            ),
        },
    }
}

fn strip(s: &str, prefix: &str) -> (rest: Option<Vec<char>>)
    ensures
        match rest {
            Some(rest) => after_prefix(s@, prefix@) == Some(rest@),
            None => after_prefix(s@, prefix@) is None,
        },
{
    let chars = text::chars_of(s);
    let wanted = text::chars_of(prefix);
    let n: usize = wanted.len();
    if chars.len() < n {
        return None;
    }
    let mut i: usize = 0;
    while i < n
        invariant
            chars@ == s@,
            wanted@ == prefix@,
            n == wanted@.len(),
            n <= chars@.len(),
            i <= n,
            forall|j: int| 0 <= j < i ==> s@[j] == prefix@[j],
        decreases n - i,
    {
        if chars[i] != wanted[i] {
            assert(s@.take(n as int)[i as int] != prefix@[i as int]);
            return None;
        }
        i += 1;
    }
    assert(s@.take(n as int) =~= prefix@);
    let rest = vstd::slice::slice_subrange(chars.as_slice(), n, chars.len());
    let rest = vstd::slice::slice_to_vec(rest);
    assert(rest@ =~= s@.skip(n as int));
    Some(rest)
}

fn is_valid_tag(tag: &[char]) -> (r: bool)
    ensures
        r == valid_tag(tag@),
{
    let n: usize = tag.len();
    if n == 0 {
        return false;
    }
    let mut i: usize = 0;
    while i < n
        invariant
            n == tag@.len(),
            i <= n,
            forall|j: int| 0 <= j < i ==> alphanumeric(#[trigger] tag@[j]),
        decreases n - i,
    {
        let c: char = tag[i];
        let ok: bool = (c >= 'a' && 'z' >= c) || (c >= 'A' && 'Z' >= c) || (c >= '0' && '9' >= c);
        if !ok {
            assert(!alphanumeric(tag@[i as int]));
            return false;
        }
        i += 1;
    }
    true
}

/// The variables read so far.
struct Env {
    log_level: Option<LogLevel>,
    debug_memory: Option<bool>,
    partials: Table<PartialReflector>,
}

impl Env {
    spec fn state(&self) -> EnvView {
        EnvView {
            log_level: self.log_level,
            debug_memory: self.debug_memory,
            partials: crate::config::table::mapped(self.partials@, |p: PartialReflector| p@),
        }
    }

    fn read_reflector_var(&mut self, rest: &[char], value: &str, var: &str) -> (r: Result<
        (),
        ConfigError,
    >)
        requires
            old(self).partials.wf(),
        ensures
            final(self).partials.wf(),
            match r {
                Ok(_) => with_reflector_var(old(self).state(), rest@, value@, var@)
                    == Ok::<EnvView, ConfigFault>(final(self).state()),
                Err(e) => with_reflector_var(old(self).state(), rest@, value@, var@)
                    == Err::<EnvView, ConfigFault>(e@),
            },
    {
        let ghost f = |p: PartialReflector| p@;
        let n: usize = rest.len();
        let at: usize = match text::find_char(rest, '_', 0) {
            None => {
                return Err(ConfigError::EnvMalformedVar { var: var.to_owned() });
            },
            Some(at) => at,
        };
        let tag = vstd::slice::slice_subrange(rest, 0, at);
        let param = vstd::slice::slice_subrange(rest, at + 1, n);
        assert(tag@ =~= rest@.take(at as int));
        assert(param@ =~= rest@.skip(at + 1));
        let tag_text = text::string_of(tag);
        if !is_valid_tag(tag) {
            return Err(ConfigError::EnvInvalidTag { var: var.to_owned(), tag: tag_text });
        }
        let name = text::to_ascii_lowercase(tag_text.as_str());
        if text::str_eq(name.as_str(), "log") || text::str_eq(name.as_str(), "debug") {
            return Err(ConfigError::EnvReservedTag { var: var.to_owned() });
        }
        let param_text = text::string_of(param);
        let param = text::to_ascii_lowercase(param_text.as_str());
        let ghost before = self.partials@;
        let mut fields = match self.partials.take(name.as_str()) {
            Some(fields) => fields,
            None => PartialReflector::new(),
        };
        match fields.set(param.as_str(), value, var) {
            Ok(_) => {
                proof {
                    crate::config::table::lemma_put_mapped(before, f, name@, fields);
                    if crate::config::table::lookup(before, name@) is Some {
                        crate::config::table::lemma_put_after_take(before, name@, fields);
                    }
                }
                self.partials.put(name, fields);
                Ok(())
            },
            Err(e) => {
                proof {
                    crate::config::table::lemma_put_mapped(before, f, name@, fields);
                }
                Err(e)
            },
        }
    }

    fn read_var(&mut self, var: &str, value: &str) -> (r: Result<(), ConfigError>)
        requires
            old(self).partials.wf(),
        ensures
            final(self).partials.wf(),
            match r {
                Ok(_) => with_var(old(self).state(), var@, value@)
                    == Ok::<EnvView, ConfigFault>(final(self).state()),
                Err(e) => with_var(old(self).state(), var@, value@)
                    == Err::<EnvView, ConfigFault>(e@),
            },
    {
        let rest = match strip(var, "REFLECTOR_") {
            None => {
                return Ok(());
            },
            Some(rest) => rest,
        };
        let rest_text = text::string_of(rest.as_slice());
        if text::str_eq(rest_text.as_str(), "LOG_LEVEL") {
            match LogLevel::parse(value) {
                Ok(level) => {
                    self.log_level = Some(level);
                    Ok(())
                },
                Err(e) => Err(bad(value, var, ParseValueError::LogLevel(e))),
            }
        } else if text::str_eq(rest_text.as_str(), "DEBUG_MEMORY") {
            match env_bool(value, var) {
                Ok(b) => {
                    self.debug_memory = Some(b);
                    Ok(())
                },
                Err(e) => Err(e),
            }
        } else {
            self.read_reflector_var(rest.as_slice(), value, var)
        }
    }
}

/// Parses the `REFLECTOR_` variables into the raw configuration they describe.
pub fn parse_env(vars: &[(String, String)]) -> (r: Result<RawConfig, ConfigError>)
    ensures
        match r {
            Ok(raw) => raw.wf() && env_config(vars_view(vars@))
                == Ok::<RawConfigView, ConfigFault>(raw@),
            Err(e) => env_config(vars_view(vars@)) == Err::<RawConfigView, ConfigFault>(e@),
        },
{
    let ghost all = vars_view(vars@);
    let mut env = Env { log_level: None, debug_memory: None, partials: Table::new() };
    let n: usize = vars.len();
    let mut i: usize = 0;
    proof {
        assert(all.take(0) =~= Seq::<(Seq<char>, Seq<char>)>::empty());
        assert(env.state().partials =~= Seq::<(Seq<char>, PartialView)>::empty());
    }
    while i < n
        invariant
            n == vars@.len(),
            i <= n,
            all == vars_view(vars@),
            env.partials.wf(),
            read_vars(all.take(i as int)) == Ok::<EnvView, ConfigFault>(
                env.state(),
            ),
        decreases n - i,
    {
        proof {
            assert(all.take(i + 1).drop_last() =~= all.take(i as int));
            assert(all.take(i + 1).last() == all[i as int]);
            assert(all[i as int] == (vars@[i as int].0@, vars@[i as int].1@));
        }
        match env.read_var(vars[i].0.as_str(), vars[i].1.as_str()) {
            Ok(_) => {},
            Err(e) => {
                proof {
                    lemma_first_error(all, i + 1);
                }
                return Err(e);
            },
        }
        i += 1;
    }
    assert(all.take(n as int) =~= all);
    finish(env.log_level, env.debug_memory, env.partials)
}

fn finish(
    log_level: Option<LogLevel>,
    debug_memory: Option<bool>,
    partials: Table<PartialReflector>,
) -> (r: Result<RawConfig, ConfigError>)
    requires
        partials.wf(),
    ensures
        match r {
            Ok(raw) => {
                &&& raw.wf()
                &&& raw.log_level == log_level
                &&& raw.debug_memory == debug_memory
                &&& finished_all(
                    crate::config::table::mapped(partials@, |p: PartialReflector| p@),
                ) == Ok::<
                    Seq<(Seq<char>, RawReflectorView)>,
                    ConfigFault,
                >(raw@.reflectors)
            },
            Err(e) => finished_all(
                crate::config::table::mapped(partials@, |p: PartialReflector| p@),
            ) == Err::<
                Seq<(Seq<char>, RawReflectorView)>,
                ConfigFault,
            >(e@),
        },
{
    let ghost f = |p: PartialReflector| p@;
    let ghost g = |r: RawReflector| r@;
    let ghost all = crate::config::table::mapped(partials@, f);
    let ghost entries = partials@;
    let mut rest = partials;
    let mut reflectors: Table<RawReflector> = Table::new();
    let ghost mut done: int = 0;
    proof {
        assert(all.take(0) =~= Seq::<(Seq<char>, PartialView)>::empty());
        assert(crate::config::table::mapped(reflectors@, g) =~= Seq::<
            (Seq<char>, RawReflectorView),
        >::empty());
        assert(entries.skip(0) =~= entries);
    }
    loop
        invariant
            rest.wf(),
            reflectors.wf(),
            f == (|p: PartialReflector| p@),
            g == (|r: RawReflector| r@),
            all == crate::config::table::mapped(entries, f),
            0 <= done <= entries.len(),
            rest@ == entries.skip(done),
            finished_all(all.take(done)) == Ok::<
                Seq<(Seq<char>, RawReflectorView)>,
                ConfigFault,
            >(crate::config::table::mapped(reflectors@, g)),
            all == crate::config::table::mapped(partials@, |p: PartialReflector| p@),
        decreases rest@.len(),
    {
        match rest.take_first() {
            None => {
                assert(all.take(done) =~= all);
                return Ok(RawConfig { log_level, debug_memory, reflectors });
            },
            Some((name, partial)) => {
                proof {
                    assert(all.take(done + 1).drop_last() =~= all.take(done));
                    assert(all.take(done + 1).last() == all[done]);
                    assert(all[done] == (entries[done].0, entries[done].1@));
                    assert(entries.skip(done).drop_first() =~= entries.skip(done + 1));
                }
                match partial.into_raw(name.as_str()) {
                    Ok(raw) => {
                        proof {
                            crate::config::table::lemma_put_mapped(reflectors@, g, name@, raw);
                        }
                        reflectors.put(name, raw);
                    },
                    Err(e) => {
                        proof {
                            lemma_first_unfinished(all, done + 1);
                        }
                        return Err(e);
                    },
                }
                proof {
                    done = done + 1;
                }
            },
        }
    }
}

proof fn lemma_first_error(vars: Seq<(Seq<char>, Seq<char>)>, n: int)
    requires
        0 <= n <= vars.len(),
        read_vars(vars.take(n)) is Err,
    ensures
        read_vars(vars) == read_vars(vars.take(n)),
    decreases vars.len() - n,
{
    if n < vars.len() {
        assert(vars.take(n + 1).drop_last() =~= vars.take(n));
        lemma_first_error(vars, n + 1);
    } else {
        assert(vars.take(n) =~= vars);
    }
}

proof fn lemma_first_unfinished(partials: Seq<(Seq<char>, PartialView)>, n: int)
    requires
        0 <= n <= partials.len(),
        finished_all(partials.take(n)) is Err,
    ensures
        finished_all(partials) == finished_all(partials.take(n)),
    decreases partials.len() - n,
{
    if n < partials.len() {
        assert(partials.take(n + 1).drop_last() =~= partials.take(n));
        lemma_first_unfinished(partials, n + 1);
    } else {
        assert(partials.take(n) =~= partials);
    }
}

/// The log level that the environment sets, without a look at the rest of it: the first
/// `REFLECTOR_LOG_LEVEL` decides.
pub open spec fn env_log_level(vars: Seq<(Seq<char>, Seq<char>)>) -> Result<
    Option<LogLevel>,
    ConfigFault,
>
    decreases vars.len(),
{
    if vars.len() == 0 {
        Ok(None)
    } else if vars[0].0 == "REFLECTOR_LOG_LEVEL"@ {
        match crate::config::value::log_level_named(vars[0].1) {
            Some(level) => Ok(Some(level)),
            None => Err(
                bad_value(vars[0].0, vars[0].1, ValueFault::LogLevel),
            ),
        }
    } else {
        env_log_level(vars.drop_first())
    }
}

/// The log level that the environment sets, without a look at the rest of it.
pub fn log_level_from_env(vars: &[(String, String)]) -> (r: Result<Option<LogLevel>, ConfigError>)
    ensures
        match r {
            Ok(level) => env_log_level(vars_view(vars@))
                == Ok::<Option<LogLevel>, ConfigFault>(level),
            Err(e) => env_log_level(vars_view(vars@)) == Err::<Option<LogLevel>, ConfigFault>(e@),
        },
{
    let ghost all = vars_view(vars@);
    let n: usize = vars.len();
    let mut i: usize = 0;
    assert(all.skip(0) =~= all);
    while i < n
        invariant
            n == vars@.len(),
            i <= n,
            all == vars_view(vars@),
            env_log_level(all) == env_log_level(all.skip(i as int)),
        decreases n - i,
    {
        proof {
            assert(all.skip(i as int)[0] == all[i as int]);
            assert(all[i as int] == (vars@[i as int].0@, vars@[i as int].1@));
            assert(all.skip(i as int).drop_first() =~= all.skip(i + 1));
        }
        let var = vars[i].0.as_str();
        let value = vars[i].1.as_str();
        if text::str_eq(var, "REFLECTOR_LOG_LEVEL") {
            return match LogLevel::parse(value) {
                Ok(level) => Ok(Some(level)),
                Err(e) => Err(bad(value, var, ParseValueError::LogLevel(e))),
            };
        }
        i += 1;
    }
    Ok(None)
}

} // verus!
