//! Configuration errors. Each has a view with its texts as sequences, over which the contracts of
//! the loading functions speak.

use crate::config::value::{
    InterfaceName, ParseAddressFamilyError, ParseInterfaceNameError, ParseLogLevelError,
    ParseReflectorNameError, ReflectorName, WolPortsError,
};
use crate::net::mac::{MacSetError, ParseMacAddrError};
use vstd::prelude::*;

verus! {

/// The text is no boolean.
#[derive(Debug, Clone, Copy, PartialEq, Eq, Structural)]
pub struct ParseBoolError;

impl ParseBoolError {
    /// The error in words.
    pub fn message(&self) -> (text: &'static str)
        ensures
            text@ == "expected true, false, 1, or 0"@,
    {
        "expected true, false, 1, or 0"
    }
}

/// Why a value could not be parsed.
#[derive(Debug, PartialEq, Eq)]
pub enum ParseValueError {
    LogLevel(ParseLogLevelError),
    AddressFamily(ParseAddressFamilyError),
    Mac(ParseMacAddrError),
    Macs(MacSetError),
    Interface(ParseInterfaceNameError),
    WolPorts(WolPortsError),
    ReflectorName(ParseReflectorNameError),
    Bool(ParseBoolError),
}

/// A [`ParseValueError`] with its texts as sequences.
#[verifier::ext_equal]
pub enum ValueFault {
    LogLevel,
    AddressFamily,
    Mac,
    Macs(crate::net::mac::MacSetFault),
    Interface,
    WolPorts(crate::config::value::WolPortsFault),
    ReflectorName,
    Bool,
}

impl View for ParseValueError {
    type V = ValueFault;

    open spec fn view(&self) -> ValueFault {
        match self {
            ParseValueError::LogLevel(_) => ValueFault::LogLevel,
            ParseValueError::AddressFamily(_) => ValueFault::AddressFamily,
            ParseValueError::Mac(_) => ValueFault::Mac,
            ParseValueError::Macs(e) => ValueFault::Macs(e@),
            ParseValueError::Interface(_) => ValueFault::Interface,
            ParseValueError::WolPorts(e) => ValueFault::WolPorts(e@),
            ParseValueError::ReflectorName(_) => ValueFault::ReflectorName,
            ParseValueError::Bool(_) => ValueFault::Bool,
        }
    }
}

/// A required reflector field.
#[derive(Debug, Clone, Copy, PartialEq, Eq, Structural)]
pub enum RequiredField {
    /// The listen interface.
    SourceIf,
    /// The emit interface.
    TargetIf,
}

impl RequiredField {
    /// The field's name.
    pub open spec fn spec_name(self) -> Seq<char> {
        match self {
            RequiredField::SourceIf => "source_if"@,
            RequiredField::TargetIf => "target_if"@,
        }
    }

    /// The field's name.
    pub fn name(self) -> (name: &'static str)
        ensures
            name@ == self.spec_name(),
    {
        match self {
            RequiredField::SourceIf => "source_if",
            RequiredField::TargetIf => "target_if",
        }
    }
}

/// A reflected discovery protocol.
#[derive(Debug, Clone, Copy, PartialEq, Eq, Structural)]
pub enum Protocol {
    Wol,
    Mdns,
    Ssdp,
}

impl Protocol {
    /// The protocol's name.
    pub open spec fn spec_name(self) -> Seq<char> {
        match self {
            Protocol::Wol => "WoL"@,
            Protocol::Mdns => "mDNS"@,
            Protocol::Ssdp => "SSDP"@,
        }
    }

    /// The protocol's name.
    pub fn name(self) -> (name: &'static str)
        ensures
            name@ == self.spec_name(),
    {
        match self {
            Protocol::Wol => "WoL",
            Protocol::Mdns => "mDNS",
            Protocol::Ssdp => "SSDP",
        }
    }
}

/// The kind of value a field of the configuration file wants.
#[derive(Debug, Clone, Copy, PartialEq, Eq, Structural)]
pub enum Expected {
    Text,
    Boolean,
    Port,
    List,
    Table,
}

/// Why a configuration file's text is invalid: it is no TOML, or its tables do not have the shape
/// of a configuration. A place is given in bytes from the start of the text.
#[derive(Debug, PartialEq, Eq)]
pub enum DocumentError {
    /// The text is no TOML document; the parser's message.
    Syntax(String),
    /// A table has a field that means nothing, at this place in the text.
    UnknownField { field: String, at: usize },
    /// The reflector at this place in the text has no such field.
    MissingField { field: RequiredField, at: usize },
    /// A field's value, at this place in the text, is of the wrong kind, or a port out of range.
    WrongType { field: String, expected: Expected, at: usize },
    /// A field's value, at this place in the text, does not parse.
    BadValue { field: String, source: ParseValueError, at: usize },
}

/// A [`DocumentError`] with its texts as sequences.
#[verifier::ext_equal]
pub enum DocumentFault {
    Syntax(Seq<char>),
    UnknownField { field: Seq<char>, at: usize },
    MissingField { field: RequiredField, at: usize },
    WrongType { field: Seq<char>, expected: Expected, at: usize },
    BadValue { field: Seq<char>, source: ValueFault, at: usize },
}

impl View for DocumentError {
    type V = DocumentFault;

    open spec fn view(&self) -> DocumentFault {
        match self {
            DocumentError::Syntax(message) => DocumentFault::Syntax(message@),
            DocumentError::UnknownField { field, at } => DocumentFault::UnknownField {
                field: field@,
                at: *at,
            },
            DocumentError::MissingField { field, at } => DocumentFault::MissingField {
                field: *field,
                at: *at,
            },
            DocumentError::WrongType { field, expected, at } => DocumentFault::WrongType {
                field: field@,
                expected: *expected,
                at: *at,
            },
            DocumentError::BadValue { field, source, at } => DocumentFault::BadValue {
                field: field@,
                source: source@,
                at: *at,
            },
        }
    }
}

/// Everything that can make a configuration invalid.
#[allow(inconsistent_fields)]
#[derive(Debug, PartialEq, Eq)]
pub enum ConfigError {
    /// The configuration file's text is invalid.
    Parse(DocumentError),
    /// The configuration file cannot be read.
    ReadFile { path: String, message: String },
    /// No reflector is defined.
    NoReflectors,
    /// A reflector's key is empty or white space.
    EmptyReflectorName { key: String },
    /// A reflector listens and emits on the same interface.
    SameInterface { name: ReflectorName, value: InterfaceName },
    /// A reflector enables no protocol.
    NoProtocol { name: ReflectorName },
    /// A reflector sets Wake-on-LAN ports but does not enable Wake-on-LAN.
    WolPortsWithoutWol { name: ReflectorName },
    /// A reflector sets DIAL but does not enable SSDP.
    DialWithoutSsdp { name: ReflectorName },
    /// A reflector enables DIAL, which is IPv4-only, without IPv4.
    DialRequiresIpv4 { name: ReflectorName },
    /// A reflector is defined by the file and by the environment.
    DuplicateReflector { name: String },
    /// Two reflectors would reflect the same protocol's packets twice.
    ConflictingReflectors {
        protocol: Protocol,
        first: ReflectorName,
        second: ReflectorName,
        source_if: InterfaceName,
        target_if: InterfaceName,
    },
    /// A variable has no parameter.
    EnvMalformedVar { var: String },
    /// A variable's tag is empty or not alphanumeric.
    EnvInvalidTag { var: String, tag: String },
    /// A variable's tag is that of a global.
    EnvReservedTag { var: String },
    /// A variable sets a parameter that means nothing.
    EnvUnknownParam { var: String, param: String },
    /// A variable sets a reflector's devices by `mac` where another does so by `macs`, or the other
    /// way round.
    EnvMacsTwice { var: String },
    /// A variable's value does not parse.
    EnvBadValue { var: String, value: String, source: ParseValueError },
    /// A reflector of the environment has no such field.
    EnvMissingField { name: String, field: RequiredField },
}

/// A [`ConfigError`] with its texts as sequences.
#[verifier::ext_equal]
pub enum ConfigFault {
    Parse(DocumentFault),
    ReadFile { path: Seq<char>, message: Seq<char> },
    NoReflectors,
    EmptyReflectorName { key: Seq<char> },
    SameInterface { name: Seq<char>, value: Seq<char> },
    NoProtocol { name: Seq<char> },
    WolPortsWithoutWol { name: Seq<char> },
    DialWithoutSsdp { name: Seq<char> },
    DialRequiresIpv4 { name: Seq<char> },
    DuplicateReflector { name: Seq<char> },
    ConflictingReflectors {
        protocol: Protocol,
        first: Seq<char>,
        second: Seq<char>,
        source_if: Seq<char>,
        target_if: Seq<char>,
    },
    EnvMalformedVar { var: Seq<char> },
    EnvInvalidTag { var: Seq<char>, tag: Seq<char> },
    EnvReservedTag { var: Seq<char> },
    EnvUnknownParam { var: Seq<char>, param: Seq<char> },
    EnvMacsTwice { var: Seq<char> },
    EnvBadValue { var: Seq<char>, value: Seq<char>, source: ValueFault },
    EnvMissingField { name: Seq<char>, field: RequiredField },
}

impl View for ConfigError {
    type V = ConfigFault;

    open spec fn view(&self) -> ConfigFault {
        match self {
            ConfigError::Parse(e) => ConfigFault::Parse(e@),
            ConfigError::ReadFile { path, message } => ConfigFault::ReadFile {
                path: path@,
                message: message@,
            },
            ConfigError::NoReflectors => ConfigFault::NoReflectors,
            ConfigError::EmptyReflectorName { key } => ConfigFault::EmptyReflectorName {
                key: key@,
            },
            ConfigError::SameInterface { name, value } => ConfigFault::SameInterface {
                name: name@,
                value: value@,
            },
            ConfigError::NoProtocol { name } => ConfigFault::NoProtocol { name: name@ },
            ConfigError::WolPortsWithoutWol { name } => ConfigFault::WolPortsWithoutWol {
                name: name@,
            },
            ConfigError::DialWithoutSsdp { name } => ConfigFault::DialWithoutSsdp { name: name@ },
            ConfigError::DialRequiresIpv4 { name } => ConfigFault::DialRequiresIpv4 {
                name: name@,
            },
            ConfigError::DuplicateReflector { name } => ConfigFault::DuplicateReflector {
                name: name@,
            },
            ConfigError::ConflictingReflectors { protocol, first, second, source_if, target_if } =>
                ConfigFault::ConflictingReflectors {
                    protocol: *protocol,
                    first: first@,
                    second: second@,
                    source_if: source_if@,
                    target_if: target_if@,
                },
            ConfigError::EnvMalformedVar { var } => ConfigFault::EnvMalformedVar { var: var@ },
            ConfigError::EnvInvalidTag { var, tag } => ConfigFault::EnvInvalidTag {
                var: var@,
                tag: tag@,
            },
            ConfigError::EnvReservedTag { var } => ConfigFault::EnvReservedTag { var: var@ },
            ConfigError::EnvUnknownParam { var, param } => ConfigFault::EnvUnknownParam {
                var: var@,
                param: param@,
            },
            ConfigError::EnvMacsTwice { var } => ConfigFault::EnvMacsTwice { var: var@ },
            ConfigError::EnvBadValue { var, value, source } => ConfigFault::EnvBadValue {
                var: var@,
                value: value@,
                source: source@,
            },
            ConfigError::EnvMissingField { name, field } => ConfigFault::EnvMissingField {
                name: name@,
                field: *field,
            },
        }
    }
}

} // verus!
