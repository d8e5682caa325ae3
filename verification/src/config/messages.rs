//! The configuration's errors in words, and where in the file they stand.

#[allow(unused_imports)]
use crate::config::error::{ConfigFault, DocumentFault, ValueFault};
use crate::config::error::{
    ConfigError, DocumentError, Expected, ParseValueError,
};
use crate::config::value::WolPortsError;
#[allow(unused_imports)]
use crate::config::value::WolPortsFault;
use crate::net::mac::MacSetError;
#[allow(unused_imports)]
use crate::net::mac::MacSetFault;
use crate::text;
use vstd::prelude::*;

verus! {

/// A place in a text: its line, and its column in characters, both from 1.
#[derive(Debug, Clone, Copy, PartialEq, Eq, Structural)]
pub struct Location {
    pub line: u128,
    pub column: u128,
}

/// How many bytes a character takes in UTF-8.
pub open spec fn utf8_len(c: char) -> int {
    if (c as int) < 0x80 {
        1
    } else if (c as int) < 0x800 {
        2
    } else if (c as int) < 0x1_0000 {
        3
    } else {
        4
    }
}

/// The line and the column at which the walk over `rest` stops that has `bytes` bytes to go and
/// stands at `line` and `column`.
pub open spec fn walked(rest: Seq<char>, bytes: int, line: int, column: int) -> (int, int)
    decreases rest.len(),
{
    if rest.len() == 0 || bytes <= 0 {
        (line, column)
    } else if rest[0] == '\n' {
        walked(rest.drop_first(), bytes - 1, line + 1, 1)
    } else {
        walked(rest.drop_first(), bytes - utf8_len(rest[0]), line, column + 1)
    }
}

/// The line and the column of the byte at `at`.
pub open spec fn place_in(s: Seq<char>, at: int) -> (int, int) {
    walked(s, at, 1, 1)
}

fn width(c: char) -> (n: usize)
    ensures
        n == utf8_len(c),
        1 <= n <= 4,
{
    let u: u32 = c as u32;
    if u < 0x80 {
        1
    } else if u < 0x800 {
        2
    } else if u < 0x1_0000 {
        3
    } else {
        4
    }
}

/// The line and the column of the byte at `at` in a text; a place behind the text is its end.
pub fn location(s: &str, at: usize) -> (r: Location)
    ensures
        (r.line as int, r.column as int) == place_in(s@, at as int),
{
    let chars = text::chars_of(s);
    let n: usize = chars.len();
    let mut left: usize = at;
    let mut line: u128 = 1;
    let mut column: u128 = 1;
    let mut i: usize = 0;
    assert(s@.skip(0) =~= s@);
    while i < n && left > 0
        invariant
            chars@ == s@,
            n == chars@.len(),
            i <= n,
            left <= at - i || left == 0,
            1 <= line <= i + 1,
            1 <= column <= i + 1,
            i <= at,
            place_in(s@, at as int) == walked(
                s@.skip(i as int),
                left as int,
                line as int,
                column as int,
            ),
        decreases n - i,
    {
        proof {
            assert(s@.skip(i as int).drop_first() =~= s@.skip(i + 1));
            assert(s@.skip(i as int)[0] == chars@[i as int]);
        }
        let c: char = chars[i];
        if c == '\n' {
            line += 1;
            column = 1;
            left -= 1;
        } else {
            column += 1;
            let taken: usize = width(c);
            if taken < left {
                left -= taken;
            } else {
                proof {
                    lemma_walk_over(
                        s@.skip(i + 1),
                        left - taken,
                        line as int,
                        column as int,
                    );
                }
                left = 0;
            }
        }
        i += 1;
    }
    Location { line, column }
}

/// A walk with no bytes to go stands where it is.
proof fn lemma_walk_over(rest: Seq<char>, bytes: int, line: int, column: int)
    requires
        bytes <= 0,
    ensures
        walked(rest, bytes, line, column) == walked(rest, 0, line, column),
{
}

/// Why a list of addresses is no set, in words.
pub open spec fn mac_set_words(e: MacSetFault) -> Seq<char> {
    match e {
        MacSetFault::Empty => "macs must not be empty"@,
        MacSetFault::Duplicate(mac) => "macs contains duplicate address "@
            + crate::net::mac::octets_text(mac@, 6) + ""@,
        MacSetFault::BadMac(token) => "macs has an invalid address \""@ + token + "\""@,
    }
}

impl MacSetError {
    /// The error in words.
    pub fn message(&self) -> (r: String)
        ensures
            r@ == mac_set_words(self@),
    {
        match self {
            MacSetError::Empty => "macs must not be empty".to_owned(),
            MacSetError::Duplicate(mac) => text::around(
                "macs contains duplicate address ",
                mac.to_text().as_str(),
                "",
            ),
            MacSetError::BadMac(token) => text::around(
                "macs has an invalid address \"",
                token.as_str(),
                "\"",
            ),
        }
    }
}

/// Why a list is no list of ports, in words.
pub open spec fn wol_ports_words(e: WolPortsFault) -> Seq<char> {
    match e {
        WolPortsFault::Empty => "wol_ports must not be empty"@,
        WolPortsFault::Duplicate(port) => "wol_ports contains duplicate port "@ + text::decimal(
            port as nat,
        ) + ""@,
        WolPortsFault::BadPort(token) => "wol_ports has an invalid port \""@ + token + "\""@,
    }
}

impl WolPortsError {
    /// The error in words.
    pub fn message(&self) -> (r: String)
        ensures
            r@ == wol_ports_words(self@),
    {
        match self {
            WolPortsError::Empty => "wol_ports must not be empty".to_owned(),
            WolPortsError::Duplicate(port) => text::around(
                "wol_ports contains duplicate port ",
                text::number(*port as u128).as_str(),
                "",
            ),
            WolPortsError::BadPort(token) => text::around(
                "wol_ports has an invalid port \"",
                token.as_str(),
                "\"",
            ),
        }
    }
}

/// Why a value could not be parsed, in words.
pub open spec fn value_words(e: ValueFault) -> Seq<char> {
    match e {
        ValueFault::LogLevel => "expected one of: off, error, warning, info, debug, trace"@,
        ValueFault::AddressFamily => "expected one of: default, dual, ipv4, ipv6"@,
        ValueFault::Mac => "expected six colon-separated hex octets"@,
        ValueFault::Macs(e) => mac_set_words(e),
        ValueFault::Interface => "interface name must not be empty"@,
        ValueFault::WolPorts(e) => wol_ports_words(e),
        ValueFault::ReflectorName => "reflector name must not be empty or whitespace-only"@,
        ValueFault::Bool => "expected true, false, 1, or 0"@,
    }
}

impl ParseValueError {
    /// The error in words.
    pub fn message(&self) -> (r: String)
        ensures
            r@ == value_words(self@),
    {
        match self {
            ParseValueError::LogLevel(e) => e.message().to_owned(),
            ParseValueError::AddressFamily(e) => e.message().to_owned(),
            ParseValueError::Mac(e) => e.message().to_owned(),
            ParseValueError::Macs(e) => e.message(),
            ParseValueError::Interface(e) => e.message().to_owned(),
            ParseValueError::WolPorts(e) => e.message(),
            ParseValueError::ReflectorName(e) => e.message().to_owned(),
            ParseValueError::Bool(e) => e.message().to_owned(),
        }
    }
}

impl Expected {
    /// The kind in words.
    pub open spec fn spec_words(self) -> Seq<char> {
        match self {
            Expected::Text => "a string"@,
            Expected::Boolean => "a boolean"@,
            Expected::Port => "a port"@,
            Expected::List => "a list"@,
            Expected::Table => "a table"@,
        }
    }

    /// The kind in words.
    pub fn words(self) -> (r: &'static str)
        ensures
            r@ == self.spec_words(),
    {
        match self {
            Expected::Text => "a string",
            Expected::Boolean => "a boolean",
            Expected::Port => "a port",
            Expected::List => "a list",
            Expected::Table => "a table",
        }
    }
}

/// What is wrong with a document, in words.
pub open spec fn document_words(e: DocumentFault) -> Seq<char> {
    match e {
        DocumentFault::Syntax(message) => message,
        DocumentFault::UnknownField { field, at } => "unknown field `"@ + field + "`"@,
        DocumentFault::MissingField { field, at } => "missing field `"@ + field.spec_name() + "`"@,
        DocumentFault::WrongType { field, expected, at } => "invalid type for `"@ + field
            + "`: expected "@ + expected.spec_words() + ""@,
        DocumentFault::BadValue { field, source, at } => "`"@ + field + "`: "@ + value_words(source)
            + ""@,
    }
}

/// Where in the text it is wrong; a syntax error's message says so itself.
pub open spec fn document_place(e: DocumentFault) -> Option<usize> {
    match e {
        DocumentFault::Syntax(message) => None,
        DocumentFault::UnknownField { field, at } => Some(at),
        DocumentFault::MissingField { field, at } => Some(at),
        DocumentFault::WrongType { field, expected, at } => Some(at),
        DocumentFault::BadValue { field, source, at } => Some(at),
    }
}

/// A message with the line and the column that it is about.
pub open spec fn at_place(place: (int, int), message: Seq<char>) -> Seq<char> {
    "line "@ + text::decimal(place.0 as nat) + ", column "@ + text::decimal(place.1 as nat) + ": "@
        + message
}

/// What is wrong with a document whose text is `file`, in words, and where.
pub open spec fn located_words(e: DocumentFault, file: Seq<char>) -> Seq<char> {
    match document_place(e) {
        Some(at) => at_place(place_in(file, at as int), document_words(e)),
        None => document_words(e),
    }
}

impl DocumentError {
    /// The error in words.
    pub fn message(&self) -> (r: String)
        ensures
            r@ == document_words(self@),
    {
        match self {
            DocumentError::Syntax(message) => message.as_str().to_owned(),
            DocumentError::UnknownField { field, at: _ } => text::around(
                "unknown field `",
                field.as_str(),
                "`",
            ),
            DocumentError::MissingField { field, at: _ } => text::around(
                "missing field `",
                field.name(),
                "`",
            ),
            DocumentError::WrongType { field, expected, at: _ } => text::around_two(
                "invalid type for `",
                field.as_str(),
                "`: expected ",
                expected.words(),
                "",
            ),
            DocumentError::BadValue { field, source, at: _ } => text::around_two(
                "`",
                field.as_str(),
                "`: ",
                source.message().as_str(),
                "",
            ),
        }
    }

    /// Where in the text the error stands, in bytes from the start; a syntax error's message says
    /// so itself.
    pub fn place(&self) -> (at: Option<usize>)
        ensures
            at == document_place(self@),
    {
        match self {
            DocumentError::Syntax(_) => None,
            DocumentError::UnknownField { field: _, at } => Some(*at),
            DocumentError::MissingField { field: _, at } => Some(*at),
            DocumentError::WrongType { field: _, expected: _, at } => Some(*at),
            DocumentError::BadValue { field: _, source: _, at } => Some(*at),
        }
    }

    /// The error in words, with the line and the column in the text `file` that it is about.
    pub fn message_in(&self, file: &str) -> (r: String)
        ensures
            r@ == located_words(self@, file@),
    {
        match self.place() {
            None => self.message(),
            Some(at) => {
                let place = location(file, at);
                let mut out = text::around_two(
                    "line ",
                    text::number(place.line).as_str(),
                    ", column ",
                    text::number(place.column).as_str(),
                    ": ",
                );
                text::push_text(&mut out, self.message().as_str());
                out
            },
        }
    }
}

/// Why a configuration is invalid, in words. What is wrong with its file is located in the file's
/// text, where that is at hand.
pub open spec fn config_words(e: ConfigFault, file: Option<Seq<char>>) -> Seq<char> {
    match e {
        ConfigFault::Parse(source) => "invalid configuration: "@ + (match file {
            Some(file) => located_words(source, file),
            None => document_words(source),
        }) + ""@,
        ConfigFault::ReadFile { path, message } => "cannot read config file \""@ + path + "\": "@
            + message + ""@,
        ConfigFault::NoReflectors => "must define at least one reflector"@,
        ConfigFault::EmptyReflectorName { key } => "reflector name \""@ + key
            + "\" is empty or whitespace-only"@,
        ConfigFault::SameInterface { name, value } => "reflector \""@ + name
            + "\" source_if and target_if must differ (both are \""@ + value + "\")"@,
        ConfigFault::NoProtocol { name } => "reflector \""@ + name
            + "\" enables no protocol (set wol, mdns, or ssdp)"@,
        ConfigFault::WolPortsWithoutWol { name } => "reflector \""@ + name
            + "\" sets wol_ports but does not enable wol"@,
        ConfigFault::DialWithoutSsdp { name } => "reflector \""@ + name
            + "\" sets dial but does not enable ssdp"@,
        ConfigFault::DialRequiresIpv4 { name } => "reflector \""@ + name
            + "\" enables dial but the address family has no IPv4 (DIAL is IPv4-only)"@,
        ConfigFault::DuplicateReflector { name } => "reflector \""@ + name
            + "\" is defined in both the configuration file and the environment"@,
        ConfigFault::ConflictingReflectors { protocol, first, second, source_if, target_if } =>
            "reflectors \""@ + first + "\" and \""@ + second + "\" both reflect "@
                + protocol.spec_name() + " on "@ + source_if + " -> "@ + target_if
                + " with overlapping MAC selection and address family"@,
        ConfigFault::EnvMalformedVar { var } => "environment variable \""@ + var
            + "\" is malformed (expected REFLECTOR_<tag>_<param>)"@,
        ConfigFault::EnvInvalidTag { var, tag } => "environment variable \""@ + var
            + "\" has invalid tag \""@ + tag + "\" (tags must be non-empty and alphanumeric)"@,
        ConfigFault::EnvReservedTag { var } => "environment variable \""@ + var
            + "\" uses a reserved tag (log and debug are globals)"@,
        ConfigFault::EnvUnknownParam { var, param } => "environment variable \""@ + var
            + "\" sets unknown parameter \""@ + param + "\""@,
        ConfigFault::EnvMacsTwice { var } => "environment variable \""@ + var
            + "\" sets the addresses twice (give either mac or macs)"@,
        ConfigFault::EnvBadValue { var, value, source } => "environment variable \""@ + var
            + "\" has invalid value \""@ + value + "\": "@ + value_words(source),
        ConfigFault::EnvMissingField { name, field } => "reflector \""@ + name
            + "\" (from the environment) has no "@ + field.spec_name() + ""@,
    }
}

/// A text as a sequence, where there is one.
pub open spec fn file_view(file: Option<&str>) -> Option<Seq<char>> {
    match file {
        Some(file) => Some(file@),
        None => None,
    }
}

fn of_reflector(name: &str, rest: &str) -> (r: String)
    ensures
        r@ == "reflector \""@ + name@ + rest@,
{
    text::around("reflector \"", name, rest)
}

fn of_variable(var: &str, rest: &str) -> (r: String)
    ensures
        r@ == "environment variable \""@ + var@ + rest@,
{
    text::around("environment variable \"", var, rest)
}

fn of_variable_and(var: &str, between: &str, what: &str, rest: &str) -> (r: String)
    ensures
        r@ == "environment variable \""@ + var@ + between@ + what@ + rest@,
{
    text::around_two("environment variable \"", var, between, what, rest)
}

impl ConfigError {
    /// The error in words. What is wrong with the configuration file is located in its text
    /// `file`, where that is at hand.
    pub fn message(&self, file: Option<&str>) -> (r: String)
        ensures
            r@ == config_words(self@, file_view(file)),
    {
        match self {
            ConfigError::Parse(source) => {
                let words = match file {
                    Some(file) => source.message_in(file),
                    None => source.message(),
                };
                text::around("invalid configuration: ", words.as_str(), "")
            },
            ConfigError::ReadFile { path, message } => text::around_two(
                "cannot read config file \"",
                path.as_str(),
                "\": ",
                message.as_str(),
                "",
            ),
            ConfigError::NoReflectors => "must define at least one reflector".to_owned(),
            ConfigError::EmptyReflectorName { key } => text::around(
                "reflector name \"",
                key.as_str(),
                "\" is empty or whitespace-only",
            ),
            ConfigError::SameInterface { name, value } => text::around_two(
                "reflector \"",
                name.as_str(),
                "\" source_if and target_if must differ (both are \"",
                value.as_str(),
                "\")",
            ),
            ConfigError::NoProtocol { name } => of_reflector(
                name.as_str(),
                "\" enables no protocol (set wol, mdns, or ssdp)",
            ),
            ConfigError::WolPortsWithoutWol { name } => of_reflector(
                name.as_str(),
                "\" sets wol_ports but does not enable wol",
            ),
            ConfigError::DialWithoutSsdp { name } => of_reflector(
                name.as_str(),
                "\" sets dial but does not enable ssdp",
            ),
            ConfigError::DialRequiresIpv4 { name } => of_reflector(
                name.as_str(),
                "\" enables dial but the address family has no IPv4 (DIAL is IPv4-only)",
            ),
            ConfigError::DuplicateReflector { name } => of_reflector(
                name.as_str(),
                "\" is defined in both the configuration file and the environment",
            ),
            ConfigError::ConflictingReflectors { protocol, first, second, source_if, target_if } => {
                let mut out = text::around_two(
                    "reflectors \"",
                    first.as_str(),
                    "\" and \"",
                    second.as_str(),
                    "\" both reflect ",
                );
                text::push_text(&mut out, protocol.name());
                text::push_text(&mut out, " on ");
                text::push_text(&mut out, source_if.as_str());
                text::push_text(&mut out, " -> ");
                text::push_text(&mut out, target_if.as_str());
                text::push_text(&mut out, " with overlapping MAC selection and address family");
                out
            },
            ConfigError::EnvMalformedVar { var } => of_variable(
                var.as_str(),
                "\" is malformed (expected REFLECTOR_<tag>_<param>)",
            ),
            ConfigError::EnvInvalidTag { var, tag } => of_variable_and(
                var.as_str(),
                "\" has invalid tag \"",
                tag.as_str(),
                "\" (tags must be non-empty and alphanumeric)",
            ),
            ConfigError::EnvReservedTag { var } => of_variable(
                var.as_str(),
                "\" uses a reserved tag (log and debug are globals)",
            ),
            ConfigError::EnvUnknownParam { var, param } => of_variable_and(
                var.as_str(),
                "\" sets unknown parameter \"",
                param.as_str(),
                "\"",
            ),
            ConfigError::EnvMacsTwice { var } => of_variable(
                var.as_str(),
                "\" sets the addresses twice (give either mac or macs)",
            ),
            ConfigError::EnvBadValue { var, value, source } => {
                let mut out = of_variable_and(
                    var.as_str(),
                    "\" has invalid value \"",
                    value.as_str(),
                    "\": ",
                );
                text::push_text(&mut out, source.message().as_str());
                out
            },
            ConfigError::EnvMissingField { name, field } => text::around_two(
                "reflector \"",
                name.as_str(),
                "\" (from the environment) has no ",
                field.name(),
                "",
            ),
        }
    }
}

} // verus!
