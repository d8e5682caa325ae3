//! Strongly-typed configuration values. Each parses from a string, and the new types make illegal
//! values unrepresentable.

use crate::text;
use vstd::prelude::*;

verus! {

/// The least severity a record must have to be logged; `Off` disables logging. Ordered from the
/// most restrictive to the most verbose.
#[derive(Debug, Clone, Copy, PartialEq, Eq, Structural)]
pub enum LogLevel {
    Off,
    Error,
    Warning,
    Info,
    Debug,
    Trace,
}

impl Default for LogLevel {
    /// Informational records and above.
    fn default() -> (level: Self)
        ensures
            level == LogLevel::Info,
    {
        LogLevel::Info
    }
}

/// The text is no log level.
#[derive(Debug, Clone, Copy, PartialEq, Eq, Structural)]
pub struct ParseLogLevelError;

impl ParseLogLevelError {
    /// The error in words.
    pub fn message(&self) -> (text: &'static str)
        ensures
            text@ == "expected one of: off, error, warning, info, debug, trace"@,
    {
        "expected one of: off, error, warning, info, debug, trace"
    }
}

/// The log level that a text names, without regard to ASCII case.
pub open spec fn log_level_named(s: Seq<char>) -> Option<LogLevel> {
    let name = text::lowered(s);
    if name == "off"@ {
        Some(LogLevel::Off)
    } else if name == "error"@ {
        Some(LogLevel::Error)
    } else if name == "warning"@ {
        Some(LogLevel::Warning)
    } else if name == "info"@ {
        Some(LogLevel::Info)
    } else if name == "debug"@ {
        Some(LogLevel::Debug)
    } else if name == "trace"@ {
        Some(LogLevel::Trace)
    } else {
        None
    }
}

impl LogLevel {
    /// The log level that `s` names, without regard to ASCII case.
    pub fn parse(s: &str) -> (r: Result<Self, ParseLogLevelError>)
        ensures
            r == match log_level_named(s@) {
                Some(level) => Ok::<LogLevel, ParseLogLevelError>(level),
                None => Err::<LogLevel, ParseLogLevelError>(ParseLogLevelError),
            },
    {
        let name = text::to_ascii_lowercase(s);
        let name = name.as_str();
        if text::str_eq(name, "off") {
            Ok(LogLevel::Off)
        } else if text::str_eq(name, "error") {
            Ok(LogLevel::Error)
        } else if text::str_eq(name, "warning") {
            Ok(LogLevel::Warning)
        } else if text::str_eq(name, "info") {
            Ok(LogLevel::Info)
        } else if text::str_eq(name, "debug") {
            Ok(LogLevel::Debug)
        } else if text::str_eq(name, "trace") {
            Ok(LogLevel::Trace)
        } else {
            Err(ParseLogLevelError)
        }
    }
}

impl std::str::FromStr for LogLevel {
    type Err = ParseLogLevelError;

    fn from_str(s: &str) -> (r: Result<Self, ParseLogLevelError>)
        ensures
            r == match log_level_named(s@) {
                Some(level) => Ok::<LogLevel, ParseLogLevelError>(level),
                None => Err::<LogLevel, ParseLogLevelError>(ParseLogLevelError),
            },
    {
        LogLevel::parse(s)
    }
}

/// Which IP versions a reflector operates on.
#[derive(Debug, Clone, Copy, PartialEq, Eq, Structural)]
pub enum AddressFamily {
    /// IPv4, and IPv6 where the interfaces have it.
    Default,
    /// Both.
    Dual,
    /// IPv4 only.
    Ipv4,
    /// IPv6 only.
    Ipv6,
}

impl Default for AddressFamily {
    /// IPv4, and IPv6 where the interfaces have it.
    fn default() -> (family: Self)
        ensures
            family == AddressFamily::Default,
    {
        AddressFamily::Default
    }
}

impl AddressFamily {
    /// Whether the family carries IPv4.
    pub open spec fn v4(self) -> bool {
        !(self is Ipv6)
    }

    /// Whether the family carries IPv6.
    pub open spec fn v6(self) -> bool {
        !(self is Ipv4)
    }

    /// Whether the reflector handles IPv4.
    pub fn uses_ipv4(self) -> (r: bool)
        ensures
            r == self.v4(),
    {
        match self {
            AddressFamily::Default | AddressFamily::Dual | AddressFamily::Ipv4 => true,
            AddressFamily::Ipv6 => false,
        }
    }

    /// Whether the reflector handles IPv6.
    pub fn uses_ipv6(self) -> (r: bool)
        ensures
            r == self.v6(),
    {
        match self {
            AddressFamily::Default | AddressFamily::Dual | AddressFamily::Ipv6 => true,
            AddressFamily::Ipv4 => false,
        }
    }

    /// Whether an IPv4 source must be present at startup.
    pub fn requires_ipv4(self) -> (r: bool)
        ensures
            r == self.v4(),
    {
        match self {
            AddressFamily::Default | AddressFamily::Dual | AddressFamily::Ipv4 => true,
            AddressFamily::Ipv6 => false,
        }
    }

    /// Whether an IPv6 source must be present at startup: `Default` reflects IPv6 where it is
    /// available but starts without it.
    pub fn requires_ipv6(self) -> (r: bool)
        ensures
            r == (self is Dual || self is Ipv6),
    {
        match self {
            AddressFamily::Dual | AddressFamily::Ipv6 => true,
            AddressFamily::Default | AddressFamily::Ipv4 => false,
        }
    }
}

/// The text is no address family.
#[derive(Debug, Clone, Copy, PartialEq, Eq, Structural)]
pub struct ParseAddressFamilyError;

impl ParseAddressFamilyError {
    /// The error in words.
    pub fn message(&self) -> (text: &'static str)
        ensures
            text@ == "expected one of: default, dual, ipv4, ipv6"@,
    {
        "expected one of: default, dual, ipv4, ipv6"
    }
}

/// The address family that a text names, without regard to ASCII case.
pub open spec fn address_family_named(s: Seq<char>) -> Option<AddressFamily> {
    let name = text::lowered(s);
    if name == "default"@ {
        Some(AddressFamily::Default)
    } else if name == "dual"@ {
        Some(AddressFamily::Dual)
    } else if name == "ipv4"@ {
        Some(AddressFamily::Ipv4)
    } else if name == "ipv6"@ {
        Some(AddressFamily::Ipv6)
    } else {
        None
    }
}

impl AddressFamily {
    /// The address family that `s` names, without regard to ASCII case.
    pub fn parse(s: &str) -> (r: Result<Self, ParseAddressFamilyError>)
        ensures
            r == match address_family_named(s@) {
                Some(family) => Ok::<AddressFamily, ParseAddressFamilyError>(family),
                None => Err::<AddressFamily, ParseAddressFamilyError>(ParseAddressFamilyError),
            },
    {
        let name = text::to_ascii_lowercase(s);
        let name = name.as_str();
        if text::str_eq(name, "default") {
            Ok(AddressFamily::Default)
        } else if text::str_eq(name, "dual") {
            Ok(AddressFamily::Dual)
        } else if text::str_eq(name, "ipv4") {
            Ok(AddressFamily::Ipv4)
        } else if text::str_eq(name, "ipv6") {
            Ok(AddressFamily::Ipv6)
        } else {
            Err(ParseAddressFamilyError)
        }
    }
}

impl std::str::FromStr for AddressFamily {
    type Err = ParseAddressFamilyError;

    fn from_str(s: &str) -> (r: Result<Self, ParseAddressFamilyError>)
        ensures
            r == match address_family_named(s@) {
                Some(family) => Ok::<AddressFamily, ParseAddressFamilyError>(family),
                None => Err::<AddressFamily, ParseAddressFamilyError>(ParseAddressFamilyError),
            },
    {
        AddressFamily::parse(s)
    }
}

/// A non-empty network interface name.
#[derive(Debug, PartialEq, Eq)]
pub struct InterfaceName {
    name: String,
}

impl View for InterfaceName {
    type V = Seq<char>;

    closed spec fn view(&self) -> Seq<char> {
        self.name@
    }
}

/// The text is no interface name: it is empty.
#[derive(Debug, Clone, Copy, PartialEq, Eq, Structural)]
pub struct ParseInterfaceNameError;

impl ParseInterfaceNameError {
    /// The error in words.
    pub fn message(&self) -> (text: &'static str)
        ensures
            text@ == "interface name must not be empty"@,
    {
        "interface name must not be empty"
    }
}

impl InterfaceName {
    #[verifier::type_invariant]
    spec fn non_empty(self) -> bool {
        self.name@.len() > 0
    }

    /// The name.
    pub fn as_str(&self) -> (name: &str)
        ensures
            name@ == self@,
            name@.len() > 0,
    {
        proof {
            use_type_invariant(self);
        }
        self.name.as_str()
    }

    /// The interface named `s`; only an empty text is none.
    pub fn parse(s: &str) -> (r: Result<Self, ParseInterfaceNameError>)
        ensures
            match r {
                Ok(name) => name@ == s@ && s@.len() > 0,
                Err(_) => s@.len() == 0,
            },
    {
        let chars = text::chars_of(s);
        if chars.len() == 0 {
            Err(ParseInterfaceNameError)
        } else {
            Ok(InterfaceName { name: s.to_owned() })
        }
    }

    /// Whether two interfaces have the same name.
    pub fn same(&self, other: &Self) -> (r: bool)
        ensures
            r == (self@ == other@),
    {
        text::str_eq(self.name.as_str(), other.name.as_str())
    }
}

impl Clone for InterfaceName {
    fn clone(&self) -> (r: Self)
        ensures
            r@ == self@,
    {
        proof {
            use_type_invariant(self);
        }
        InterfaceName { name: self.name.as_str().to_owned() }
    }
}

impl std::str::FromStr for InterfaceName {
    type Err = ParseInterfaceNameError;

    fn from_str(s: &str) -> (r: Result<Self, ParseInterfaceNameError>)
        ensures
            match r {
                Ok(name) => name@ == s@ && s@.len() > 0,
                Err(_) => s@.len() == 0,
            },
    {
        InterfaceName::parse(s)
    }
}

/// A reflector's display name: surrounding white space trimmed, never empty.
#[derive(Debug, PartialEq, Eq)]
pub struct ReflectorName {
    name: String,
}

impl View for ReflectorName {
    type V = Seq<char>;

    closed spec fn view(&self) -> Seq<char> {
        self.name@
    }
}

/// The text is no reflector name: it is empty or white space.
#[derive(Debug, Clone, Copy, PartialEq, Eq, Structural)]
pub struct ParseReflectorNameError;

impl ParseReflectorNameError {
    /// The error in words.
    pub fn message(&self) -> (text: &'static str)
        ensures
            text@ == "reflector name must not be empty or whitespace-only"@,
    {
        "reflector name must not be empty or whitespace-only"
    }
}

impl ReflectorName {
    #[verifier::type_invariant]
    spec fn trimmed_and_not_empty(self) -> bool {
        self.name@.len() > 0 && text::trimmed(self.name@) == self.name@
    }

    /// The name.
    pub fn as_str(&self) -> (name: &str)
        ensures
            name@ == self@,
            name@.len() > 0,
            text::trimmed(name@) == name@,
    {
        proof {
            use_type_invariant(self);
        }
        self.name.as_str()
    }

    /// The name that `s` holds between its surrounding white space, if any is left.
    pub fn parse(s: &str) -> (r: Result<Self, ParseReflectorNameError>)
        ensures
            match r {
                Ok(name) => name@ == text::trimmed(s@) && text::trimmed(s@).len() > 0,
                Err(_) => text::trimmed(s@).len() == 0,
            },
    {
        let name = text::trim(s);
        proof {
            text::lemma_trimmed_stays(s@);
        }
        let chars = text::chars_of(name.as_str());
        if chars.len() == 0 {
            Err(ParseReflectorNameError)
        } else {
            Ok(ReflectorName { name })
        }
    }
}

impl Clone for ReflectorName {
    fn clone(&self) -> (r: Self)
        ensures
            r@ == self@,
    {
        proof {
            use_type_invariant(self);
        }
        ReflectorName { name: self.name.as_str().to_owned() }
    }
}

impl std::str::FromStr for ReflectorName {
    type Err = ParseReflectorNameError;

    fn from_str(s: &str) -> (r: Result<Self, ParseReflectorNameError>)
        ensures
            match r {
                Ok(name) => name@ == text::trimmed(s@) && text::trimmed(s@).len() > 0,
                Err(_) => text::trimmed(s@).len() == 0,
            },
    {
        ReflectorName::parse(s)
    }
}

/// A UDP port from 1 to 65535.
#[derive(Debug, Clone, Copy, PartialEq, Eq, Structural)]
pub struct Port {
    port: u16,
}

impl View for Port {
    type V = u16;

    closed spec fn view(&self) -> u16 {
        self.port
    }
}

impl Port {
    #[verifier::type_invariant]
    spec fn nonzero(self) -> bool {
        self.port != 0
    }

    /// The port of that number; 0 is none.
    pub fn new(port: u16) -> (r: Option<Self>)
        ensures
            match r {
                Some(p) => p@ == port && port != 0,
                None => port == 0,
            },
    {
        if port == 0 {
            None
        } else {
            Some(Port { port })
        }
    }

    /// The port's number.
    pub fn get(self) -> (port: u16)
        ensures
            port == self@,
            port != 0,
    {
        proof {
            use_type_invariant(&self);
        }
        self.port
    }
}

/// Why a list of ports is no [`WolPorts`].
#[derive(Debug, PartialEq, Eq)]
pub enum WolPortsError {
    /// The list is empty.
    Empty,
    /// The list holds a port twice.
    Duplicate(u16),
    /// A comma-separated token was no port from 1 to 65535.
    BadPort(String),
}

/// A [`WolPortsError`] with its text as a sequence.
#[verifier::ext_equal]
pub enum WolPortsFault {
    Empty,
    Duplicate(u16),
    BadPort(Seq<char>),
}

impl View for WolPortsError {
    type V = WolPortsFault;

    open spec fn view(&self) -> WolPortsFault {
        match self {
            WolPortsError::Empty => WolPortsFault::Empty,
            WolPortsError::Duplicate(port) => WolPortsFault::Duplicate(*port),
            WolPortsError::BadPort(token) => WolPortsFault::BadPort(token@),
        }
    }
}

/// A non-empty, duplicate-free list of Wake-on-LAN destination ports.
#[derive(Debug, PartialEq, Eq)]
pub struct WolPorts {
    ports: Vec<Port>,
}

/// The numbers of a list of ports.
pub open spec fn port_numbers(ports: Seq<Port>) -> Seq<u16> {
    ports.map_values(|p: Port| p@)
}

impl View for WolPorts {
    type V = Seq<u16>;

    closed spec fn view(&self) -> Seq<u16> {
        port_numbers(self.ports@)
    }
}

/// The first index at or after `from` whose port stands earlier in `s`.
pub open spec fn first_repeat(s: Seq<u16>, from: int) -> Option<int>
    decreases s.len() - from,
{
    if from < 0 || from >= s.len() {
        None
    } else if s.take(from).contains(s[from]) {
        Some(from)
    } else {
        first_repeat(s, from + 1)
    }
}

/// The list that ports make: the ports themselves, where there are any and none repeats an earlier
/// one.
pub open spec fn ports_of(ports: Seq<u16>) -> Result<Seq<u16>, WolPortsFault> {
    if ports.len() == 0 {
        Err(WolPortsFault::Empty)
    } else {
        match first_repeat(ports, 0) {
            Some(i) => Err(WolPortsFault::Duplicate(ports[i])),
            None => Ok(ports),
        }
    }
}

/// The port that a token writes: a number from 1 to 65535.
pub open spec fn port_named(token: Seq<char>) -> Option<u16> {
    match crate::bytes::unsigned_value(text::narrowed(token), 10, 65535) {
        Some(n) if n != 0 => Some(n as u16),
        _ => None,
    }
}

/// The first token that is no port.
pub open spec fn first_bad_port(tokens: Seq<Seq<char>>) -> Option<Seq<char>>
    decreases tokens.len(),
{
    if tokens.len() == 0 {
        None
    } else if port_named(tokens[0]) is None {
        Some(tokens[0])
    } else {
        first_bad_port(tokens.drop_first())
    }
}

/// The list that comma-separated text writes, white space around each token dropped.
pub open spec fn ports_text(s: Seq<char>) -> Result<Seq<u16>, WolPortsFault> {
    let tokens = crate::net::mac::tokens(s);
    match first_bad_port(tokens) {
        Some(token) => Err(WolPortsFault::BadPort(token)),
        None => ports_of(Seq::new(tokens.len(), |i: int| port_named(tokens[i])->0)),
    }
}

/// Ports of which none repeats an earlier one have no duplicates.
pub proof fn lemma_no_repeat(s: Seq<u16>, from: int)
    requires
        0 <= from <= s.len(),
        s.take(from).no_duplicates(),
        first_repeat(s, from) is None,
    ensures
        s.no_duplicates(),
    decreases s.len() - from,
{
    if from < s.len() {
        assert(s.take(from + 1).no_duplicates()) by {
            let t = s.take(from + 1);
            assert forall|i: int, j: int|
                0 <= i < from + 1 && 0 <= j < from + 1 && i != j implies #[trigger] t[i]
                != #[trigger] t[j] by {
                if i == from {
                    assert(s.take(from)[j] == s[j]);
                } else if j == from {
                    assert(s.take(from)[i] == s[i]);
                } else {
                    assert(s.take(from)[i] == s[i] && s.take(from)[j] == s[j]);
                }
            }
        }
        lemma_no_repeat(s, from + 1);
    } else {
        assert(s.take(from) =~= s);
    }
}

fn has_port(ports: &[Port], end: usize, port: Port) -> (r: bool)
    requires
        end <= ports@.len(),
    ensures
        r == port_numbers(ports@).take(end as int).contains(port@),
{
    let mut i: usize = 0;
    while i < end
        invariant
            i <= end,
            end <= ports@.len(),
            forall|j: int| 0 <= j < i ==> port_numbers(ports@)[j] != port@,
        decreases end - i,
    {
        assert(port_numbers(ports@)[i as int] == ports@[i as int]@);
        if ports[i].get() == port.get() {
            assert(port_numbers(ports@).take(end as int)[i as int] == port@);
            return true;
        }
        i += 1;
    }
    assert forall|j: int| 0 <= j < end implies port_numbers(ports@).take(end as int)[j] != port@ by {
        assert(port_numbers(ports@)[j] != port@);
    }
    false
}

impl WolPorts {
    #[verifier::type_invariant]
    spec fn non_empty_and_distinct(self) -> bool {
        port_numbers(self.ports@).len() > 0 && port_numbers(self.ports@).no_duplicates()
    }

    /// The ports, in the order they were given.
    pub fn as_slice(&self) -> (ports: &[Port])
        ensures
            port_numbers(ports@) == self@,
            ports@.len() > 0,
            self@.no_duplicates(),
    {
        proof {
            use_type_invariant(self);
        }
        self.ports.as_slice()
    }

    /// Whether `port` is one of them.
    pub fn contains(&self, port: Port) -> (r: bool)
        ensures
            r == self@.contains(port@),
    {
        let r = has_port(self.ports.as_slice(), self.ports.len(), port);
        assert(self@.take(self@.len() as int) =~= self@);
        r
    }

    /// The list of the given ports.
    ///
    /// # Errors
    /// [`WolPortsError::Empty`] for no port, [`WolPortsError::Duplicate`] for the first that stands
    /// earlier in the list.
    pub fn try_from(ports: Vec<Port>) -> (r: Result<WolPorts, WolPortsError>)
        ensures
            match r {
                Ok(list) => ports_of(port_numbers(ports@)) == Ok::<Seq<u16>, WolPortsFault>(list@)
                    && list@.no_duplicates(),
                Err(e) => ports_of(port_numbers(ports@)) == Err::<Seq<u16>, WolPortsFault>(e@),
            },
    {
        if ports.len() == 0 {
            return Err(WolPortsError::Empty);
        }
        let ghost numbers = port_numbers(ports@);
        let n: usize = ports.len();
        let mut i: usize = 0;
        while i < n
            invariant
                n == ports@.len(),
                n > 0,
                i <= n,
                numbers == port_numbers(ports@),
                first_repeat(numbers, 0) == first_repeat(numbers, i as int),
            decreases n - i,
        {
            assert(numbers[i as int] == ports@[i as int]@);
            if has_port(ports.as_slice(), i, ports[i]) {
                return Err(WolPortsError::Duplicate(ports[i].get()));
            }
            i += 1;
        }
        proof {
            lemma_no_repeat(numbers, 0);
        }
        Ok(WolPorts { ports })
    }

    /// The list of the comma-separated ports in `s`, white space around each dropped.
    ///
    /// # Errors
    /// [`WolPortsError::BadPort`] with the first token that is no port, else
    /// [`WolPortsError::Duplicate`] for the first that stands earlier.
    pub fn parse(s: &str) -> (r: Result<WolPorts, WolPortsError>)
        ensures
            match r {
                Ok(list) => ports_text(s@) == Ok::<Seq<u16>, WolPortsFault>(list@)
                    && list@.no_duplicates(),
                Err(e) => ports_text(s@) == Err::<Seq<u16>, WolPortsFault>(e@),
            },
    {
        let parts = text::split(s, ',');
        let ghost all = crate::net::mac::tokens(s@);
        let mut ports: Vec<Port> = Vec::new();
        assert(all.skip(0) =~= all);
        for i in 0..parts.len()
            invariant
                text::views(parts@) == text::split_on(s@, ','),
                all == crate::net::mac::tokens(s@),
                all.len() == parts@.len(),
                ports@.len() == i,
                forall|j: int| 0 <= j < i ==> port_named(#[trigger] all[j]) == Some(ports@[j]@),
                first_bad_port(all) == first_bad_port(all.skip(i as int)),
        {
            proof {
                assert(text::views(parts@)[i as int] == parts@[i as int]@);
                assert(all.skip(i as int)[0] == all[i as int]);
                assert(all.skip(i as int).drop_first() =~= all.skip(i + 1));
            }
            let token = text::trim(parts[i].as_str());
            let bytes = text::narrow_bytes(token.as_str());
            let port: Option<Port> = match crate::bytes::parse_unsigned(bytes.as_slice(), 10, 65535) {
                Some(n) => Port::new(n as u16),
                None => None,
            };
            match port {
                Some(port) => {
                    ports.push(port);
                },
                None => {
                    return Err(WolPortsError::BadPort(token));
                },
            }
        }
        proof {
            assert(all.skip(all.len() as int) =~= Seq::<Seq<char>>::empty());
            assert(Seq::new(all.len(), |i: int| port_named(all[i])->0) =~= port_numbers(ports@));
        }
        WolPorts::try_from(ports)
    }
}

impl Default for WolPorts {
    /// Ports 7 and 9.
    fn default() -> (list: Self)
        ensures
            list@ == seq![7u16, 9],
    {
        let ports = vec![Port { port: 7 }, Port { port: 9 }];
        assert(port_numbers(ports@) =~= seq![7u16, 9]);
        WolPorts { ports }
    }
}

impl Clone for WolPorts {
    fn clone(&self) -> (r: WolPorts)
        ensures
            r@ == self@,
    {
        proof {
            use_type_invariant(self);
        }
        WolPorts { ports: vstd::slice::slice_to_vec(self.ports.as_slice()) }
    }
}

impl std::str::FromStr for WolPorts {
    type Err = WolPortsError;

    fn from_str(s: &str) -> (r: Result<WolPorts, WolPortsError>)
        ensures
            match r {
                Ok(list) => ports_text(s@) == Ok::<Seq<u16>, WolPortsFault>(list@)
                    && list@.no_duplicates(),
                Err(e) => ports_text(s@) == Err::<Seq<u16>, WolPortsFault>(e@),
            },
    {
        WolPorts::parse(s)
    }
}

} // verus!
