//! From the fields of a configuration document to the raw configuration: which fields a table may
//! have, which it must have, and of which kind their values are.

use crate::config::document::{DocKind, DocValue, Field};
use crate::config::env::PartialReflector;
use crate::config::error::{DocumentError, Expected, ParseValueError, RequiredField};
use crate::config::raw::{RawConfig, RawReflector};
use crate::config::table::Table;
use crate::config::value::{AddressFamily, InterfaceName, LogLevel, Port, WolPorts};
use crate::net::mac::{MacAddr, MacSet};
use crate::text;
#[allow(unused_imports)]
use crate::config::document::{Node, NodeKind};
#[allow(unused_imports)]
use crate::config::env::PartialView;
#[allow(unused_imports)]
use crate::config::error::{ConfigFault, DocumentFault, ValueFault};
#[allow(unused_imports)]
use crate::config::raw::{RawConfigView, RawReflectorView};
use vstd::prelude::*;

verus! {

/// The error of a field whose value is of the wrong kind.
pub open spec fn wrong_type(field: Seq<char>, expected: Expected, node: Node) -> DocumentFault {
    DocumentFault::WrongType { field, expected, at: node.place.value }
}

/// The error of a field whose value does not parse.
pub open spec fn bad_field(
    field: Seq<char>,
    source: ValueFault,
    node: Node,
) -> DocumentFault {
    DocumentFault::BadValue { field, source, at: node.place.value }
}

/// The text that a field holds.
pub open spec fn text_of(
    field: Seq<char>,
    node: Node,
) -> Result<Seq<char>, DocumentFault> {
    match node.kind {
        NodeKind::Text(s) => Ok(s),
        _ => Err(wrong_type(field, Expected::Text, node)),
    }
}

/// The boolean that a field holds.
pub open spec fn bool_of(
    field: Seq<char>,
    node: Node,
) -> Result<bool, DocumentFault> {
    match node.kind {
        NodeKind::Boolean(b) => Ok(b),
        _ => Err(wrong_type(field, Expected::Boolean, node)),
    }
}

/// The interface that a field names.
pub open spec fn interface_of(
    field: Seq<char>,
    node: Node,
) -> Result<Seq<char>, DocumentFault> {
    match text_of(field, node) {
        Ok(s) => if s.len() > 0 {
            Ok(s)
        } else {
            Err(bad_field(field, ValueFault::Interface, node))
        },
        Err(e) => Err(e),
    }
}

/// The log level that a field names.
pub open spec fn log_level_of(
    field: Seq<char>,
    node: Node,
) -> Result<LogLevel, DocumentFault> {
    match text_of(field, node) {
        Ok(s) => match crate::config::value::log_level_named(s) {
            Some(level) => Ok(level),
            None => Err(bad_field(field, ValueFault::LogLevel, node)),
        },
        Err(e) => Err(e),
    }
}

/// The address family that a field names.
pub open spec fn family_of(
    field: Seq<char>,
    node: Node,
) -> Result<AddressFamily, DocumentFault> {
    match text_of(field, node) {
        Ok(s) => match crate::config::value::address_family_named(s) {
            Some(family) => Ok(family),
            None => Err(bad_field(field, ValueFault::AddressFamily, node)),
        },
        Err(e) => Err(e),
    }
}

/// The addresses that a list of texts names, or the error of the first item that is none.
pub open spec fn mac_items(
    field: Seq<char>,
    items: Seq<Node>,
) -> Result<Seq<MacAddr>, DocumentFault>
    decreases items.len(),
{
    if items.len() == 0 {
        Ok(Seq::empty())
    } else {
        match mac_items(field, items.drop_last()) {
            Err(e) => Err(e),
            Ok(before) => match text_of(field, items.last()) {
                Err(e) => Err(e),
                Ok(s) => match crate::net::mac::mac_value(s) {
                    Some(mac) => Ok(before.push(mac)),
                    None => Err(bad_field(field, ValueFault::Mac, items.last())),
                },
            },
        }
    }
}

/// The set of addresses that a field lists.
pub open spec fn macs_of(
    field: Seq<char>,
    node: Node,
) -> Result<Seq<MacAddr>, DocumentFault> {
    match node.kind {
        NodeKind::List(items) => match mac_items(field, items) {
            Err(e) => Err(e),
            Ok(macs) => match crate::net::mac::set_of(macs) {
                Ok(set) => Ok(set),
                Err(e) => Err(bad_field(field, ValueFault::Macs(e), node)),
            },
        },
        _ => Err(wrong_type(field, Expected::List, node)),
    }
}

/// The port that an integer from 1 to 65535 names.
pub open spec fn port_at(node: Node) -> Option<u16> {
    match node.kind {
        NodeKind::Integer { digits, radix } => port_number(digits, radix),
        _ => None,
    }
}

/// The number from 1 to 65535 that digits write in a radix.
pub open spec fn port_number(digits: Seq<char>, radix: u32) -> Option<u16> {
    if radix == 2 || radix == 8 || radix == 10 || radix == 16 {
        match crate::bytes::unsigned_value(text::narrowed(digits), radix as int, 65535) {
            Some(n) if n != 0 => Some(n as u16),
            _ => None,
        }
    } else {
        None
    }
}

/// The ports that a list of numbers names, or the error of the first item that is none.
pub open spec fn port_items(
    field: Seq<char>,
    items: Seq<Node>,
) -> Result<Seq<u16>, DocumentFault>
    decreases items.len(),
{
    if items.len() == 0 {
        Ok(Seq::empty())
    } else {
        match port_items(field, items.drop_last()) {
            Err(e) => Err(e),
            Ok(before) => match port_at(items.last()) {
                Some(port) => Ok(before.push(port)),
                None => Err(wrong_type(field, Expected::Port, items.last())),
            },
        }
    }
}

/// The ports that a field lists.
pub open spec fn ports_of(
    field: Seq<char>,
    node: Node,
) -> Result<Seq<u16>, DocumentFault> {
    match node.kind {
        NodeKind::List(items) => match port_items(field, items) {
            Err(e) => Err(e),
            Ok(ports) => match crate::config::value::ports_of(ports) {
                Ok(list) => Ok(list),
                Err(e) => Err(bad_field(field, ValueFault::WolPorts(e), node)),
            },
        },
        _ => Err(wrong_type(field, Expected::List, node)),
    }
}

/// A reflector's fields after one more of its table was read.
pub open spec fn with_field(
    p: PartialView,
    key: Seq<char>,
    node: Node,
) -> Result<PartialView, DocumentFault> {
    if key == "source_if"@ {
        match interface_of(key, node) {
            Ok(name) => Ok(PartialView { source_if: Some(name), ..p }),
            Err(e) => Err(e),
        }
    } else if key == "target_if"@ {
        match interface_of(key, node) {
            Ok(name) => Ok(PartialView { target_if: Some(name), ..p }),
            Err(e) => Err(e),
        }
    } else if key == "macs"@ {
        match macs_of(key, node) {
            Ok(macs) => Ok(PartialView { macs: Some(macs), ..p }),
            Err(e) => Err(e),
        }
    } else if key == "wol"@ {
        match bool_of(key, node) {
            Ok(b) => Ok(PartialView { wol: Some(b), ..p }),
            Err(e) => Err(e),
        }
    } else if key == "mdns"@ {
        match bool_of(key, node) {
            Ok(b) => Ok(PartialView { mdns: Some(b), ..p }),
            Err(e) => Err(e),
        }
    } else if key == "ssdp"@ {
        match bool_of(key, node) {
            Ok(b) => Ok(PartialView { ssdp: Some(b), ..p }),
            Err(e) => Err(e),
        }
    } else if key == "dial"@ {
        match bool_of(key, node) {
            Ok(b) => Ok(PartialView { dial: Some(b), ..p }),
            Err(e) => Err(e),
        }
    } else if key == "wol_ports"@ {
        match ports_of(key, node) {
            Ok(ports) => Ok(PartialView { wol_ports: Some(ports), ..p }),
            Err(e) => Err(e),
        }
    } else if key == "address_family"@ {
        match family_of(key, node) {
            Ok(family) => Ok(
                PartialView { address_family: Some(family), ..p },
            ),
            Err(e) => Err(e),
        }
    } else {
        Err(DocumentFault::UnknownField { field: key, at: node.place.key })
    }
}

/// A reflector's fields after the fields of its table were read, or the error of the first that is
/// invalid.
pub open spec fn read_fields(list: Seq<(Seq<char>, Node)>) -> Result<
    PartialView,
    DocumentFault,
>
    decreases list.len(),
{
    if list.len() == 0 {
        Ok(crate::config::env::no_fields())
    } else {
        match read_fields(list.drop_last()) {
            Err(e) => Err(e),
            Ok(p) => with_field(p, list.last().0, list.last().1),
        }
    }
}

/// The raw reflector that the fields of its table, which stands at `at`, make; both interfaces are
/// required.
pub open spec fn reflector_of(list: Seq<(Seq<char>, Node)>, at: usize) -> Result<
    RawReflectorView,
    DocumentFault,
> {
    match read_fields(list) {
        Err(e) => Err(e),
        Ok(p) => match (p.source_if, p.target_if) {
            (None, _) => Err(
                DocumentFault::MissingField { field: RequiredField::SourceIf, at },
            ),
            (_, None) => Err(
                DocumentFault::MissingField { field: RequiredField::TargetIf, at },
            ),
            _ => Ok(crate::config::env::finished(p, Seq::empty())->Ok_0),
        },
    }
}

fn wrong(field: &str, expected: Expected, value: &DocValue) -> (e: DocumentError)
    ensures
        e@ == wrong_type(field@, expected, crate::config::document::node(*value)),
{
    DocumentError::WrongType { field: field.to_owned(), expected, at: value.place.value }
}

fn bad(field: &str, source: ParseValueError, value: &DocValue) -> (e: DocumentError)
    ensures
        e@ == bad_field(field@, source@, crate::config::document::node(*value)),
{
    DocumentError::BadValue { field: field.to_owned(), source, at: value.place.value }
}

fn as_text<'a>(field: &str, value: &'a DocValue) -> (r: Result<&'a str, DocumentError>)
    ensures
        match r {
            Ok(s) => text_of(field@, crate::config::document::node(*value))
                == Ok::<Seq<char>, DocumentFault>(s@),
            Err(e) => text_of(field@, crate::config::document::node(*value))
                == Err::<Seq<char>, DocumentFault>(e@),
        },
{
    match &value.kind {
        DocKind::Text(s) => Ok(s.as_str()),
        _ => Err(wrong(field, Expected::Text, value)),
    }
}

fn as_bool(field: &str, value: &DocValue) -> (r: Result<bool, DocumentError>)
    ensures
        match r {
            Ok(b) => bool_of(field@, crate::config::document::node(*value))
                == Ok::<bool, DocumentFault>(b),
            Err(e) => bool_of(field@, crate::config::document::node(*value))
                == Err::<bool, DocumentFault>(e@),
        },
{
    match &value.kind {
        DocKind::Boolean(b) => Ok(*b),
        _ => Err(wrong(field, Expected::Boolean, value)),
    }
}

fn as_interface(field: &str, value: &DocValue) -> (r: Result<InterfaceName, DocumentError>)
    ensures
        match r {
            Ok(name) => interface_of(field@, crate::config::document::node(*value))
                == Ok::<Seq<char>, DocumentFault>(name@),
            Err(e) => interface_of(field@, crate::config::document::node(*value))
                == Err::<Seq<char>, DocumentFault>(e@),
        },
{
    match as_text(field, value) {
        Ok(s) => match InterfaceName::parse(s) {
            Ok(name) => Ok(name),
            Err(e) => Err(bad(field, ParseValueError::Interface(e), value)),
        },
        Err(e) => Err(e),
    }
}

fn as_log_level(field: &str, value: &DocValue) -> (r: Result<LogLevel, DocumentError>)
    ensures
        match r {
            Ok(level) => log_level_of(field@, crate::config::document::node(*value))
                == Ok::<LogLevel, DocumentFault>(level),
            Err(e) => log_level_of(field@, crate::config::document::node(*value))
                == Err::<LogLevel, DocumentFault>(e@),
        },
{
    match as_text(field, value) {
        Ok(s) => match LogLevel::parse(s) {
            Ok(level) => Ok(level),
            Err(e) => Err(bad(field, ParseValueError::LogLevel(e), value)),
        },
        Err(e) => Err(e),
    }
}

fn as_family(field: &str, value: &DocValue) -> (r: Result<AddressFamily, DocumentError>)
    ensures
        match r {
            Ok(family) => family_of(field@, crate::config::document::node(*value))
                == Ok::<AddressFamily, DocumentFault>(family),
            Err(e) => family_of(field@, crate::config::document::node(*value))
                == Err::<AddressFamily, DocumentFault>(e@),
        },
{
    match as_text(field, value) {
        Ok(s) => match AddressFamily::parse(s) {
            Ok(family) => Ok(family),
            Err(e) => Err(bad(field, ParseValueError::AddressFamily(e), value)),
        },
        Err(e) => Err(e),
    }
}

fn as_macs(field: &str, value: &DocValue) -> (r: Result<MacSet, DocumentError>)
    ensures
        match r {
            Ok(macs) => macs_of(field@, crate::config::document::node(*value))
                == Ok::<Seq<MacAddr>, DocumentFault>(macs@),
            Err(e) => macs_of(field@, crate::config::document::node(*value))
                == Err::<Seq<MacAddr>, DocumentFault>(e@),
        },
{
    let items = match &value.kind {
        DocKind::List(items) => items,
        _ => {
            return Err(wrong(field, Expected::List, value));
        },
    };
    let ghost all = crate::config::document::nodes(items@);
    let mut macs: Vec<MacAddr> = Vec::new();
    let n: usize = items.len();
    let mut i: usize = 0;
    assert(all.take(0) =~= Seq::<Node>::empty());
    assert(macs@ =~= Seq::<MacAddr>::empty());
    while i < n
        invariant
            n == items@.len(),
            i <= n,
            all == crate::config::document::nodes(items@),
            crate::config::document::node(*value).kind == NodeKind::List(all),
            mac_items(field@, all.take(i as int)) == Ok::<Seq<MacAddr>, DocumentFault>(macs@),
        decreases n - i,
    {
        proof {
            assert(all.take(i + 1).drop_last() =~= all.take(i as int));
            assert(all.take(i + 1).last() == all[i as int]);
            assert(all[i as int] == crate::config::document::node(items@[i as int]));
        }
        match as_text(field, &items[i]) {
            Err(e) => {
                proof {
                    lemma_mac_items_error(field@, all, i + 1);
                }
                return Err(e);
            },
            Ok(s) => match MacAddr::parse(s) {
                Ok(mac) => {
                    macs.push(mac);
                },
                Err(e) => {
                    proof {
                        lemma_mac_items_error(field@, all, i + 1);
                    }
                    return Err(bad(field, ParseValueError::Mac(e), &items[i]));
                },
            },
        }
        i += 1;
    }
    assert(all.take(n as int) =~= all);
    match MacSet::from_macs(macs) {
        Ok(set) => Ok(set),
        Err(e) => Err(bad(field, ParseValueError::Macs(e), value)),
    }
}

proof fn lemma_mac_items_error(
    field: Seq<char>,
    items: Seq<Node>,
    n: int,
)
    requires
        0 <= n <= items.len(),
        mac_items(field, items.take(n)) is Err,
    ensures
        mac_items(field, items) == mac_items(field, items.take(n)),
    decreases items.len() - n,
{
    if n < items.len() {
        assert(items.take(n + 1).drop_last() =~= items.take(n));
        lemma_mac_items_error(field, items, n + 1);
    } else {
        assert(items.take(n) =~= items);
    }
}

fn read_port(digits: &str, radix: u32) -> (port: Option<Port>)
    ensures
        match port {
            Some(port) => port_number(digits@, radix) == Some(port@),
            None => port_number(digits@, radix) is None,
        },
{
    let radix: u8 = if radix == 2 {
        2
    } else if radix == 8 {
        8
    } else if radix == 10 {
        10
    } else if radix == 16 {
        16
    } else {
        return None;
    };
    let bytes = text::narrow_bytes(digits);
    match crate::bytes::parse_unsigned(bytes.as_slice(), radix, 65535) {
        Some(n) => Port::new(n as u16),
        None => None,
    }
}

fn as_ports(field: &str, value: &DocValue) -> (r: Result<WolPorts, DocumentError>)
    ensures
        match r {
            Ok(ports) => ports_of(field@, crate::config::document::node(*value))
                == Ok::<Seq<u16>, DocumentFault>(ports@),
            Err(e) => ports_of(field@, crate::config::document::node(*value))
                == Err::<Seq<u16>, DocumentFault>(e@),
        },
{
    let items = match &value.kind {
        DocKind::List(items) => items,
        _ => {
            return Err(wrong(field, Expected::List, value));
        },
    };
    let ghost all = crate::config::document::nodes(items@);
    let mut ports: Vec<Port> = Vec::new();
    let n: usize = items.len();
    let mut i: usize = 0;
    assert(all.take(0) =~= Seq::<Node>::empty());
    assert(crate::config::value::port_numbers(ports@) =~= Seq::<u16>::empty());
    while i < n
        invariant
            n == items@.len(),
            i <= n,
            all == crate::config::document::nodes(items@),
            crate::config::document::node(*value).kind == NodeKind::List(all),
            port_items(field@, all.take(i as int))
                == Ok::<Seq<u16>, DocumentFault>(crate::config::value::port_numbers(ports@)),
        decreases n - i,
    {
        proof {
            assert(all.take(i + 1).drop_last() =~= all.take(i as int));
            assert(all.take(i + 1).last() == all[i as int]);
            assert(all[i as int] == crate::config::document::node(items@[i as int]));
        }
        let port: Option<Port> = match &items[i].kind {
            DocKind::Integer { digits, radix } => read_port(digits.as_str(), *radix),
            _ => None,
        };
        match port {
            Some(port) => {
                let ghost before = ports@;
                ports.push(port);
                assert(crate::config::value::port_numbers(ports@)
                    =~= crate::config::value::port_numbers(before).push(port@));
            },
            None => {
                proof {
                    lemma_port_items_error(field@, all, i + 1);
                }
                return Err(wrong(field, Expected::Port, &items[i]));
            },
        }
        i += 1;
    }
    assert(all.take(n as int) =~= all);
    match WolPorts::try_from(ports) {
        Ok(list) => Ok(list),
        Err(e) => Err(bad(field, ParseValueError::WolPorts(e), value)),
    }
}

proof fn lemma_port_items_error(
    field: Seq<char>,
    items: Seq<Node>,
    n: int,
)
    requires
        0 <= n <= items.len(),
        port_items(field, items.take(n)) is Err,
    ensures
        port_items(field, items) == port_items(field, items.take(n)),
    decreases items.len() - n,
{
    if n < items.len() {
        assert(items.take(n + 1).drop_last() =~= items.take(n));
        lemma_port_items_error(field, items, n + 1);
    } else {
        assert(items.take(n) =~= items);
    }
}

fn read_field(p: &mut PartialReflector, key: &str, value: &DocValue) -> (r: Result<
    (),
    DocumentError,
>)
    ensures
        match r {
            Ok(_) => with_field(old(p)@, key@, crate::config::document::node(*value))
                == Ok::<PartialView, DocumentFault>(final(p)@),
            Err(e) => with_field(old(p)@, key@, crate::config::document::node(*value))
                == Err::<PartialView, DocumentFault>(e@),
        },
{
    if text::str_eq(key, "source_if") {
        match as_interface(key, value) {
            Ok(name) => {
                p.source_if = Some(name);
                Ok(())
            },
            Err(e) => Err(e),
        }
    } else if text::str_eq(key, "target_if") {
        match as_interface(key, value) {
            Ok(name) => {
                p.target_if = Some(name);
                Ok(())
            },
            Err(e) => Err(e),
        }
    } else if text::str_eq(key, "macs") {
        match as_macs(key, value) {
            Ok(macs) => {
                p.macs = Some(macs);
                Ok(())
            },
            Err(e) => Err(e),
        }
    } else if text::str_eq(key, "wol") {
        match as_bool(key, value) {
            Ok(b) => {
                p.wol = Some(b);
                Ok(())
            },
            Err(e) => Err(e),
        }
    } else if text::str_eq(key, "mdns") {
        match as_bool(key, value) {
            Ok(b) => {
                p.mdns = Some(b);
                Ok(())
            },
            Err(e) => Err(e),
        }
    } else if text::str_eq(key, "ssdp") {
        match as_bool(key, value) {
            Ok(b) => {
                p.ssdp = Some(b);
                Ok(())
            },
            Err(e) => Err(e),
        }
    } else if text::str_eq(key, "dial") {
        match as_bool(key, value) {
            Ok(b) => {
                p.dial = Some(b);
                Ok(())
            },
            Err(e) => Err(e),
        }
    } else if text::str_eq(key, "wol_ports") {
        match as_ports(key, value) {
            Ok(ports) => {
                p.wol_ports = Some(ports);
                Ok(())
            },
            Err(e) => Err(e),
        }
    } else if text::str_eq(key, "address_family") {
        match as_family(key, value) {
            Ok(family) => {
                p.address_family = Some(family);
                Ok(())
            },
            Err(e) => Err(e),
        }
    } else {
        Err(DocumentError::UnknownField { field: key.to_owned(), at: value.place.key })
    }
}

/// A reflector's fields in the order in which a list gives them.
pub open spec fn positions() -> Seq<Seq<char>> {
    seq![
        "source_if"@,
        "target_if"@,
        "macs"@,
        "wol"@,
        "mdns"@,
        "ssdp"@,
        "dial"@,
        "wol_ports"@,
        "address_family"@,
    ]
}

/// The fields that a list gives by position; items beyond the last field mean nothing.
pub open spec fn positional(items: Seq<Node>) -> Seq<
    (Seq<char>, Node),
> {
    Seq::new(
        if items.len() < 9 {
            items.len()
        } else {
            9
        },
        |i: int| (positions()[i], items[i]),
    )
}

/// The raw reflector that a value gives: a table by field name, or a list by position that has
/// every field but perhaps the last.
pub open spec fn reflector_value(key: Seq<char>, value: Node) -> Result<
    RawReflectorView,
    DocumentFault,
> {
    match value.kind {
        NodeKind::Table(list) => reflector_of(list, value.place.value),
        NodeKind::List(items) => if items.len() >= 8 {
            reflector_of(positional(items), value.place.value)
        } else {
            Err(wrong_type(key, Expected::Table, value))
        },
        _ => Err(wrong_type(key, Expected::Table, value)),
    }
}

fn position(i: usize) -> (name: &'static str)
    requires
        i < 9,
    ensures
        name@ == positions()[i as int],
{
    if i == 0 {
        "source_if"
    } else if i == 1 {
        "target_if"
    } else if i == 2 {
        "macs"
    } else if i == 3 {
        "wol"
    } else if i == 4 {
        "mdns"
    } else if i == 5 {
        "ssdp"
    } else if i == 6 {
        "dial"
    } else if i == 7 {
        "wol_ports"
    } else {
        "address_family"
    }
}

proof fn lemma_field_error(list: Seq<(Seq<char>, Node)>, n: int)
    requires
        0 <= n <= list.len(),
        read_fields(list.take(n)) is Err,
    ensures
        read_fields(list) == read_fields(list.take(n)),
    decreases list.len() - n,
{
    if n < list.len() {
        assert(list.take(n + 1).drop_last() =~= list.take(n));
        lemma_field_error(list, n + 1);
    } else {
        assert(list.take(n) =~= list);
    }
}

fn read_table(list: &[Field]) -> (r: Result<PartialReflector, DocumentError>)
    ensures
        match r {
            Ok(p) => read_fields(crate::config::document::fields(list@))
                == Ok::<PartialView, DocumentFault>(p@),
            Err(e) => read_fields(crate::config::document::fields(list@))
                == Err::<PartialView, DocumentFault>(e@),
        },
{
    let ghost all = crate::config::document::fields(list@);
    let mut p = PartialReflector::new();
    let n: usize = list.len();
    let mut i: usize = 0;
    assert(all.take(0) =~= Seq::<(Seq<char>, Node)>::empty());
    while i < n
        invariant
            n == list@.len(),
            i <= n,
            all == crate::config::document::fields(list@),
            read_fields(all.take(i as int)) == Ok::<PartialView, DocumentFault>(p@),
        decreases n - i,
    {
        proof {
            assert(all.take(i + 1).drop_last() =~= all.take(i as int));
            assert(all.take(i + 1).last() == all[i as int]);
        }
        match read_field(&mut p, list[i].key.as_str(), &list[i].value) {
            Ok(_) => {},
            Err(e) => {
                proof {
                    lemma_field_error(all, i + 1);
                }
                return Err(e);
            },
        }
        i += 1;
    }
    assert(all.take(n as int) =~= all);
    Ok(p)
}

fn read_list(items: &[DocValue]) -> (r: Result<PartialReflector, DocumentError>)
    ensures
        match r {
            Ok(p) => read_fields(positional(crate::config::document::nodes(items@)))
                == Ok::<PartialView, DocumentFault>(p@),
            Err(e) => read_fields(positional(crate::config::document::nodes(items@)))
                == Err::<PartialView, DocumentFault>(e@),
        },
{
    let ghost all = positional(crate::config::document::nodes(items@));
    let mut p = PartialReflector::new();
    let n: usize = if items.len() < 9 {
        items.len()
    } else {
        9
    };
    let mut i: usize = 0;
    assert(all.take(0) =~= Seq::<(Seq<char>, Node)>::empty());
    while i < n
        invariant
            n == all.len(),
            n <= 9,
            n <= items@.len(),
            i <= n,
            all == positional(crate::config::document::nodes(items@)),
            read_fields(all.take(i as int)) == Ok::<PartialView, DocumentFault>(p@),
        decreases n - i,
    {
        proof {
            assert(all.take(i + 1).drop_last() =~= all.take(i as int));
            assert(all.take(i + 1).last() == all[i as int]);
            assert(crate::config::document::nodes(items@)[i as int]
                == crate::config::document::node(items@[i as int]));
        }
        match read_field(&mut p, position(i), &items[i]) {
            Ok(_) => {},
            Err(e) => {
                proof {
                    lemma_field_error(all, i + 1);
                }
                return Err(e);
            },
        }
        i += 1;
    }
    assert(all.take(n as int) =~= all);
    Ok(p)
}

fn complete(p: PartialReflector, at: usize) -> (r: Result<RawReflector, DocumentError>)
    ensures
        match r {
            Ok(raw) => crate::config::env::finished(p@, Seq::empty())
                == Ok::<RawReflectorView, ConfigFault>(raw@),
            Err(DocumentError::MissingField { field, at: place }) => {
                &&& place == at
                &&& field is SourceIf <==> p@.source_if is None
                &&& p@.source_if is None || p@.target_if is None
            },
            Err(_) => false,
        },
{
    if p.source_if.is_none() {
        return Err(DocumentError::MissingField { field: RequiredField::SourceIf, at });
    }
    match p.into_raw("") {
        Ok(raw) => Ok(raw),
        Err(_) => Err(DocumentError::MissingField { field: RequiredField::TargetIf, at }),
    }
}

/// Reads a reflector out of the value under `key`.
pub fn read_reflector(key: &str, value: &DocValue) -> (r: Result<RawReflector, DocumentError>)
    ensures
        match r {
            Ok(raw) => reflector_value(key@, crate::config::document::node(*value))
                == Ok::<RawReflectorView, DocumentFault>(raw@),
            Err(e) => reflector_value(key@, crate::config::document::node(*value))
                == Err::<RawReflectorView, DocumentFault>(e@),
        },
{
    let read = match &value.kind {
        DocKind::Table(list) => read_table(list.as_slice()),
        DocKind::List(items) => if items.len() >= 8 {
            read_list(items.as_slice())
        } else {
            Err(wrong(key, Expected::Table, value))
        },
        _ => Err(wrong(key, Expected::Table, value)),
    };
    match read {
        Ok(p) => complete(p, value.place.value),
        Err(e) => Err(e),
    }
}

/// The reflectors of a table of them, in order of their keys, or the error of the first that is
/// invalid.
pub open spec fn read_reflectors(list: Seq<(Seq<char>, Node)>) -> Result<
    Seq<(Seq<char>, RawReflectorView)>,
    DocumentFault,
>
    decreases list.len(),
{
    if list.len() == 0 {
        Ok(Seq::empty())
    } else {
        match read_reflectors(list.drop_last()) {
            Err(e) => Err(e),
            Ok(before) => match reflector_value(list.last().0, list.last().1) {
                Err(e) => Err(e),
                Ok(raw) => Ok(crate::config::table::put(before, list.last().0, raw)),
            },
        }
    }
}

/// The configuration after one more field of the top-level table was read.
pub open spec fn with_top(
    raw: RawConfigView,
    key: Seq<char>,
    value: Node,
) -> Result<RawConfigView, DocumentFault> {
    if key == "log_level"@ {
        match log_level_of(key, value) {
            Ok(level) => Ok(RawConfigView { log_level: Some(level), ..raw }),
            Err(e) => Err(e),
        }
    } else if key == "debug_memory"@ {
        match bool_of(key, value) {
            Ok(b) => Ok(RawConfigView { debug_memory: Some(b), ..raw }),
            Err(e) => Err(e),
        }
    } else if key == "reflectors"@ {
        match value.kind {
            NodeKind::Table(list) => match read_reflectors(list) {
                Ok(reflectors) => Ok(RawConfigView { reflectors, ..raw }),
                Err(e) => Err(e),
            },
            _ => Err(wrong_type(key, Expected::Table, value)),
        }
    } else {
        Err(DocumentFault::UnknownField { field: key, at: value.place.key })
    }
}

/// The raw configuration that the fields of a document make, or the error of the first that is
/// invalid.
pub open spec fn decoded(list: Seq<(Seq<char>, Node)>) -> Result<
    RawConfigView,
    DocumentFault,
>
    decreases list.len(),
{
    if list.len() == 0 {
        Ok(crate::config::raw::empty_raw())
    } else {
        match decoded(list.drop_last()) {
            Err(e) => Err(e),
            Ok(raw) => with_top(raw, list.last().0, list.last().1),
        }
    }
}

/// The log level that the fields of a document set; no other field is looked at.
pub open spec fn probed(list: Seq<(Seq<char>, Node)>) -> Result<
    Option<LogLevel>,
    DocumentFault,
>
    decreases list.len(),
{
    if list.len() == 0 {
        Ok(None)
    } else if list[0].0 == "log_level"@ {
        match log_level_of(list[0].0, list[0].1) {
            Ok(level) => Ok(Some(level)),
            Err(e) => Err(e),
        }
    } else {
        probed(list.drop_first())
    }
}

proof fn lemma_reflector_error(list: Seq<(Seq<char>, Node)>, n: int)
    requires
        0 <= n <= list.len(),
        read_reflectors(list.take(n)) is Err,
    ensures
        read_reflectors(list) == read_reflectors(list.take(n)),
    decreases list.len() - n,
{
    if n < list.len() {
        assert(list.take(n + 1).drop_last() =~= list.take(n));
        lemma_reflector_error(list, n + 1);
    } else {
        assert(list.take(n) =~= list);
    }
}

proof fn lemma_top_error(list: Seq<(Seq<char>, Node)>, n: int)
    requires
        0 <= n <= list.len(),
        decoded(list.take(n)) is Err,
    ensures
        decoded(list) == decoded(list.take(n)),
    decreases list.len() - n,
{
    if n < list.len() {
        assert(list.take(n + 1).drop_last() =~= list.take(n));
        lemma_top_error(list, n + 1);
    } else {
        assert(list.take(n) =~= list);
    }
}

fn read_reflector_table(list: &[Field]) -> (r: Result<Table<RawReflector>, DocumentError>)
    ensures
        match r {
            Ok(table) => table.wf() && read_reflectors(crate::config::document::fields(list@))
                == Ok::<
                Seq<(Seq<char>, RawReflectorView)>,
                DocumentFault,
            >(crate::config::table::mapped(table@, |r: RawReflector| r@)),
            Err(e) => read_reflectors(crate::config::document::fields(list@)) == Err::<
                Seq<(Seq<char>, RawReflectorView)>,
                DocumentFault,
            >(e@),
        },
{
    let ghost all = crate::config::document::fields(list@);
    let ghost f = |r: RawReflector| r@;
    let mut table: Table<RawReflector> = Table::new();
    let n: usize = list.len();
    let mut i: usize = 0;
    assert(all.take(0) =~= Seq::<(Seq<char>, Node)>::empty());
    assert(crate::config::table::mapped(table@, f) =~= Seq::<
        (Seq<char>, RawReflectorView),
    >::empty());
    while i < n
        invariant
            n == list@.len(),
            i <= n,
            all == crate::config::document::fields(list@),
            f == (|r: RawReflector| r@),
            table.wf(),
            read_reflectors(all.take(i as int)) == Ok::<
                Seq<(Seq<char>, RawReflectorView)>,
                DocumentFault,
            >(crate::config::table::mapped(table@, f)),
        decreases n - i,
    {
        proof {
            assert(all.take(i + 1).drop_last() =~= all.take(i as int));
            assert(all.take(i + 1).last() == all[i as int]);
        }
        let key = list[i].key.as_str();
        match read_reflector(key, &list[i].value) {
            Ok(raw) => {
                proof {
                    crate::config::table::lemma_put_mapped(table@, f, key@, raw);
                }
                table.put(key.to_owned(), raw);
            },
            Err(e) => {
                proof {
                    lemma_reflector_error(all, i + 1);
                }
                return Err(e);
            },
        }
        i += 1;
    }
    assert(all.take(n as int) =~= all);
    Ok(table)
}

fn read_top(raw: &mut RawConfig, field: &Field) -> (r: Result<(), DocumentError>)
    requires
        old(raw).wf(),
    ensures
        final(raw).wf(),
        match r {
            Ok(_) => with_top(
                old(raw)@,
                field.key@,
                crate::config::document::node(field.value),
            ) == Ok::<RawConfigView, DocumentFault>(
                final(raw)@,
            ),
            Err(e) => with_top(
                old(raw)@,
                field.key@,
                crate::config::document::node(field.value),
            ) == Err::<RawConfigView, DocumentFault>(e@),
        },
{
    let key = field.key.as_str();
    if text::str_eq(key, "log_level") {
        match as_log_level(key, &field.value) {
            Ok(level) => {
                raw.log_level = Some(level);
                Ok(())
            },
            Err(e) => Err(e),
        }
    } else if text::str_eq(key, "debug_memory") {
        match as_bool(key, &field.value) {
            Ok(b) => {
                raw.debug_memory = Some(b);
                Ok(())
            },
            Err(e) => Err(e),
        }
    } else if text::str_eq(key, "reflectors") {
        match &field.value.kind {
            DocKind::Table(list) => match read_reflector_table(list.as_slice()) {
                Ok(table) => {
                    raw.reflectors = table;
                    Ok(())
                },
                Err(e) => Err(e),
            },
            _ => Err(wrong(key, Expected::Table, &field.value)),
        }
    } else {
        Err(DocumentError::UnknownField { field: key.to_owned(), at: field.value.place.key })
    }
}

/// Reads the raw configuration out of a document's fields.
pub fn read_config(list: &[Field]) -> (r: Result<RawConfig, DocumentError>)
    ensures
        match r {
            Ok(raw) => raw.wf() && decoded(crate::config::document::fields(list@))
                == Ok::<RawConfigView, DocumentFault>(raw@),
            Err(e) => decoded(crate::config::document::fields(list@))
                == Err::<RawConfigView, DocumentFault>(e@),
        },
{
    let ghost all = crate::config::document::fields(list@);
    let mut raw = RawConfig::empty();
    let n: usize = list.len();
    let mut i: usize = 0;
    assert(all.take(0) =~= Seq::<(Seq<char>, Node)>::empty());
    while i < n
        invariant
            n == list@.len(),
            i <= n,
            all == crate::config::document::fields(list@),
            raw.wf(),
            decoded(all.take(i as int)) == Ok::<RawConfigView, DocumentFault>(raw@),
        decreases n - i,
    {
        proof {
            assert(all.take(i + 1).drop_last() =~= all.take(i as int));
            assert(all.take(i + 1).last() == all[i as int]);
        }
        match read_top(&mut raw, &list[i]) {
            Ok(_) => {},
            Err(e) => {
                proof {
                    lemma_top_error(all, i + 1);
                }
                return Err(e);
            },
        }
        i += 1;
    }
    assert(all.take(n as int) =~= all);
    Ok(raw)
}

/// Reads the log level alone out of a document's fields.
pub fn read_log_level(list: &[Field]) -> (r: Result<Option<LogLevel>, DocumentError>)
    ensures
        match r {
            Ok(level) => probed(crate::config::document::fields(list@))
                == Ok::<Option<LogLevel>, DocumentFault>(level),
            Err(e) => probed(crate::config::document::fields(list@))
                == Err::<Option<LogLevel>, DocumentFault>(e@),
        },
{
    let ghost all = crate::config::document::fields(list@);
    let n: usize = list.len();
    let mut i: usize = 0;
    assert(all.skip(0) =~= all);
    while i < n
        invariant
            n == list@.len(),
            i <= n,
            all == crate::config::document::fields(list@),
            probed(all.skip(i as int)) == probed(all),
        decreases n - i,
    {
        proof {
            assert(all.skip(i as int)[0] == all[i as int]);
            assert(all.skip(i as int).drop_first() =~= all.skip(i + 1));
        }
        let key = list[i].key.as_str();
        if text::str_eq(key, "log_level") {
            return match as_log_level(key, &list[i].value) {
                Ok(level) => Ok(Some(level)),
                Err(e) => Err(e),
            };
        }
        i += 1;
    }
    Ok(None)
}

} // verus!
