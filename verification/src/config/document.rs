//! The configuration file: a TOML document, taken over from the TOML parser into values of this
//! crate.

use vstd::prelude::*;

verus! {

/// Where a value stands in a document's text, in bytes from the start: its key, and the value
/// itself. An item of a list has no key, and its own place is given twice.
#[derive(Debug, Clone, Copy, PartialEq, Eq, Structural)]
pub struct Place {
    pub key: usize,
    pub value: usize,
}

/// A value of a TOML document, and where it stands.
#[derive(Debug)]
pub struct DocValue {
    pub place: Place,
    pub kind: DocKind,
}

/// What a value of a TOML document is. Of a float and of a date only the kind is kept: no field of
/// a configuration takes one.
#[derive(Debug)]
pub enum DocKind {
    Text(String),
    /// An integer's digits, with a sign where it has one, and their radix.
    Integer { digits: String, radix: u32 },
    Float,
    Boolean(bool),
    Datetime,
    List(Vec<DocValue>),
    Table(Vec<Field>),
}

/// One field of a table.
#[derive(Debug)]
pub struct Field {
    pub key: String,
    pub value: DocValue,
}

/// A [`DocValue`] over sequences.
pub struct Node {
    pub place: Place,
    pub kind: NodeKind,
}

/// A [`DocKind`] over sequences.
pub enum NodeKind {
    Text(Seq<char>),
    Integer { digits: Seq<char>, radix: u32 },
    Float,
    Boolean(bool),
    Datetime,
    List(Seq<Node>),
    Table(Seq<(Seq<char>, Node)>),
}

/// The node that a value stands for.
pub open spec fn node(value: DocValue) -> Node
    decreases value,
{
    Node {
        place: value.place,
        kind: match value.kind {
            DocKind::Text(s) => NodeKind::Text(s@),
            DocKind::Integer { digits, radix } => NodeKind::Integer { digits: digits@, radix },
            DocKind::Float => NodeKind::Float,
            DocKind::Boolean(b) => NodeKind::Boolean(b),
            DocKind::Datetime => NodeKind::Datetime,
            DocKind::List(items) => NodeKind::List(nodes(items@)),
            DocKind::Table(list) => NodeKind::Table(fields(list@)),
        },
    }
}

/// A node that stands nowhere and holds nothing.
pub open spec fn no_node() -> Node {
    Node { place: Place { key: 0, value: 0 }, kind: NodeKind::Float }
}

/// The nodes of a list.
pub open spec fn nodes(items: Seq<DocValue>) -> Seq<Node>
    decreases items,
{
    Seq::new(
        items.len(),
        |i: int|
            if 0 <= i < items.len() {
                node(items[i])
            } else {
                no_node()
            },
    )
}

/// The fields of a table.
pub open spec fn fields(list: Seq<Field>) -> Seq<(Seq<char>, Node)>
    decreases list,
{
    Seq::new(
        list.len(),
        |i: int|
            if 0 <= i < list.len() {
                (list[i].key@, node(list[i].value))
            } else {
                (Seq::empty(), no_node())
            },
    )
}

/// A value of a document as the TOML parser holds it.
#[verifier::external_type_specification]
#[verifier::external_body]
pub struct ExDeValue<'i>(toml::de::DeValue<'i>);

/// A part of a document with its place in the text.
#[verifier::external_type_specification]
#[verifier::external_body]
#[verifier::reject_recursive_types(T)]
pub struct ExSpanned<T>(toml::Spanned<T>);

/// A table of a document as the TOML parser holds it: its fields by key.
#[verifier::external_type_specification]
#[verifier::external_body]
#[verifier::reject_recursive_types(K)]
#[verifier::reject_recursive_types(V)]
pub struct ExTomlMap<K, V>(toml::map::Map<K, V>);

/// What `toml::de::DeTable::parse` reads from a text: the top-level table's fields in order of
/// their keys, or the parser's message.
pub uninterp spec fn parsed_document(text: Seq<char>) -> Result<
    Seq<(Seq<char>, Node)>,
    Seq<char>,
>;

/// The fields that a `toml::de::DeTable` holds, in order of their keys, each with its place.
pub uninterp spec fn table_fields(table: toml::de::DeTable) -> Seq<(Seq<char>, Node)>;

/// What a `toml::de::DeValue` with its place holds, seen as an item of a list.
pub uninterp spec fn value_node(value: toml::Spanned<toml::de::DeValue>) -> Node;

/// A `toml::de::DeValue` taken apart: what it holds, one level deep.
pub enum Piece<'i> {
    Text(String),
    Integer { digits: String, radix: u32 },
    Float,
    Boolean(bool),
    Datetime,
    List(Vec<toml::Spanned<toml::de::DeValue<'i>>>),
    Table(toml::de::DeTable<'i>),
}

/// An entry of a `toml::de::DeTable`: its key, where the key stands, and its value.
pub type Entry<'i> = (String, usize, toml::Spanned<toml::de::DeValue<'i>>);

/// The nodes of a list of the parser's values.
pub open spec fn value_nodes(items: Seq<toml::Spanned<toml::de::DeValue>>) -> Seq<Node> {
    items.map_values(|v: toml::Spanned<toml::de::DeValue>| value_node(v))
}

/// `n` under a key that stands at `key`.
pub open spec fn keyed(n: Node, key: usize) -> Node {
    Node { place: Place { key, ..n.place }, ..n }
}

/// The fields of a list of the parser's entries.
pub open spec fn entry_fields(entries: Seq<Entry>) -> Seq<(Seq<char>, Node)> {
    entries.map_values(|e: Entry| (e.0@, keyed(value_node(e.2), e.1)))
}

/// What a piece holds.
pub open spec fn piece_kind(piece: Piece) -> NodeKind {
    match piece {
        Piece::Text(s) => NodeKind::Text(s@),
        Piece::Integer { digits, radix } => NodeKind::Integer { digits: digits@, radix },
        Piece::Float => NodeKind::Float,
        Piece::Boolean(b) => NodeKind::Boolean(b),
        Piece::Datetime => NodeKind::Datetime,
        Piece::List(items) => NodeKind::List(value_nodes(items@)),
        Piece::Table(table) => NodeKind::Table(table_fields(table)),
    }
}

/// `toml::de::DeTable::parse`. Its result, the error by its message, is a function of the text
/// alone, and is the one [`parsed_document`] names.
#[verifier::external_body]
fn parse_document<'i>(text: &'i str) -> (r: Result<toml::de::DeTable<'i>, String>)
    ensures
        match r {
            Ok(table) => parsed_document(text@) == Ok::<Seq<(Seq<char>, Node)>, Seq<char>>(
                table_fields(table),
            ),
            Err(message) => parsed_document(text@) == Err::<Seq<(Seq<char>, Node)>, Seq<char>>(
                message@,
            ),
        },
{
    match toml::de::DeTable::parse(text) {
        Ok(table) => Ok(table.into_inner()),
        Err(e) => Err(e.to_string()),
    }
}

/// `toml::map::Map::into_iter` on a table: every field once, in order of the keys, each key with
/// the place that `toml::Spanned::span` gives as its start.
#[verifier::external_body]
fn table_entries<'i>(table: toml::de::DeTable<'i>) -> (entries: Vec<Entry<'i>>)
    ensures
        entry_fields(entries@) == table_fields(table),
{
    table.into_iter().map(|(k, v)| (k.get_ref().to_string(), k.span().start, v)).collect()
}

/// The variants of `toml::de::DeValue`: which one a value is, and what it holds; and the start of
/// the place that `toml::Spanned::span` gives.
#[verifier::external_body]
fn take_apart<'i>(value: toml::Spanned<toml::de::DeValue<'i>>) -> (r: (usize, Piece<'i>))
    ensures
        value_node(value) == (Node {
            place: Place { key: r.0, value: r.0 },
            kind: piece_kind(r.1),
        }),
{
    let at = value.span().start;
    let piece = match value.into_inner() {
        toml::de::DeValue::String(s) => Piece::Text(s.into_owned()),
        toml::de::DeValue::Integer(n) => {
            Piece::Integer { digits: n.as_str().to_owned(), radix: n.radix() }
        },
        toml::de::DeValue::Float(_) => Piece::Float,
        toml::de::DeValue::Boolean(b) => Piece::Boolean(b),
        toml::de::DeValue::Datetime(_) => Piece::Datetime,
        toml::de::DeValue::Array(items) => Piece::List(items.into_iter().collect()),
        toml::de::DeValue::Table(table) => Piece::Table(table),
    };
    (at, piece)
}

fn import_value<'i>(value: toml::Spanned<toml::de::DeValue<'i>>, key: Option<usize>) -> (r:
    DocValue)
    ensures
        node(r) == match key {
            Some(key) => keyed(value_node(value), key),
            None => value_node(value),
        },
    decreases value_node(value).kind, 0int,
{
    let ghost whole = value_node(value);
    let (at, piece) = take_apart(value);
    let place = match key {
        Some(key) => Place { key, value: at },
        None => Place { key: at, value: at },
    };
    let kind = match piece {
        Piece::Text(s) => DocKind::Text(s),
        Piece::Integer { digits, radix } => DocKind::Integer { digits, radix },
        Piece::Float => DocKind::Float,
        Piece::Boolean(b) => DocKind::Boolean(b),
        Piece::Datetime => DocKind::Datetime,
        Piece::List(items) => {
            let mut list: Vec<DocValue> = Vec::new();
            let ghost all = items@;
            for item in it: items
                invariant
                    it.seq() == all,
                    whole.kind == NodeKind::List(value_nodes(all)),
                    whole == value_node(value),
                    nodes(list@) == value_nodes(all).take(it.index() as int),
            {
                proof {
                    assert(value_nodes(all)[it.index() as int] == value_node(item));
                    let items = whole.kind->List_0;
                    assert(decreases_to!(whole.kind => items));
                    assert(decreases_to!(items => items[it.index() as int]));
                    assert(decreases_to!(items[it.index() as int] => items[it.index() as int].kind));
                }
                let imported = import_value(item, None);
                let ghost before = list@;
                list.push(imported);
                assert(nodes(list@) =~= value_nodes(all).take(it.index() + 1)) by {
                    assert(nodes(list@) =~= nodes(before).push(node(imported)));
                }
            }
            assert(nodes(list@) =~= value_nodes(all));
            DocKind::List(list)
        },
        Piece::Table(table) => {
            assert(decreases_to!(whole.kind => whole.kind->Table_0));
            DocKind::Table(import_table(table))
        },
    };
    DocValue { place, kind }
}

fn import_table<'i>(table: toml::de::DeTable<'i>) -> (list: Vec<Field>)
    ensures
        fields(list@) == table_fields(table),
    decreases table_fields(table), 1int,
{
    let ghost whole = table_fields(table);
    let entries = table_entries(table);
    let ghost all = entries@;
    let mut list: Vec<Field> = Vec::new();
    for entry in it: entries
        invariant
            it.seq() == all,
            whole == entry_fields(all),
            whole == table_fields(table),
            fields(list@) == entry_fields(all).take(it.index() as int),
    {
        let (key, at, value) = entry;
        proof {
            let field = whole[it.index() as int];
            assert(field.1 == keyed(value_node(value), at));
            assert(decreases_to!(whole => field));
            assert(decreases_to!(field => field.1));
            assert(decreases_to!(field.1 => field.1.kind));
        }
        let imported = import_value(value, Some(at));
        let ghost before = list@;
        let field = Field { key, value: imported };
        list.push(field);
        assert(fields(list@) =~= entry_fields(all).take(it.index() + 1)) by {
            assert(fields(list@) =~= fields(before).push((field.key@, node(field.value))));
        }
    }
    assert(fields(list@) =~= table_fields(table));
    list
}

/// Reads a TOML document: the fields of its top-level table, or the parser's message.
pub fn read_document(text: &str) -> (r: Result<Vec<Field>, String>)
    ensures
        match r {
            Ok(list) => parsed_document(text@) == Ok::<Seq<(Seq<char>, Node)>, Seq<char>>(
                fields(list@),
            ),
            Err(message) => parsed_document(text@) == Err::<Seq<(Seq<char>, Node)>, Seq<char>>(
                message@,
            ),
        },
{
    match parse_document(text) {
        Ok(table) => Ok(import_table(table)),
        Err(message) => Err(message),
    }
}

} // verus!
