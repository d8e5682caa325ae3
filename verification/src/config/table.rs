//! A table of values under text keys, kept in ascending order of the keys.

use crate::text;
use vstd::prelude::*;

verus! {

/// A table's entries in order.
pub type Entries<V> = Seq<(Seq<char>, V)>;

/// How many entries, from the front, have a key less than `key`: where `key` stands or belongs.
pub open spec fn slot<V>(list: Entries<V>, key: Seq<char>) -> int
    decreases list.len(),
{
    if list.len() == 0 || !text::less(list[0].0, key) {
        0
    } else {
        1 + slot(list.drop_first(), key)
    }
}

/// The value under `key`.
pub open spec fn lookup<V>(list: Entries<V>, key: Seq<char>) -> Option<V> {
    let i = slot(list, key);
    if i < list.len() && list[i].0 == key {
        Some(list[i].1)
    } else {
        None
    }
}

/// The entries with `value` under `key`, in place of what was there or as a new entry.
pub open spec fn put<V>(list: Entries<V>, key: Seq<char>, value: V) -> Entries<V> {
    let i = slot(list, key);
    if i < list.len() && list[i].0 == key {
        list.update(i, (key, value))
    } else {
        list.insert(i, (key, value))
    }
}

/// Whether the keys are in strictly ascending order.
pub open spec fn ascending<V>(list: Entries<V>) -> bool {
    forall|i: int, j: int|
        0 <= i < j < list.len() ==> text::less((#[trigger] list[i]).0, (#[trigger] list[j]).0)
}

/// The slot of a key splits the entries: those before it have lesser keys, and the one at it, if
/// any, has not.
pub proof fn lemma_slot<V>(list: Entries<V>, key: Seq<char>)
    ensures
        0 <= slot(list, key) <= list.len(),
        forall|i: int| 0 <= i < slot(list, key) ==> text::less((#[trigger] list[i]).0, key),
        slot(list, key) < list.len() ==> !text::less(list[slot(list, key)].0, key),
    decreases list.len(),
{
    if list.len() > 0 && text::less(list[0].0, key) {
        let rest = list.drop_first();
        lemma_slot(rest, key);
        assert forall|i: int| 0 <= i < slot(list, key) implies text::less(
            (#[trigger] list[i]).0,
            key,
        ) by {
            if i > 0 {
                assert(rest[i - 1] == list[i]);
            }
        }
        if slot(list, key) < list.len() {
            assert(rest[slot(rest, key)] == list[slot(list, key)]);
        }
    }
}

/// Putting a value keeps the keys in order, and the value is then found under its key.
pub proof fn law_put_keeps_order<V>(list: Entries<V>, key: Seq<char>, value: V)
    requires
        ascending(list),
    ensures
        ascending(put(list, key, value)),
        lookup(put(list, key, value), key) == Some(value),
{
    let i = slot(list, key);
    let after = put(list, key, value);
    lemma_slot(list, key);
    if i < list.len() && list[i].0 == key {
        assert forall|a: int, b: int| 0 <= a < b < after.len() implies text::less(
            (#[trigger] after[a]).0,
            (#[trigger] after[b]).0,
        ) by {
            assert(after[a].0 == list[a].0 && after[b].0 == list[b].0);
            assert(text::less(list[a].0, list[b].0));
        }
    } else {
        assert forall|a: int, b: int| 0 <= a < b < after.len() implies text::less(
            (#[trigger] after[a]).0,
            (#[trigger] after[b]).0,
        ) by {
            if a < i && b < i {
                assert(after[a] == list[a] && after[b] == list[b]);
                assert(text::less(list[a].0, list[b].0));
            } else if a < i && b == i {
                assert(after[a] == list[a]);
                assert(text::less(list[a].0, key));
            } else if a < i {
                assert(after[a] == list[a] && after[b] == list[b - 1]);
                assert(text::less(list[a].0, list[b - 1].0));
            } else if a == i {
                assert(after[b] == list[b - 1]);
                text::lemma_less_total(list[i].0, key);
                if b - 1 > i {
                    assert(text::less(list[i].0, list[b - 1].0));
                    text::lemma_less_transitive(key, list[i].0, list[b - 1].0);
                }
            } else {
                assert(after[a] == list[a - 1] && after[b] == list[b - 1]);
                assert(text::less(list[a - 1].0, list[b - 1].0));
            }
        }
    }
    lemma_slot_at(after, key, i);
}

proof fn lemma_slot_at<V>(list: Entries<V>, key: Seq<char>, at: int)
    requires
        0 <= at < list.len(),
        forall|i: int| 0 <= i < at ==> text::less((#[trigger] list[i]).0, key),
        list[at].0 == key,
    ensures
        slot(list, key) == at,
    decreases at,
{
    text::lemma_less_irreflexive(key);
    if at > 0 {
        assert(text::less(list[0].0, key));
        let rest = list.drop_first();
        assert forall|i: int| 0 <= i < at - 1 implies text::less((#[trigger] rest[i]).0, key) by {
            assert(rest[i] == list[i + 1]);
        }
        lemma_slot_at(rest, key, at - 1);
    }
}

/// In an ordered table, the value of an entry is what is found under its key.
pub proof fn lemma_entry_is_found<V>(list: Entries<V>, key: Seq<char>, at: int)
    requires
        ascending(list),
        0 <= at < list.len(),
        list[at].0 == key,
    ensures
        lookup(list, key) == Some(list[at].1),
{
    assert forall|i: int| 0 <= i < at implies text::less((#[trigger] list[i]).0, key) by {
        assert(text::less(list[i].0, list[at].0));
    }
    lemma_slot_at(list, key, at);
}

/// What is found under a key is the value of an entry.
pub proof fn lemma_found_is_an_entry<V>(list: Entries<V>, key: Seq<char>)
    ensures
        lookup(list, key) matches Some(value) ==> {
            let i = slot(list, key);
            0 <= i < list.len() && list[i] == (key, value)
        },
{
    lemma_slot(list, key);
}

/// Putting a value changes what is found under no other key.
pub proof fn law_put_leaves_other_keys<V>(
    list: Entries<V>,
    key: Seq<char>,
    value: V,
    other: Seq<char>,
)
    requires
        ascending(list),
        other != key,
    ensures
        lookup(put(list, key, value), other) == lookup(list, other),
{
    let i = slot(list, key);
    let after = put(list, key, value);
    lemma_slot(list, key);
    law_put_keeps_order(list, key, value);
    lemma_found_is_an_entry(list, other);
    lemma_found_is_an_entry(after, other);
    let replaced = i < list.len() && list[i].0 == key;
    if lookup(list, other) is Some {
        let j = slot(list, other);
        let at = if replaced || j < i {
            j
        } else {
            j + 1
        };
        assert(after[at] == list[j]);
        lemma_entry_is_found(after, other, at);
    } else if lookup(after, other) is Some {
        let j = slot(after, other);
        assert(j != i);
        let at = if replaced || j < i {
            j
        } else {
            j - 1
        };
        assert(list[at] == after[j]);
        lemma_entry_is_found(list, other, at);
    }
}

/// What is found behind the first entry of an ordered table.
proof fn lemma_lookup_rest<V>(list: Entries<V>, key: Seq<char>)
    requires
        ascending(list),
        list.len() > 0,
    ensures
        ascending(list.drop_first()),
        lookup(list.drop_first(), key) == if key == list[0].0 {
            None
        } else {
            lookup(list, key)
        },
{
    let rest = list.drop_first();
    assert forall|i: int, j: int| 0 <= i < j < rest.len() implies text::less(
        (#[trigger] rest[i]).0,
        (#[trigger] rest[j]).0,
    ) by {
        assert(rest[i] == list[i + 1] && rest[j] == list[j + 1]);
    }
    lemma_found_is_an_entry(rest, key);
    lemma_found_is_an_entry(list, key);
    if lookup(rest, key) is Some {
        let i = slot(rest, key);
        assert(list[i + 1] == rest[i]);
        lemma_entry_is_found(list, key, i + 1);
        assert(text::less(list[0].0, list[i + 1].0));
        text::lemma_less_irreflexive(key);
    } else if key != list[0].0 && lookup(list, key) is Some {
        let i = slot(list, key);
        assert(rest[i - 1] == list[i]);
        lemma_entry_is_found(rest, key, i - 1);
    }
}

/// The first key of one of two ordered tables with the same keys is the first of the other.
proof fn lemma_same_first<V>(a: Entries<V>, b: Entries<V>)
    requires
        ascending(a),
        ascending(b),
        a.len() > 0,
        forall|key: Seq<char>| #[trigger] lookup(a, key) == lookup(b, key),
    ensures
        b.len() > 0,
        a[0] == b[0],
{
    let k = a[0].0;
    lemma_entry_is_found(a, k, 0);
    assert(lookup(a, k) == lookup(b, k));
    lemma_found_is_an_entry(b, k);
    let j = slot(b, k);
    if j > 0 {
        let l = b[0].0;
        assert(text::less(b[0].0, b[j].0));
        lemma_entry_is_found(b, l, 0);
        assert(lookup(a, l) == lookup(b, l));
        lemma_found_is_an_entry(a, l);
        let i = slot(a, l);
        if i > 0 {
            assert(text::less(a[0].0, a[i].0));
            text::lemma_less_transitive(k, l, k);
        }
        text::lemma_less_irreflexive(k);
    }
}

/// Two ordered tables in which the same is found under every key are the same.
pub proof fn lemma_same_lookups<V>(a: Entries<V>, b: Entries<V>)
    requires
        ascending(a),
        ascending(b),
        forall|key: Seq<char>| #[trigger] lookup(a, key) == lookup(b, key),
    ensures
        a == b,
    decreases a.len(),
{
    if a.len() == 0 {
        if b.len() > 0 {
            lemma_entry_is_found(b, b[0].0, 0);
            assert(lookup(a, b[0].0) == lookup(b, b[0].0));
        }
        assert(a =~= b);
    } else {
        lemma_same_first(a, b);
        let ra = a.drop_first();
        let rb = b.drop_first();
        lemma_lookup_rest(a, a[0].0);
        lemma_lookup_rest(b, b[0].0);
        assert forall|key: Seq<char>| #[trigger] lookup(ra, key) == lookup(rb, key) by {
            lemma_lookup_rest(a, key);
            lemma_lookup_rest(b, key);
            assert(lookup(a, key) == lookup(b, key));
        }
        lemma_same_lookups(ra, rb);
        assert(a =~= seq![a[0]] + ra);
        assert(b =~= seq![b[0]] + rb);
    }
}

/// A table of values under text keys.
#[derive(Debug)]
pub struct Table<V> {
    keys: Vec<String>,
    values: Vec<V>,
}

impl<V> View for Table<V> {
    type V = Entries<V>;

    closed spec fn view(&self) -> Entries<V> {
        Seq::new(self.keys@.len(), |i: int| (self.keys@[i]@, self.values@[i]))
    }
}

impl<V> Table<V> {
    /// Every key has a value, and the keys are in strictly ascending order.
    pub open spec fn wf(&self) -> bool {
        self.paired() && ascending(self@)
    }

    /// Every key has a value.
    pub closed spec fn paired(&self) -> bool {
        self.keys@.len() == self.values@.len()
    }

    /// An empty table.
    pub fn new() -> (table: Self)
        ensures
            table.wf(),
            table@ == Seq::<(Seq<char>, V)>::empty(),
    {
        let table = Table { keys: Vec::new(), values: Vec::new() };
        assert(table@ =~= Seq::<(Seq<char>, V)>::empty());
        table
    }

    /// How many entries the table has.
    pub fn len(&self) -> (n: usize)
        requires
            self.wf(),
        ensures
            n == self@.len(),
    {
        self.keys.len()
    }

    /// The key of the entry at `i`.
    pub fn key(&self, i: usize) -> (key: &str)
        requires
            self.wf(),
            i < self@.len(),
        ensures
            key@ == self@[i as int].0,
    {
        self.keys[i].as_str()
    }

    /// The value of the entry at `i`.
    pub fn value(&self, i: usize) -> (value: &V)
        requires
            self.wf(),
            i < self@.len(),
        ensures
            *value == self@[i as int].1,
    {
        &self.values[i]
    }

    fn find(&self, key: &str) -> (at: usize)
        requires
            self.wf(),
        ensures
            at == slot(self@, key@),
            at <= self@.len(),
    {
        let n: usize = self.keys.len();
        let mut i: usize = 0;
        assert(self@.skip(0) =~= self@);
        while i < n && text::str_less(self.keys[i].as_str(), key)
            invariant
                self.wf(),
                n == self.keys@.len(),
                n == self@.len(),
                i <= n,
                slot(self@, key@) == i + slot(self@.skip(i as int), key@),
            decreases n - i,
        {
            assert(self@.skip(i as int)[0] == self@[i as int]);
            assert(self@.skip(i as int).drop_first() =~= self@.skip(i + 1));
            i += 1;
        }
        if i < n {
            assert(self@.skip(i as int)[0] == self@[i as int]);
        }
        i
    }

    /// Takes out the value under `key`, if there is one.
    pub fn take(&mut self, key: &str) -> (value: Option<V>)
        requires
            old(self).wf(),
        ensures
            final(self).wf(),
            value == lookup(old(self)@, key@),
            value is None ==> final(self)@ == old(self)@,
            value is Some ==> final(self)@ == old(self)@.remove(slot(old(self)@, key@)),
    {
        let i: usize = self.find(key);
        if i < self.keys.len() && text::str_eq(self.keys[i].as_str(), key) {
            let ghost before = self@;
            self.keys.remove(i);
            let value = self.values.remove(i);
            assert(self@ =~= before.remove(i as int));
            assert forall|a: int, b: int| 0 <= a < b < self@.len() implies text::less(
                (#[trigger] self@[a]).0,
                (#[trigger] self@[b]).0,
            ) by {
                let x = if a < i {
                    a
                } else {
                    a + 1
                };
                let y = if b < i {
                    b
                } else {
                    b + 1
                };
                assert(self@[a] == before[x] && self@[b] == before[y]);
                assert(text::less(before[x].0, before[y].0));
            }
            Some(value)
        } else {
            None
        }
    }

    /// Puts `value` under `key`, in place of what was there or as a new entry.
    pub fn put(&mut self, key: String, value: V)
        requires
            old(self).wf(),
        ensures
            final(self).wf(),
            final(self)@ == put(old(self)@, key@, value),
    {
        let i: usize = self.find(key.as_str());
        let ghost before = self@;
        let ghost text = key@;
        proof {
            law_put_keeps_order(before, key@, value);
        }
        if i < self.keys.len() && text::str_eq(self.keys[i].as_str(), key.as_str()) {
            self.values[i] = value;
            assert(self@ =~= before.update(i as int, (text, value)));
        } else {
            self.keys.insert(i, key);
            self.values.insert(i, value);
            assert(self@ =~= before.insert(i as int, (text, value)));
        }
    }

    /// Takes out the first entry.
    pub fn take_first(&mut self) -> (entry: Option<(String, V)>)
        requires
            old(self).wf(),
        ensures
            final(self).wf(),
            old(self)@.len() == 0 ==> entry is None && final(self)@ == old(self)@,
            old(self)@.len() > 0 ==> {
                &&& entry matches Some(e)
                &&& e.0@ == old(self)@[0].0
                &&& e.1 == old(self)@[0].1
                &&& final(self)@ == old(self)@.drop_first()
            },
    {
        if self.keys.len() == 0 {
            return None;
        }
        let ghost before = self@;
        let key = self.keys.remove(0);
        let value = self.values.remove(0);
        assert(self@ =~= before.drop_first());
        assert forall|a: int, b: int| 0 <= a < b < self@.len() implies text::less(
            (#[trigger] self@[a]).0,
            (#[trigger] self@[b]).0,
        ) by {
            assert(self@[a] == before[a + 1] && self@[b] == before[b + 1]);
            assert(text::less(before[a + 1].0, before[b + 1].0));
        }
        Some((key, value))
    }
}

/// The entries with each value mapped.
pub open spec fn mapped<V, W>(list: Entries<V>, f: spec_fn(V) -> W) -> Entries<W> {
    list.map_values(|e: (Seq<char>, V)| (e.0, f(e.1)))
}

/// Where a key stands depends on the keys alone.
pub proof fn lemma_slot_mapped<V, W>(list: Entries<V>, f: spec_fn(V) -> W, key: Seq<char>)
    ensures
        slot(mapped(list, f), key) == slot(list, key),
    decreases list.len(),
{
    if list.len() > 0 && text::less(list[0].0, key) {
        lemma_slot_mapped(list.drop_first(), f, key);
        assert(mapped(list, f).drop_first() =~= mapped(list.drop_first(), f));
    }
}

/// Mapping the values commutes with putting one.
pub proof fn lemma_put_mapped<V, W>(list: Entries<V>, f: spec_fn(V) -> W, key: Seq<char>, value: V)
    ensures
        mapped(put(list, key, value), f) == put(mapped(list, f), key, f(value)),
        lookup(mapped(list, f), key) == match lookup(list, key) {
            Some(v) => Some(f(v)),
            None => None,
        },
{
    lemma_slot_mapped(list, f, key);
    lemma_slot(list, key);
    assert(mapped(put(list, key, value), f) =~= put(mapped(list, f), key, f(value)));
}

/// Putting a value back under a key that was taken out is putting it in its place.
pub proof fn lemma_put_after_take<V>(list: Entries<V>, key: Seq<char>, value: V)
    requires
        ascending(list),
        lookup(list, key) is Some,
    ensures
        put(list.remove(slot(list, key)), key, value) == put(list, key, value),
{
    let i = slot(list, key);
    let rest = list.remove(i);
    lemma_slot(list, key);
    lemma_slot(rest, key);
    text::lemma_less_irreflexive(key);
    let k = slot(rest, key);
    if k < i {
        assert(rest[k] == list[k]);
    }
    if k > i {
        assert(rest[i] == list[i + 1]);
        assert(text::less(list[i].0, list[i + 1].0));
        text::lemma_less_transitive(key, list[i + 1].0, key);
    }
    if i < rest.len() && rest[i].0 == key {
        assert(rest[i] == list[i + 1]);
        assert(text::less(list[i].0, list[i + 1].0));
    }
    assert(put(rest, key, value) =~= put(list, key, value));
}

} // verus!
