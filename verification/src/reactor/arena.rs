//! A generational-index arena.
//!
//! Inserting a value yields a `Copy` key that holds the slot's index and its generation. Removing
//! the value bumps the generation, so a key to a former occupant resolves to nothing: a stale key
//! is detected, never mistaken for the slot's next occupant.

use vstd::prelude::*;

verus! {

/// A handle into an [`Arena`], valid only for the value it was returned for.
#[derive(Debug, Clone, Copy, PartialEq, Eq, Hash, Structural)]
pub struct Key {
    pub index: u32,
    pub generation: u32,
}

impl Key {
    /// The key as one number: the index in the upper half, the generation in the lower.
    pub open spec fn packed(self) -> int {
        self.index * 0x1_0000_0000 + self.generation
    }

    /// Packs the key into a `u64`, to ride in an opaque 64-bit slot such as a kernel readiness
    /// token. [`Key::from_u64`] recovers it.
    pub fn to_u64(self) -> (packed: u64)
        ensures
            packed == self.packed(),
    {
        let index: u64 = self.index as u64;
        let generation: u64 = self.generation as u64;
        assert((index << 32) | generation == index * 0x1_0000_0000 + generation) by (bit_vector)
            requires
                index <= 0xffff_ffff,
                generation <= 0xffff_ffff,
        ;
        (index << 32) | generation
    }

    /// Reconstructs the key that [`Key::to_u64`] packed.
    pub fn from_u64(packed: u64) -> (key: Key)
        ensures
            key.packed() == packed,
    {
        assert((packed >> 32) as u32 * 0x1_0000_0000 + packed as u32 == packed) by (bit_vector);
        Key { index: (packed >> 32) as u32, generation: packed as u32 }
    }
}

/// Packing loses nothing: distinct keys pack to distinct numbers, so the key that unpacks from a
/// packed key is that key.
pub proof fn law_packing_is_injective(a: Key, b: Key)
    requires
        a.packed() == b.packed(),
    ensures
        a == b,
{
}

/// One slot: its occupant, if any, and the generation a key must carry to address it.
pub struct Slot<T> {
    pub generation: u32,
    pub value: Option<T>,
}

/// A slab of slots addressed by generational [`Key`]s, with a free list, so that freed slots are
/// reused without invalidating the keys to other slots.
pub struct Arena<T> {
    slots: Vec<Slot<T>>,
    free: Vec<u32>,
}

/// Whether `key` addresses a live value among `slots`.
pub open spec fn addresses<T>(slots: Seq<Slot<T>>, key: Key) -> bool {
    &&& key.index < slots.len()
    &&& slots[key.index as int].generation == key.generation
    &&& slots[key.index as int].value is Some
}

/// The generation that follows `generation`, wrapping round.
pub open spec fn successor(generation: u32) -> u32 {
    if generation == u32::MAX {
        0
    } else {
        (generation + 1) as u32
    }
}

impl<T> View for Arena<T> {
    type V = Map<Key, T>;

    closed spec fn view(&self) -> Map<Key, T> {
        Map::new(
            |key: Key| addresses(self.slots@, key),
            |key: Key| self.slots@[key.index as int].value->0,
        )
    }
}

impl<T> Arena<T> {
    /// Every free-list entry names an empty slot, and none is listed twice.
    pub closed spec fn wf(&self) -> bool {
        &&& self.slots@.len() <= 0x1_0000_0000
        &&& forall|i: int|
            0 <= i < self.free@.len() ==> {
                &&& (#[trigger] self.free@[i]) < self.slots@.len()
                &&& self.slots@[self.free@[i] as int].value is None
            }
        &&& self.free@.no_duplicates()
    }

    /// The generation of every slot ever allocated, by index.
    pub closed spec fn generations(&self) -> Seq<u32> {
        self.slots@.map_values(|slot: Slot<T>| slot.generation)
    }

    /// The indices of the free slots; the last one is reused first.
    pub closed spec fn free_slots(&self) -> Seq<u32> {
        self.free@
    }

    /// Whether another value fits: a slot is free, or the index space is not exhausted.
    pub open spec fn spec_has_room(&self) -> bool {
        self.free_slots().len() > 0 || self.generations().len() <= u32::MAX
    }

    /// The key the next insertion returns.
    pub open spec fn next_key(&self) -> Key {
        if self.free_slots().len() > 0 {
            let index = self.free_slots().last();
            Key { index, generation: self.generations()[index as int] }
        } else {
            Key { index: self.generations().len() as u32, generation: 0 }
        }
    }

    /// A slot's index fits in 32 bits.
    pub proof fn lemma_index_space(&self)
        requires
            self.wf(),
        ensures
            self.generations().len() <= 0x1_0000_0000,
    {
    }

    /// An empty arena.
    pub fn new() -> (arena: Self)
        ensures
            arena.wf(),
            arena@ == Map::<Key, T>::empty(),
            arena.generations() == Seq::<u32>::empty(),
            arena.free_slots() == Seq::<u32>::empty(),
    {
        let arena = Arena { slots: Vec::new(), free: Vec::new() };
        assert(arena@ =~= Map::<Key, T>::empty());
        assert(arena.generations() =~= Seq::<u32>::empty());
        arena
    }

    /// Whether another value fits.
    pub fn has_room(&self) -> (room: bool)
        ensures
            room == self.spec_has_room(),
    {
        self.free.len() > 0 || self.slots.len() <= u32::MAX as usize
    }

    /// The key that the next insertion will return.
    pub fn peek_key(&self) -> (key: Key)
        requires
            self.wf(),
            self.spec_has_room(),
        ensures
            key == self.next_key(),
            !self@.dom().contains(key),
    {
        let n: usize = self.free.len();
        if n > 0 {
            let index: u32 = self.free[n - 1];
            Key { index, generation: self.slots[index as usize].generation }
        } else {
            Key { index: self.slots.len() as u32, generation: 0 }
        }
    }

    /// Stores `value` and returns the key that addresses it: the most recently freed slot if there
    /// is one, else a new slot.
    pub fn insert(&mut self, value: T) -> (key: Key)
        requires
            old(self).wf(),
            old(self).spec_has_room(),
        ensures
            final(self).wf(),
            became(*old(self), Op::Insert(value), *final(self)),
            key == old(self).next_key(),
            !old(self)@.dom().contains(key),
            final(self)@ == old(self)@.insert(key, value),
            final(self).generations() == if old(self).free_slots().len() > 0 {
                old(self).generations()
            } else {
                old(self).generations().push(0)
            },
            final(self).free_slots() == if old(self).free_slots().len() > 0 {
                old(self).free_slots().drop_last()
            } else {
                old(self).free_slots()
            },
    {
        if let Some(index) = self.free.pop() {
            let generation: u32 = self.slots[index as usize].generation;
            self.slots[index as usize] = Slot { generation, value: Some(value) };
            let key = Key { index, generation };
            assert(self@ =~= old(self)@.insert(key, value));
            assert(self.generations() =~= old(self).generations());
            key
        } else {
            let index: u32 = self.slots.len() as u32;
            self.slots.push(Slot { generation: 0, value: Some(value) });
            let key = Key { index, generation: 0 };
            assert(self@ =~= old(self)@.insert(key, value));
            assert(self.generations() =~= old(self).generations().push(0));
            key
        }
    }

    /// The value `key` addresses, or `None` if the key is stale.
    pub fn get(&self, key: Key) -> (value: Option<&T>)
        ensures
            value == if self@.dom().contains(key) {
                Some(&self@[key])
            } else {
                None
            },
    {
        let index: usize = key.index as usize;
        if index < self.slots.len() && self.slots[index].generation == key.generation {
            match &self.slots[index].value {
                Some(value) => Some(value),
                None => None,
            }
        } else {
            None
        }
    }

    /// Whether `key` still addresses a live value.
    pub fn contains(&self, key: Key) -> (live: bool)
        ensures
            live == self@.dom().contains(key),
    {
        self.get(key).is_some()
    }

    /// A mutable reference to the value `key` addresses, or `None` if the key is stale. What is
    /// written through it is what the key addresses afterwards; nothing else changes.
    pub fn get_mut(&mut self, key: Key) -> (value: Option<&mut T>)
        requires
            old(self).wf(),
        ensures
            final(self).wf(),
            value is Some <==> old(self)@.dom().contains(key),
            match value {
                Some(value) => {
                    &&& *value == old(self)@[key]
                    &&& final(self)@ == old(self)@.insert(key, *final(value))
                },
                None => final(self)@ == old(self)@,
            },
            final(self).generations() == old(self).generations(),
            final(self).free_slots() == old(self).free_slots(),
    {
        let index: usize = key.index as usize;
        if index < self.slots.len() && self.slots[index].generation == key.generation {
            match &mut self.slots[index].value {
                Some(value) => Some(value),
                None => None,
            }
        } else {
            None
        }
    }

    /// Removes and returns the value `key` addresses, freeing its slot and bumping the slot's
    /// generation. A stale key removes nothing.
    pub fn remove(&mut self, key: Key) -> (value: Option<T>)
        requires
            old(self).wf(),
        ensures
            final(self).wf(),
            became(*old(self), Op::Remove(key), *final(self)),
            value == if old(self)@.dom().contains(key) {
                Some(old(self)@[key])
            } else {
                None
            },
            final(self)@ == old(self)@.remove(key),
            old(self)@.dom().contains(key) ==> {
                &&& final(self).generations() == old(self).generations().update(
                    key.index as int,
                    successor(key.generation),
                )
                &&& final(self).free_slots() == old(self).free_slots().push(key.index)
            },
            !old(self)@.dom().contains(key) ==> *final(self) == *old(self),
    {
        let index: usize = key.index as usize;
        if index < self.slots.len() && self.slots[index].generation == key.generation {
            let mut emptied = Slot { generation: key.generation.wrapping_add(1), value: None };
            if self.slots[index].value.is_some() {
                std::mem::swap(&mut emptied, &mut self.slots[index]);
                self.free.push(key.index);
                assert(self@ =~= old(self)@.remove(key));
                assert(self.generations() =~= old(self).generations().update(
                    key.index as int,
                    successor(key.generation),
                ));
                return emptied.value;
            }
        }
        assert(self@ =~= old(self)@.remove(key));
        None
    }

    /// The keys of the live values, in slot order.
    pub fn keys(&self) -> (keys: Vec<Key>)
        requires
            self.wf(),
        ensures
            forall|key: Key| #[trigger] keys@.contains(key) <==> self@.dom().contains(key),
            forall|i: int, j: int|
                0 <= i < j < keys@.len() ==> (#[trigger] keys@[i]).index < (#[trigger] keys@[j]).index,
    {
        let mut keys: Vec<Key> = Vec::new();
        let n: usize = self.slots.len();
        let mut i: usize = 0;
        while i < n
            invariant
                self.wf(),
                n == self.slots@.len(),
                i <= n,
                forall|k: int|
                    0 <= k < keys@.len() ==> (#[trigger] keys@[k]).index < i && addresses(
                        self.slots@,
                        keys@[k],
                    ),
                forall|key: Key|
                    key.index < i && #[trigger] addresses(self.slots@, key) ==> keys@.contains(key),
                forall|a: int, b: int|
                    0 <= a < b < keys@.len() ==> (#[trigger] keys@[a]).index < (
                    #[trigger] keys@[b]).index,
            decreases n - i,
        {
            let ghost before = keys@;
            if self.slots[i].value.is_some() {
                let key = Key { index: i as u32, generation: self.slots[i].generation };
                keys.push(key);
                assert(keys@[before.len() as int] == key);
            }
            assert forall|key: Key|
                key.index < i + 1 && #[trigger] addresses(self.slots@, key) implies keys@.contains(
                key,
            ) by {
                if key.index < i {
                    assert(before.contains(key));
                    let k = choose|k: int| 0 <= k < before.len() && before[k] == key;
                    assert(keys@[k] == key);
                }
            }
            i += 1;
        }
        keys
    }
}

impl<T> Default for Arena<T> {
    /// An empty arena.
    fn default() -> (arena: Self)
        ensures
            arena.wf(),
            arena@ == Map::<Key, T>::empty(),
    {
        Self::new()
    }
}

/// A slot has at most one live key, which carries the slot's current generation, and a live slot
/// is not on the free list.
pub proof fn law_one_live_key_per_slot<T>(arena: Arena<T>, a: Key, b: Key)
    requires
        arena.wf(),
        arena@.dom().contains(a),
        arena@.dom().contains(b),
        a.index == b.index,
    ensures
        a == b,
        a.generation == arena.generations()[a.index as int],
        !arena.free_slots().contains(a.index),
{
}

/// The slot that a removal freed is the one the next insertion reuses, under a key that differs
/// from the removed one: the old key stays stale.
pub proof fn law_reuse_strands_the_old_key<T>(before: Arena<T>, after: Arena<T>, key: Key)
    requires
        before.wf(),
        before@.dom().contains(key),
        after.generations() == before.generations().update(
            key.index as int,
            successor(key.generation),
        ),
        after.free_slots() == before.free_slots().push(key.index),
    ensures
        after.next_key() == (Key { index: key.index, generation: successor(key.generation) }),
        after.next_key() != key,
{
    assert(after.free_slots().last() == key.index);
}

/// An operation on an arena.
pub enum Op<T> {
    Insert(T),
    Remove(Key),
    /// A value was written through the key's mutable reference.
    Write(Key, T),
}

/// What each operation makes of an arena: `before` became `after`.
pub open spec fn became<T>(before: Arena<T>, op: Op<T>, after: Arena<T>) -> bool {
    &&& before.wf()
    &&& after.wf()
    &&& match op {
        Op::Insert(value) => {
            &&& before.spec_has_room()
            &&& after@ == before@.insert(before.next_key(), value)
            &&& after.generations() == if before.free_slots().len() > 0 {
                before.generations()
            } else {
                before.generations().push(0)
            }
            &&& after.free_slots() == if before.free_slots().len() > 0 {
                before.free_slots().drop_last()
            } else {
                before.free_slots()
            }
        },
        Op::Remove(key) => {
            &&& after@ == before@.remove(key)
            &&& before@.dom().contains(key) ==> {
                &&& after.generations() == before.generations().update(
                    key.index as int,
                    successor(key.generation),
                )
                &&& after.free_slots() == before.free_slots().push(key.index)
            }
            &&& !before@.dom().contains(key) ==> after == before
        },
        Op::Write(key, value) => {
            &&& before@.dom().contains(key)
            &&& after@ == before@.insert(key, value)
            &&& after.generations() == before.generations()
            &&& after.free_slots() == before.free_slots()
        },
    }
}

/// The states that an arena went through, one operation between each and the next.
pub open spec fn is_history<T>(states: Seq<Arena<T>>, ops: Seq<Op<T>>) -> bool {
    &&& states.len() == ops.len() + 1
    &&& states[0].wf()
    &&& forall|i: int|
        0 <= i < ops.len() ==> became(states[i], #[trigger] ops[i], states[i + 1])
}

/// Whether the operation removes a value from the slot `index`.
pub open spec fn empties<T>(before: Arena<T>, op: Op<T>, index: u32) -> bool {
    match op {
        Op::Remove(key) => key.index == index && before@.dom().contains(key),
        _ => false,
    }
}

/// How many of the first `n` operations removed a value from the slot `index`.
pub open spec fn removals<T>(
    states: Seq<Arena<T>>,
    ops: Seq<Op<T>>,
    index: u32,
    n: int,
) -> int
    decreases n,
{
    if n <= 0 {
        0
    } else {
        removals(states, ops, index, n - 1) + if empties(states[n - 1], ops[n - 1], index) {
            1int
        } else {
            0
        }
    }
}

/// Whether `key` was removed by one of the first `n` operations.
pub open spec fn removed<T>(ops: Seq<Op<T>>, key: Key, n: int) -> bool {
    exists|i: int| 0 <= i < n && #[trigger] ops[i] == Op::<T>::Remove(key)
}

proof fn lemma_removals_grow<T>(
    states: Seq<Arena<T>>,
    ops: Seq<Op<T>>,
    index: u32,
    n: int,
    m: int,
)
    requires
        0 <= n <= m,
    ensures
        0 <= removals(states, ops, index, n) <= removals(states, ops, index, m),
    decreases m,
{
    if n < m {
        lemma_removals_grow(states, ops, index, n, m - 1);
    } else if n > 0 {
        lemma_removals_grow(states, ops, index, n - 1, n - 1);
    }
}

/// How one operation bears on a key: `count` removals have emptied its slot so far.
proof fn lemma_key_through_op<T>(
    before: Arena<T>,
    op: Op<T>,
    after: Arena<T>,
    key: Key,
    count: int,
)
    requires
        became(before, op, after),
        0 <= count,
        count + 1 < 0x1_0000_0000 || !empties(before, op, key.index) && count < 0x1_0000_0000,
        key.index < before.generations().len(),
        before.generations()[key.index as int] == (key.generation + count) % 0x1_0000_0000,
        before@.dom().contains(key) <==> count == 0,
    ensures
        ({
            let now = if empties(before, op, key.index) {
                count + 1
            } else {
                count
            };
            &&& key.index < after.generations().len()
            &&& after.generations()[key.index as int] == (key.generation + now) % 0x1_0000_0000
            &&& after@.dom().contains(key) <==> now == 0
            &&& op == Op::<T>::Remove(key) ==> now > 0
            &&& count == 0 && now > 0 ==> op == Op::<T>::Remove(key)
        }),
{
    match op {
        Op::Insert(value) => {
            let fresh = before.next_key();
            if count == 0 {
                law_one_live_key_per_slot(before, key, key);
                if before.free_slots().len() > 0 {
                    assert(before.free_slots().contains(before.free_slots().last()));
                }
            }
        },
        Op::Remove(other) => {
            if before@.dom().contains(other) {
                law_one_live_key_per_slot(before, other, other);
                if other.index == key.index && count == 0 {
                    law_one_live_key_per_slot(before, other, key);
                }
            }
        },
        Op::Write(other, value) => {},
    }
}

proof fn lemma_key_through_history<T>(
    states: Seq<Arena<T>>,
    ops: Seq<Op<T>>,
    key: Key,
    n: int,
)
    requires
        is_history(states, ops),
        states[0]@.dom().contains(key),
        0 <= n <= ops.len(),
        removals(states, ops, key.index, n) < 0x1_0000_0000,
    ensures
        ({
            let count = removals(states, ops, key.index, n);
            &&& 0 <= count
            &&& key.index < states[n].generations().len()
            &&& states[n].generations()[key.index as int] == (key.generation + count)
                % 0x1_0000_0000
            &&& states[n]@.dom().contains(key) <==> count == 0
            &&& removed(ops, key, n) <==> count > 0
        }),
    decreases n,
{
    if n == 0 {
        law_one_live_key_per_slot(states[0], key, key);
    } else {
        lemma_removals_grow(states, ops, key.index, n - 1, n);
        lemma_key_through_history(states, ops, key, n - 1);
        let count = removals(states, ops, key.index, n - 1);
        assert(became(states[n - 1], ops[n - 1], states[n]));
        lemma_key_through_op(states[n - 1], ops[n - 1], states[n], key, count);
        if removed(ops, key, n - 1) {
            let i = choose|i: int| 0 <= i < n - 1 && #[trigger] ops[i] == Op::<T>::Remove(key);
            assert(removed(ops, key, n));
        }
        if ops[n - 1] == Op::<T>::Remove(key) {
            assert(removed(ops, key, n));
        }
    }
}

/// A key is live exactly until it is removed, whatever else happens to the arena: over any history
/// that starts with the key live, the key addresses a value at the end where no operation removed
/// it, and is stale where one did. (Where removals have emptied its slot so often that the
/// generation came round, the key may address a later value; such histories are left out.)
pub proof fn law_a_key_lives_until_removed<T>(
    states: Seq<Arena<T>>,
    ops: Seq<Op<T>>,
    key: Key,
)
    requires
        is_history(states, ops),
        states[0]@.dom().contains(key),
        removals(states, ops, key.index, ops.len() as int) < 0x1_0000_0000,
    ensures
        states.last()@.dom().contains(key) <==> !removed(ops, key, ops.len() as int),
{
    lemma_key_through_history(states, ops, key, ops.len() as int);
}

} // verus!
