//! Generational slots.

use reflector::reactor::arena::{Arena, Key};

#[test]
fn insert_then_get_returns_value() {
    let mut arena = Arena::new();
    let key = arena.insert("hello");
    assert_eq!(arena.get(key), Some(&"hello"));
    assert!(arena.contains(key));
}

#[test]
fn get_mut_allows_mutation() {
    let mut arena = Arena::new();
    let key = arena.insert(1);
    *arena.get_mut(key).unwrap() += 41;
    assert_eq!(arena.get(key), Some(&42));
}

#[test]
fn remove_returns_value_and_strands_the_key() {
    let mut arena = Arena::new();
    let key = arena.insert("v");
    assert_eq!(arena.remove(key), Some("v"));
    assert_eq!(arena.get(key), None);
    assert!(!arena.contains(key));
    // Removing an already-stale key is a no-op.
    assert_eq!(arena.remove(key), None);
}

#[test]
fn reused_slot_gets_a_fresh_generation() {
    let mut arena = Arena::new();
    let first = arena.insert("first");
    arena.remove(first);
    let second = arena.insert("second");
    // The free list reuses the slot, so the index matches but the generation
    // differs: the old key stays stale, the new key is live.
    assert_eq!(first.index, second.index);
    assert_ne!(first.generation, second.generation);
    assert_eq!(arena.get(first), None);
    assert_eq!(arena.get(second), Some(&"second"));
}

#[test]
fn wrong_generation_key_does_not_resolve() {
    let mut arena = Arena::new();
    let key = arena.insert("v");
    let forged = Key {
        index: key.index,
        generation: key.generation.wrapping_add(1),
    };
    assert_eq!(arena.get(forged), None);
}

#[test]
fn out_of_range_key_does_not_resolve() {
    let arena: Arena<i32> = Arena::new();
    let bogus = Key {
        index: 999,
        generation: 0,
    };
    assert_eq!(arena.get(bogus), None);
}

#[test]
fn distinct_keys_are_independent() {
    let mut arena = Arena::new();
    let a = arena.insert("a");
    let b = arena.insert("b");
    assert_ne!(a, b);
    arena.remove(a);
    // Removing one leaves the other untouched.
    assert_eq!(arena.get(a), None);
    assert_eq!(arena.get(b), Some(&"b"));
}

#[test]
fn copied_key_addresses_the_same_slot() {
    let mut arena = Arena::new();
    let key = arena.insert("shared");
    // `Key: Copy`, so this duplicates the handle; `key` stays usable afterward
    // (a move would forbid the uses below): copyable handles, not pointers.
    let copy = key;
    assert_eq!(key, copy);
    assert_eq!(arena.get(key), Some(&"shared"));
    assert_eq!(arena.get(copy), Some(&"shared"));
    // Both name the same slot: a mutation through one is seen through the other.
    *arena.get_mut(copy).unwrap() = "updated";
    assert_eq!(arena.get(key), Some(&"updated"));
}

#[test]
fn key_u64_round_trips() {
    for key in [
        Key {
            index: 0,
            generation: 0,
        },
        Key {
            index: 1,
            generation: 2,
        },
        Key {
            index: u32::MAX,
            generation: 0,
        },
        Key {
            index: 0,
            generation: u32::MAX,
        },
        Key {
            index: u32::MAX,
            generation: u32::MAX,
        },
    ] {
        assert_eq!(Key::from_u64(key.to_u64()), key);
    }
}

#[test]
fn one_live_key_per_slot() {
    let mut arena: Arena<u32> = Arena::new();
    let first = arena.insert(1);
    arena.remove(first);
    let second = arena.insert(2);
    assert_eq!(first.index, second.index);
    assert_ne!(first, second);
    assert_ne!(first.to_u64(), second.to_u64());
    assert_eq!(arena.keys(), [second]);
    assert!(!arena.contains(first));
}

#[test]
fn a_key_lives_until_it_is_removed() {
    let mut arena: Arena<u32> = Arena::new();
    let key = arena.insert(7);
    let other = arena.insert(8);
    assert_eq!(arena.remove(other), Some(8));
    let third = arena.insert(9);
    *arena.get_mut(key).unwrap() = 70;
    assert!(arena.contains(key) && arena.contains(third) && !arena.contains(other));
    assert_eq!(arena.remove(key), Some(70));
    for _ in 0..5 {
        let next = arena.insert(1);
        assert_eq!(next.index, key.index);
        assert!(!arena.contains(key) && arena.get(key).is_none());
        assert_eq!(arena.remove(key), None);
        assert_eq!(arena.remove(next), Some(1));
    }
    assert!(arena.contains(third));
}
