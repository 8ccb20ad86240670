use toolbox::arena::typed::{Arena, MIN_CAPACITY};

#[test]
fn fill() {
    let mut arena = Arena::new();
    assert_eq!(arena.capacity(), MIN_CAPACITY);
    for i in 0..15 {
        arena.insert(i);
    }
    assert_eq!(arena.get_free(), None);
    assert_eq!(arena.capacity(), MIN_CAPACITY);
}

#[test]
fn capacity_is_clamped_to_minimum() {
    let arena: Arena<u32> = Arena::with_capacity(256);
    assert_eq!(arena.capacity(), 256);
    let small: Arena<i32> = Arena::with_capacity(8);
    assert_eq!(small.capacity(), 16);
    let zero: Arena<i32> = Arena::with_capacity(0);
    assert_eq!(zero.capacity(), 16);
}

#[test]
fn fresh_arena_free_list_starts_at_slot_one() {
    let arena: Arena<u8> = Arena::with_capacity(20);
    assert_eq!(arena.get_free(), Some(1));
}

#[test]
fn insert_get_remove_round_trip() {
    let mut arena: Arena<u32> = Arena::new();
    let index = arena.insert(10);
    assert_eq!(arena.get(index), Some(&10));
    assert_eq!(arena.remove(index), Some(10));
    assert_eq!(arena.get(index), None);
}

#[test]
fn second_remove_finds_nothing() {
    let mut arena: Arena<String> = Arena::new();
    let index = arena.insert("x".to_string());
    assert_eq!(arena.remove(index), Some("x".to_string()));
    assert_eq!(arena.remove(index), None);
}

#[test]
fn removed_slot_is_reused_first() {
    let mut arena: Arena<u32> = Arena::new();
    let a = arena.insert(1);
    let _b = arena.insert(2);
    assert_eq!(arena.get_free(), Some(3));
    arena.remove(a);
    assert_eq!(arena.get_free(), Some(1));
    let c = arena.insert(3);
    assert_eq!(c, a);
    assert_eq!(arena.get(c), Some(&3));
    assert_eq!(arena.get_free(), Some(3));
}

#[test]
fn distinct_handles_name_distinct_values() {
    let mut arena: Arena<u32> = Arena::new();
    let a = arena.insert(1);
    let b = arena.insert(2);
    assert_ne!(a, b);
    assert_eq!(arena.get(a), Some(&1));
    assert_eq!(arena.get(b), Some(&2));
}

#[test]
fn try_insert_on_full_arena_hands_item_back() {
    let mut arena: Arena<u32> = Arena::new();
    for i in 0..15 {
        assert!(arena.try_insert(i).is_ok());
    }
    assert_eq!(arena.try_insert(99), Err(99));
    assert_eq!(arena.capacity(), 16);
}

#[test]
fn insert_on_full_arena_doubles_capacity() {
    let mut arena: Arena<u32> = Arena::new();
    let mut handles = Vec::new();
    for i in 0..15 {
        handles.push(arena.insert(i));
    }
    let extra = arena.insert(100);
    assert_eq!(arena.capacity(), 32);
    assert_eq!(arena.get(extra), Some(&100));
    for (i, h) in handles.iter().enumerate() {
        assert_eq!(arena.get(*h), Some(&(i as u32)));
    }
    assert_eq!(arena.get_free(), Some(17));
}

#[test]
fn capacity_never_shrinks() {
    let mut arena: Arena<u32> = Arena::new();
    let mut last = arena.capacity();
    let mut handles = Vec::new();
    for i in 0..40 {
        handles.push(arena.insert(i));
        assert!(arena.capacity() >= last);
        last = arena.capacity();
    }
    for h in handles {
        arena.remove(h);
        assert!(arena.capacity() >= last);
    }
    assert_eq!(arena.iter().len(), 0);
}

#[test]
fn get_mut_changes_one_value() {
    let mut arena: Arena<u32> = Arena::new();
    let a = arena.insert(1);
    let b = arena.insert(2);
    if let Some(v) = arena.get_mut(a) {
        *v = 7;
    }
    assert_eq!(arena.get(a), Some(&7));
    assert_eq!(arena.get(b), Some(&2));
    arena.remove(b);
    assert!(arena.get_mut(b).is_none());
}

#[test]
fn iter_yields_values_in_slot_order() {
    let mut arena: Arena<u32> = Arena::new();
    let a = arena.insert(10);
    let _b = arena.insert(20);
    let _c = arena.insert(30);
    arena.remove(a);
    let _d = arena.insert(40);
    let values: Vec<u32> = arena.iter().into_iter().copied().collect();
    assert_eq!(values, vec![40, 20, 30]);
}
