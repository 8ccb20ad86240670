use toolbox::arena::generational::Arena;
use toolbox::arena::Arena as SlotArena;

#[test]
fn new() {
    let a = Arena::<u32>::with_capacity(256);
    assert_eq!(a.next_free(), Some(1))
}

#[test]
fn generational_capacity_counts_usable_slots() {
    let a = Arena::<u32>::with_capacity(4);
    assert_eq!(a.capacity(), 16);
    let b = Arena::<u32>::with_capacity(100);
    assert_eq!(b.capacity(), 100);
}

#[test]
fn generational_round_trip() {
    let mut a = Arena::<u32>::with_capacity(16);
    let h = a.insert(5);
    assert_eq!(a.get(h), Some(&5));
    assert_eq!(a.remove(h), Some(5));
    assert_eq!(a.get(h), None);
    assert_eq!(a.remove(h), None);
}

#[test]
fn stale_handle_is_rejected_after_reuse() {
    let mut a = Arena::<u32>::with_capacity(16);
    let h = a.insert(1);
    assert_eq!(a.remove(h), Some(1));
    let fresh = a.insert(2);
    assert_ne!(fresh, h);
    assert_eq!(a.get(h), None);
    assert_eq!(a.get(fresh), Some(&2));
    assert_eq!(a.remove(h), None);
    assert_eq!(a.get(fresh), Some(&2));
}

#[test]
fn stale_handle_after_many_reuses() {
    let mut a = Arena::<u32>::with_capacity(16);
    let first = a.insert(0);
    a.remove(first);
    let mut current = a.insert(1);
    for i in 2..200 {
        a.remove(current);
        current = a.insert(i);
        assert_eq!(a.get(first), None);
    }
    assert_eq!(a.get(current), Some(&199));
}

#[test]
fn generational_try_insert_when_full() {
    let mut a = Arena::<u32>::with_capacity(16);
    for i in 0..16 {
        assert!(a.try_insert(i).is_ok());
    }
    assert_eq!(a.next_free(), None);
    assert_eq!(a.try_insert(77), Err(77));
    let h = a.insert(78);
    assert_eq!(a.capacity(), 32);
    assert_eq!(a.get(h), Some(&78));
}

#[test]
fn generational_get_mut() {
    let mut a = Arena::<u32>::with_capacity(16);
    let h = a.insert(3);
    *a.get_mut(h).unwrap() += 1;
    assert_eq!(a.get(h), Some(&4));
    a.remove(h);
    assert!(a.get_mut(h).is_none());
}

#[test]
fn arena_trait_on_generational_arena() {
    let mut a = <Arena<u32> as SlotArena>::with_capacity(20);
    assert_eq!(SlotArena::capacity(&a), 20);
    let h = SlotArena::insert(&mut a, 9);
    assert_eq!(SlotArena::get(&a, h), Some(&9));
    assert_eq!(SlotArena::remove(&mut a, h), Some(9));
    assert_eq!(SlotArena::get(&a, h), None);
    let b = <Arena<u32> as SlotArena>::new();
    assert_eq!(SlotArena::capacity(&b), 16);
}

#[test]
fn arena_trait_try_insert_fails_only_when_full() {
    let mut a = <Arena<u32> as SlotArena>::with_capacity(16);
    for i in 0..16 {
        assert!(SlotArena::try_insert(&mut a, i).is_some());
    }
    assert!(SlotArena::try_insert(&mut a, 99).is_none());
    assert_eq!(SlotArena::capacity(&a), 16);
}
