use fast_book::book::bump::{BumpAllocator, CapacityError};
use fast_book::book::pool::{BasicArena, MemArena};

#[test]
fn bump_store_appends_until_full() {
    let mut store = BumpAllocator::<u64>::with_capacity(2);
    assert!(!store.is_full());
    assert_eq!(store.write(10), Ok(0));
    assert_eq!(store.write(20), Ok(1));
    assert!(store.is_full());
    assert_eq!(store.write(30), Err(CapacityError));
    assert_eq!(store.len(), 2);
    assert_eq!(*store.get(0), 10);
    *store.get(1) = 25;
    assert_eq!(*store.peek(1), 25);
    store.set(0, 11);
    assert_eq!(*store.peek(0), 11);
    store.clear();
    assert_eq!(store.len(), 0);
    assert_eq!(store.write(40), Ok(0));
}

#[test]
fn bump_store_of_no_capacity_is_full() {
    let mut store = BumpAllocator::<u8>::with_capacity(0);
    assert!(store.is_full());
    assert_eq!(store.write(1), Err(CapacityError));
}

#[test]
fn arena_reuses_the_slot_freed_last() {
    let mut arena = BasicArena::<u32>::with_capacity(3);
    assert_eq!(arena.allocate(), Ok(0));
    assert_eq!(arena.allocate(), Ok(1));
    assert_eq!(arena.allocate(), Ok(2));
    assert!(arena.is_full());
    assert_eq!(arena.allocate(), Err(CapacityError));
    arena.set(0, 100);
    arena.set(1, 101);
    arena.set(2, 102);
    assert_eq!(arena.len(), 3);
    arena.free(0);
    arena.free(2);
    assert_eq!(arena.len(), 1);
    assert_eq!(arena.allocate(), Ok(2));
    assert_eq!(arena.allocate(), Ok(0));
    assert_eq!(arena.allocate(), Err(CapacityError));
    assert_eq!(*arena.index(1), 101);
    arena.set(2, 7);
    assert_eq!(*arena.index(2), 7);
    arena.clear();
    assert_eq!(arena.len(), 0);
    assert_eq!(arena.allocate(), Ok(0));
}

#[test]
fn arena_slot_is_changed_in_place() {
    let mut arena = BasicArena::<u32>::with_capacity(2);
    let slot = arena.allocate().unwrap();
    arena.set(slot, 5);
    *arena.index_mut(slot) += 1;
    assert_eq!(*arena.index(slot), 6);
}
