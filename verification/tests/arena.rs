use lang::arena::Arena;

#[test]
fn arena_starts_empty() {
    let arena: Arena<u8> = Arena::new();
    assert_eq!(arena.len(), 0);
    let default: Arena<u8> = Arena::default();
    assert_eq!(default.len(), 0);
}

#[test]
fn arena_hands_out_positions_in_order() {
    let mut arena = Arena::new();
    let a = arena.allocate("a");
    let b = arena.allocate("b");
    let c = arena.allocate("c");
    assert_eq!(a.raw(), 0);
    assert_eq!(b.raw(), 1);
    assert_eq!(c.raw(), 2);
    assert_eq!(arena.len(), 3);
}

#[test]
fn arena_reads_back_what_was_allocated() {
    let mut arena = Arena::new();
    let first = arena.allocate(10u32);
    let second = arena.allocate(20u32);
    let _third = arena.allocate(30u32);
    assert_eq!(*arena.index(second), 20);
    assert_eq!(*arena.index(first), 10);
}
