use vkrender::gen_pool::GenPool;

#[test]
fn allocate_hands_out_slots_in_order() {
    let mut pool: GenPool<&str> = GenPool::new();
    let a = pool.allocate("a");
    let b = pool.allocate("b");
    assert_eq!(a.index(), 0);
    assert_eq!(b.index(), 1);
    assert_eq!(pool.get(&a), Some(&"a"));
    assert_eq!(pool.get(&b), Some(&"b"));
}

#[test]
fn take_returns_value_and_invalidates_handle() {
    let mut pool: GenPool<u32> = GenPool::with_capacity(4);
    let a = pool.allocate(7);
    let a2 = a.clone();
    assert!(pool.check_valid(&a));
    assert_eq!(pool.take(a), 7);
    assert!(!pool.check_valid(&a2));
    assert_eq!(pool.get(&a2), None);
}

#[test]
fn reused_slot_gets_new_generation() {
    let mut pool: GenPool<u32> = GenPool::new();
    let a = pool.allocate(1);
    let stale = a.clone();
    pool.free(a);
    let b = pool.allocate(2);
    assert_eq!(b.index(), 0);
    assert!(!pool.check_valid(&stale));
    assert!(pool.check_valid(&b));
    assert_eq!(pool.get(&stale), None);
    assert_eq!(pool.get(&b), Some(&2));
}

#[test]
fn first_free_slot_is_reused_before_growing() {
    let mut pool: GenPool<u32> = GenPool::new();
    let a = pool.allocate(1);
    let _b = pool.allocate(2);
    let c = pool.allocate(3);
    pool.free(a);
    pool.free(c);
    let d = pool.allocate(4);
    let e = pool.allocate(5);
    let f = pool.allocate(6);
    assert_eq!(d.index(), 0);
    assert_eq!(e.index(), 2);
    assert_eq!(f.index(), 3);
}

#[test]
fn get_mut_changes_value() {
    let mut pool: GenPool<u32> = GenPool::new();
    let a = pool.allocate(10);
    if let Some(v) = pool.get_mut(&a) {
        *v = 11;
    }
    assert_eq!(pool.get(&a), Some(&11));
    let stale = a.clone();
    pool.free(a);
    assert!(pool.get_mut(&stale).is_none());
}

#[test]
fn other_handles_survive_take() {
    let mut pool: GenPool<u32> = GenPool::new();
    let a = pool.allocate(1);
    let b = pool.allocate(2);
    pool.free(a);
    assert_eq!(pool.get(&b), Some(&2));
}

#[test]
fn fresh_pool_can_allocate() {
    let mut pool: GenPool<u32> = GenPool::new();
    assert!(pool.can_allocate());
    let a = pool.allocate(1);
    assert!(pool.can_allocate());
    pool.free(a);
    assert!(pool.can_allocate());
}
