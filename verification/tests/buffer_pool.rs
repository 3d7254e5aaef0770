use vkrender::render::buffer_pool::BufferPool;

#[test]
fn new_pool_is_all_free() {
    let pool = BufferPool::new(100);
    assert_eq!(pool.size(), 100);
    assert_eq!(pool.free_ranges().clone(), vec![0u32..100]);
    assert!(pool.used_ranges().is_empty());
}

#[test]
fn exact_fit_takes_whole_range() {
    let mut pool = BufferPool::new(64);
    assert_eq!(pool.try_allocate(4, 16), Some(0));
    assert!(pool.free_ranges().is_empty());
    assert_eq!(pool.used_ranges().clone(), vec![0u32..64]);
}

#[test]
fn partial_fit_keeps_only_head_piece() {
    // The request is carved from the start of the range; what the free list
    // gets back is the (here empty) piece in front of it.
    let mut pool = BufferPool::new(100);
    assert_eq!(pool.try_allocate(2, 5), Some(0));
    assert_eq!(pool.used_ranges().clone(), vec![0u32..10]);
    assert_eq!(pool.free_ranges().clone(), vec![0u32..0]);
    assert_eq!(pool.try_allocate(1, 1), None);
}

#[test]
fn small_request_leaves_empty_piece() {
    let mut pool = BufferPool::new(16);
    assert_eq!(pool.try_allocate(4, 2), Some(0));
    assert_eq!(pool.used_ranges().clone(), vec![0u32..8]);
    assert_eq!(pool.free_ranges().clone(), vec![0u32..0]);
    assert!(pool.try_free(0..8));
    assert_eq!(pool.free_ranges().clone(), vec![0u32..8]);
}

#[test]
fn whole_range_request_round_trip() {
    let mut pool = BufferPool::new(64);
    assert_eq!(pool.try_allocate(4, 16), Some(0));
    assert!(pool.free_ranges().is_empty());
    assert!(pool.try_free(0..64));
    assert_eq!(pool.free_ranges().clone(), vec![0u32..64]);
    assert!(pool.used_ranges().is_empty());
}

#[test]
fn too_large_request_fails_without_change() {
    let mut pool = BufferPool::new(16);
    assert_eq!(pool.try_allocate(4, 5), None);
    assert_eq!(pool.free_ranges().clone(), vec![0u32..16]);
    assert!(pool.used_ranges().is_empty());
}

#[test]
fn free_returns_range_and_merges() {
    let mut pool = BufferPool::new(100);
    assert_eq!(pool.try_allocate(1, 40), Some(0));
    assert!(pool.try_free(0..40));
    assert!(pool.used_ranges().is_empty());
    assert_eq!(pool.free_ranges().clone(), vec![0u32..40]);
    assert_eq!(pool.try_allocate(8, 5), Some(0));
}

#[test]
fn free_of_unknown_range_is_refused() {
    let mut pool = BufferPool::new(32);
    assert_eq!(pool.try_allocate(1, 32), Some(0));
    assert!(!pool.try_free(0..16));
    assert_eq!(pool.used_ranges().clone(), vec![0u32..32]);
    assert!(pool.try_free(0..32));
    assert!(!pool.try_free(0..32));
    assert_eq!(pool.free_ranges().clone(), vec![0u32..32]);
}

#[test]
fn offset_is_counted_in_elements() {
    let mut pool = BufferPool::new(24);
    assert_eq!(pool.try_allocate(12, 2), Some(0));
    assert!(pool.try_free(0..24));
    assert_eq!(pool.try_allocate(6, 4), Some(0));
}

#[test]
fn has_room_and_can_round() {
    let pool = BufferPool::new(16);
    assert!(pool.can_round(4));
    assert!(pool.has_room(4, 4));
    assert!(!pool.has_room(4, 5));
    let edge = BufferPool::new(u32::MAX);
    assert!(edge.can_round(u32::MAX));
    assert!(!BufferPool::new(0).has_room(1, 1));
}
