use vkrender::render::mesh_pool::{GarbageError, MeshAllocError, MeshPool};

#[test]
fn new_pool_has_one_vertex_buffer() {
    let pool = MeshPool::new(1024, 4096, 4);
    assert_eq!(pool.vertex_pool_count(), 1);
    assert_eq!(pool.vertex_pool_size(), 4096);
    assert_eq!(pool.index_pool().size(), 1024);
    assert!(pool.vertex_pool(0).is_some());
    assert!(pool.vertex_pool(1).is_none());
    assert!(pool.garbage().is_empty());
}

#[test]
fn mesh_with_indices_and_vertices() {
    let mut pool = MeshPool::new(1024, 4096, 4);
    assert!(pool.can_alloc_mesh(32, 2, 3, 6));
    let m = pool.alloc_mesh(32, 2, 3, 6).unwrap();
    assert_eq!(m.num_indices(), 6);
    assert_eq!(m.num_verts(), 3);
    assert_eq!(m.vpool_id(), 0);
    assert_eq!(m.vertex_offset(), 0);
    assert_eq!(m.index_offset(), 0);
    assert_eq!(m.index_size_bytes(), 2);
    assert_eq!(m.vertex_stride(), 32);
    assert_eq!(m.vertex_byte_offset(), 0);
    assert_eq!(m.index_offset_bytes(), 0);
    assert!(m.has_indices());
    assert_eq!(m.vertex_buffer(), Some(0));
    assert_eq!(m.last_frame_used(), 0);
    assert_eq!(pool.index_pool().used_ranges().clone(), vec![0u32..12]);
    assert_eq!(pool.vertex_pool(0).unwrap().used_ranges().clone(), vec![0u32..96]);
}

#[test]
fn full_vertex_buffer_adds_another() {
    let mut pool = MeshPool::new(1024, 4096, 4);
    let _first = pool.alloc_mesh(32, 0, 3, 0).unwrap();
    let second = pool.alloc_mesh(32, 0, 4, 0).unwrap();
    assert_eq!(second.vpool_id(), 1);
    assert_eq!(second.vertex_offset(), 0);
    assert!(!second.has_indices());
    assert_eq!(second.index_size_bytes(), 0);
    assert_eq!(pool.vertex_pool_count(), 2);
}

#[test]
fn index_buffer_out_of_memory() {
    let mut pool = MeshPool::new(16, 4096, 4);
    let _m = pool.alloc_mesh(0, 4, 0, 2).unwrap();
    assert_eq!(pool.alloc_mesh(0, 4, 0, 2).err(), Some(MeshAllocError::IndexOutOfMemory));
}

#[test]
fn vertex_buffer_out_of_memory_at_limit() {
    let mut pool = MeshPool::new(64, 64, 1);
    let _m = pool.alloc_mesh(4, 0, 2, 0).unwrap();
    assert_eq!(pool.alloc_mesh(4, 0, 2, 0).err(), Some(MeshAllocError::VertexOutOfMemory));
    assert_eq!(pool.vertex_pool_count(), 1);
}

#[test]
fn unsupported_requests_are_reported() {
    let pool = MeshPool::new(64, 64, 4);
    assert!(!pool.can_alloc_mesh(4, 3, 2, 2));
    assert!(!pool.can_alloc_mesh(0, 0, 0, 0));
    assert!(!pool.can_alloc_mesh(4, 0, 100, 0));
    assert!(pool.can_alloc_mesh(4, 0, 16, 0));
}

#[test]
fn released_mesh_returns_once_its_frame_is_done() {
    let mut pool = MeshPool::new(1024, 4096, 4);
    let mut m = pool.alloc_mesh(32, 2, 3, 6).unwrap();
    m.update_lfu(5);
    m.update_lfu(3);
    assert_eq!(m.last_frame_used(), 5);
    pool.release_mesh(&m);
    assert_eq!(pool.garbage().len(), 1);
    assert_eq!(pool.collect_garbage(4), Ok(()));
    assert_eq!(pool.garbage().len(), 1);
    assert_eq!(pool.index_pool().used_ranges().len(), 1);
    assert_eq!(pool.collect_garbage(5), Ok(()));
    assert!(pool.garbage().is_empty());
    assert!(pool.index_pool().used_ranges().is_empty());
    assert!(pool.vertex_pool(0).unwrap().used_ranges().is_empty());
    assert_eq!(pool.index_pool().free_ranges().clone(), vec![0u32..12]);
    assert_eq!(pool.vertex_pool(0).unwrap().free_ranges().clone(), vec![0u32..96]);
}

#[test]
fn releasing_twice_is_reported() {
    let mut pool = MeshPool::new(1024, 4096, 4);
    let m = pool.alloc_mesh(32, 2, 3, 6).unwrap();
    pool.release_mesh(&m);
    pool.release_mesh(&m);
    assert_eq!(pool.collect_garbage(0), Err(GarbageError::IndexRangeNotAllocated));
}

#[test]
fn releasing_vertices_twice_is_reported() {
    let mut pool = MeshPool::new(1024, 4096, 4);
    let m = pool.alloc_mesh(32, 0, 3, 0).unwrap();
    pool.release_mesh(&m);
    pool.release_mesh(&m);
    assert_eq!(pool.collect_garbage(0), Err(GarbageError::VertexRangeNotAllocated));
}

#[test]
fn vertex_request_uses_count_as_element_size() {
    let mut pool = MeshPool::new(64, 4096, 4);
    let m = pool.alloc_mesh(8, 0, 5, 0).unwrap();
    assert_eq!(pool.vertex_pool(0).unwrap().used_ranges().clone(), vec![0u32..40]);
    assert_eq!(m.vertex_offset(), 0);
}

#[test]
fn placed_mesh_can_be_released() {
    let mut pool = MeshPool::new(1024, 4096, 4);
    let m = pool.alloc_mesh(32, 2, 3, 6).unwrap();
    assert!(MeshPool::can_release(&m));
}
