use vkrender::scene::mesh::IndexBufferProxy;

#[test]
fn index_sizes_and_counts() {
    assert_eq!(IndexBufferProxy::NoIndices.index_size_bytes(), 0);
    assert_eq!(IndexBufferProxy::NoIndices.index_count(), 0);
    assert_eq!(IndexBufferProxy::U8(vec![1, 2, 3]).index_size_bytes(), 1);
    assert_eq!(IndexBufferProxy::U8(vec![1, 2, 3]).index_count(), 3);
    assert_eq!(IndexBufferProxy::U16(vec![1, 2]).index_size_bytes(), 2);
    assert_eq!(IndexBufferProxy::U16(vec![1, 2]).index_count(), 2);
    assert_eq!(IndexBufferProxy::U32(vec![9]).index_size_bytes(), 4);
    assert_eq!(IndexBufferProxy::U32(vec![9]).index_count(), 1);
}
