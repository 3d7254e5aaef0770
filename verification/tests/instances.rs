use vkrender::scene::instances::InstanceList;

#[test]
fn new_instance_is_uploaded_once() {
    let mut list: InstanceList<[u32; 4]> = InstanceList::new(16);
    assert_eq!(list.max_instance_count(), 16);
    let h = list.allocate([1, 2, 3, 4]);
    assert_eq!(h.index(), 0);
    assert_eq!(list.take_dirty(), vec![0usize]);
    assert!(list.take_dirty().is_empty());
    assert_eq!(*list.value(0), [1, 2, 3, 4]);
}

#[test]
fn update_marks_instance_again() {
    let mut list: InstanceList<u64> = InstanceList::new(4);
    let a = list.allocate(1);
    let b = list.allocate(2);
    assert_eq!(list.take_dirty(), vec![0usize, 1]);
    b.update(&mut list, 20);
    assert_eq!(list.take_dirty(), vec![1usize]);
    assert_eq!(*list.value(1), 20);
    a.update(&mut list, 10);
    b.update(&mut list, 21);
    assert_eq!(list.take_dirty(), vec![0usize, 1]);
}

#[test]
fn released_slot_is_reused() {
    let mut list: InstanceList<u32> = InstanceList::new(4);
    let a = list.allocate(1);
    let _b = list.allocate(2);
    list.release(&a);
    assert_eq!(list.take_dirty(), vec![1usize]);
    let c = list.allocate(3);
    assert_eq!(c.index(), 0);
    assert_eq!(list.take_dirty(), vec![0usize]);
}

#[test]
fn offset_is_slot_times_size() {
    let mut list: InstanceList<[u32; 32]> = InstanceList::new(4);
    let a = list.allocate([0; 32]);
    let b = list.allocate([1; 32]);
    assert_eq!(a.offset_bytes(), 0);
    assert_eq!(b.offset_bytes(), 128);
}
