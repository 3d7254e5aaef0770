use vkrender::render::subpass_node::{NodeList, RenderSubpass};

#[test]
fn registered_node_runs_until_toggled() {
    let mut list: NodeList<u32> = NodeList::new();
    let h = list.register_node(RenderSubpass::Normal, String::from("scene"), 7);
    assert_eq!(h.id(), 0);
    assert!(h.is_enabled(&list));
    assert_eq!(list.enabled_nodes(RenderSubpass::Normal), vec![0u32]);
    h.toggle(&mut list);
    assert!(!h.is_enabled(&list));
    assert!(list.enabled_nodes(RenderSubpass::Normal).is_empty());
    h.toggle(&mut list);
    assert!(h.is_enabled(&list));
}

#[test]
fn subpasses_keep_separate_lists() {
    let mut list: NodeList<&str> = NodeList::new();
    let a = list.register_node(RenderSubpass::BeforeRender, String::from("upload"), "a");
    let b = list.register_node(RenderSubpass::Normal, String::from("draw"), "b");
    let c = list.register_node(RenderSubpass::Normal, String::from("draw2"), "c");
    assert_eq!(a.id(), 0);
    assert_eq!(b.id(), 0);
    assert_eq!(c.id(), 1);
    assert_eq!(list.enabled_nodes(RenderSubpass::BeforeRender), vec![0u32]);
    assert_eq!(list.enabled_nodes(RenderSubpass::Normal), vec![0u32, 1]);
}

#[test]
fn removed_slot_is_reused() {
    let mut list: NodeList<u32> = NodeList::new();
    let a = list.register_node(RenderSubpass::Normal, String::from("a"), 1);
    let _b = list.register_node(RenderSubpass::Normal, String::from("b"), 2);
    list.remove_node(&a);
    assert_eq!(list.enabled_nodes(RenderSubpass::Normal), vec![1u32]);
    let c = list.register_node(RenderSubpass::Normal, String::from("c"), 3);
    assert_eq!(c.id(), 0);
    assert_eq!(*list.callback_mut(RenderSubpass::Normal, 0), 3);
}

#[test]
fn callback_can_be_changed() {
    let mut list: NodeList<u32> = NodeList::new();
    let a = list.register_node(RenderSubpass::Normal, String::from("a"), 1);
    *list.callback_mut(RenderSubpass::Normal, a.id()) += 10;
    assert_eq!(*list.callback_mut(RenderSubpass::Normal, 0), 11);
}

#[test]
fn subpass_indices() {
    assert_eq!(RenderSubpass::Normal.index(), 0);
    assert_eq!(RenderSubpass::BeforeRender.index(), 1);
    assert_eq!(RenderSubpass::Count.index(), 2);
    assert_eq!(RenderSubpass::Normal.render_pass_index(), Some(0));
    assert_eq!(RenderSubpass::BeforeRender.render_pass_index(), None);
}

#[test]
fn node_runs_after_even_number_of_toggles() {
    let mut list: NodeList<u8> = NodeList::new();
    let h = list.register_node(RenderSubpass::Normal, String::from("n"), 1);
    assert_eq!(list.slot_count(RenderSubpass::Normal), 1);
    assert_eq!(list.slot_count(RenderSubpass::BeforeRender), 0);
    for k in 1..=5u32 {
        h.toggle(&mut list);
        assert_eq!(h.is_enabled(&list), k % 2 == 0);
    }
}
