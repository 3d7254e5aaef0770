use vkrender::scene::graph::{Primitive, SceneGraph};
use vkrender::scene::import::{plan_mesh_loads, ImportNode, ResImportList};
use vkrender::scene::import_check::import_node_count;

#[test]
fn new_graph_has_only_root() {
    let g: SceneGraph<i32, u32> = SceneGraph::new(1);
    assert_eq!(g.len(), 1);
    let root = g.node(0);
    assert_eq!(root.name, "scene_root");
    assert_eq!(root.transform, 1);
    assert_eq!(root.parent, 0);
    assert!(root.children.is_empty());
    assert!(root.inst_data.is_none());
}

#[test]
fn nodes_are_numbered_and_linked() {
    let mut g: SceneGraph<i32, u32> = SceneGraph::new(0);
    let a = g.add_node(0, String::from("a"), 10);
    let b = g.add_node(a, String::from("b"), 20);
    let c = g.add_node(0, String::from("c"), 30);
    assert_eq!((a, b, c), (1, 2, 3));
    assert_eq!(g.node(0).children, vec![1u32, 3]);
    assert_eq!(g.node(1).children, vec![2u32]);
    assert_eq!(g.node(2).parent, 1);
    assert_eq!(g.node(3).name, "c");
    assert_eq!(g.node(3).transform, 30);
}

#[test]
fn walk_is_depth_first() {
    let mut g: SceneGraph<i32, u32> = SceneGraph::new(0);
    let a = g.add_node(0, String::from("a"), 0);
    let _b = g.add_node(a, String::from("b"), 0);
    let _c = g.add_node(0, String::from("c"), 0);
    let _d = g.add_node(a, String::from("d"), 0);
    assert_eq!(g.walk_order(0), vec![0u32, 1, 2, 4, 3]);
    assert_eq!(g.walk_order(1), vec![1u32, 2, 4]);
    assert_eq!(g.walk_order(3), vec![3u32]);
}

#[test]
fn node_payload_changes() {
    let mut g: SceneGraph<i32, u32> = SceneGraph::new(0);
    let a = g.add_node(0, String::from("a"), 5);
    g.set_transform(a, 6);
    g.set_inst_data(a, Some(9));
    g.add_primitive(a, Primitive { mesh_id: 2, material_id: 0 });
    g.remove_node(a);
    let n = g.node(a);
    assert_eq!(n.transform, 6);
    assert_eq!(n.inst_data, Some(9));
    assert_eq!(n.primitives.len(), 1);
    assert_eq!(n.primitives[0].mesh_id, 2);
    assert_eq!(g.len(), 2);
}

fn file_node(name: &str, mesh: Option<u32>, children: Vec<usize>) -> ImportNode<i32> {
    ImportNode { name: String::from(name), transform: 1, mesh, children }
}

#[test]
fn import_adds_file_nodes_and_records_meshes() {
    // File: node 0 (mesh 1) with children 1 and 2; node 2 (mesh 0); node 3 is a
    // second root drawing mesh 1.
    let gnodes = vec![
        file_node("top", Some(1), vec![1, 2]),
        file_node("left", None, vec![]),
        file_node("right", Some(0), vec![]),
        file_node("other", Some(1), vec![]),
    ];
    let mut g: SceneGraph<i32, u32> = SceneGraph::new(0);
    let mut res = ResImportList::new();
    g.import_gltf_nodes(&gnodes, &vec![0, 3], &mut res);
    assert_eq!(g.len(), 5);
    assert_eq!(g.node(0).children, vec![1u32, 4]);
    assert_eq!(g.node(1).name, "top");
    assert_eq!(g.node(1).children, vec![2u32, 3]);
    assert_eq!(g.node(3).name, "right");
    assert_eq!(g.node(3).parent, 1);
    assert_eq!(res.nodes_for(0).cloned(), Some(vec![3u32]));
    assert_eq!(res.nodes_for(1).cloned(), Some(vec![1u32, 4]));
    assert!(res.nodes_for(2).is_none());
    assert!(res.contains_mesh(1));
    assert!(!res.contains_mesh(2));

    let plan = plan_mesh_loads(&res, &vec![2, 1, 5]);
    assert_eq!(plan, vec![(0u32, 0usize), (0, 1), (1, 0)]);

    g.assign_primitives(&plan, &res);
    assert_eq!(g.node(3).primitives.len(), 2);
    assert_eq!(g.node(3).primitives[0].mesh_id, 0);
    assert_eq!(g.node(3).primitives[1].mesh_id, 1);
    assert_eq!(g.node(1).primitives.len(), 1);
    assert_eq!(g.node(1).primitives[0].mesh_id, 2);
    assert_eq!(g.node(4).primitives[0].mesh_id, 2);
    assert_eq!(g.node(4).primitives[0].material_id, 0);
    assert!(g.node(2).primitives.is_empty());

    // every node with a primitive gets an instance, in walk order
    assert_eq!(g.instance_targets(), vec![1u32, 3, 4]);
}

#[test]
fn nodes_without_primitives_get_no_instance() {
    let mut g: SceneGraph<i32, u32> = SceneGraph::new(0);
    let a = g.add_node(0, String::from("a"), 0);
    let b = g.add_node(a, String::from("b"), 0);
    let _c = g.add_node(0, String::from("c"), 0);
    assert!(g.instance_targets().is_empty());
    g.add_primitive(b, Primitive { mesh_id: 0, material_id: 0 });
    assert_eq!(g.instance_targets(), vec![b]);
}

#[test]
fn shared_file_node_is_imported_twice() {
    let gnodes = vec![
        file_node("a", None, vec![2]),
        file_node("b", None, vec![2]),
        file_node("shared", Some(0), vec![]),
    ];
    let mut g: SceneGraph<i32, u32> = SceneGraph::new(0);
    let mut res = ResImportList::new();
    g.import_gltf_nodes(&gnodes, &vec![0, 1], &mut res);
    assert_eq!(g.len(), 5);
    assert_eq!(res.nodes_for(0).cloned(), Some(vec![2u32, 4]));
    assert_eq!(g.walk_order(0), vec![0u32, 1, 2, 3, 4]);
}

#[test]
fn import_count_counts_shared_nodes_twice() {
    let gnodes = vec![
        file_node("a", None, vec![2]),
        file_node("b", None, vec![2]),
        file_node("shared", Some(0), vec![]),
    ];
    assert_eq!(import_node_count(&gnodes, &vec![0, 1]), Some(4));
    assert_eq!(import_node_count(&gnodes, &vec![2]), Some(1));
    assert_eq!(import_node_count(&gnodes, &Vec::new()), Some(0));
}

#[test]
fn import_count_refuses_cycles_and_missing_nodes() {
    let cyclic = vec![
        file_node("a", None, vec![1]),
        file_node("b", None, vec![0]),
    ];
    assert_eq!(import_node_count(&cyclic, &vec![0]), None);
    let missing_child = vec![file_node("a", None, vec![5])];
    assert_eq!(import_node_count(&missing_child, &vec![0]), None);
    let fine = vec![file_node("a", None, vec![])];
    assert_eq!(import_node_count(&fine, &vec![1]), None);
}
