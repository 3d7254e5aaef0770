use std::collections::HashMap;
use vstd::prelude::*;
use crate::scene::graph::{SceneGraph, NodeModel, Primitive, tree_ok, with_child, walk, lemma_walk_shape};

verus! {

/// A node of an imported scene file: its name, its transform, the mesh it
/// draws (by the file's mesh index) and its children (by the file's node index).
pub struct ImportNode<X> {
    pub name: String,
    pub transform: X,
    pub mesh: Option<u32>,
    pub children: Vec<usize>,
}

/// For each mesh of the file that some node draws, the scene nodes that draw
/// it, in the order they were added.
pub struct ResImportList {
    meshes: HashMap<u32, Vec<u32>>,
}

/// Type of a ranking of the file's nodes.
pub type Rank = spec_fn(int) -> nat;

/// `rank` decreases from every node to each of its children, and every child
/// index names a node of the file: the nodes form no cycle.
pub open spec fn ranked<X>(gn: Seq<ImportNode<X>>, rank: Rank) -> bool {
    forall|i: int, k: int|
        0 <= i < gn.len() && 0 <= k < gn[i].children@.len() ==> {
            let c = #[trigger] gn[i].children@[k];
            &&& c < gn.len()
            &&& rank(c as int) < rank(i)
        }
}

/// The scene nodes recorded against file mesh `m`; none when it has no entry.
pub open spec fn nodes_of(res: Map<u32, Seq<u32>>, m: u32) -> Seq<u32> {
    if res.dom().contains(m) {
        res[m]
    } else {
        Seq::empty()
    }
}

/// A ranking of the file's nodes, when there is one.
pub open spec fn some_rank<X>(gn: Seq<ImportNode<X>>) -> Rank {
    choose|rank: Rank| ranked(gn, rank)
}

/// The scene node made for file node `n` under `parent`.
pub open spec fn imported_node<X, I>(n: ImportNode<X>, parent: u32) -> NodeModel<X, I> {
    NodeModel {
        name: n.name@,
        transform: n.transform,
        inst_data: None,
        children: Seq::empty(),
        parent,
        primitives: Seq::empty(),
    }
}

/// Number of scene nodes the import of file node `id` adds: one for it and one
/// per node added below it (a file node reached twice is added twice).
pub open spec fn import_count<X>(gn: Seq<ImportNode<X>>, rank: Rank, id: int) -> nat
    decreases rank(id), 1int, 0int,
{
    if 0 <= id < gn.len() {
        1 + import_count_children(gn, rank, id, gn[id].children@.len() as int)
    } else {
        0
    }
}

pub open spec fn import_count_children<X>(gn: Seq<ImportNode<X>>, rank: Rank, id: int, k: int) -> nat
    decreases rank(id), 0int, k,
{
    if k <= 0 || !(0 <= id < gn.len()) || k > gn[id].children@.len() {
        0
    } else {
        let c = gn[id].children@[k - 1] as int;
        import_count_children(gn, rank, id, k - 1) + if c < gn.len() && rank(c) < rank(id) {
            import_count(gn, rank, c)
        } else {
            0
        }
    }
}

/// Importing file node `id` under scene node `parent`: a scene node is added
/// for it, recorded against its mesh, and its children are imported under it
/// in order. Returns the graph and the mesh lists.
pub open spec fn import_spec<X, I>(
    g: Seq<Option<NodeModel<X, I>>>,
    res: Map<u32, Seq<u32>>,
    gn: Seq<ImportNode<X>>,
    rank: Rank,
    parent: u32,
    id: int,
) -> (Seq<Option<NodeModel<X, I>>>, Map<u32, Seq<u32>>)
    decreases rank(id), 1int, 0int,
{
    if 0 <= id < gn.len() {
        let n = gn[id];
        let node_id = g.len() as u32;
        let g1 = with_child(g, parent, imported_node::<X, I>(n, parent));
        let res1 = match n.mesh {
            Some(m) => res.insert(m, nodes_of(res, m).push(node_id)),
            None => res,
        };
        import_children_spec(g1, res1, gn, rank, node_id, id, n.children@.len() as int)
    } else {
        (g, res)
    }
}

pub open spec fn import_children_spec<X, I>(
    g: Seq<Option<NodeModel<X, I>>>,
    res: Map<u32, Seq<u32>>,
    gn: Seq<ImportNode<X>>,
    rank: Rank,
    node_id: u32,
    id: int,
    k: int,
) -> (Seq<Option<NodeModel<X, I>>>, Map<u32, Seq<u32>>)
    decreases rank(id), 0int, k,
{
    if k <= 0 || !(0 <= id < gn.len()) || k > gn[id].children@.len() {
        (g, res)
    } else {
        let (g1, r1) = import_children_spec(g, res, gn, rank, node_id, id, k - 1);
        let c = gn[id].children@[k - 1] as int;
        if c < gn.len() && rank(c) < rank(id) {
            import_spec(g1, r1, gn, rank, node_id, c)
        } else {
            (g1, r1)
        }
    }
}

/// Number of scene nodes added by importing the first `k` roots.
pub open spec fn roots_count<X>(gn: Seq<ImportNode<X>>, rank: Rank, roots: Seq<usize>, k: int) -> nat
    decreases k,
{
    if k <= 0 || k > roots.len() {
        0
    } else {
        roots_count(gn, rank, roots, k - 1) + import_count(gn, rank, roots[k - 1] as int)
    }
}

/// Importing the first `k` roots under the scene root, in order.
pub open spec fn import_roots_spec<X, I>(
    g: Seq<Option<NodeModel<X, I>>>,
    res: Map<u32, Seq<u32>>,
    gn: Seq<ImportNode<X>>,
    rank: Rank,
    roots: Seq<usize>,
    k: int,
) -> (Seq<Option<NodeModel<X, I>>>, Map<u32, Seq<u32>>)
    decreases k,
{
    if k <= 0 || k > roots.len() {
        (g, res)
    } else {
        let (g1, r1) = import_roots_spec(g, res, gn, rank, roots, k - 1);
        import_spec(g1, r1, gn, rank, 0, roots[k - 1] as int)
    }
}

impl View for ResImportList {
    type V = Map<u32, Seq<u32>>;

    closed spec fn view(&self) -> Map<u32, Seq<u32>> {
        self.meshes@.map_values(|v: Vec<u32>| v@)
    }
}

impl ResImportList {
    /// A list with no mesh recorded.
    pub fn new() -> (r: Self)
        ensures
            r@ == Map::<u32, Seq<u32>>::empty(),
    {
        let r = ResImportList { meshes: HashMap::new() };
        proof {
            assert(r@ =~= Map::<u32, Seq<u32>>::empty());
        }
        r
    }

    /// Whether some node draws file mesh `mesh`.
    pub fn contains_mesh(&self, mesh: u32) -> (r: bool)
        ensures
            r == self@.dom().contains(mesh),
    {
        broadcast use vstd::std_specs::hash::group_hash_axioms;
        self.meshes.contains_key(&mesh)
    }

    /// The scene nodes that draw file mesh `mesh`, if any does.
    pub fn nodes_for(&self, mesh: u32) -> (r: Option<&Vec<u32>>)
        ensures
            match r {
                Some(v) => self@.dom().contains(mesh) && v@ == self@[mesh],
                None => !self@.dom().contains(mesh),
            },
    {
        broadcast use vstd::std_specs::hash::group_hash_axioms;
        self.meshes.get(&mesh)
    }

    fn record(&mut self, mesh: u32, node_id: u32)
        ensures
            final(self)@ == old(self)@.insert(mesh, nodes_of(old(self)@, mesh).push(node_id)),
    {
        broadcast use vstd::std_specs::hash::group_hash_axioms;
        let mut list: Vec<u32> = match self.meshes.remove(&mesh) {
            Some(v) => v,
            None => Vec::new(),
        };
        list.push(node_id);
        self.meshes.insert(mesh, list);
        proof {
            assert(self@ =~= old(self)@.insert(mesh, nodes_of(old(self)@, mesh).push(node_id)));
        }
    }
}

impl<X: Copy, I> SceneGraph<X, I> {
    fn import_gltf_node(
        &mut self,
        parent: u32,
        gnodes: &Vec<ImportNode<X>>,
        gid: usize,
        resources: &mut ResImportList,
        Ghost(rank): Ghost<Rank>,
    )
        requires
            tree_ok(old(self)@),
            parent < old(self)@.len(),
            gid < gnodes@.len(),
            ranked(gnodes@, rank),
            old(self)@.len() + import_count(gnodes@, rank, gid as int) < u32::MAX,
        ensures
            tree_ok(final(self)@),
            (final(self)@, final(resources)@) == import_spec(
                old(self)@,
                old(resources)@,
                gnodes@,
                rank,
                parent,
                gid as int,
            ),
            final(self)@.len() == old(self)@.len() + import_count(gnodes@, rank, gid as int),
            crate::scene::import_laws::mirrors(final(self)@, gnodes@, rank, old(self)@.len() as int, gid as int),
            crate::scene::import_laws::recorded_below(old(resources)@, old(self)@.len() as int)
                ==> crate::scene::import_laws::records(
                final(self)@,
                final(resources)@,
                gnodes@,
                rank,
                old(self)@.len() as int,
                gid as int,
            ),
        decreases rank(gid as int),
    {
        proof {
            crate::scene::import_laws::lemma_import_mirrors(old(self)@, old(resources)@, gnodes@, rank, parent, gid as int);
            if crate::scene::import_laws::recorded_below(old(resources)@, old(self)@.len() as int) {
                crate::scene::import_laws::lemma_import_records(old(self)@, old(resources)@, gnodes@, rank, parent, gid as int);
            }
        }
        let n = &gnodes[gid];
        let node_id = self.add_node(parent, n.name.clone(), n.transform);
        match n.mesh {
            Some(m) => {
                resources.record(m, node_id);
            },
            None => {},
        }
        let ghost g1 = self@;
        let ghost r1 = resources@;
        let mut i: usize = 0;
        while i < n.children.len()
            invariant
                n == gnodes@[gid as int],
                tree_ok(self@),
                node_id < self@.len(),
                node_id == g1.len() - 1,
                i <= n.children@.len(),
                ranked(gnodes@, rank),
                gid < gnodes@.len(),
                (self@, resources@) == import_children_spec(g1, r1, gnodes@, rank, node_id, gid as int, i as int),
                self@.len() == g1.len() + import_count_children(gnodes@, rank, gid as int, i as int),
                g1.len() + import_count_children(gnodes@, rank, gid as int, n.children@.len() as int) < u32::MAX,
            decreases n.children.len() - i,
        {
            let c = n.children[i];
            proof {
                assert(c < gnodes@.len() && rank(c as int) < rank(gid as int));
                lemma_count_children_monotone(gnodes@, rank, gid as int, i as int + 1, n.children@.len() as int);
            }
            self.import_gltf_node(node_id, gnodes, c, resources, Ghost(rank));
            i = i + 1;
        }
        proof {
            assert(self@.len() == old(self)@.len() + import_count(gnodes@, rank, gid as int));
        }
    }

    /// Imports the nodes of a scene file: each root, in order, is added under
    /// the scene root together with everything below it (see [`import_spec`]),
    /// and every node that draws a mesh is recorded against that mesh.
    pub fn import_gltf_nodes(
        &mut self,
        gnodes: &Vec<ImportNode<X>>,
        roots: &Vec<usize>,
        resources: &mut ResImportList,
    )
        requires
            tree_ok(old(self)@),
            exists|rank: Rank| ranked(gnodes@, rank),
            forall|k: int| 0 <= k < roots@.len() ==> #[trigger] roots@[k] < gnodes@.len(),
            old(self)@.len() + roots_count(gnodes@, some_rank(gnodes@), roots@, roots@.len() as int) < u32::MAX,
        ensures
            tree_ok(final(self)@),
            (final(self)@, final(resources)@) == import_roots_spec(
                old(self)@,
                old(resources)@,
                gnodes@,
                some_rank(gnodes@),
                roots@,
                roots@.len() as int,
            ),
            ({
                let n0 = old(self)@[0]->Some_0.children.len() as int;
                let g2 = final(self)@;
                &&& forall|q: int| 0 < q < old(self)@.len() ==> #[trigger] g2[q] == old(self)@[q]
                &&& g2[0] == Some(NodeModel { children: g2[0]->Some_0.children, ..old(self)@[0]->Some_0 })
                &&& g2[0]->Some_0.children.len() == n0 + roots@.len()
                &&& g2[0]->Some_0.children.take(n0) == old(self)@[0]->Some_0.children
                &&& forall|j: int|
                    0 <= j < roots@.len() ==> {
                        let c = #[trigger] g2[0]->Some_0.children[n0 + j] as int;
                        &&& old(self)@.len() <= c
                        &&& crate::scene::import_laws::mirrors(g2, gnodes@, some_rank(gnodes@), c, roots@[j] as int)
                        &&& g2[c]->Some_0.parent == 0
                    }
            }),
            crate::scene::import_laws::recorded_below(old(resources)@, old(self)@.len() as int) ==> forall|j: int|
                0 <= j < roots@.len() ==> crate::scene::import_laws::records(
                    final(self)@,
                    final(resources)@,
                    gnodes@,
                    some_rank(gnodes@),
                    #[trigger] final(self)@[0]->Some_0.children[old(self)@[0]->Some_0.children.len() + j] as int,
                    roots@[j] as int,
                ),
    {
        proof {
            crate::scene::import_laws::lemma_import_roots_mirrors(
                old(self)@,
                old(resources)@,
                gnodes@,
                some_rank(gnodes@),
                roots@,
                roots@.len() as int,
            );
            if crate::scene::import_laws::recorded_below(old(resources)@, old(self)@.len() as int) {
                crate::scene::import_laws::lemma_import_roots_records(
                    old(self)@,
                    old(resources)@,
                    gnodes@,
                    some_rank(gnodes@),
                    roots@,
                    roots@.len() as int,
                );
            }
        }
        let ghost rank = some_rank(gnodes@);
        let mut i: usize = 0;
        while i < roots.len()
            invariant
                tree_ok(self@),
                i <= roots@.len(),
                ranked(gnodes@, rank),
                rank == some_rank(gnodes@),
                forall|k: int| 0 <= k < roots@.len() ==> #[trigger] roots@[k] < gnodes@.len(),
                (self@, resources@) == import_roots_spec(old(self)@, old(resources)@, gnodes@, rank, roots@, i as int),
                self@.len() == old(self)@.len() + roots_count(gnodes@, rank, roots@, i as int),
                old(self)@.len() + roots_count(gnodes@, rank, roots@, roots@.len() as int) < u32::MAX,
            decreases roots.len() - i,
        {
            proof {
                lemma_roots_count_monotone(gnodes@, rank, roots@, i as int + 1, roots@.len() as int);
            }
            self.import_gltf_node(0, gnodes, roots[i], resources, Ghost(rank));
            i = i + 1;
        }
    }

    /// Gives each scene node the primitives of the meshes it draws: mesh `i` of
    /// the loaded list came from file mesh `mesh_gltf_index[i].0`, and every node
    /// recorded against that file mesh gets a primitive drawing mesh `i` with
    /// material 0, in the order of the list.
    pub fn assign_primitives(&mut self, mesh_gltf_index: &Vec<(u32, usize)>, resources: &ResImportList)
        requires
            tree_ok(old(self)@),
            mesh_gltf_index@.len() <= u32::MAX + 1,
            forall|i: int| 0 <= i < mesh_gltf_index@.len() ==> resources@.dom().contains(#[trigger] mesh_gltf_index@[i].0),
            forall|m: u32, k: int|
                resources@.dom().contains(m) && 0 <= k < resources@[m].len() ==> #[trigger] resources@[m][k]
                    < old(self)@.len(),
        ensures
            tree_ok(final(self)@),
            final(self)@ == assigned(old(self)@, mesh_gltf_index@, resources@, mesh_gltf_index@.len() as int),
            old(self)@.len() <= u32::MAX + 1 ==> crate::scene::import_laws::assignment_right(
                old(self)@,
                final(self)@,
                mesh_gltf_index@,
                resources@,
                mesh_gltf_index@.len() as int,
            ),
    {
        proof {
            if old(self)@.len() <= u32::MAX + 1 {
                crate::scene::import_laws::lemma_assigned_right(old(self)@, mesh_gltf_index@, resources@);
            }
        }
        let mut i: usize = 0;
        while i < mesh_gltf_index.len()
            invariant
                tree_ok(self@),
                self@.len() == old(self)@.len(),
                i <= mesh_gltf_index@.len(),
                mesh_gltf_index@.len() <= u32::MAX + 1,
                forall|i: int| 0 <= i < mesh_gltf_index@.len() ==> resources@.dom().contains(#[trigger] mesh_gltf_index@[i].0),
                forall|m: u32, k: int|
                    resources@.dom().contains(m) && 0 <= k < resources@[m].len() ==> #[trigger] resources@[m][k]
                        < old(self)@.len(),
                self@ == assigned(old(self)@, mesh_gltf_index@, resources@, i as int),
            decreases mesh_gltf_index.len() - i,
        {
            let orig_index = mesh_gltf_index[i].0;
            let node_ids = resources.nodes_for(orig_index).unwrap();
            let mut k: usize = 0;
            let ghost base = self@;
            while k < node_ids.len()
                invariant
                    tree_ok(self@),
                    self@.len() == old(self)@.len(),
                    k <= node_ids@.len(),
                    i < mesh_gltf_index@.len(),
                    i <= u32::MAX,
                    resources@.dom().contains(orig_index),
                    node_ids@ == resources@[orig_index],
                    forall|q: int| 0 <= q < node_ids@.len() ==> #[trigger] node_ids@[q] < old(self)@.len(),
                    self@ == assign_nodes(base, node_ids@, i as u32, k as int),
                decreases node_ids.len() - k,
            {
                let node_id = node_ids[k];
                self.add_primitive(node_id, Primitive { mesh_id: i as u32, material_id: 0 });
                k = k + 1;
            }
            i = i + 1;
        }
    }
}

/// `g` with a primitive drawing mesh `mesh_id` added to each of the first `k`
/// nodes of `ids`, in order.
pub open spec fn assign_nodes<X, I>(g: Seq<Option<NodeModel<X, I>>>, ids: Seq<u32>, mesh_id: u32, k: int) -> Seq<
    Option<NodeModel<X, I>>,
>
    decreases k,
{
    if k <= 0 || k > ids.len() {
        g
    } else {
        let g1 = assign_nodes(g, ids, mesh_id, k - 1);
        let n = g1[ids[k - 1] as int]->Some_0;
        g1.update(
            ids[k - 1] as int,
            Some(NodeModel { primitives: n.primitives.push(Primitive { mesh_id, material_id: 0 }), ..n }),
        )
    }
}

/// `g` once the first `i` loaded meshes have been given to the nodes recorded
/// against the file mesh each came from.
pub open spec fn assigned<X, I>(
    g: Seq<Option<NodeModel<X, I>>>,
    mesh_gltf_index: Seq<(u32, usize)>,
    res: Map<u32, Seq<u32>>,
    i: int,
) -> Seq<Option<NodeModel<X, I>>>
    decreases i,
{
    if i <= 0 || i > mesh_gltf_index.len() {
        g
    } else {
        let g1 = assigned(g, mesh_gltf_index, res, i - 1);
        let ids = nodes_of(res, mesh_gltf_index[i - 1].0);
        assign_nodes(g1, ids, (i - 1) as u32, ids.len() as int)
    }
}

/// The meshes to load from the file, in order: for each file mesh drawn by at
/// least one node, each of its primitives, as (file mesh index, primitive index).
pub open spec fn planned_meshes(res: Map<u32, Seq<u32>>, prim_counts: Seq<usize>, m: int) -> Seq<(u32, usize)>
    decreases m,
{
    if m <= 0 || m > prim_counts.len() {
        Seq::empty()
    } else {
        let rest = planned_meshes(res, prim_counts, m - 1);
        if res.dom().contains((m - 1) as u32) {
            rest + Seq::new(prim_counts[m - 1] as nat, |p: int| ((m - 1) as u32, p as usize))
        } else {
            rest
        }
    }
}

/// Lists the meshes to load, in order (see [`planned_meshes`]): `prim_counts[m]`
/// is the number of primitives of file mesh `m`, and meshes no node draws are
/// skipped.
pub fn plan_mesh_loads(resources: &ResImportList, prim_counts: &Vec<usize>) -> (r: Vec<(u32, usize)>)
    requires
        prim_counts@.len() <= u32::MAX + 1,
    ensures
        r@ == planned_meshes(resources@, prim_counts@, prim_counts@.len() as int),
        forall|f: u32, p: usize|
            #[trigger] r@.contains((f, p)) <==> (f < prim_counts@.len() && resources@.dom().contains(f) && p
                < prim_counts@[f as int]),
        forall|a: int, b: int|
            0 <= a < b < r@.len() ==> crate::scene::import_laws::load_before(#[trigger] r@[a], #[trigger] r@[b]),
{
    proof {
        crate::scene::import_laws::lemma_planned_meshes_exact(resources@, prim_counts@);
    }
    let mut out: Vec<(u32, usize)> = Vec::new();
    let mut m: usize = 0;
    while m < prim_counts.len()
        invariant
            m <= prim_counts@.len(),
            prim_counts@.len() <= u32::MAX + 1,
            out@ == planned_meshes(resources@, prim_counts@, m as int),
        decreases prim_counts.len() - m,
    {
        if resources.contains_mesh(m as u32) {
            let ghost before = out@;
            let mut p: usize = 0;
            while p < prim_counts[m]
                invariant
                    m < prim_counts@.len(),
                    p <= prim_counts@[m as int],
                    m <= u32::MAX,
                    out@ == before + Seq::new(p as nat, |q: int| (m as u32, q as usize)),
                decreases prim_counts[m as int] - p,
            {
                out.push((m as u32, p));
                proof {
                    assert(out@ =~= before + Seq::new((p + 1) as nat, |q: int| (m as u32, q as usize)));
                }
                p = p + 1;
            }
        }
        m = m + 1;
    }
    out
}

/// Node `id` draws something: it was given at least one primitive.
pub open spec fn draws<X, I>(g: Seq<Option<NodeModel<X, I>>>, id: u32) -> bool {
    g[id as int]->Some_0.primitives.len() > 0
}

/// The nodes that get an instance once a scene is imported: those reached from
/// the root that draw something, in walk order.
pub open spec fn instanced_nodes<X, I>(g: Seq<Option<NodeModel<X, I>>>) -> Seq<u32> {
    walk(g, 0).filter(|id: u32| draws(g, id))
}

impl<X, I> SceneGraph<X, I> {
    /// The nodes to give an instance after an import, in the order their
    /// instances are allocated: every node reached from the root that has at
    /// least one primitive, and no other.
    pub fn instance_targets(&self) -> (r: Vec<u32>)
        requires
            tree_ok(self@),
            self@.len() <= u32::MAX + 1,
        ensures
            r@ == instanced_nodes(self@),
            forall|id: u32| #[trigger] r@.contains(id) <==> walk(self@, 0).contains(id) && draws(self@, id),
    {
        let order = self.walk_order(0);
        proof {
            lemma_walk_shape(self@, 0);
        }
        let ghost pred = |id: u32| draws(self@, id);
        let mut out: Vec<u32> = Vec::new();
        let mut i: usize = 0;
        while i < order.len()
            invariant
                i <= order@.len(),
                order@ == walk(self@, 0),
                tree_ok(self@),
                forall|j: int| 0 <= j < order@.len() ==> #[trigger] order@[j] < self@.len(),
                pred == (|id: u32| draws(self@, id)),
                out@ == order@.take(i as int).filter(pred),
            decreases order.len() - i,
        {
            let id = order[i];
            let node = self.node(id);
            proof {
                reveal(Seq::filter);
                assert(order@.take(i + 1).drop_last() =~= order@.take(i as int));
                assert(order@.take(i + 1).last() == id);
            }
            if node.primitives.len() > 0 {
                out.push(id);
            }
            i = i + 1;
        }
        proof {
            assert(order@.take(i as int) =~= order@);
            assert forall|id: u32| #[trigger] out@.contains(id) <==> order@.contains(id) && draws(self@, id) by {
                if out@.contains(id) {
                    order@.lemma_filter_contains_rev(pred, id);
                    let j = choose|j: int| 0 <= j < out@.len() && out@[j] == id;
                    order@.lemma_filter_pred(pred, j);
                }
                if order@.contains(id) && draws(self@, id) {
                    let j = choose|j: int| 0 <= j < order@.len() && order@[j] == id;
                    order@.lemma_filter_contains(pred, j);
                }
            }
        }
        out
    }
}

proof fn lemma_count_children_monotone<X>(gn: Seq<ImportNode<X>>, rank: Rank, id: int, a: int, b: int)
    requires
        0 <= a <= b,
    ensures
        import_count_children(gn, rank, id, a) <= import_count_children(gn, rank, id, b)
            || b > gn[id].children@.len() || !(0 <= id < gn.len()),
    decreases b - a,
{
    if a < b {
        lemma_count_children_monotone(gn, rank, id, a, b - 1);
    }
}

proof fn lemma_roots_count_monotone<X>(gn: Seq<ImportNode<X>>, rank: Rank, roots: Seq<usize>, a: int, b: int)
    requires
        0 <= a <= b <= roots.len(),
    ensures
        roots_count(gn, rank, roots, a) <= roots_count(gn, rank, roots, b),
    decreases b - a,
{
    if a < b {
        lemma_roots_count_monotone(gn, rank, roots, a, b - 1);
    }
}

} // verus!
