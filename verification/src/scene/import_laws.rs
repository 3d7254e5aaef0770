use vstd::prelude::*;
use crate::scene::import::{
    planned_meshes, assigned, assign_nodes, nodes_of, ImportNode, Rank, ranked, import_count,
    import_count_children, import_spec, import_children_spec, imported_node, roots_count, import_roots_spec,
};
use crate::scene::graph::with_child;
use crate::scene::graph::{NodeModel, Primitive};

verus! {

/// `x` comes before `y`: a lower file mesh, or the same mesh and a lower primitive.
pub open spec fn load_before(x: (u32, usize), y: (u32, usize)) -> bool {
    x.0 < y.0 || (x.0 == y.0 && x.1 < y.1)
}

/// Shape of the load list over the first `m` file meshes: it holds `(f, p)`
/// exactly when `f < m`, some node draws file mesh `f` and `p` is one of its
/// primitives, each once and in order.
proof fn lemma_planned_prefix(res: Map<u32, Seq<u32>>, pc: Seq<usize>, m: int)
    requires
        0 <= m <= pc.len(),
        pc.len() <= u32::MAX + 1,
    ensures
        ({
            let s = planned_meshes(res, pc, m);
            &&& forall|f: u32, p: usize|
                #[trigger] s.contains((f, p)) <==> (f < m && res.dom().contains(f) && p < pc[f as int])
            &&& forall|a: int, b: int| 0 <= a < b < s.len() ==> load_before(#[trigger] s[a], #[trigger] s[b])
            &&& forall|a: int| 0 <= a < s.len() ==> #[trigger] s[a].0 < m
        }),
    decreases m,
{
    let s = planned_meshes(res, pc, m);
    if m > 0 {
        lemma_planned_prefix(res, pc, m - 1);
        let rest = planned_meshes(res, pc, m - 1);
        let f0 = (m - 1) as u32;
        if res.dom().contains(f0) {
            let tail = Seq::new(pc[m - 1] as nat, |p: int| (f0, p as usize));
            assert(s == rest + tail);
            assert forall|a: int| 0 <= a < s.len() implies #[trigger] s[a].0 < m by {
                if a >= rest.len() {
                    assert(s[a] == tail[a - rest.len()]);
                }
            }
            assert forall|a: int, b: int| 0 <= a < b < s.len() implies load_before(#[trigger] s[a], #[trigger] s[b]) by {
                if b < rest.len() {
                    assert(s[a] == rest[a] && s[b] == rest[b]);
                } else if a < rest.len() {
                    assert(s[a] == rest[a]);
                    assert(s[b] == tail[b - rest.len()]);
                } else {
                    assert(s[a] == tail[a - rest.len()]);
                    assert(s[b] == tail[b - rest.len()]);
                }
            }
            assert forall|f: u32, p: usize|
                #[trigger] s.contains((f, p)) <==> (f < m && res.dom().contains(f) && p < pc[f as int]) by {
                if s.contains((f, p)) {
                    let a = choose|a: int| 0 <= a < s.len() && s[a] == (f, p);
                    if a < rest.len() {
                        assert(rest[a] == (f, p));
                        assert(rest.contains((f, p)));
                    } else {
                        assert(tail[a - rest.len()] == (f, p));
                    }
                }
                if f < m && res.dom().contains(f) && p < pc[f as int] {
                    if f < m - 1 {
                        assert(rest.contains((f, p)));
                        let a = choose|a: int| 0 <= a < rest.len() && rest[a] == (f, p);
                        assert(s[a] == (f, p));
                    } else {
                        assert(s[rest.len() + p] == tail[p as int]);
                        assert(s[rest.len() + p] == (f, p));
                    }
                }
            }
        } else {
            assert(s == rest);
            assert forall|f: u32, p: usize|
                #[trigger] s.contains((f, p)) <==> (f < m && res.dom().contains(f) && p < pc[f as int]) by {
                if f == m - 1 {
                    assert(f == f0);
                }
            }
        }
    }
}

/// The meshes to load from a file whose mesh `f` has `pc[f]` primitives, given
/// which file meshes nodes draw (`res`): the list holds `(f, p)` exactly when
/// `f` is a mesh of the file that some node draws and `p` is one of its
/// primitives; no entry repeats and they come in order of mesh, then primitive.
pub proof fn lemma_planned_meshes_exact(res: Map<u32, Seq<u32>>, pc: Seq<usize>)
    requires
        pc.len() <= u32::MAX + 1,
    ensures
        ({
            let s = planned_meshes(res, pc, pc.len() as int);
            &&& forall|f: u32, p: usize|
                #[trigger] s.contains((f, p)) <==> (f < pc.len() && res.dom().contains(f) && p < pc[f as int])
            &&& forall|a: int, b: int| 0 <= a < b < s.len() ==> load_before(#[trigger] s[a], #[trigger] s[b])
        }),
{
    lemma_planned_prefix(res, pc, pc.len() as int);
}


/// Number of times `q` occurs in `ids`.
pub open spec fn occurrences(ids: Seq<u32>, q: u32) -> nat
    decreases ids.len(),
{
    if ids.len() == 0 {
        0
    } else {
        occurrences(ids.drop_last(), q) + if ids.last() == q { 1nat } else { 0nat }
    }
}

proof fn lemma_occurrences_contains(ids: Seq<u32>, q: u32)
    ensures
        occurrences(ids, q) > 0 <==> ids.contains(q),
    decreases ids.len(),
{
    if ids.len() > 0 {
        lemma_occurrences_contains(ids.drop_last(), q);
        if ids.drop_last().contains(q) {
            let j = choose|j: int| 0 <= j < ids.drop_last().len() && ids.drop_last()[j] == q;
            assert(ids[j] == q);
        }
        if ids.contains(q) && ids.last() != q {
            let j = choose|j: int| 0 <= j < ids.len() && ids[j] == q;
            assert(ids.drop_last()[j] == q);
        }
    }
}

/// What giving mesh `mesh_id` to the first `k` nodes of `ids` does: each node
/// gains one primitive drawing that mesh with material 0 per time it is listed,
/// after those it had; nothing else changes.
proof fn lemma_assign_nodes<X, I>(g: Seq<Option<NodeModel<X, I>>>, ids: Seq<u32>, mesh_id: u32, k: int)
    requires
        0 <= k <= ids.len(),
        g.len() <= u32::MAX + 1,
        forall|q: int| 0 <= q < g.len() ==> #[trigger] g[q] is Some,
        forall|j: int| 0 <= j < ids.len() ==> #[trigger] ids[j] < g.len(),
    ensures
        ({
            let g2 = assign_nodes(g, ids, mesh_id, k);
            &&& g2.len() == g.len()
            &&& forall|q: int|
                0 <= q < g.len() ==> #[trigger] g2[q] == Some(
                    NodeModel {
                        primitives: g[q]->Some_0.primitives + Seq::new(
                            occurrences(ids.take(k), q as u32),
                            |x: int| Primitive { mesh_id, material_id: 0 },
                        ),
                        ..g[q]->Some_0
                    },
                )
        }),
    decreases k,
{
    if k == 0 {
        assert(ids.take(0) =~= Seq::<u32>::empty());
        assert forall|q: int| 0 <= q < g.len() implies #[trigger] g[q] == Some(
            NodeModel {
                primitives: g[q]->Some_0.primitives + Seq::new(
                    occurrences(ids.take(0), q as u32),
                    |x: int| Primitive { mesh_id, material_id: 0 },
                ),
                ..g[q]->Some_0
            },
        ) by {
            assert(g[q]->Some_0.primitives + Seq::new(0, |x: int| Primitive { mesh_id, material_id: 0 })
                =~= g[q]->Some_0.primitives);
        }
    } else {
        lemma_assign_nodes(g, ids, mesh_id, k - 1);
        let g1 = assign_nodes(g, ids, mesh_id, k - 1);
        let g2 = assign_nodes(g, ids, mesh_id, k);
        assert(ids.take(k).drop_last() =~= ids.take(k - 1));
        assert(ids.take(k).last() == ids[k - 1]);
        assert forall|q: int| 0 <= q < g.len() implies #[trigger] g2[q] == Some(
            NodeModel {
                primitives: g[q]->Some_0.primitives + Seq::new(
                    occurrences(ids.take(k), q as u32),
                    |x: int| Primitive { mesh_id, material_id: 0 },
                ),
                ..g[q]->Some_0
            },
        ) by {
            let c0 = occurrences(ids.take(k - 1), q as u32);
            let c1 = occurrences(ids.take(k), q as u32);
            let p0 = g[q]->Some_0.primitives + Seq::new(c0, |x: int| Primitive { mesh_id, material_id: 0 });
            let p1 = g[q]->Some_0.primitives + Seq::new(c1, |x: int| Primitive { mesh_id, material_id: 0 });
            assert(g1[q] == Some(NodeModel { primitives: p0, ..g[q]->Some_0 }));
            if q == ids[k - 1] {
                assert(c1 == c0 + 1);
                assert(p0.push(Primitive { mesh_id, material_id: 0 }) =~= p1);
            } else {
                assert(c1 == c0);
                assert(p0 =~= p1);
                assert(g2[q] == g1[q]);
            }
        }
    }
}

/// Number of primitives of `s` drawing loaded mesh `i`.
pub open spec fn mesh_uses(s: Seq<Primitive>, i: int) -> nat
    decreases s.len(),
{
    if s.len() == 0 {
        0
    } else {
        mesh_uses(s.drop_last(), i) + if s.last().mesh_id == i { 1nat } else { 0nat }
    }
}

proof fn lemma_mesh_uses_concat(a: Seq<Primitive>, b: Seq<Primitive>, i: int)
    ensures
        mesh_uses(a + b, i) == mesh_uses(a, i) + mesh_uses(b, i),
    decreases b.len(),
{
    if b.len() == 0 {
        assert(a + b =~= a);
    } else {
        lemma_mesh_uses_concat(a, b.drop_last(), i);
        assert((a + b).drop_last() =~= a + b.drop_last());
    }
}

proof fn lemma_mesh_uses_block(c: nat, mid: u32, i: int)
    ensures
        mesh_uses(Seq::new(c, |x: int| Primitive { mesh_id: mid, material_id: 0 }), i) == if mid == i {
            c
        } else {
            0
        },
    decreases c,
{
    if c > 0 {
        lemma_mesh_uses_block((c - 1) as nat, mid, i);
        assert(Seq::new(c, |x: int| Primitive { mesh_id: mid, material_id: 0 }).drop_last() =~= Seq::new(
            (c - 1) as nat,
            |x: int| Primitive { mesh_id: mid, material_id: 0 },
        ));
    }
}

proof fn lemma_mesh_uses_none(s: Seq<Primitive>, i: int)
    requires
        forall|j: int| 0 <= j < s.len() ==> #[trigger] s[j].mesh_id < i,
    ensures
        mesh_uses(s, i) == 0,
    decreases s.len(),
{
    if s.len() > 0 {
        lemma_mesh_uses_none(s.drop_last(), i);
    }
}

/// What the assignment of loaded meshes to the nodes of a graph does, node by
/// node, as seen from the graph before it (`g`) and after it (`g2`): nothing
/// but the primitives changes; the primitives a node had stay first; every
/// primitive added draws a loaded mesh `i` whose file mesh the node is recorded
/// against, with material 0; they come in order of loaded mesh; and every
/// loaded mesh whose file mesh the node is recorded against is among them.
pub open spec fn assignment_right<X, I>(
    g: Seq<Option<NodeModel<X, I>>>,
    g2: Seq<Option<NodeModel<X, I>>>,
    mesh_gltf_index: Seq<(u32, usize)>,
    res: Map<u32, Seq<u32>>,
    n: int,
) -> bool {
    &&& g2.len() == g.len()
    &&& forall|q: int|
        0 <= q < g.len() ==> {
            let a = (#[trigger] g[q])->Some_0;
            let b = g2[q]->Some_0;
            let old_len = a.primitives.len() as int;
            &&& g2[q] is Some
            &&& b == NodeModel { primitives: b.primitives, ..a }
            &&& old_len <= b.primitives.len()
            &&& b.primitives.take(old_len) == a.primitives
            &&& forall|j: int|
                old_len <= j < b.primitives.len() ==> {
                    let pr = #[trigger] b.primitives[j];
                    &&& pr.material_id == 0
                    &&& pr.mesh_id < n
                    &&& nodes_of(res, mesh_gltf_index[pr.mesh_id as int].0).contains(q as u32)
                }
            &&& forall|j1: int, j2: int|
                old_len <= j1 < j2 < b.primitives.len() ==> #[trigger] b.primitives[j1].mesh_id
                    <= #[trigger] b.primitives[j2].mesh_id
            &&& forall|i: int|
                0 <= i < n && nodes_of(res, #[trigger] mesh_gltf_index[i].0).contains(q as u32) ==> exists|j: int|
                    old_len <= j < b.primitives.len() && b.primitives[j].mesh_id == i
            &&& forall|i: int|
                0 <= i < n ==> mesh_uses(b.primitives.skip(old_len), i) == occurrences(
                    nodes_of(res, #[trigger] mesh_gltf_index[i].0),
                    q as u32,
                )
        }
}

proof fn lemma_assigned_prefix<X, I>(
    g: Seq<Option<NodeModel<X, I>>>,
    mesh_gltf_index: Seq<(u32, usize)>,
    res: Map<u32, Seq<u32>>,
    n: int,
)
    requires
        0 <= n <= mesh_gltf_index.len(),
        mesh_gltf_index.len() <= u32::MAX + 1,
        g.len() <= u32::MAX + 1,
        forall|q: int| 0 <= q < g.len() ==> #[trigger] g[q] is Some,
        forall|m: u32, k: int|
            res.dom().contains(m) && 0 <= k < res[m].len() ==> #[trigger] res[m][k] < g.len(),
    ensures
        assignment_right(g, assigned(g, mesh_gltf_index, res, n), mesh_gltf_index, res, n),
    decreases n,
{
    let g2 = assigned(g, mesh_gltf_index, res, n);
    if n == 0 {
        assert forall|q: int| 0 <= q < g.len() implies (#[trigger] g[q])->Some_0.primitives.take(
            g[q]->Some_0.primitives.len() as int,
        ) == g[q]->Some_0.primitives by {
            assert(g[q]->Some_0.primitives.take(g[q]->Some_0.primitives.len() as int) =~= g[q]->Some_0.primitives);
            assert(g[q]->Some_0.primitives.skip(g[q]->Some_0.primitives.len() as int) =~= Seq::<Primitive>::empty());
        }
    } else {
        lemma_assigned_prefix(g, mesh_gltf_index, res, n - 1);
        let g1 = assigned(g, mesh_gltf_index, res, n - 1);
        let ids = nodes_of(res, mesh_gltf_index[n - 1].0);
        let mid = (n - 1) as u32;
        assert forall|j: int| 0 <= j < ids.len() implies #[trigger] ids[j] < g1.len() by {
            assert(res[mesh_gltf_index[n - 1].0][j] < g.len());
        }
        assert forall|q: int| 0 <= q < g1.len() implies #[trigger] g1[q] is Some by {
            assert(g[q] is Some);
        }
        lemma_assign_nodes(g1, ids, mid, ids.len() as int);
        assert(ids.take(ids.len() as int) =~= ids);
        assert(g2 == assign_nodes(g1, ids, mid, ids.len() as int));
        let prim = Primitive { mesh_id: mid, material_id: 0 };
        assert forall|q: int| 0 <= q < g.len() implies {
            let a = (#[trigger] g[q])->Some_0;
            let b = g2[q]->Some_0;
            let old_len = a.primitives.len() as int;
            &&& g2[q] is Some
            &&& b == NodeModel { primitives: b.primitives, ..a }
            &&& old_len <= b.primitives.len()
            &&& b.primitives.take(old_len) == a.primitives
            &&& forall|j: int|
                old_len <= j < b.primitives.len() ==> {
                    let pr = #[trigger] b.primitives[j];
                    &&& pr.material_id == 0
                    &&& pr.mesh_id < n
                    &&& nodes_of(res, mesh_gltf_index[pr.mesh_id as int].0).contains(q as u32)
                }
            &&& forall|j1: int, j2: int|
                old_len <= j1 < j2 < b.primitives.len() ==> #[trigger] b.primitives[j1].mesh_id
                    <= #[trigger] b.primitives[j2].mesh_id
            &&& forall|i: int|
                0 <= i < n && nodes_of(res, #[trigger] mesh_gltf_index[i].0).contains(q as u32) ==> exists|j: int|
                    old_len <= j < b.primitives.len() && b.primitives[j].mesh_id == i
            &&& forall|i: int|
                0 <= i < n ==> mesh_uses(b.primitives.skip(old_len), i) == occurrences(
                    nodes_of(res, #[trigger] mesh_gltf_index[i].0),
                    q as u32,
                )
        } by {
            let a = g[q]->Some_0;
            let b1 = g1[q]->Some_0;
            let b = g2[q]->Some_0;
            let old_len = a.primitives.len() as int;
            let c = occurrences(ids, q as u32);
            let blk = Seq::new(c, |x: int| prim);
            assert(b.primitives == b1.primitives + blk);
            let l1 = b1.primitives.len() as int;
            assert(b.primitives.take(old_len) =~= b1.primitives.take(old_len));
            assert forall|j: int| old_len <= j < b.primitives.len() implies {
                let pr = #[trigger] b.primitives[j];
                &&& pr.material_id == 0
                &&& pr.mesh_id < n
                &&& nodes_of(res, mesh_gltf_index[pr.mesh_id as int].0).contains(q as u32)
            } by {
                if j < l1 {
                    assert(b.primitives[j] == b1.primitives[j]);
                } else {
                    assert(b.primitives[j] == prim);
                    lemma_occurrences_contains(ids, q as u32);
                }
            }
            assert forall|j1: int, j2: int| old_len <= j1 < j2 < b.primitives.len() implies #[trigger] b.primitives[j1].mesh_id
                <= #[trigger] b.primitives[j2].mesh_id by {
                if j2 < l1 {
                    assert(b.primitives[j1] == b1.primitives[j1]);
                    assert(b.primitives[j2] == b1.primitives[j2]);
                } else if j1 < l1 {
                    assert(b.primitives[j1] == b1.primitives[j1]);
                    assert(b.primitives[j2] == prim);
                } else {
                    assert(b.primitives[j1] == prim);
                    assert(b.primitives[j2] == prim);
                }
            }
            assert forall|i: int|
                0 <= i < n && nodes_of(res, #[trigger] mesh_gltf_index[i].0).contains(q as u32) implies exists|j: int|
                old_len <= j < b.primitives.len() && b.primitives[j].mesh_id == i by {
                if i < n - 1 {
                    let j = choose|j: int| old_len <= j < b1.primitives.len() && b1.primitives[j].mesh_id == i;
                    assert(b.primitives[j] == b1.primitives[j]);
                } else {
                    lemma_occurrences_contains(ids, q as u32);
                    assert(b.primitives[l1] == prim);
                }
            }
            let s1 = b1.primitives.skip(old_len);
            assert(b.primitives.skip(old_len) =~= s1 + blk);
            assert forall|i: int|
                0 <= i < n implies mesh_uses(b.primitives.skip(old_len), i) == occurrences(
                nodes_of(res, #[trigger] mesh_gltf_index[i].0),
                q as u32,
            ) by {
                lemma_mesh_uses_concat(s1, blk, i);
                lemma_mesh_uses_block(c, mid, i);
                if i == n - 1 {
                    assert forall|j: int| 0 <= j < s1.len() implies #[trigger] s1[j].mesh_id < i by {
                        assert(s1[j] == b1.primitives[old_len + j]);
                    }
                    lemma_mesh_uses_none(s1, i);
                } else {
                    assert(mesh_uses(b1.primitives.skip(old_len), i) == occurrences(
                        nodes_of(res, mesh_gltf_index[i].0),
                        q as u32,
                    ));
                }
            }
        }
    }
}

/// Giving the loaded meshes to the nodes of a graph (mesh `i` of the loaded
/// list came from file mesh `mesh_gltf_index[i].0`): each node keeps all it
/// had and its primitives first; every primitive added draws a loaded mesh
/// that came from a file mesh the node is recorded against, with material 0,
/// in order of loaded mesh; and every such loaded mesh is among them.
pub proof fn lemma_assigned_right<X, I>(
    g: Seq<Option<NodeModel<X, I>>>,
    mesh_gltf_index: Seq<(u32, usize)>,
    res: Map<u32, Seq<u32>>,
)
    requires
        mesh_gltf_index.len() <= u32::MAX + 1,
        g.len() <= u32::MAX + 1,
        forall|q: int| 0 <= q < g.len() ==> #[trigger] g[q] is Some,
        forall|m: u32, k: int|
            res.dom().contains(m) && 0 <= k < res[m].len() ==> #[trigger] res[m][k] < g.len(),
    ensures
        assignment_right(
            g,
            assigned(g, mesh_gltf_index, res, mesh_gltf_index.len() as int),
            mesh_gltf_index,
            res,
            mesh_gltf_index.len() as int,
        ),
{
    lemma_assigned_prefix(g, mesh_gltf_index, res, mesh_gltf_index.len() as int);
}


/// Scene node `q` of `g` is the import of file node `f`: it carries `f`'s name
/// and transform, has as many children as `f`, and its `k`-th child (a later
/// node, whose parent it is) is the import of `f`'s `k`-th child.
pub open spec fn mirrors<X, I>(g: Seq<Option<NodeModel<X, I>>>, gn: Seq<ImportNode<X>>, rank: Rank, q: int, f: int) -> bool
    decreases rank(f), 1int, 0int,
{
    &&& 0 <= q < g.len()
    &&& g[q] is Some
    &&& 0 <= f < gn.len()
    &&& g[q]->Some_0.name == gn[f].name@
    &&& g[q]->Some_0.transform == gn[f].transform
    &&& g[q]->Some_0.children.len() == gn[f].children@.len()
    &&& mirrors_children(g, gn, rank, q, f, gn[f].children@.len() as int)
}

/// The first `k` children of scene node `q` are the imports of the first `k`
/// children of file node `f` (see [`mirrors`]).
pub open spec fn mirrors_children<X, I>(
    g: Seq<Option<NodeModel<X, I>>>,
    gn: Seq<ImportNode<X>>,
    rank: Rank,
    q: int,
    f: int,
    k: int,
) -> bool
    decreases rank(f), 0int, k,
{
    if k <= 0 {
        true
    } else if !(0 <= f < gn.len()) || k > gn[f].children@.len() || !(0 <= q < g.len()) {
        false
    } else {
        let c = g[q]->Some_0.children[k - 1] as int;
        let fc = gn[f].children@[k - 1] as int;
        &&& mirrors_children(g, gn, rank, q, f, k - 1)
        &&& q < c
        &&& fc < gn.len() && rank(fc) < rank(f) ==> mirrors(g, gn, rank, c, fc)
        &&& fc < gn.len() && rank(fc) < rank(f) ==> g[c]->Some_0.parent == q as u32
    }
}

proof fn lemma_mirrors_keep<X, I>(
    g: Seq<Option<NodeModel<X, I>>>,
    g2: Seq<Option<NodeModel<X, I>>>,
    gn: Seq<ImportNode<X>>,
    rank: Rank,
    q: int,
    f: int,
)
    requires
        ranked(gn, rank),
        mirrors(g, gn, rank, q, f),
        g2.len() >= g.len(),
        forall|x: int| q <= x < g.len() ==> #[trigger] g2[x] == g[x],
    ensures
        mirrors(g2, gn, rank, q, f),
    decreases rank(f), 1int,
{
    lemma_mirrors_children_keep(g, g2, gn, rank, q, f, gn[f].children@.len() as int);
}

proof fn lemma_mirrors_children_keep<X, I>(
    g: Seq<Option<NodeModel<X, I>>>,
    g2: Seq<Option<NodeModel<X, I>>>,
    gn: Seq<ImportNode<X>>,
    rank: Rank,
    q: int,
    f: int,
    k: int,
)
    requires
        ranked(gn, rank),
        0 <= f < gn.len(),
        0 <= q < g.len(),
        g[q] is Some,
        g2[q] is Some,
        0 <= k <= gn[f].children@.len(),
        k <= g[q]->Some_0.children.len(),
        k <= g2[q]->Some_0.children.len(),
        mirrors_children(g, gn, rank, q, f, k),
        g2.len() >= g.len(),
        forall|k2: int| 0 <= k2 < k ==> #[trigger] g2[q]->Some_0.children[k2] == g[q]->Some_0.children[k2],
        forall|x: int| q < x < g.len() ==> #[trigger] g2[x] == g[x],
    ensures
        mirrors_children(g2, gn, rank, q, f, k),
    decreases rank(f), 0int, k,
{
    if k > 0 {
        lemma_mirrors_children_keep(g, g2, gn, rank, q, f, k - 1);
        let c = g[q]->Some_0.children[k - 1] as int;
        let fc = gn[f].children@[k - 1] as int;
        assert(fc < gn.len() && rank(fc) < rank(f));
        assert(g2[q]->Some_0.children[k - 1] == g[q]->Some_0.children[k - 1]);
        lemma_mirrors_keep(g, g2, gn, rank, c, fc);
        assert(g2[c] == g[c]);
    }
}

proof fn lemma_children_count_monotone<X>(gn: Seq<ImportNode<X>>, rank: Rank, id: int, a: int, b: int)
    requires
        0 <= id < gn.len(),
        0 <= a <= b <= gn[id].children@.len(),
    ensures
        import_count_children(gn, rank, id, a) <= import_count_children(gn, rank, id, b),
    decreases b - a,
{
    if a < b {
        lemma_children_count_monotone(gn, rank, id, a, b - 1);
    }
}

proof fn lemma_import_children_mirrors<X, I>(
    g1: Seq<Option<NodeModel<X, I>>>,
    res: Map<u32, Seq<u32>>,
    gn: Seq<ImportNode<X>>,
    rank: Rank,
    node_id: u32,
    id: int,
    k: int,
)
    requires
        ranked(gn, rank),
        0 <= id < gn.len(),
        0 <= k <= gn[id].children@.len(),
        node_id == g1.len() - 1,
        g1[node_id as int] is Some,
        g1[node_id as int]->Some_0.children.len() == 0,
        g1.len() + import_count_children(gn, rank, id, gn[id].children@.len() as int) < u32::MAX,
    ensures
        ({
            let gk = import_children_spec(g1, res, gn, rank, node_id, id, k).0;
            &&& gk.len() == g1.len() + import_count_children(gn, rank, id, k)
            &&& forall|q: int| 0 <= q < g1.len() && q != node_id ==> #[trigger] gk[q] == g1[q]
            &&& gk[node_id as int] is Some
            &&& gk[node_id as int] == Some(
                NodeModel { children: gk[node_id as int]->Some_0.children, ..g1[node_id as int]->Some_0 },
            )
            &&& gk[node_id as int]->Some_0.children.len() == k
            &&& mirrors_children(gk, gn, rank, node_id as int, id, k)
        }),
    decreases rank(id), 0int, k,
{
    if k > 0 {
        lemma_import_children_mirrors(g1, res, gn, rank, node_id, id, k - 1);
        let (gp, rp) = import_children_spec(g1, res, gn, rank, node_id, id, k - 1);
        let c = gn[id].children@[k - 1] as int;
        assert(c < gn.len() && rank(c) < rank(id));
        lemma_children_count_monotone(gn, rank, id, k, gn[id].children@.len() as int);
        lemma_import_mirrors(gp, rp, gn, rank, node_id, c);
        let gk = import_children_spec(g1, res, gn, rank, node_id, id, k).0;
        assert(gk == import_spec(gp, rp, gn, rank, node_id, c).0);
        let np = gp[node_id as int]->Some_0;
        let nk = gk[node_id as int]->Some_0;
        assert(nk.children == np.children.push(gp.len() as u32));
        lemma_mirrors_children_keep(gp, gk, gn, rank, node_id as int, id, k - 1);
        assert(nk.children[k - 1] == gp.len());
    }
}

/// Importing file node `id` under scene node `parent` (with `rank` a ranking of
/// the file's nodes): the graph grows by the number of nodes the import adds;
/// the parent gains the new node as its last child; no other node it had
/// changes; and the new node, whose parent is `parent`, is the import of `id`
/// (see [`mirrors`]): every node added carries the name and transform of the
/// file node it was made for, and the tree below it is the file's.
pub proof fn lemma_import_mirrors<X, I>(
    g: Seq<Option<NodeModel<X, I>>>,
    res: Map<u32, Seq<u32>>,
    gn: Seq<ImportNode<X>>,
    rank: Rank,
    parent: u32,
    id: int,
)
    requires
        ranked(gn, rank),
        0 <= id < gn.len(),
        parent < g.len(),
        g.len() + import_count(gn, rank, id) < u32::MAX,
    ensures
        ({
            let g2 = import_spec(g, res, gn, rank, parent, id).0;
            &&& g2.len() == g.len() + import_count(gn, rank, id)
            &&& forall|q: int| 0 <= q < g.len() && q != parent ==> #[trigger] g2[q] == g[q]
            &&& g2[parent as int] == Some(
                NodeModel {
                    children: g[parent as int]->Some_0.children.push(g.len() as u32),
                    ..g[parent as int]->Some_0
                },
            )
            &&& mirrors(g2, gn, rank, g.len() as int, id)
            &&& g2[g.len() as int]->Some_0.parent == parent
        }),
    decreases rank(id), 1int,
{
    let n = gn[id];
    let node_id = g.len() as u32;
    let g1 = with_child(g, parent, imported_node::<X, I>(n, parent));
    let res1 = match n.mesh {
        Some(m) => res.insert(m, nodes_of(res, m).push(node_id)),
        None => res,
    };
    assert(g1.len() == g.len() + 1);
    assert(g1[node_id as int] == Some(imported_node::<X, I>(n, parent)));
    lemma_import_children_mirrors(g1, res1, gn, rank, node_id, id, n.children@.len() as int);
    let g2 = import_spec(g, res, gn, rank, parent, id).0;
    assert(g2 == import_children_spec(g1, res1, gn, rank, node_id, id, n.children@.len() as int).0);
    assert forall|q: int| 0 <= q < g.len() && q != parent implies #[trigger] g2[q] == g[q] by {
        assert(g1[q] == g[q]);
    }
}


proof fn lemma_roots_count_grows<X>(gn: Seq<ImportNode<X>>, rank: Rank, roots: Seq<usize>, a: int, b: int)
    requires
        0 <= a <= b <= roots.len(),
    ensures
        roots_count(gn, rank, roots, a) <= roots_count(gn, rank, roots, b),
    decreases b - a,
{
    if a < b {
        lemma_roots_count_grows(gn, rank, roots, a, b - 1);
    }
}

/// Importing the roots `roots` of a file under the scene root (node 0): the
/// graph grows by the number of nodes the import adds; the scene root keeps its
/// children and gains one more per root, in order, each the import of its root
/// (see [`mirrors`]) with the scene root as parent; no other node it had
/// changes.
pub proof fn lemma_import_roots_mirrors<X, I>(
    g: Seq<Option<NodeModel<X, I>>>,
    res: Map<u32, Seq<u32>>,
    gn: Seq<ImportNode<X>>,
    rank: Rank,
    roots: Seq<usize>,
    k: int,
)
    requires
        ranked(gn, rank),
        0 <= k <= roots.len(),
        forall|j: int| 0 <= j < roots.len() ==> #[trigger] roots[j] < gn.len(),
        0 < g.len(),
        g[0] is Some,
        g.len() + roots_count(gn, rank, roots, roots.len() as int) < u32::MAX,
    ensures
        ({
            let g2 = import_roots_spec(g, res, gn, rank, roots, k).0;
            let n0 = g[0]->Some_0.children.len() as int;
            &&& g2.len() == g.len() + roots_count(gn, rank, roots, k)
            &&& forall|q: int| 0 < q < g.len() ==> #[trigger] g2[q] == g[q]
            &&& g2[0] == Some(NodeModel { children: g2[0]->Some_0.children, ..g[0]->Some_0 })
            &&& g2[0]->Some_0.children.len() == n0 + k
            &&& g2[0]->Some_0.children.take(n0) == g[0]->Some_0.children
            &&& forall|j: int|
                0 <= j < k ==> {
                    let c = #[trigger] g2[0]->Some_0.children[n0 + j] as int;
                    &&& g.len() <= c
                    &&& mirrors(g2, gn, rank, c, roots[j] as int)
                    &&& g2[c]->Some_0.parent == 0
                }
        }),
    decreases k,
{
    let n0 = g[0]->Some_0.children.len() as int;
    if k == 0 {
        assert(g[0]->Some_0.children.take(n0) =~= g[0]->Some_0.children);
    } else {
        lemma_import_roots_mirrors(g, res, gn, rank, roots, k - 1);
        let (gp, rp) = import_roots_spec(g, res, gn, rank, roots, k - 1);
        let f = roots[k - 1] as int;
        lemma_roots_count_grows(gn, rank, roots, k, roots.len() as int);
        lemma_import_mirrors(gp, rp, gn, rank, 0, f);
        let g2 = import_roots_spec(g, res, gn, rank, roots, k).0;
        assert(g2 == import_spec(gp, rp, gn, rank, 0, f).0);
        let cp = gp[0]->Some_0.children;
        let c2 = g2[0]->Some_0.children;
        assert(c2 == cp.push(gp.len() as u32));
        assert(c2.take(n0) =~= cp.take(n0));
        assert forall|j: int|
            0 <= j < k implies {
                let c = #[trigger] c2[n0 + j] as int;
                &&& g.len() <= c
                &&& mirrors(g2, gn, rank, c, roots[j] as int)
                &&& g2[c]->Some_0.parent == 0
            } by {
            if j < k - 1 {
                let c = cp[n0 + j] as int;
                assert(c2[n0 + j] == cp[n0 + j]);
                assert(mirrors(gp, gn, rank, c, roots[j] as int));
                lemma_mirrors_keep(gp, g2, gn, rank, c, roots[j] as int);
                assert(g2[c] == gp[c]);
            } else {
                assert(c2[n0 + j] == gp.len());
            }
        }
    }
}


/// Every scene node recorded in `res` is below `n`.
pub open spec fn recorded_below(res: Map<u32, Seq<u32>>, n: int) -> bool {
    forall|m: u32, x: u32| #[trigger] nodes_of(res, m).contains(x) ==> x < n
}

/// Scene node `q` of `g` is the import of file node `f` as far as the mesh
/// lists `res` go: `q` is recorded against exactly the mesh `f` draws (none
/// when it draws none), and so is each node below it, child by child, for the
/// matching child of `f`.
pub open spec fn records<X, I>(
    g: Seq<Option<NodeModel<X, I>>>,
    res: Map<u32, Seq<u32>>,
    gn: Seq<ImportNode<X>>,
    rank: Rank,
    q: int,
    f: int,
) -> bool
    decreases rank(f), 1int, 0int,
{
    &&& 0 <= q < g.len()
    &&& g[q] is Some
    &&& 0 <= f < gn.len()
    &&& g[q]->Some_0.children.len() == gn[f].children@.len()
    &&& forall|m: u32| #[trigger] nodes_of(res, m).contains(q as u32) <==> gn[f].mesh == Some(m)
    &&& records_children(g, res, gn, rank, q, f, gn[f].children@.len() as int)
}

/// The first `k` children of scene node `q` satisfy [`records`] for the first
/// `k` children of file node `f`.
pub open spec fn records_children<X, I>(
    g: Seq<Option<NodeModel<X, I>>>,
    res: Map<u32, Seq<u32>>,
    gn: Seq<ImportNode<X>>,
    rank: Rank,
    q: int,
    f: int,
    k: int,
) -> bool
    decreases rank(f), 0int, k,
{
    if k <= 0 {
        true
    } else if !(0 <= f < gn.len()) || k > gn[f].children@.len() || !(0 <= q < g.len()) {
        false
    } else {
        let c = g[q]->Some_0.children[k - 1] as int;
        let fc = gn[f].children@[k - 1] as int;
        &&& records_children(g, res, gn, rank, q, f, k - 1)
        &&& q < c
        &&& fc < gn.len() && rank(fc) < rank(f) ==> records(g, res, gn, rank, c, fc)
    }
}

proof fn lemma_records_keep<X, I>(
    g: Seq<Option<NodeModel<X, I>>>,
    res: Map<u32, Seq<u32>>,
    g2: Seq<Option<NodeModel<X, I>>>,
    res2: Map<u32, Seq<u32>>,
    gn: Seq<ImportNode<X>>,
    rank: Rank,
    q: int,
    f: int,
)
    requires
        ranked(gn, rank),
        g.len() <= u32::MAX,
        records(g, res, gn, rank, q, f),
        g2.len() >= g.len(),
        forall|x: int| q <= x < g.len() ==> #[trigger] g2[x] == g[x],
        forall|m: u32, x: int|
            q <= x < g.len() ==> (#[trigger] nodes_of(res2, m).contains(x as u32) <==> nodes_of(res, m).contains(
                x as u32,
            )),
    ensures
        records(g2, res2, gn, rank, q, f),
    decreases rank(f), 1int,
{
    assert forall|m: u32| #[trigger] nodes_of(res2, m).contains(q as u32) <==> gn[f].mesh == Some(m) by {
        assert(nodes_of(res2, m).contains(q as u32) <==> nodes_of(res, m).contains(q as u32));
    }
    lemma_records_children_keep(g, res, g2, res2, gn, rank, q, f, gn[f].children@.len() as int);
}

proof fn lemma_records_children_keep<X, I>(
    g: Seq<Option<NodeModel<X, I>>>,
    res: Map<u32, Seq<u32>>,
    g2: Seq<Option<NodeModel<X, I>>>,
    res2: Map<u32, Seq<u32>>,
    gn: Seq<ImportNode<X>>,
    rank: Rank,
    q: int,
    f: int,
    k: int,
)
    requires
        ranked(gn, rank),
        g.len() <= u32::MAX,
        0 <= f < gn.len(),
        0 <= q < g.len(),
        g[q] is Some,
        g2[q] is Some,
        0 <= k <= gn[f].children@.len(),
        k <= g[q]->Some_0.children.len(),
        k <= g2[q]->Some_0.children.len(),
        records_children(g, res, gn, rank, q, f, k),
        g2.len() >= g.len(),
        forall|k2: int| 0 <= k2 < k ==> #[trigger] g2[q]->Some_0.children[k2] == g[q]->Some_0.children[k2],
        forall|x: int| q < x < g.len() ==> #[trigger] g2[x] == g[x],
        forall|m: u32, x: int|
            q < x < g.len() ==> (#[trigger] nodes_of(res2, m).contains(x as u32) <==> nodes_of(res, m).contains(
                x as u32,
            )),
    ensures
        records_children(g2, res2, gn, rank, q, f, k),
    decreases rank(f), 0int, k,
{
    if k > 0 {
        lemma_records_children_keep(g, res, g2, res2, gn, rank, q, f, k - 1);
        let c = g[q]->Some_0.children[k - 1] as int;
        let fc = gn[f].children@[k - 1] as int;
        assert(fc < gn.len() && rank(fc) < rank(f));
        assert(g2[q]->Some_0.children[k - 1] == g[q]->Some_0.children[k - 1]);
        lemma_records_keep(g, res, g2, res2, gn, rank, c, fc);
    }
}

proof fn lemma_record_one(res: Map<u32, Seq<u32>>, m0: u32, id: u32, m: u32, x: u32)
    ensures
        nodes_of(res.insert(m0, nodes_of(res, m0).push(id)), m).contains(x) <==> (nodes_of(res, m).contains(x) || (
        m == m0 && x == id)),
{
    let r1 = res.insert(m0, nodes_of(res, m0).push(id));
    if m == m0 {
        let s = nodes_of(res, m0);
        assert(nodes_of(r1, m) == s.push(id));
        if s.push(id).contains(x) && x != id {
            let j = choose|j: int| 0 <= j < s.push(id).len() && s.push(id)[j] == x;
            assert(s[j] == x);
        }
        if s.contains(x) {
            let j = choose|j: int| 0 <= j < s.len() && s[j] == x;
            assert(s.push(id)[j] == x);
        }
        if x == id {
            assert(s.push(id)[s.len() as int] == id);
        }
    } else {
        assert(nodes_of(r1, m) == nodes_of(res, m));
    }
}

proof fn lemma_import_children_records<X, I>(
    g1: Seq<Option<NodeModel<X, I>>>,
    res: Map<u32, Seq<u32>>,
    gn: Seq<ImportNode<X>>,
    rank: Rank,
    node_id: u32,
    id: int,
    k: int,
)
    requires
        ranked(gn, rank),
        0 <= id < gn.len(),
        0 <= k <= gn[id].children@.len(),
        node_id == g1.len() - 1,
        g1[node_id as int] is Some,
        g1[node_id as int]->Some_0.children.len() == 0,
        g1.len() + import_count_children(gn, rank, id, gn[id].children@.len() as int) < u32::MAX,
        recorded_below(res, g1.len() as int),
    ensures
        ({
            let (gk, rk) = import_children_spec(g1, res, gn, rank, node_id, id, k);
            &&& recorded_below(rk, gk.len() as int)
            &&& forall|m: u32, x: int|
                0 <= x < g1.len() ==> (#[trigger] nodes_of(rk, m).contains(x as u32) <==> nodes_of(res, m).contains(
                    x as u32,
                ))
            &&& records_children(gk, rk, gn, rank, node_id as int, id, k)
        }),
    decreases rank(id), 0int, k,
{
    lemma_import_children_mirrors(g1, res, gn, rank, node_id, id, k);
    if k > 0 {
        lemma_import_children_records(g1, res, gn, rank, node_id, id, k - 1);
        lemma_import_children_mirrors(g1, res, gn, rank, node_id, id, k - 1);
        let (gp, rp) = import_children_spec(g1, res, gn, rank, node_id, id, k - 1);
        let c = gn[id].children@[k - 1] as int;
        assert(c < gn.len() && rank(c) < rank(id));
        lemma_children_count_monotone(gn, rank, id, k, gn[id].children@.len() as int);
        lemma_import_mirrors(gp, rp, gn, rank, node_id, c);
        lemma_import_records(gp, rp, gn, rank, node_id, c);
        let (gk, rk) = import_children_spec(g1, res, gn, rank, node_id, id, k);
        assert((gk, rk) == import_spec(gp, rp, gn, rank, node_id, c));
        let np = gp[node_id as int]->Some_0;
        let nk = gk[node_id as int]->Some_0;
        assert(nk.children == np.children.push(gp.len() as u32));
        lemma_records_children_keep(gp, rp, gk, rk, gn, rank, node_id as int, id, k - 1);
        assert(nk.children[k - 1] == gp.len());
    }
}

/// Importing file node `id` under scene node `parent`, with mesh lists `res`
/// that only name nodes already in the graph: the lists gain only the new
/// nodes, each recorded against exactly the mesh its file node draws (see
/// [`records`]); what they said of the nodes already there stays.
pub proof fn lemma_import_records<X, I>(
    g: Seq<Option<NodeModel<X, I>>>,
    res: Map<u32, Seq<u32>>,
    gn: Seq<ImportNode<X>>,
    rank: Rank,
    parent: u32,
    id: int,
)
    requires
        ranked(gn, rank),
        0 <= id < gn.len(),
        parent < g.len(),
        g.len() + import_count(gn, rank, id) < u32::MAX,
        recorded_below(res, g.len() as int),
    ensures
        ({
            let (g2, r2) = import_spec(g, res, gn, rank, parent, id);
            &&& recorded_below(r2, g2.len() as int)
            &&& forall|m: u32, x: int|
                0 <= x < g.len() ==> (#[trigger] nodes_of(r2, m).contains(x as u32) <==> nodes_of(res, m).contains(
                    x as u32,
                ))
            &&& records(g2, r2, gn, rank, g.len() as int, id)
        }),
    decreases rank(id), 1int,
{
    let n = gn[id];
    let node_id = g.len() as u32;
    let g1 = with_child(g, parent, imported_node::<X, I>(n, parent));
    let res1 = match n.mesh {
        Some(m) => res.insert(m, nodes_of(res, m).push(node_id)),
        None => res,
    };
    assert(g1.len() == g.len() + 1);
    assert(g1[node_id as int] == Some(imported_node::<X, I>(n, parent)));
    assert forall|m: u32, x: u32| nodes_of(res1, m).contains(x) <==> (nodes_of(res, m).contains(x) || (n.mesh
        == Some(m) && x == node_id)) by {
        match n.mesh {
            Some(m0) => {
                lemma_record_one(res, m0, node_id, m, x);
            },
            None => {},
        }
    }
    assert(recorded_below(res1, g1.len() as int));
    lemma_import_children_records(g1, res1, gn, rank, node_id, id, n.children@.len() as int);
    lemma_import_children_mirrors(g1, res1, gn, rank, node_id, id, n.children@.len() as int);
    let (g2, r2) = import_spec(g, res, gn, rank, parent, id);
    assert((g2, r2) == import_children_spec(g1, res1, gn, rank, node_id, id, n.children@.len() as int));
    assert forall|m: u32, x: int|
        0 <= x < g.len() implies (#[trigger] nodes_of(r2, m).contains(x as u32) <==> nodes_of(res, m).contains(
        x as u32,
    )) by {
        assert(nodes_of(r2, m).contains(x as u32) <==> nodes_of(res1, m).contains(x as u32));
    }
    assert forall|m: u32| #[trigger] nodes_of(r2, m).contains(node_id) <==> gn[id].mesh == Some(m) by {
        assert(nodes_of(r2, m).contains(node_id) <==> nodes_of(res1, m).contains(node_id));
        if nodes_of(res, m).contains(node_id) {
            assert(node_id < g.len());
        }
    }
}


/// Importing the roots `roots` under the scene root, with mesh lists that only
/// name nodes already in the graph: the node made for each root, and every
/// node below it, is recorded against exactly the mesh its file node draws
/// (see [`records`]); what the lists said of the nodes already there stays.
pub proof fn lemma_import_roots_records<X, I>(
    g: Seq<Option<NodeModel<X, I>>>,
    res: Map<u32, Seq<u32>>,
    gn: Seq<ImportNode<X>>,
    rank: Rank,
    roots: Seq<usize>,
    k: int,
)
    requires
        ranked(gn, rank),
        0 <= k <= roots.len(),
        forall|j: int| 0 <= j < roots.len() ==> #[trigger] roots[j] < gn.len(),
        0 < g.len(),
        g[0] is Some,
        g.len() + roots_count(gn, rank, roots, roots.len() as int) < u32::MAX,
        recorded_below(res, g.len() as int),
    ensures
        ({
            let (g2, r2) = import_roots_spec(g, res, gn, rank, roots, k);
            let n0 = g[0]->Some_0.children.len() as int;
            &&& recorded_below(r2, g2.len() as int)
            &&& forall|m: u32, x: int|
                0 <= x < g.len() ==> (#[trigger] nodes_of(r2, m).contains(x as u32) <==> nodes_of(res, m).contains(
                    x as u32,
                ))
            &&& forall|j: int|
                0 <= j < k ==> records(g2, r2, gn, rank, #[trigger] g2[0]->Some_0.children[n0 + j] as int, roots[j] as int)
        }),
    decreases k,
{
    lemma_import_roots_mirrors(g, res, gn, rank, roots, k);
    let n0 = g[0]->Some_0.children.len() as int;
    if k > 0 {
        lemma_import_roots_records(g, res, gn, rank, roots, k - 1);
        lemma_import_roots_mirrors(g, res, gn, rank, roots, k - 1);
        let (gp, rp) = import_roots_spec(g, res, gn, rank, roots, k - 1);
        let f = roots[k - 1] as int;
        lemma_roots_count_grows(gn, rank, roots, k, roots.len() as int);
        lemma_import_mirrors(gp, rp, gn, rank, 0, f);
        lemma_import_records(gp, rp, gn, rank, 0, f);
        let (g2, r2) = import_roots_spec(g, res, gn, rank, roots, k);
        assert((g2, r2) == import_spec(gp, rp, gn, rank, 0, f));
        let cp = gp[0]->Some_0.children;
        let c2 = g2[0]->Some_0.children;
        assert(c2 == cp.push(gp.len() as u32));
        assert forall|j: int| 0 <= j < k implies records(g2, r2, gn, rank, #[trigger] c2[n0 + j] as int, roots[j] as int) by {
            if j < k - 1 {
                let c = cp[n0 + j] as int;
                assert(c2[n0 + j] == cp[n0 + j]);
                assert(records(gp, rp, gn, rank, c, roots[j] as int));
                assert(gp.len() <= u32::MAX);
                lemma_records_keep(gp, rp, g2, r2, gn, rank, c, roots[j] as int);
            } else {
                assert(c2[n0 + j] == gp.len());
            }
        }
    }
}

} // verus!
