use vstd::prelude::*;
use crate::render::mesh_pool::{MeshDesc, MeshInfo};

verus! {

/// One step of drawing the scene's instances.
#[derive(Copy, Clone, PartialEq, Eq, Structural)]
pub enum DrawCommand {
    /// Bind the vertex buffer of vertex pool `vpool_id`.
    BindVertexBuffer { vpool_id: u32 },
    /// Bind the index buffer, read as indices of `index_size` bytes.
    BindIndexBuffer { index_size: u8 },
    /// Bind the instance data found `offset` bytes into the instance buffer.
    BindInstance { offset: u32 },
    /// Draw `index_count` indices from `first_index`, adding `vertex_offset` to each.
    DrawIndexed { index_count: u32, first_index: u32, vertex_offset: i32 },
    /// Draw `vertex_count` vertices from `first_vertex`.
    Draw { vertex_count: u32, first_vertex: u32 },
}

/// One instance to draw: the mesh it shows and where its data lies in the
/// instance buffer.
#[derive(Copy, Clone)]
pub struct DrawInstance {
    pub mesh_id: u32,
    pub offset_bytes: u64,
}

/// The commands for the first `k` instances, with the vertex pool and index
/// size bound after them. For each instance: its vertex buffer is bound when
/// it has vertices and another one is bound; the index buffer is bound when it
/// has indices and they are of another size than the bound ones; its instance
/// data is bound; and it is drawn, indexed when it has indices.
pub open spec fn plan(meshes: Seq<MeshInfo>, insts: Seq<DrawInstance>, k: int) -> (Seq<DrawCommand>, Option<u32>, Option<u8>)
    decreases k,
{
    if k <= 0 || k > insts.len() {
        (Seq::empty(), None, None)
    } else {
        let (c, bv, bi) = plan(meshes, insts, k - 1);
        let inst = insts[k - 1];
        let m = meshes[inst.mesh_id as int];
        let (c1, bv1) = if m.num_verts != 0 && bv != Some(m.vpool_id) {
            (c.push(DrawCommand::BindVertexBuffer { vpool_id: m.vpool_id }), Some(m.vpool_id))
        } else {
            (c, bv)
        };
        let use_index = m.num_indices != 0;
        let (c2, bi1) = if use_index && bi != Some(m.index_size) {
            (c1.push(DrawCommand::BindIndexBuffer { index_size: m.index_size }), Some(m.index_size))
        } else {
            (c1, bi)
        };
        let c3 = c2.push(DrawCommand::BindInstance { offset: inst.offset_bytes as u32 });
        let c4 = if use_index {
            c3.push(
                DrawCommand::DrawIndexed {
                    index_count: m.num_indices,
                    first_index: m.index_offset,
                    vertex_offset: m.vertex_offset as i32,
                },
            )
        } else {
            c3.push(DrawCommand::Draw { vertex_count: m.num_verts, first_vertex: m.vertex_offset })
        };
        (c4, bv1, bi1)
    }
}

/// Every instance names a mesh of the list, and every mesh drawn with indices
/// uses indices of 1, 2 or 4 bytes.
pub open spec fn drawable(meshes: Seq<MeshInfo>, insts: Seq<DrawInstance>) -> bool {
    forall|k: int|
        0 <= k < insts.len() ==> {
            let id = (#[trigger] insts[k]).mesh_id;
            &&& id < meshes.len()
            &&& meshes[id as int].num_indices != 0 ==> (meshes[id as int].index_size == 1
                || meshes[id as int].index_size == 2 || meshes[id as int].index_size == 4)
        }
}


/// Whether `c` draws something.
pub open spec fn is_draw(c: DrawCommand) -> bool {
    c is Draw || c is DrawIndexed
}

/// Number of draw commands in `c`.
pub open spec fn draw_count(c: Seq<DrawCommand>) -> nat
    decreases c.len(),
{
    if c.len() == 0 {
        0
    } else {
        draw_count(c.drop_last()) + if is_draw(c.last()) { 1nat } else { 0nat }
    }
}

/// The vertex pool bound by the last vertex-buffer binding of `c`, if any.
pub open spec fn bound_vertex_pool(c: Seq<DrawCommand>) -> Option<u32>
    decreases c.len(),
{
    if c.len() == 0 {
        None
    } else {
        match c.last() {
            DrawCommand::BindVertexBuffer { vpool_id } => Some(vpool_id),
            _ => bound_vertex_pool(c.drop_last()),
        }
    }
}

/// The index size bound by the last index-buffer binding of `c`, if any.
pub open spec fn bound_index_size(c: Seq<DrawCommand>) -> Option<u8>
    decreases c.len(),
{
    if c.len() == 0 {
        None
    } else {
        match c.last() {
            DrawCommand::BindIndexBuffer { index_size } => Some(index_size),
            _ => bound_index_size(c.drop_last()),
        }
    }
}

/// The draw at position `p` of `c` is right for the instance it is the draw of
/// (the instance counted by the draws before it): the instance's data was bound
/// just before it, the mesh's own vertex buffer and index size are bound when
/// it uses them, and it draws the mesh's vertices or indices.
pub open spec fn draw_is_right(meshes: Seq<MeshInfo>, insts: Seq<DrawInstance>, c: Seq<DrawCommand>, p: int) -> bool {
    let j = draw_count(c.take(p)) as int;
    let inst = insts[j];
    let m = meshes[inst.mesh_id as int];
    &&& j < insts.len()
    &&& p >= 1
    &&& c[p - 1] == DrawCommand::BindInstance { offset: inst.offset_bytes as u32 }
    &&& m.num_verts != 0 ==> bound_vertex_pool(c.take(p)) == Some(m.vpool_id)
    &&& m.num_indices != 0 ==> bound_index_size(c.take(p)) == Some(m.index_size)
    &&& c[p] == if m.num_indices != 0 {
        DrawCommand::DrawIndexed {
            index_count: m.num_indices,
            first_index: m.index_offset,
            vertex_offset: m.vertex_offset as i32,
        }
    } else {
        DrawCommand::Draw { vertex_count: m.num_verts, first_vertex: m.vertex_offset }
    }
}

/// What a command list for `insts` must satisfy: one draw per instance, each
/// right for its instance, and no binding that repeats what is already bound.
pub open spec fn draws_right(meshes: Seq<MeshInfo>, insts: Seq<DrawInstance>, c: Seq<DrawCommand>, n: int) -> bool {
    &&& draw_count(c) == n
    &&& forall|p: int| 0 <= p < c.len() && is_draw(#[trigger] c[p]) ==> draw_is_right(meshes, insts, c, p)
    &&& forall|p: int|
        0 <= p < c.len() && (#[trigger] c[p]) is BindVertexBuffer ==> bound_vertex_pool(c.take(p)) != Some(
            c[p]->vpool_id,
        )
    &&& forall|p: int|
        0 <= p < c.len() && (#[trigger] c[p]) is BindIndexBuffer ==> bound_index_size(c.take(p)) != Some(
            c[p]->index_size,
        )
}

proof fn lemma_push_keeps(c: Seq<DrawCommand>, x: DrawCommand)
    ensures
        c.push(x).drop_last() == c,
        forall|p: int| 0 <= p < c.len() ==> #[trigger] c.push(x).take(p) == c.take(p),
        c.push(x).take(c.len() as int) == c,
{
    assert(c.push(x).drop_last() =~= c);
    assert forall|p: int| 0 <= p < c.len() implies #[trigger] c.push(x).take(p) == c.take(p) by {
        assert(c.push(x).take(p) =~= c.take(p));
    }
    assert(c.push(x).take(c.len() as int) =~= c);
}

proof fn lemma_push_right(meshes: Seq<MeshInfo>, insts: Seq<DrawInstance>, c: Seq<DrawCommand>, x: DrawCommand, n: int)
    requires
        draws_right(meshes, insts, c, n),
        !is_draw(x),
        x is BindVertexBuffer ==> bound_vertex_pool(c) != Some(x->vpool_id),
        x is BindIndexBuffer ==> bound_index_size(c) != Some(x->index_size),
    ensures
        draws_right(meshes, insts, c.push(x), n),
        bound_vertex_pool(c.push(x)) == match x {
            DrawCommand::BindVertexBuffer { vpool_id } => Some(vpool_id),
            _ => bound_vertex_pool(c),
        },
        bound_index_size(c.push(x)) == match x {
            DrawCommand::BindIndexBuffer { index_size } => Some(index_size),
            _ => bound_index_size(c),
        },
{
    let d = c.push(x);
    lemma_push_keeps(c, x);
    assert forall|p: int| 0 <= p < d.len() && is_draw(#[trigger] d[p]) implies draw_is_right(meshes, insts, d, p) by {
        assert(p < c.len());
        assert(d[p] == c[p]);
        assert(draw_is_right(meshes, insts, c, p));
        assert(d[p - 1] == c[p - 1]);
    }
    assert forall|p: int| 0 <= p < d.len() && (#[trigger] d[p]) is BindVertexBuffer implies bound_vertex_pool(
        d.take(p),
    ) != Some(d[p]->vpool_id) by {
        if p < c.len() {
            assert(d[p] == c[p]);
        }
    }
    assert forall|p: int| 0 <= p < d.len() && (#[trigger] d[p]) is BindIndexBuffer implies bound_index_size(
        d.take(p),
    ) != Some(d[p]->index_size) by {
        if p < c.len() {
            assert(d[p] == c[p]);
        }
    }
}

/// The first `k` instances are planned rightly, and the bindings the plan
/// remembers are the ones its commands leave bound.
proof fn lemma_plan_right(meshes: Seq<MeshInfo>, insts: Seq<DrawInstance>, k: int)
    requires
        drawable(meshes, insts),
        0 <= k <= insts.len(),
    ensures
        ({
            let (c, bv, bi) = plan(meshes, insts, k);
            &&& draws_right(meshes, insts, c, k)
            &&& bv == bound_vertex_pool(c)
            &&& bi == bound_index_size(c)
        }),
    decreases k,
{
    if k > 0 {
        lemma_plan_right(meshes, insts, k - 1);
        let (c, bv, bi) = plan(meshes, insts, k - 1);
        let inst = insts[k - 1];
        assert(drawable(meshes, insts));
        let m = meshes[inst.mesh_id as int];
        let c1 = if m.num_verts != 0 && bv != Some(m.vpool_id) {
            let x = DrawCommand::BindVertexBuffer { vpool_id: m.vpool_id };
            lemma_push_right(meshes, insts, c, x, k - 1);
            c.push(x)
        } else {
            c
        };
        let bv1 = if m.num_verts != 0 && bv != Some(m.vpool_id) { Some(m.vpool_id) } else { bv };
        let use_index = m.num_indices != 0;
        let c2 = if use_index && bi != Some(m.index_size) {
            let x = DrawCommand::BindIndexBuffer { index_size: m.index_size };
            lemma_push_right(meshes, insts, c1, x, k - 1);
            c1.push(x)
        } else {
            c1
        };
        let bi1 = if use_index && bi != Some(m.index_size) { Some(m.index_size) } else { bi };
        let xi = DrawCommand::BindInstance { offset: inst.offset_bytes as u32 };
        lemma_push_right(meshes, insts, c2, xi, k - 1);
        let c3 = c2.push(xi);
        assert(bound_vertex_pool(c3) == bv1);
        assert(bound_index_size(c3) == bi1);
        let xd = if use_index {
            DrawCommand::DrawIndexed {
                index_count: m.num_indices,
                first_index: m.index_offset,
                vertex_offset: m.vertex_offset as i32,
            }
        } else {
            DrawCommand::Draw { vertex_count: m.num_verts, first_vertex: m.vertex_offset }
        };
        let c4 = c3.push(xd);
        assert(plan(meshes, insts, k) == (c4, bv1, bi1));
        lemma_push_keeps(c3, xd);
        let q = c3.len() as int;
        assert(draw_count(c4) == draw_count(c3) + 1);
        assert(c4.take(q) == c3);
        assert(draw_count(c4.take(q)) == k - 1);
        assert(c4[q - 1] == xi);
        assert(draw_is_right(meshes, insts, c4, q));
        assert forall|p: int| 0 <= p < c4.len() && is_draw(#[trigger] c4[p]) implies draw_is_right(meshes, insts, c4, p) by {
            if p < q {
                assert(c4[p] == c3[p]);
                assert(c4[p - 1] == c3[p - 1]);
                assert(draw_is_right(meshes, insts, c3, p));
            }
        }
        assert forall|p: int| 0 <= p < c4.len() && (#[trigger] c4[p]) is BindVertexBuffer implies bound_vertex_pool(
            c4.take(p),
        ) != Some(c4[p]->vpool_id) by {
            assert(p < q);
            assert(c4[p] == c3[p]);
        }
        assert forall|p: int| 0 <= p < c4.len() && (#[trigger] c4[p]) is BindIndexBuffer implies bound_index_size(
            c4.take(p),
        ) != Some(c4[p]->index_size) by {
            assert(p < q);
            assert(c4[p] == c3[p]);
        }
    }
}

/// The plan for a list of instances draws each instance once, in order, with
/// its own data, its mesh's vertex buffer and index size bound and its mesh's
/// vertices or indices; and it never binds again what is already bound.
pub proof fn lemma_plan_draws_right(meshes: Seq<MeshInfo>, insts: Seq<DrawInstance>)
    requires
        drawable(meshes, insts),
    ensures
        draws_right(meshes, insts, plan(meshes, insts, insts.len() as int).0, insts.len() as int),
{
    lemma_plan_right(meshes, insts, insts.len() as int);
}

/// The commands that draw `instances` of `meshes` (see [`plan`]).
pub fn plan_draws(meshes: &Vec<MeshDesc>, instances: &Vec<DrawInstance>) -> (r: Vec<DrawCommand>)
    requires
        drawable(meshes@.map_values(|m: MeshDesc| m@), instances@),
    ensures
        r@ == plan(meshes@.map_values(|m: MeshDesc| m@), instances@, instances@.len() as int).0,
        draws_right(meshes@.map_values(|m: MeshDesc| m@), instances@, r@, instances@.len() as int),
{
    proof {
        lemma_plan_draws_right(meshes@.map_values(|m: MeshDesc| m@), instances@);
    }
    let ghost ms = meshes@.map_values(|m: MeshDesc| m@);
    let mut cmds: Vec<DrawCommand> = Vec::new();
    let mut bound_vbuf: Option<u32> = None;
    let mut bound_index: Option<u8> = None;
    let mut k: usize = 0;
    while k < instances.len()
        invariant
            k <= instances@.len(),
            ms == meshes@.map_values(|m: MeshDesc| m@),
            drawable(ms, instances@),
            (cmds@, bound_vbuf, bound_index) == plan(ms, instances@, k as int),
        decreases instances.len() - k,
    {
        let inst = instances[k];
        proof {
            assert(inst == instances@[k as int]);
        }
        let mesh = &meshes[inst.mesh_id as usize];
        proof {
            assert(mesh@ == ms[inst.mesh_id as int]);
        }
        let vpool = mesh.vpool_id();
        let rebind_vertices = match bound_vbuf {
            Some(b) => b != vpool,
            None => true,
        };
        if mesh.num_verts() != 0 && rebind_vertices {
            cmds.push(DrawCommand::BindVertexBuffer { vpool_id: vpool });
            bound_vbuf = Some(vpool);
        }
        let use_index = mesh.has_indices();
        let size = mesh.index_size_bytes();
        let rebind_index = match bound_index {
            Some(b) => b != size,
            None => true,
        };
        if use_index && rebind_index {
            cmds.push(DrawCommand::BindIndexBuffer { index_size: size });
            bound_index = Some(size);
        }
        cmds.push(DrawCommand::BindInstance { offset: inst.offset_bytes as u32 });
        if use_index {
            cmds.push(
                DrawCommand::DrawIndexed {
                    index_count: mesh.num_indices(),
                    first_index: mesh.index_offset(),
                    vertex_offset: mesh.vertex_offset() as i32,
                },
            );
        } else {
            cmds.push(DrawCommand::Draw { vertex_count: mesh.num_verts(), first_vertex: mesh.vertex_offset() });
        }
        k = k + 1;
    }
    cmds
}

} // verus!
