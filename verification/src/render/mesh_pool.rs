use std::ops::Range;
use vstd::prelude::*;
use crate::render::buffer_pool::{BufferPool, PoolModel, span, align_up, fits};
use crate::slots::{find_free_slot, first_free, is_first_free};

verus! {

/// What a [`MeshDesc`] records about one mesh placed in the pool.
pub struct MeshInfo {
    pub num_indices: u32,
    pub num_verts: u32,
    pub vpool_id: u32,
    pub vertex_offset: u32,
    pub index_offset: u32,
    pub index_size: u8,
    pub vertex_stride: u32,
    pub last_frame_used: u64,
}

/// Where a mesh's vertices and indices live: which vertex buffer, at which
/// element offsets, and the last frame that drew it.
#[derive(Copy, Clone)]
pub struct MeshDesc {
    num_indices: u32,
    num_verts: u32,
    vpool_id: u32,
    vertex_offset: u32,
    index_offset: u32,
    index_size: u8,
    vertex_stride: u32,
    last_frame_used: u64,
}

impl View for MeshDesc {
    type V = MeshInfo;

    closed spec fn view(&self) -> MeshInfo {
        MeshInfo {
            num_indices: self.num_indices,
            num_verts: self.num_verts,
            vpool_id: self.vpool_id,
            vertex_offset: self.vertex_offset,
            index_offset: self.index_offset,
            index_size: self.index_size,
            vertex_stride: self.vertex_stride,
            last_frame_used: self.last_frame_used,
        }
    }
}

impl MeshDesc {
    pub fn num_verts(&self) -> (r: u32)
        ensures
            r == self@.num_verts,
    {
        self.num_verts
    }

    pub fn num_indices(&self) -> (r: u32)
        ensures
            r == self@.num_indices,
    {
        self.num_indices
    }

    pub fn vpool_id(&self) -> (r: u32)
        ensures
            r == self@.vpool_id,
    {
        self.vpool_id
    }

    pub fn vertex_offset(&self) -> (r: u32)
        ensures
            r == self@.vertex_offset,
    {
        self.vertex_offset
    }

    pub fn vertex_stride(&self) -> (r: u32)
        ensures
            r == self@.vertex_stride,
    {
        self.vertex_stride
    }

    /// Byte offset of the first vertex in its vertex buffer.
    pub fn vertex_byte_offset(&self) -> (r: u64)
        ensures
            r == self@.vertex_stride * self@.vertex_offset,
    {
        proof {
            assert(self.vertex_stride * self.vertex_offset <= u32::MAX * u32::MAX) by (nonlinear_arith)
                requires
                    self.vertex_stride <= u32::MAX,
                    self.vertex_offset <= u32::MAX,
            ;
        }
        (self.vertex_stride as u64) * (self.vertex_offset as u64)
    }

    pub fn index_offset(&self) -> (r: u32)
        ensures
            r == self@.index_offset,
    {
        self.index_offset
    }

    /// Size of one index in bytes (0 when the mesh has none).
    pub fn index_size_bytes(&self) -> (r: u8)
        ensures
            r == self@.index_size,
    {
        self.index_size
    }

    /// Byte offset of the first index in the index buffer.
    pub fn index_offset_bytes(&self) -> (r: u64)
        ensures
            r == self@.index_size * self@.index_offset,
    {
        proof {
            assert(self.index_size * self.index_offset <= 255 * u32::MAX) by (nonlinear_arith)
                requires
                    self.index_size <= 255,
                    self.index_offset <= u32::MAX,
            ;
        }
        (self.index_size as u64) * (self.index_offset as u64)
    }

    pub fn has_indices(&self) -> (r: bool)
        ensures
            r == (self@.num_indices != 0),
    {
        self.num_indices != 0
    }

    /// Records that the mesh was used by frame `lfu`; the record only moves forward.
    pub fn update_lfu(&mut self, lfu: u64)
        ensures
            final(self)@ == (MeshInfo {
                last_frame_used: if lfu > old(self)@.last_frame_used {
                    lfu
                } else {
                    old(self)@.last_frame_used
                },
                ..old(self)@
            }),
    {
        if lfu > self.last_frame_used {
            self.last_frame_used = lfu;
        }
    }

    /// The last frame recorded as using the mesh.
    pub fn last_frame_used(&self) -> (r: u64)
        ensures
            r == self@.last_frame_used,
    {
        self.last_frame_used
    }

    /// The vertex buffer holding the mesh's vertices, or `None` when it has none.
    pub fn vertex_buffer(&self) -> (r: Option<u32>)
        ensures
            r == (if self@.num_verts == 0 {
                None
            } else {
                Some(self@.vpool_id)
            }),
    {
        if self.num_verts == 0 {
            return None;
        }
        Some(self.vpool_id)
    }
}

/// A released mesh whose ranges go back to the pool once the GPU is done with
/// the frame that last used it.
pub struct PendingMesh {
    pub vpool_id: u32,
    pub vert_bytes: Range<u32>,
    pub index_bytes: Range<u32>,
    pub last_frame_used: u64,
}

/// Why a mesh could not be placed.
#[derive(Debug, PartialEq, Eq, Structural)]
pub enum MeshAllocError {
    /// No free range of the index buffer holds the indices.
    IndexOutOfMemory,
    /// No vertex buffer holds the vertices, and no new one may be added.
    VertexOutOfMemory,
}

/// Why released ranges could not all be given back.
#[derive(Debug, PartialEq, Eq, Structural)]
pub enum GarbageError {
    /// The index range of a released mesh is not one the index buffer handed out.
    IndexRangeNotAllocated,
    /// A released mesh names a vertex buffer that does not exist.
    VertexPoolMissing,
    /// The vertex range of a released mesh is not one its vertex buffer handed out.
    VertexRangeNotAllocated,
}

/// What a [`MeshPool`] records.
pub struct MeshPoolModel {
    pub index_pool: PoolModel,
    pub vertex_pools: Seq<Option<PoolModel>>,
    pub garbage: Seq<PendingMesh>,
    pub vertex_pool_size: u32,
    pub vertex_pool_limit: u32,
    pub allocated_vert_pools: u32,
}

pub open spec fn pool_view(o: Option<BufferPool>) -> Option<PoolModel> {
    match o {
        Some(p) => Some(p@),
        None => None,
    }
}

/// A vertex buffer pool of `size` bytes with nothing handed out.
pub open spec fn fresh_pool(size: u32) -> PoolModel {
    PoolModel { size, free: seq![span(0, size)], used: Seq::empty() }
}

/// `i` is the first existing vertex pool that can take the request, or
/// `pools.len()` when none can.
pub open spec fn is_first_fitting(pools: Seq<Option<PoolModel>>, e: u32, n: u32, i: int) -> bool {
    &&& 0 <= i <= pools.len()
    &&& i < pools.len() ==> pools[i] is Some && pools[i]->Some_0.allocate(e, n).1 is Some
    &&& forall|j: int|
        0 <= j < i ==> !(#[trigger] pools[j] is Some && pools[j]->Some_0.allocate(e, n).1 is Some)
}

pub open spec fn first_fitting(pools: Seq<Option<PoolModel>>, e: u32, n: u32) -> int {
    choose|i: int| is_first_fitting(pools, e, n, i)
}

/// A released mesh is due once the frame that last used it is no later than `safe_frame`.
pub open spec fn is_due(p: PendingMesh, safe_frame: u64) -> bool {
    p.last_frame_used <= safe_frame
}

impl MeshPoolModel {
    /// Every pool can take a request of `e * n` bytes without leaving `u32` while rounding.
    pub open spec fn vertex_request_ok(self, e: u32, n: u32) -> bool {
        &&& 0 < e * n <= u32::MAX
        &&& self.vertex_pools.len() < u32::MAX
        &&& forall|j: int|
            0 <= j < self.vertex_pools.len() && #[trigger] self.vertex_pools[j] is Some
                ==> self.vertex_pools[j]->Some_0.can_round(e)
        &&& (first_fitting(self.vertex_pools, e, n) == self.vertex_pools.len()
            && self.allocated_vert_pools < self.vertex_pool_limit) ==> e * n <= self.vertex_pool_size
    }

    /// Placing `n` elements of `e` bytes in a vertex buffer: the first existing
    /// buffer that can take them does; otherwise, while the number of buffers
    /// counted stays under the limit, a new buffer is put in the first empty
    /// slot (or at the end) and takes them. The result is the buffer's slot and
    /// the offset in elements.
    pub open spec fn alloc_verts(self, e: u32, n: u32) -> (MeshPoolModel, Option<(u32, u32)>) {
        let i = first_fitting(self.vertex_pools, e, n);
        if i < self.vertex_pools.len() {
            let (p2, off) = self.vertex_pools[i]->Some_0.allocate(e, n);
            (
                MeshPoolModel { vertex_pools: self.vertex_pools.update(i, Some(p2)), ..self },
                Some((i as u32, off->Some_0)),
            )
        } else if self.allocated_vert_pools >= self.vertex_pool_limit {
            (self, None)
        } else {
            let k = first_free(self.vertex_pools);
            let (p2, off) = fresh_pool(self.vertex_pool_size).allocate(e, n);
            let pools = if k < self.vertex_pools.len() {
                self.vertex_pools.update(k, Some(p2))
            } else {
                self.vertex_pools.push(Some(p2))
            };
            (MeshPoolModel { vertex_pools: pools, ..self }, Some((k as u32, off->Some_0)))
        }
    }

    /// What [`MeshPool::alloc_mesh`] needs of its arguments and of the pool:
    /// a supported index size, byte counts that fit `u32`, something to place,
    /// rounding that stays inside `u32`, and, when a new vertex buffer would be
    /// added, a request that fits in one.
    pub open spec fn alloc_mesh_ok(
        self,
        vertex_stride: u32,
        index_stride: u8,
        vertex_count: u32,
        index_count: u32,
    ) -> bool {
        let has_indices = index_count * index_stride > 0;
        let has_vertices = vertex_count * vertex_stride > 0;
        &&& index_stride == 0 || index_stride == 1 || index_stride == 2 || index_stride == 4
        &&& index_count * index_stride <= u32::MAX
        &&& vertex_count * vertex_stride <= u32::MAX
        &&& has_vertices || has_indices
        &&& has_indices ==> self.index_pool.can_round(index_stride as u32)
        &&& has_vertices ==> self.vertex_request_ok(vertex_count, vertex_stride)
    }

    /// Placing a mesh: the indices go to the index buffer (elements of
    /// `index_stride` bytes), then the vertices to a vertex buffer, requested
    /// with `vertex_count` as the element size and `vertex_stride` as the number
    /// of elements. Each part is skipped when it has no bytes. A failure keeps
    /// what the earlier part changed.
    pub open spec fn alloc_mesh(
        self,
        vertex_stride: u32,
        index_stride: u8,
        vertex_count: u32,
        index_count: u32,
    ) -> (MeshPoolModel, Result<MeshInfo, MeshAllocError>) {
        let has_indices = index_count * index_stride > 0;
        let has_vertices = vertex_count * vertex_stride > 0;
        let (m1, index_offset) = if has_indices {
            let (p, o) = self.index_pool.allocate(index_stride as u32, index_count);
            (MeshPoolModel { index_pool: p, ..self }, o)
        } else {
            (self, Some(0u32))
        };
        if index_offset is None {
            (m1, Err(MeshAllocError::IndexOutOfMemory))
        } else {
            let (m2, v) = if has_vertices {
                m1.alloc_verts(vertex_count, vertex_stride)
            } else {
                (m1, Some((0u32, 0u32)))
            };
            match v {
                None => (m2, Err(MeshAllocError::VertexOutOfMemory)),
                Some((vpool_id, vertex_offset)) => (
                    m2,
                    Ok(
                        MeshInfo {
                            num_indices: index_count,
                            num_verts: vertex_count,
                            vpool_id,
                            vertex_offset,
                            index_offset: index_offset->Some_0,
                            index_size: index_stride,
                            vertex_stride,
                            last_frame_used: 0,
                        },
                    ),
                ),
            }
        }
    }

    /// The ranges a released mesh gives back: its vertex bytes and its index bytes.
    pub open spec fn pending_of(mesh: MeshInfo) -> PendingMesh {
        let vbuf_offset = mesh.vertex_offset * mesh.vertex_stride;
        let index_start = mesh.index_offset * mesh.index_size;
        PendingMesh {
            vpool_id: mesh.vpool_id,
            vert_bytes: span(vbuf_offset as u32, (vbuf_offset + mesh.num_verts * mesh.vertex_stride) as u32),
            index_bytes: span(index_start as u32, (index_start + mesh.num_indices * mesh.index_size) as u32),
            last_frame_used: mesh.last_frame_used,
        }
    }

    /// What [`MeshPool::release_mesh`] needs: the byte ranges of the mesh fit `u32`.
    pub open spec fn release_ok(mesh: MeshInfo) -> bool {
        &&& mesh.vertex_offset * mesh.vertex_stride + mesh.num_verts * mesh.vertex_stride <= u32::MAX
        &&& mesh.index_offset * mesh.index_size + mesh.num_indices * mesh.index_size <= u32::MAX
    }

    /// Giving back everything released whose last frame is no later than
    /// `safe_frame`, in the order released; the rest keeps waiting in order.
    pub open spec fn collect_garbage(self, safe_frame: u64) -> (MeshPoolModel, Option<GarbageError>) {
        let due = self.garbage.filter(|p: PendingMesh| is_due(p, safe_frame));
        let kept = self.garbage.filter(|p: PendingMesh| !is_due(p, safe_frame));
        MeshPoolModel { garbage: kept, ..self }.release_all(due)
    }

    /// Giving back the ranges of one released mesh: the index range when it is
    /// not empty, then the vertex range when it is not empty.
    pub open spec fn release_pending(self, p: PendingMesh) -> (MeshPoolModel, Option<GarbageError>) {
        let index_ok = p.index_bytes.start >= p.index_bytes.end || self.index_pool.release(
            p.index_bytes,
        ).1;
        let m1 = if p.index_bytes.start < p.index_bytes.end {
            MeshPoolModel { index_pool: self.index_pool.release(p.index_bytes).0, ..self }
        } else {
            self
        };
        if !index_ok {
            (m1, Some(GarbageError::IndexRangeNotAllocated))
        } else if p.vert_bytes.start >= p.vert_bytes.end {
            (m1, None)
        } else if p.vpool_id >= m1.vertex_pools.len() || m1.vertex_pools[p.vpool_id as int] is None {
            (m1, Some(GarbageError::VertexPoolMissing))
        } else {
            let vp = m1.vertex_pools[p.vpool_id as int]->Some_0;
            let (vp2, ok) = vp.release(p.vert_bytes);
            let m2 = MeshPoolModel {
                vertex_pools: m1.vertex_pools.update(p.vpool_id as int, Some(vp2)),
                ..m1
            };
            if ok {
                (m2, None)
            } else {
                (m2, Some(GarbageError::VertexRangeNotAllocated))
            }
        }
    }

    /// Giving back the ranges of released meshes in order, stopping at the first failure.
    pub open spec fn release_all(self, s: Seq<PendingMesh>) -> (MeshPoolModel, Option<GarbageError>)
        decreases s.len(),
    {
        if s.len() == 0 {
            (self, None)
        } else {
            let (m1, e1) = self.release_all(s.drop_last());
            if e1 is Some {
                (m1, e1)
            } else {
                m1.release_pending(s.last())
            }
        }
    }
}

/// Places meshes in a shared index buffer and a growing set of vertex buffers,
/// and holds released meshes until the frames that used them are done.
pub struct MeshPool {
    index_pool: BufferPool,
    vertex_pools: Vec<Option<BufferPool>>,
    garbage: Vec<PendingMesh>,
    vertex_pool_size: u32,
    vertex_pool_limit: u32,
    allocated_vert_pools: u32,
}

impl View for MeshPool {
    type V = MeshPoolModel;

    closed spec fn view(&self) -> MeshPoolModel {
        MeshPoolModel {
            index_pool: self.index_pool@,
            vertex_pools: self.vertex_pools@.map_values(|o: Option<BufferPool>| pool_view(o)),
            garbage: self.garbage@,
            vertex_pool_size: self.vertex_pool_size,
            vertex_pool_limit: self.vertex_pool_limit,
            allocated_vert_pools: self.allocated_vert_pools,
        }
    }
}

proof fn lemma_first_fitting_unique(pools: Seq<Option<PoolModel>>, e: u32, n: u32, i: int)
    requires
        is_first_fitting(pools, e, n, i),
    ensures
        first_fitting(pools, e, n) == i,
{
    let k = first_fitting(pools, e, n);
    assert(is_first_fitting(pools, e, n, k));
    if k < i {
        assert(pools[k] is Some);
    } else if i < k {
        assert(pools[i] is Some);
    }
}

proof fn lemma_first_fitting_exists(pools: Seq<Option<PoolModel>>, e: u32, n: u32)
    ensures
        is_first_fitting(pools, e, n, first_fitting(pools, e, n)),
    decreases pools.len(),
{
    if pools.len() == 0 {
        assert(is_first_fitting(pools, e, n, 0));
    } else {
        let t = pools.drop_last();
        lemma_first_fitting_exists(t, e, n);
        let k = first_fitting(t, e, n);
        assert forall|j: int| 0 <= j < k implies !(#[trigger] pools[j] is Some && pools[j]->Some_0.allocate(e, n).1 is Some) by {
            assert(t[j] == pools[j]);
        }
        if k < t.len() {
            assert(t[k] == pools[k]);
            assert(is_first_fitting(pools, e, n, k));
        } else {
            assert(is_first_fitting(pools, e, n, k) || is_first_fitting(pools, e, n, pools.len() as int));
        }
    }
}

/// Once a step fails, the later steps are skipped.
proof fn lemma_release_all_stops(m: MeshPoolModel, s: Seq<PendingMesh>, k: int)
    requires
        0 < k <= s.len(),
        m.release_all(s.take(k)).1 is Some,
    ensures
        m.release_all(s) == m.release_all(s.take(k)),
    decreases s.len() - k,
{
    if k < s.len() {
        assert(s.take(k + 1).drop_last() =~= s.take(k));
        lemma_release_all_stops(m, s, k + 1);
    } else {
        assert(s.take(k) =~= s);
    }
}

proof fn lemma_fresh_pool_fits(size: u32, e: u32, n: u32)
    requires
        0 < e * n <= size,
    ensures
        fresh_pool(size).allocate(e, n).1 is Some,
        fresh_pool(size).can_round(e),
{
    assert(e > 0) by (nonlinear_arith)
        requires
            0 < e * n,
    ;
    let f = fresh_pool(size).free;
    assert((0 + e - 1) / (e as int) == 0) by {
        vstd::arithmetic::div_mod::lemma_small_div_converse(e - 1, e as int);
        vstd::arithmetic::div_mod::lemma_basic_div(e - 1, e as int);
    }
    let q = (0 + e - 1) / (e as int);
    assert(q * e == 0) by (nonlinear_arith)
        requires
            q == 0,
    ;
    assert(align_up(0, e) == 0);
    assert(fits(f[0], e, e * n));
    assert(crate::render::buffer_pool::is_best_fit(f, e, e * n, 0));
}

impl MeshPool {
    /// A pool with an index buffer of `index_pool_size` bytes and one vertex
    /// buffer of `vertex_pool_size` bytes; new vertex buffers of that size may
    /// be added while the count of buffers stays under `vertex_pool_limit`.
    pub fn new(index_pool_size: u32, vertex_pool_size: u32, vertex_pool_limit: u32) -> (r: Self)
        ensures
            r@.index_pool == fresh_pool(index_pool_size),
            r@.vertex_pools == seq![Some(fresh_pool(vertex_pool_size))],
            r@.garbage == Seq::<PendingMesh>::empty(),
            r@.vertex_pool_size == vertex_pool_size,
            r@.vertex_pool_limit == vertex_pool_limit,
            r@.allocated_vert_pools == 1,
    {
        let index_pool = BufferPool::new(index_pool_size);
        let vertex_pool = BufferPool::new(vertex_pool_size);
        let mut vertex_pools = Vec::new();
        vertex_pools.push(Some(vertex_pool));
        let r = MeshPool {
            index_pool,
            vertex_pools,
            garbage: Vec::new(),
            vertex_pool_size,
            vertex_pool_limit,
            allocated_vert_pools: 1u32,
        };
        proof {
            assert(r@.vertex_pools =~= seq![Some(fresh_pool(vertex_pool_size))]);
        }
        r
    }

    /// The index buffer's allocator.
    pub fn index_pool(&self) -> (r: &BufferPool)
        ensures
            r@ == self@.index_pool,
    {
        &self.index_pool
    }

    /// Number of vertex buffer slots.
    pub fn vertex_pool_count(&self) -> (r: usize)
        ensures
            r == self@.vertex_pools.len(),
    {
        self.vertex_pools.len()
    }

    /// The allocator of vertex buffer `i`, if that slot holds one.
    pub fn vertex_pool(&self, i: usize) -> (r: Option<&BufferPool>)
        ensures
            r is Some <==> i < self@.vertex_pools.len() && self@.vertex_pools[i as int] is Some,
            r is Some ==> r->Some_0@ == self@.vertex_pools[i as int]->Some_0,
            i >= self@.vertex_pools.len() ==> r is None,
    {
        if i < self.vertex_pools.len() {
            self.vertex_pools[i].as_ref()
        } else {
            None
        }
    }

    /// Size in bytes of each vertex buffer.
    pub fn vertex_pool_size(&self) -> (r: u32)
        ensures
            r == self@.vertex_pool_size,
    {
        self.vertex_pool_size
    }

    /// The released meshes still waiting for their frames to finish.
    pub fn garbage(&self) -> (r: &Vec<PendingMesh>)
        ensures
            r@ == self@.garbage,
    {
        &self.garbage
    }

    /// Whether [`MeshPool::alloc_mesh`] may be called with these arguments.
    pub fn can_alloc_mesh(&self, vertex_stride: u32, index_stride: u8, vertex_count: u32, index_count: u32) -> (r: bool)
        ensures
            r == self@.alloc_mesh_ok(vertex_stride, index_stride, vertex_count, index_count),
    {
        if !(index_stride == 0 || index_stride == 1 || index_stride == 2 || index_stride == 4) {
            return false;
        }
        proof {
            assert((index_count as u64) * (index_stride as u64) <= 0xffff_ffff * 255) by (nonlinear_arith)
                requires
                    index_count <= 0xffff_ffff,
                    index_stride <= 255,
            ;
            assert((vertex_count as u64) * (vertex_stride as u64) <= 0xffff_ffff * 0xffff_ffff) by (nonlinear_arith)
                requires
                    vertex_count <= 0xffff_ffff,
                    vertex_stride <= 0xffff_ffff,
            ;
        }
        let index_bytes = (index_count as u64) * (index_stride as u64);
        let vertex_bytes = (vertex_count as u64) * (vertex_stride as u64);
        if index_bytes > u32::MAX as u64 || vertex_bytes > u32::MAX as u64 {
            return false;
        }
        let has_indices = index_bytes > 0;
        let has_vertices = vertex_bytes > 0;
        if !has_vertices && !has_indices {
            return false;
        }
        if has_indices && !self.index_pool.can_round(index_stride as u32) {
            return false;
        }
        if has_vertices {
            if self.vertex_pools.len() >= u32::MAX as usize {
                return false;
            }
            let mut i: usize = 0;
            let mut any_fits = false;
            while i < self.vertex_pools.len()
                invariant
                    i <= self.vertex_pools.len(),
                    0 < vertex_count * vertex_stride <= u32::MAX,
                    forall|j: int|
                        0 <= j < i && #[trigger] self@.vertex_pools[j] is Some
                            ==> self@.vertex_pools[j]->Some_0.can_round(vertex_count),
                    !any_fits ==> forall|j: int|
                        0 <= j < i ==> !(#[trigger] self@.vertex_pools[j] is Some
                            && self@.vertex_pools[j]->Some_0.allocate(vertex_count, vertex_stride).1 is Some),
                    any_fits ==> exists|j: int|
                        0 <= j < i && #[trigger] self@.vertex_pools[j] is Some
                            && self@.vertex_pools[j]->Some_0.allocate(vertex_count, vertex_stride).1 is Some,
                decreases self.vertex_pools.len() - i,
            {
                match &self.vertex_pools[i] {
                    Some(p) => {
                        assert(self@.vertex_pools[i as int] == Some(p@));
                        if !p.can_round(vertex_count) {
                            return false;
                        }
                        if p.has_room(vertex_count, vertex_stride) {
                            any_fits = true;
                        }
                    },
                    None => {
                        assert(self@.vertex_pools[i as int] is None);
                    },
                }
                i = i + 1;
            }
            proof {
                if !any_fits {
                    assert(is_first_fitting(self@.vertex_pools, vertex_count, vertex_stride, self@.vertex_pools.len() as int));
                    lemma_first_fitting_unique(self@.vertex_pools, vertex_count, vertex_stride, self@.vertex_pools.len() as int);
                } else {
                    lemma_first_fitting_exists(self@.vertex_pools, vertex_count, vertex_stride);
                    let k = first_fitting(self@.vertex_pools, vertex_count, vertex_stride);
                    let j = choose|j: int|
                        0 <= j < i && #[trigger] self@.vertex_pools[j] is Some
                            && self@.vertex_pools[j]->Some_0.allocate(vertex_count, vertex_stride).1 is Some;
                    assert(k <= j);
                }
            }
            if !any_fits && self.allocated_vert_pools < self.vertex_pool_limit
                && vertex_bytes > self.vertex_pool_size as u64 {
                return false;
            }
        }
        true
    }

    /// Places a mesh of `vertex_count` vertices of `vertex_stride` bytes and
    /// `index_count` indices of `index_stride` bytes (see
    /// [`MeshPoolModel::alloc_mesh`]).
    pub fn alloc_mesh(&mut self, vertex_stride: u32, index_stride: u8, vertex_count: u32, index_count: u32) -> (r: Result<MeshDesc, MeshAllocError>)
        requires
            old(self)@.alloc_mesh_ok(vertex_stride, index_stride, vertex_count, index_count),
        ensures
            final(self)@ == old(self)@.alloc_mesh(vertex_stride, index_stride, vertex_count, index_count).0,
            match r {
                Ok(d) => old(self)@.alloc_mesh(vertex_stride, index_stride, vertex_count, index_count).1 == Ok::<MeshInfo, MeshAllocError>(d@),
                Err(e) => old(self)@.alloc_mesh(vertex_stride, index_stride, vertex_count, index_count).1 == Err::<MeshInfo, MeshAllocError>(e),
            },
    {
        let has_indices = index_count * index_stride as u32 > 0;
        let has_vertices = vertex_count * vertex_stride > 0;

        let index_offset = if has_indices {
            match self.index_pool.try_allocate(index_stride as u32, index_count) {
                Some(o) => o,
                None => {
                    return Err(MeshAllocError::IndexOutOfMemory);
                },
            }
        } else {
            0u32
        };

        let (vpool_id, vertex_offset) = if has_vertices {
            proof {
                assert(self@.vertex_pools == old(self)@.vertex_pools);
            }
            match self.alloc_verts(vertex_count, vertex_stride) {
                Some(v) => v,
                None => {
                    return Err(MeshAllocError::VertexOutOfMemory);
                },
            }
        } else {
            (0u32, 0u32)
        };

        Ok(MeshDesc {
            num_indices: index_count,
            num_verts: vertex_count,
            vpool_id,
            vertex_offset,
            index_offset,
            index_size: index_stride,
            vertex_stride,
            last_frame_used: 0,
        })
    }

    /// Whether the byte ranges of `mesh` fit `u32`, so that it can be released
    /// (what [`MeshPool::release_mesh`] needs).
    pub fn can_release(mesh: &MeshDesc) -> (r: bool)
        ensures
            r == MeshPoolModel::release_ok(mesh@),
    {
        proof {
            assert(mesh.vertex_offset * mesh.vertex_stride <= u32::MAX * u32::MAX) by (nonlinear_arith)
                requires
                    mesh.vertex_offset <= u32::MAX,
                    mesh.vertex_stride <= u32::MAX,
            ;
            assert(mesh.num_verts * mesh.vertex_stride <= u32::MAX * u32::MAX) by (nonlinear_arith)
                requires
                    mesh.num_verts <= u32::MAX,
                    mesh.vertex_stride <= u32::MAX,
            ;
            assert(mesh.index_offset * mesh.index_size <= u32::MAX * 255) by (nonlinear_arith)
                requires
                    mesh.index_offset <= u32::MAX,
                    mesh.index_size <= 255,
            ;
            assert(mesh.num_indices * mesh.index_size <= u32::MAX * 255) by (nonlinear_arith)
                requires
                    mesh.num_indices <= u32::MAX,
                    mesh.index_size <= 255,
            ;
        }
        let vstart = (mesh.vertex_offset as u64) * (mesh.vertex_stride as u64);
        let vlen = (mesh.num_verts as u64) * (mesh.vertex_stride as u64);
        let istart = (mesh.index_offset as u64) * (mesh.index_size as u64);
        let ilen = (mesh.num_indices as u64) * (mesh.index_size as u64);
        vstart <= u32::MAX as u64 && vlen <= u32::MAX as u64 - vstart
            && istart <= u32::MAX as u64 && ilen <= u32::MAX as u64 - istart
    }

    /// Queues the ranges of a mesh that is no longer used; they return to the
    /// pool once [`MeshPool::collect_garbage`] finds its last frame done.
    pub fn release_mesh(&mut self, mesh: &MeshDesc)
        requires
            MeshPoolModel::release_ok(mesh@),
        ensures
            final(self)@ == (MeshPoolModel {
                garbage: old(self)@.garbage.push(MeshPoolModel::pending_of(mesh@)),
                ..old(self)@
            }),
    {
        proof {
            assert(mesh.vertex_offset * mesh.vertex_stride <= u32::MAX) by (nonlinear_arith)
                requires
                    mesh.vertex_offset * mesh.vertex_stride + mesh.num_verts * mesh.vertex_stride <= u32::MAX,
                    mesh.num_verts * mesh.vertex_stride >= 0,
            ;
            assert(mesh.num_verts * mesh.vertex_stride >= 0) by (nonlinear_arith);
            assert(mesh.index_offset * mesh.index_size >= 0) by (nonlinear_arith);
            assert(mesh.num_indices * mesh.index_size >= 0) by (nonlinear_arith);
        }
        let vbuf_offset = mesh.vertex_offset * mesh.vertex_stride;
        let vbuf_end = vbuf_offset + mesh.num_verts * mesh.vertex_stride;
        let index_start = mesh.index_offset * mesh.index_size as u32;
        let index_end = index_start + mesh.num_indices * mesh.index_size as u32;
        self.garbage.push(PendingMesh {
            vpool_id: mesh.vpool_id,
            vert_bytes: vbuf_offset..vbuf_end,
            index_bytes: index_start..index_end,
            last_frame_used: mesh.last_frame_used,
        });
    }

    /// Gives back the ranges of one released mesh (see [`MeshPoolModel::release_pending`]).
    fn release_pending(&mut self, p: &PendingMesh) -> (r: Option<GarbageError>)
        ensures
            (final(self)@, r) == old(self)@.release_pending(*p),
    {
        if p.index_bytes.start < p.index_bytes.end {
            let removed = self.index_pool.try_free(p.index_bytes.start..p.index_bytes.end);
            if !removed {
                return Some(GarbageError::IndexRangeNotAllocated);
            }
        }
        if p.vert_bytes.start < p.vert_bytes.end {
            let id = p.vpool_id as usize;
            if id >= self.vertex_pools.len() {
                return Some(GarbageError::VertexPoolMissing);
            }
            let ghost mid = self@;
            let mut slot = self.vertex_pools[id].take();
            let removed = match slot {
                Some(ref mut pool) => {
                    assert(mid.vertex_pools[id as int] is Some);
                    pool.try_free(p.vert_bytes.start..p.vert_bytes.end)
                },
                None => {
                    self.vertex_pools.set(id, slot);
                    proof {
                        assert(self@.vertex_pools =~= mid.vertex_pools);
                    }
                    return Some(GarbageError::VertexPoolMissing);
                },
            };
            let ghost new_slot = pool_view(slot);
            self.vertex_pools.set(id, slot);
            proof {
                assert(self@.vertex_pools =~= mid.vertex_pools.update(id as int, new_slot));
            }
            if !removed {
                return Some(GarbageError::VertexRangeNotAllocated);
            }
        }
        None
    }

    /// Gives back the ranges of every released mesh whose last frame is no
    /// later than `safe_frame`, in the order they were released (see
    /// [`MeshPoolModel::collect_garbage`]); stops at the first range that was not
    /// handed out.
    pub fn collect_garbage(&mut self, safe_frame: u64) -> (r: Result<(), GarbageError>)
        ensures
            final(self)@ == old(self)@.collect_garbage(safe_frame).0,
            r == (match old(self)@.collect_garbage(safe_frame).1 {
                None => Ok::<(), GarbageError>(()),
                Some(e) => Err(e),
            }),
    {
        let ghost g = self.garbage@;
        let ghost due_p = |p: PendingMesh| is_due(p, safe_frame);
        let ghost keep_p = |p: PendingMesh| !is_due(p, safe_frame);
        let mut removed: Vec<PendingMesh> = Vec::new();
        let mut kept: Vec<PendingMesh> = Vec::new();
        let mut i: usize = 0;
        while i < self.garbage.len()
            invariant
                i <= self.garbage.len(),
                self@ == old(self)@,
                g == old(self)@.garbage,
                removed@ == g.take(i as int).filter(due_p),
                kept@ == g.take(i as int).filter(keep_p),
                due_p == (|p: PendingMesh| is_due(p, safe_frame)),
                keep_p == (|p: PendingMesh| !is_due(p, safe_frame)),
            decreases self.garbage.len() - i,
        {
            let e = &self.garbage[i];
            let copy = PendingMesh {
                vpool_id: e.vpool_id,
                vert_bytes: e.vert_bytes.start..e.vert_bytes.end,
                index_bytes: e.index_bytes.start..e.index_bytes.end,
                last_frame_used: e.last_frame_used,
            };
            proof {
                assert(copy == g[i as int]);
                assert(g.take(i + 1).drop_last() =~= g.take(i as int));
                assert(g.take(i + 1).last() == g[i as int]);
                reveal(Seq::filter);
            }
            if copy.last_frame_used <= safe_frame {
                removed.push(copy);
            } else {
                kept.push(copy);
            }
            i = i + 1;
        }
        proof {
            assert(g.take(i as int) =~= g);
        }
        self.garbage = kept;
        let mut k: usize = 0;
        let ghost base = self@;
        while k < removed.len()
            invariant
                k <= removed.len(),
                base == (MeshPoolModel { garbage: g.filter(keep_p), ..old(self)@ }),
                g == old(self)@.garbage,
                due_p == (|p: PendingMesh| is_due(p, safe_frame)),
                keep_p == (|p: PendingMesh| !is_due(p, safe_frame)),
                removed@ == g.filter(due_p),
                base.release_all(removed@.take(k as int)) == (self@, None::<GarbageError>),
            decreases removed.len() - k,
        {
            proof {
                assert(removed@.take(k + 1).drop_last() =~= removed@.take(k as int));
                assert(removed@.take(k + 1).last() == removed@[k as int]);
            }
            let ghost before = self@;
            let res = self.release_pending(&removed[k]);
            proof {
                assert(base.release_all(removed@.take(k + 1)) == before.release_pending(removed@[k as int]));
            }
            match res {
                Some(err) => {
                    proof {
                        lemma_release_all_stops(base, removed@, k as int + 1);
                        assert(old(self)@.collect_garbage(safe_frame) == base.release_all(removed@));
                    }
                    return Err(err);
                },
                None => {},
            }
            k = k + 1;
        }
        proof {
            assert(removed@.take(k as int) =~= removed@);
            assert(old(self)@.collect_garbage(safe_frame) == base.release_all(removed@));
        }
        Ok(())
    }

    /// Tries vertex pool `i` alone; it changes only when it takes the request.
    fn try_pool(&mut self, i: usize, e: u32, n: u32) -> (r: Option<u32>)
        requires
            i < old(self)@.vertex_pools.len(),
            0 < e * n <= u32::MAX,
            old(self)@.vertex_pools[i as int] is Some ==> old(self)@.vertex_pools[i as int]->Some_0.can_round(e),
        ensures
            final(self)@ == (if old(self)@.vertex_pools[i as int] is Some && old(
                self,
            )@.vertex_pools[i as int]->Some_0.allocate(e, n).1 is Some {
                MeshPoolModel {
                    vertex_pools: old(self)@.vertex_pools.update(
                        i as int,
                        Some(old(self)@.vertex_pools[i as int]->Some_0.allocate(e, n).0),
                    ),
                    ..old(self)@
                }
            } else {
                old(self)@
            }),
            r == (if old(self)@.vertex_pools[i as int] is Some {
                old(self)@.vertex_pools[i as int]->Some_0.allocate(e, n).1
            } else {
                None
            }),
    {
        let ghost old_pools = self.vertex_pools@;
        let mut slot = self.vertex_pools[i].take();
        let r = match slot {
            Some(ref mut p) => {
                proof {
                    assert(old(self)@.vertex_pools[i as int] is Some);
                }
                p.try_allocate(e, n)
            },
            None => None,
        };
        let ghost new_slot = pool_view(slot);
        self.vertex_pools.set(i, slot);
        proof {
            assert(self@.vertex_pools =~= old(self)@.vertex_pools.update(i as int, new_slot));
            if r is None {
                assert(self@.vertex_pools =~= old(self)@.vertex_pools);
            }
        }
        r
    }

    /// Places `vert_count` elements of `vert_size` bytes in a vertex buffer (see
    /// [`MeshPoolModel::alloc_verts`]); returns the buffer's slot and the offset
    /// in elements.
    pub fn alloc_verts(&mut self, vert_size: u32, vert_count: u32) -> (r: Option<(u32, u32)>)
        requires
            old(self)@.vertex_request_ok(vert_size, vert_count),
        ensures
            (final(self)@, r) == old(self)@.alloc_verts(vert_size, vert_count),
    {
        let ghost e = vert_size;
        let ghost n = vert_count;
        let mut i: usize = 0;
        while i < self.vertex_pools.len()
            invariant
                i <= self.vertex_pools.len(),
                self@ == old(self)@,
                old(self)@.vertex_request_ok(e, n),
                e == vert_size,
                n == vert_count,
                forall|j: int|
                    0 <= j < i ==> !(#[trigger] self@.vertex_pools[j] is Some
                        && self@.vertex_pools[j]->Some_0.allocate(e, n).1 is Some),
            decreases self.vertex_pools.len() - i,
        {
            proof {
                if self@.vertex_pools[i as int] is Some {
                    assert(old(self)@.vertex_pools[i as int] is Some);
                }
            }
            let r = self.try_pool(i, vert_size, vert_count);
            match r {
                Some(offs) => {
                    proof {
                        lemma_first_fitting_unique(old(self)@.vertex_pools, e, n, i as int);
                    }
                    return Some((i as u32, offs));
                },
                None => {},
            }
            i = i + 1;
        }
        proof {
            lemma_first_fitting_unique(old(self)@.vertex_pools, e, n, i as int);
        }
        if self.allocated_vert_pools >= self.vertex_pool_limit {
            return None;
        }
        let free_cell = find_free_slot(&self.vertex_pools);
        proof {
            assert forall|j: int| 0 <= j < free_cell implies #[trigger] old(self)@.vertex_pools[j] is Some by {
                assert(self.vertex_pools@[j] is Some);
            }
            if free_cell < self.vertex_pools.len() {
                assert(self.vertex_pools@[free_cell as int] is None);
            }
            assert(is_first_free(old(self)@.vertex_pools, free_cell as int));
            crate::slots::lemma_first_free_unique(old(self)@.vertex_pools, free_cell as int);
        }
        let vbuffer = BufferPool::new(self.vertex_pool_size);
        proof {
            lemma_fresh_pool_fits(self.vertex_pool_size, e, n);
        }
        if free_cell < self.vertex_pools.len() {
            self.vertex_pools.set(free_cell, Some(vbuffer));
        } else {
            self.vertex_pools.push(Some(vbuffer));
        }
        let ghost fresh = fresh_pool(self.vertex_pool_size);
        proof {
            assert(self.vertex_pools@[free_cell as int] is Some);
            if free_cell < old(self)@.vertex_pools.len() {
                assert(self@.vertex_pools =~= old(self)@.vertex_pools.update(free_cell as int, Some(fresh)));
            } else {
                assert(self@.vertex_pools =~= old(self)@.vertex_pools.push(Some(fresh)));
            }
            assert(self@.vertex_pools[free_cell as int] == Some(fresh));
        }
        let r = self.try_pool(free_cell, vert_size, vert_count);
        proof {
            let p2 = fresh.allocate(e, n).0;
            if free_cell < old(self)@.vertex_pools.len() {
                assert(self@.vertex_pools =~= old(self)@.vertex_pools.update(free_cell as int, Some(p2)));
            } else {
                assert(self@.vertex_pools =~= old(self)@.vertex_pools.push(Some(p2)));
            }
            assert(self@.vertex_pools =~= old(self)@.alloc_verts(e, n).0.vertex_pools);
        }
        Some((free_cell as u32, r.unwrap()))
    }
}

/// A mesh with indices and no vertex bytes, placed in a pool with no released
/// meshes waiting and a sound index buffer, then released: once a frame no
/// earlier than its last use is safe, its index range goes back without error,
/// the index buffer hands out what it handed out before, and nothing waits.
pub proof fn lemma_index_mesh_round_trip(
    m: MeshPoolModel,
    vertex_stride: u32,
    index_stride: u8,
    vertex_count: u32,
    index_count: u32,
    safe_frame: u64,
)
    requires
        m.garbage.len() == 0,
        m.index_pool.sound(),
        m.alloc_mesh_ok(vertex_stride, index_stride, vertex_count, index_count),
        vertex_count * vertex_stride == 0,
        m.alloc_mesh(vertex_stride, index_stride, vertex_count, index_count).1 is Ok,
    ensures
        ({
            let (m2, d) = m.alloc_mesh(vertex_stride, index_stride, vertex_count, index_count);
            let mesh = d->Ok_0;
            let m3 = MeshPoolModel { garbage: seq![MeshPoolModel::pending_of(mesh)], ..m2 };
            let (m4, err) = m3.collect_garbage(safe_frame);
            &&& MeshPoolModel::release_ok(mesh)
            &&& err is None
            &&& m4.index_pool.used == m.index_pool.used
            &&& m4.garbage.len() == 0
        }),
{
    let e = index_stride as u32;
    let bytes = e * index_count;
    assert(index_count * index_stride == e * index_count) by (nonlinear_arith)
        requires
            e == index_stride,
    ;
    assert(bytes > 0);
    crate::render::buffer_pool::lemma_allocate_release_round_trip(m.index_pool, e, index_count);
    crate::render::buffer_pool::lemma_allocate_placement(m.index_pool, e, index_count);
    let (p2, off) = m.index_pool.allocate(e, index_count);
    let (m2, d) = m.alloc_mesh(vertex_stride, index_stride, vertex_count, index_count);
    let mesh = d->Ok_0;
    assert(mesh.index_offset == off->Some_0);
    assert(mesh.num_verts * mesh.vertex_stride == 0);
    let a = off->Some_0 * e;
    assert(mesh.index_offset * mesh.index_size == a) by (nonlinear_arith)
        requires
            mesh.index_offset == off->Some_0,
            mesh.index_size == e,
            a == off->Some_0 * e,
    ;
    assert(mesh.num_indices * mesh.index_size == bytes) by (nonlinear_arith)
        requires
            mesh.num_indices == index_count,
            mesh.index_size == e,
            bytes == e * index_count,
    ;
    assert(mesh.vertex_offset * mesh.vertex_stride == 0) by (nonlinear_arith)
        requires
            mesh.vertex_offset == 0,
    ;
    let p = MeshPoolModel::pending_of(mesh);
    assert(p.index_bytes == span(a as u32, (a + bytes) as u32));
    let m3 = MeshPoolModel { garbage: seq![p], ..m2 };
    let due = m3.garbage.filter(|q: PendingMesh| is_due(q, safe_frame));
    let kept = m3.garbage.filter(|q: PendingMesh| !is_due(q, safe_frame));
    assert(p.last_frame_used == 0);
    assert(is_due(p, safe_frame));
    reveal_with_fuel(Seq::filter, 2);
    assert(m3.garbage.drop_last() =~= Seq::<PendingMesh>::empty());
    assert(m3.garbage.last() == p);
    assert(due =~= seq![p]);
    assert(kept =~= Seq::<PendingMesh>::empty());
    let m5 = MeshPoolModel { garbage: kept, ..m3 };
    assert(seq![p].drop_last() =~= Seq::<PendingMesh>::empty());
    assert(m5.release_all(Seq::<PendingMesh>::empty()) == (m5, None::<GarbageError>));
    assert(seq![p].last() == p);
    assert(m5.release_all(seq![p]) == m5.release_pending(p));
}

} // verus!
