use vstd::prelude::*;
use crate::slots::{find_free_slot, first_free, is_first_free, lemma_first_free_exists};

verus! {

/// One draw of a node: which mesh, with which material.
#[derive(Copy, Clone, PartialEq, Eq, Structural)]
pub struct Primitive {
    pub mesh_id: u32,
    pub material_id: u32,
}

/// A scene node: its name, its transform relative to its parent, the instance
/// it was given, its children, its parent and the primitives it draws.
pub struct Node<X, I> {
    pub name: String,
    pub transform: X,
    pub inst_data: Option<I>,
    pub children: Vec<u32>,
    pub parent: u32,
    pub primitives: Vec<Primitive>,
}

/// What a [`Node`] holds, with its lists as sequences.
pub struct NodeModel<X, I> {
    pub name: Seq<char>,
    pub transform: X,
    pub inst_data: Option<I>,
    pub children: Seq<u32>,
    pub parent: u32,
    pub primitives: Seq<Primitive>,
}

impl<X, I> View for Node<X, I> {
    type V = NodeModel<X, I>;

    open spec fn view(&self) -> NodeModel<X, I> {
        NodeModel {
            name: self.name@,
            transform: self.transform,
            inst_data: self.inst_data,
            children: self.children@,
            parent: self.parent,
            primitives: self.primitives@,
        }
    }
}

/// A tree of nodes under node 0, the root. Nodes are numbered in the order
/// they are added, so every child comes after its parent.
pub struct SceneGraph<X, I> {
    nodes: Vec<Option<Node<X, I>>>,
}

pub open spec fn node_view<X, I>(o: Option<Node<X, I>>) -> Option<NodeModel<X, I>> {
    match o {
        Some(n) => Some(n@),
        None => None,
    }
}

/// The graph is a tree rooted at node 0: every slot holds a node, the root is
/// its own parent, and every child comes after its parent, names it as parent
/// and exists.
pub open spec fn tree_ok<X, I>(g: Seq<Option<NodeModel<X, I>>>) -> bool {
    &&& g.len() >= 1
    &&& forall|i: int| 0 <= i < g.len() ==> #[trigger] g[i] is Some
    &&& g[0]->Some_0.parent == 0
    &&& forall|p: int, k: int|
        0 <= p < g.len() && 0 <= k < g[p]->Some_0.children.len() ==> {
            let c = #[trigger] g[p]->Some_0.children[k];
            &&& p < c < g.len()
            &&& g[c as int]->Some_0.parent == p
        }
}

/// The node ids visited by a depth-first walk from `id`: the node itself, then
/// the walk from each child in order.
pub open spec fn walk<X, I>(g: Seq<Option<NodeModel<X, I>>>, id: int) -> Seq<u32>
    decreases g.len() - id, 1int, 0int,
{
    if 0 <= id < g.len() && g[id] is Some {
        seq![id as u32] + walk_children(g, id, g[id]->Some_0.children.len() as int)
    } else {
        Seq::empty()
    }
}

/// The walks from the first `k` children of `id`, one after the other.
pub open spec fn walk_children<X, I>(g: Seq<Option<NodeModel<X, I>>>, id: int, k: int) -> Seq<u32>
    decreases g.len() - id, 0int, k,
{
    if k <= 0 || !(0 <= id < g.len() && g[id] is Some) || k > g[id]->Some_0.children.len() {
        Seq::empty()
    } else {
        let c = g[id]->Some_0.children[k - 1] as int;
        walk_children(g, id, k - 1) + if id < c < g.len() {
            walk(g, c)
        } else {
            Seq::empty()
        }
    }
}

/// The graph once node `n` is added under `parent`: it takes the next id and
/// goes to the end of the parent's children.
pub open spec fn with_child<X, I>(g: Seq<Option<NodeModel<X, I>>>, parent: u32, n: NodeModel<X, I>) -> Seq<
    Option<NodeModel<X, I>>,
> {
    let id = g.len() as u32;
    let p = g[parent as int]->Some_0;
    g.push(Some(n)).update(parent as int, Some(NodeModel { children: p.children.push(id), ..p }))
}

impl<X, I> View for SceneGraph<X, I> {
    type V = Seq<Option<NodeModel<X, I>>>;

    closed spec fn view(&self) -> Seq<Option<NodeModel<X, I>>> {
        self.nodes@.map_values(|o: Option<Node<X, I>>| node_view(o))
    }
}

impl<X, I> SceneGraph<X, I> {
    /// A graph holding only the root, named `scene_root`, with transform `root_transform`.
    pub fn new(root_transform: X) -> (r: Self)
        ensures
            tree_ok(r@),
            r@.len() == 1,
            r@[0]->Some_0.transform == root_transform,
            r@[0]->Some_0.name == "scene_root"@,
            r@[0]->Some_0.children.len() == 0,
            r@[0]->Some_0.primitives.len() == 0,
            r@[0]->Some_0.inst_data is None,
    {
        let mut nodes = Vec::new();
        nodes.push(
            Some(
                Node {
                    name: String::from_str("scene_root"),
                    transform: root_transform,
                    inst_data: None,
                    children: Vec::new(),
                    parent: 0u32,
                    primitives: Vec::new(),
                },
            ),
        );
        SceneGraph { nodes }
    }

    /// Number of node slots.
    pub fn len(&self) -> (r: usize)
        ensures
            r == self@.len(),
    {
        self.nodes.len()
    }

    /// The node `id`.
    pub fn node(&self, id: u32) -> (r: &Node<X, I>)
        requires
            tree_ok(self@),
            id < self@.len(),
        ensures
            Some(r@) == self@[id as int],
    {
        proof {
            assert(self@[id as int] == node_view(self.nodes@[id as int]));
        }
        self.nodes[id as usize].as_ref().unwrap()
    }

    /// Adds a node named `name` with transform `transform` under `parent`, and
    /// returns its id.
    pub fn add_node(&mut self, parent: u32, name: String, transform: X) -> (id: u32)
        requires
            tree_ok(old(self)@),
            parent < old(self)@.len(),
            old(self)@.len() < u32::MAX,
        ensures
            tree_ok(final(self)@),
            id == old(self)@.len(),
            final(self)@ == with_child(
                old(self)@,
                parent,
                NodeModel {
                    name: name@,
                    transform,
                    inst_data: None,
                    children: Seq::empty(),
                    parent,
                    primitives: Seq::empty(),
                },
            ),
    {
        let new_node = Node {
            name,
            transform,
            inst_data: None,
            children: Vec::new(),
            parent,
            primitives: Vec::new(),
        };
        let ghost nv = new_node@;
        let free = find_free_slot(&self.nodes);
        proof {
            if free < self.nodes.len() {
                assert(self@[free as int] is Some);
            }
        }
        self.nodes.push(Some(new_node));
        let new_id = (self.nodes.len() - 1) as u32;
        let ghost g1 = self@;
        proof {
            assert(g1 =~= old(self)@.push(Some(nv)));
        }
        let mut slot = self.nodes[parent as usize].take();
        let ghost pv = slot->Some_0@;
        match slot {
            Some(ref mut p) => {
                p.children.push(new_id);
            },
            None => {},
        }
        let ghost sv = node_view(slot);
        self.nodes.set(parent as usize, slot);
        proof {
            let g2 = with_child(old(self)@, parent, nv);
            assert(self@ =~= g1.update(parent as int, sv));
            assert(self@ =~= g2);
            let g = self@;
            let o = old(self)@;
            assert forall|p: int, k: int|
                0 <= p < g.len() && 0 <= k < g[p]->Some_0.children.len() implies {
                let c = #[trigger] g[p]->Some_0.children[k];
                &&& p < c < g.len()
                &&& g[c as int]->Some_0.parent == p
            } by {
                if p == parent && k == o[p]->Some_0.children.len() {
                } else {
                    assert(g[p]->Some_0.children[k] == o[p]->Some_0.children[k]);
                    let c = o[p]->Some_0.children[k];
                    assert(p < c < o.len());
                }
            }
            assert forall|i: int| 0 <= i < g.len() implies #[trigger] g[i] is Some by {
                if i < o.len() {
                    assert(o[i] is Some);
                }
            }
        }
        new_id
    }

    /// Does nothing: nodes are never taken out of the graph.
    pub fn remove_node(&mut self, id: u32)
        ensures
            final(self)@ == old(self)@,
    {
    }

    /// Replaces the node's transform.
    pub fn set_transform(&mut self, id: u32, transform: X)
        requires
            tree_ok(old(self)@),
            id < old(self)@.len(),
        ensures
            tree_ok(final(self)@),
            final(self)@ == old(self)@.update(
                id as int,
                Some(NodeModel { transform, ..old(self)@[id as int]->Some_0 }),
            ),
    {
        let mut slot = self.nodes[id as usize].take();
        match slot {
            Some(ref mut n) => {
                n.transform = transform;
            },
            None => {},
        }
        let ghost sv = node_view(slot);
        self.nodes.set(id as usize, slot);
        proof {
            assert(self@ =~= old(self)@.update(id as int, sv));
            lemma_payload_change_keeps_tree(old(self)@, id as int, sv->Some_0);
        }
    }

    /// Records the instance the node was given.
    pub fn set_inst_data(&mut self, id: u32, inst_data: Option<I>)
        requires
            tree_ok(old(self)@),
            id < old(self)@.len(),
        ensures
            tree_ok(final(self)@),
            final(self)@ == old(self)@.update(
                id as int,
                Some(NodeModel { inst_data, ..old(self)@[id as int]->Some_0 }),
            ),
    {
        let mut slot = self.nodes[id as usize].take();
        match slot {
            Some(ref mut n) => {
                n.inst_data = inst_data;
            },
            None => {},
        }
        let ghost sv = node_view(slot);
        self.nodes.set(id as usize, slot);
        proof {
            assert(self@ =~= old(self)@.update(id as int, sv));
            lemma_payload_change_keeps_tree(old(self)@, id as int, sv->Some_0);
        }
    }

    /// Adds a primitive to the node's draws.
    pub fn add_primitive(&mut self, id: u32, prim: Primitive)
        requires
            tree_ok(old(self)@),
            id < old(self)@.len(),
        ensures
            tree_ok(final(self)@),
            final(self)@ == old(self)@.update(
                id as int,
                Some(
                    NodeModel {
                        primitives: old(self)@[id as int]->Some_0.primitives.push(prim),
                        ..old(self)@[id as int]->Some_0
                    },
                ),
            ),
    {
        let mut slot = self.nodes[id as usize].take();
        match slot {
            Some(ref mut n) => {
                n.primitives.push(prim);
            },
            None => {},
        }
        let ghost sv = node_view(slot);
        self.nodes.set(id as usize, slot);
        proof {
            assert(self@ =~= old(self)@.update(id as int, sv));
            lemma_payload_change_keeps_tree(old(self)@, id as int, sv->Some_0);
        }
    }

    fn walk_into(&self, id: u32, out: &mut Vec<u32>)
        requires
            tree_ok(self@),
            id < self@.len(),
        ensures
            final(out)@ == old(out)@ + walk(self@, id as int),
        decreases self@.len() - id,
    {
        let ghost g = self@;
        out.push(id);
        let node = self.nodes[id as usize].as_ref().unwrap();
        let ghost n = g[id as int]->Some_0;
        assert(node@ == n);
        let mut i: usize = 0;
        while i < node.children.len()
            invariant
                g == self@,
                tree_ok(g),
                id < g.len(),
                n == g[id as int]->Some_0,
                node@ == n,
                i <= node.children.len(),
                out@ == old(out)@ + seq![id as u32] + walk_children(g, id as int, i as int),
            decreases node.children.len() - i,
        {
            let c = node.children[i];
            proof {
                assert(c == g[id as int]->Some_0.children[i as int]);
                assert(id < c < g.len());
            }
            self.walk_into(c, out);
            proof {
                assert(out@ =~= old(out)@ + seq![id as u32] + walk_children(g, id as int, i + 1));
            }
            i = i + 1;
        }
        proof {
            assert(out@ =~= old(out)@ + walk(g, id as int));
        }
    }

    /// The ids of `start` and everything below it, in depth-first order: each
    /// node comes before its children, and children in the order they were added.
    pub fn walk_order(&self, start: u32) -> (r: Vec<u32>)
        requires
            tree_ok(self@),
            start < self@.len(),
        ensures
            r@ == walk(self@, start as int),
    {
        let mut out = Vec::new();
        self.walk_into(start, &mut out);
        proof {
            assert(out@ =~= walk(self@, start as int));
        }
        out
    }
}

/// Changing what a node holds, but not its children or parent, keeps the tree.
proof fn lemma_payload_change_keeps_tree<X, I>(g: Seq<Option<NodeModel<X, I>>>, id: int, n: NodeModel<X, I>)
    requires
        tree_ok(g),
        0 <= id < g.len(),
        n.children == g[id]->Some_0.children,
        n.parent == g[id]->Some_0.parent,
    ensures
        tree_ok(g.update(id, Some(n))),
{
    let g2 = g.update(id, Some(n));
    assert forall|p: int, k: int|
        0 <= p < g2.len() && 0 <= k < g2[p]->Some_0.children.len() implies {
        let c = #[trigger] g2[p]->Some_0.children[k];
        &&& p < c < g2.len()
        &&& g2[c as int]->Some_0.parent == p
    } by {
        assert(g2[p]->Some_0.children[k] == g[p]->Some_0.children[k]);
        let c = g[p]->Some_0.children[k];
        assert(p < c < g.len());
    }
}

proof fn lemma_walk_unchanged<X, I>(
    g: Seq<Option<NodeModel<X, I>>>,
    parent: u32,
    n: NodeModel<X, I>,
    c: int,
)
    requires
        tree_ok(g),
        parent < g.len(),
        parent < c < g.len(),
    ensures
        walk(with_child(g, parent, n), c) == walk(g, c),
    decreases g.len() - c, 1int, 0int,
{
    let g2 = with_child(g, parent, n);
    assert(g2[c] == g[c]);
    lemma_walk_children_unchanged(g, parent, n, c, g[c]->Some_0.children.len() as int);
}

proof fn lemma_walk_children_unchanged<X, I>(
    g: Seq<Option<NodeModel<X, I>>>,
    parent: u32,
    n: NodeModel<X, I>,
    c: int,
    k: int,
)
    requires
        tree_ok(g),
        parent < g.len(),
        parent < c < g.len(),
        0 <= k <= g[c]->Some_0.children.len(),
    ensures
        walk_children(with_child(g, parent, n), c, k) == walk_children(g, c, k),
    decreases g.len() - c, 0int, k,
{
    let g2 = with_child(g, parent, n);
    assert(g2[c] == g[c]);
    if k > 0 {
        lemma_walk_children_unchanged(g, parent, n, c, k - 1);
        let d = g[c]->Some_0.children[k - 1] as int;
        assert(c < d < g.len());
        lemma_walk_unchanged(g, parent, n, d);
    }
}

/// A node added under `parent` is visited last in a walk from `parent`, and
/// nothing else in that walk changes.
pub proof fn lemma_add_node_walk<X, I>(g: Seq<Option<NodeModel<X, I>>>, parent: u32, n: NodeModel<X, I>)
    requires
        tree_ok(g),
        parent < g.len(),
        g.len() < u32::MAX,
        n.children.len() == 0,
    ensures
        walk(with_child(g, parent, n), parent as int) == walk(g, parent as int).push(g.len() as u32),
{
    let g2 = with_child(g, parent, n);
    let p = parent as int;
    let k = g[p]->Some_0.children.len() as int;
    assert(g2[p]->Some_0.children == g[p]->Some_0.children.push(g.len() as u32));
    assert forall|j: int| 0 <= j <= k implies #[trigger] walk_children(g2, p, j) == walk_children(g, p, j) by {
        lemma_prefix_children(g, parent, n, j);
    }
    let id = g.len() as int;
    assert(g2[id] == Some(n));
    assert(walk_children(g2, id, 0) =~= Seq::<u32>::empty());
    assert(walk(g2, id) =~= seq![id as u32]);
    assert(g2[p]->Some_0.children[k] == id as u32);
    assert(walk_children(g2, p, k + 1) == walk_children(g2, p, k) + walk(g2, id));
    assert(walk_children(g2, p, k + 1) =~= walk_children(g, p, k).push(id as u32));
    assert(walk(g2, p) =~= walk(g, p).push(id as u32));
}

proof fn lemma_prefix_children<X, I>(g: Seq<Option<NodeModel<X, I>>>, parent: u32, n: NodeModel<X, I>, j: int)
    requires
        tree_ok(g),
        parent < g.len(),
        0 <= j <= g[parent as int]->Some_0.children.len(),
    ensures
        walk_children(with_child(g, parent, n), parent as int, j) == walk_children(g, parent as int, j),
    decreases j,
{
    let g2 = with_child(g, parent, n);
    let p = parent as int;
    if j > 0 {
        lemma_prefix_children(g, parent, n, j - 1);
        let d = g[p]->Some_0.children[j - 1] as int;
        assert(g2[p]->Some_0.children[j - 1] == d);
        assert(p < d < g.len());
        lemma_walk_unchanged(g, parent, n, d);
    }
}

/// A walk starts at its node and only visits nodes numbered from it on.
pub proof fn lemma_walk_shape<X, I>(g: Seq<Option<NodeModel<X, I>>>, id: int)
    requires
        tree_ok(g),
        0 <= id < g.len(),
        g.len() <= u32::MAX + 1,
    ensures
        walk(g, id).len() >= 1,
        walk(g, id)[0] == id,
        forall|j: int| 0 <= j < walk(g, id).len() ==> id <= #[trigger] walk(g, id)[j] < g.len(),
    decreases g.len() - id, 1int, 0int,
{
    lemma_walk_children_shape(g, id, g[id]->Some_0.children.len() as int);
    let w = walk(g, id);
    let wc = walk_children(g, id, g[id]->Some_0.children.len() as int);
    assert forall|j: int| 0 <= j < w.len() implies id <= #[trigger] w[j] < g.len() by {
        if j > 0 {
            assert(w[j] == wc[j - 1]);
        }
    }
}

proof fn lemma_walk_children_shape<X, I>(g: Seq<Option<NodeModel<X, I>>>, id: int, k: int)
    requires
        tree_ok(g),
        0 <= id < g.len(),
        g.len() <= u32::MAX + 1,
        0 <= k <= g[id]->Some_0.children.len(),
    ensures
        forall|j: int| 0 <= j < walk_children(g, id, k).len() ==> id < #[trigger] walk_children(g, id, k)[j] < g.len(),
    decreases g.len() - id, 0int, k,
{
    if k > 0 {
        lemma_walk_children_shape(g, id, k - 1);
        let c = g[id]->Some_0.children[k - 1] as int;
        assert(id < c < g.len());
        lemma_walk_shape(g, c);
        let a = walk_children(g, id, k - 1);
        let b = walk(g, c);
        let w = walk_children(g, id, k);
        assert(w =~= a + b);
        assert forall|j: int| 0 <= j < w.len() implies id < #[trigger] w[j] < g.len() by {
            if j < a.len() {
                assert(w[j] == a[j]);
            } else {
                assert(w[j] == b[j - a.len()]);
            }
        }
    }
}

} // verus!
