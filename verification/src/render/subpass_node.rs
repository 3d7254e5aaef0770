use vstd::prelude::*;
use crate::slots::{find_free_slot, first_free, is_first_free, lemma_first_free_exists};

verus! {

/// The points of a frame where registered render nodes run.
#[derive(Copy, Clone)]
pub enum RenderSubpass {
    /// Inside the main render pass: colour write, depth write and depth test.
    Normal,
    /// Before the main render pass begins (uploads and copies).
    BeforeRender,
    /// The number of subpasses; names no subpass.
    Count,
}

/// Position of a subpass in the node table.
pub open spec fn subpass_index(s: RenderSubpass) -> nat {
    match s {
        RenderSubpass::Normal => 0,
        RenderSubpass::BeforeRender => 1,
        RenderSubpass::Count => 2,
    }
}

impl RenderSubpass {
    /// Position of this subpass in the node table.
    pub fn index(&self) -> (r: usize)
        ensures
            r == subpass_index(*self),
    {
        match self {
            RenderSubpass::Normal => 0,
            RenderSubpass::BeforeRender => 1,
            RenderSubpass::Count => 2,
        }
    }

    /// The subpass of the main render pass this stage draws in, if it draws in one.
    pub fn render_pass_index(&self) -> (r: Option<u32>)
        ensures
            r == (if *self is Normal {
                Some(0u32)
            } else {
                None
            }),
    {
        match self {
            RenderSubpass::Normal => Some(0u32),
            _ => None,
        }
    }
}

/// One registered render node: whether it runs, its name and what it runs.
pub struct SubpassNode<C> {
    pub enabled: bool,
    pub name: String,
    pub callback: C,
}

/// Handle to a registered node: the subpass it runs in and its slot there.
pub struct SubpassHandle {
    id: u32,
    subpass: RenderSubpass,
}

impl SubpassHandle {
    /// The node's slot in its subpass.
    pub closed spec fn slot(&self) -> nat {
        self.id as nat
    }

    /// The subpass the node runs in.
    pub closed spec fn pass(&self) -> RenderSubpass {
        self.subpass
    }

    /// The node's slot in its subpass.
    pub fn id(&self) -> (r: u32)
        ensures
            r == self.slot(),
    {
        self.id
    }

    /// The subpass the node runs in.
    pub fn subpass(&self) -> (r: RenderSubpass)
        ensures
            r == self.pass(),
    {
        self.subpass
    }

    /// Switches the node on or off.
    pub fn toggle<C>(&self, nodes: &mut NodeList<C>)
        requires
            old(nodes).holds(*self),
        ensures
            final(nodes)@ == toggled(old(nodes)@, *self),
    {
        let node = nodes.access_node_internal(self);
        let mut n = node.take().unwrap();
        n.enabled = !n.enabled;
        *node = Some(n);
    }

    /// Whether the node runs.
    pub fn is_enabled<C>(&self, nodes: &NodeList<C>) -> (r: bool)
        requires
            nodes.holds(*self),
        ensures
            r == nodes.node(*self).enabled,
    {
        nodes.nodes[self.subpass.index()][self.id as usize].as_ref().unwrap().enabled
    }
}

/// Nodes registered for each subpass, in slots that are reused once freed.
pub struct NodeList<C> {
    nodes: Vec<Vec<Option<SubpassNode<C>>>>,
}

impl<C> View for NodeList<C> {
    type V = Seq<Seq<Option<SubpassNode<C>>>>;

    closed spec fn view(&self) -> Seq<Seq<Option<SubpassNode<C>>>> {
        self.nodes@.map_values(|v: Vec<Option<SubpassNode<C>>>| v@)
    }
}

/// The slots of `s` holding an enabled node, in order.
pub open spec fn enabled_ids<C>(s: Seq<Option<SubpassNode<C>>>) -> Seq<u32>
    decreases s.len(),
{
    if s.len() == 0 {
        Seq::empty()
    } else {
        let rest = enabled_ids(s.drop_last());
        if s.last() is Some && s.last()->Some_0.enabled {
            rest.push((s.len() - 1) as u32)
        } else {
            rest
        }
    }
}

/// The node table with the node `h` names switched on or off.
pub open spec fn toggled<C>(t: Seq<Seq<Option<SubpassNode<C>>>>, h: SubpassHandle) -> Seq<Seq<Option<SubpassNode<C>>>> {
    let i = subpass_index(h.pass()) as int;
    let n = t[i][h.slot() as int]->Some_0;
    t.update(i, t[i].update(h.slot() as int, Some(SubpassNode { enabled: !n.enabled, ..n })))
}

/// The node table with the slot `h` names emptied.
pub open spec fn removed<C>(t: Seq<Seq<Option<SubpassNode<C>>>>, h: SubpassHandle) -> Seq<Seq<Option<SubpassNode<C>>>> {
    let i = subpass_index(h.pass()) as int;
    t.update(i, t[i].update(h.slot() as int, None))
}

/// The node table with `node` placed in the first free slot of `subpass`, or
/// at the end of its list.
pub open spec fn registered<C>(t: Seq<Seq<Option<SubpassNode<C>>>>, subpass: RenderSubpass, node: SubpassNode<C>) -> Seq<Seq<Option<SubpassNode<C>>>> {
    let i = subpass_index(subpass) as int;
    let k = first_free(t[i]);
    t.update(i, if k < t[i].len() { t[i].update(k, Some(node)) } else { t[i].push(Some(node)) })
}

impl<C> NodeList<C> {
    /// There is one list per subpass.
    pub open spec fn wf(&self) -> bool {
        self@.len() == subpass_index(RenderSubpass::Count)
    }

    /// `h` names a registered node.
    pub open spec fn holds(&self, h: SubpassHandle) -> bool {
        &&& self.wf()
        &&& subpass_index(h.pass()) < subpass_index(RenderSubpass::Count)
        &&& h.slot() < self@[subpass_index(h.pass()) as int].len()
        &&& self@[subpass_index(h.pass()) as int][h.slot() as int] is Some
    }

    /// The node `h` names.
    pub open spec fn node(&self, h: SubpassHandle) -> SubpassNode<C> {
        self@[subpass_index(h.pass()) as int][h.slot() as int]->Some_0
    }

    /// An empty list for every subpass.
    pub fn new() -> (r: Self)
        ensures
            r.wf(),
            forall|i: int| 0 <= i < r@.len() ==> #[trigger] r@[i].len() == 0,
    {
        let subpass_count = RenderSubpass::Count.index();
        let mut nodes: Vec<Vec<Option<SubpassNode<C>>>> = Vec::with_capacity(subpass_count);
        let mut i: usize = 0;
        while i < subpass_count
            invariant
                i <= subpass_count,
                subpass_count == 2,
                nodes@.len() == i,
                forall|j: int| 0 <= j < i ==> #[trigger] nodes@[j]@.len() == 0,
            decreases subpass_count - i,
        {
            nodes.push(Vec::new());
            i = i + 1;
        }
        NodeList { nodes }
    }

    /// Registers an enabled node in `subpass`, in its first free slot or a new
    /// one at the end, and returns its handle.
    pub fn register_node(&mut self, subpass: RenderSubpass, name: String, callback: C) -> (h: SubpassHandle)
        requires
            old(self).wf(),
            !(subpass is Count),
            old(self)@[subpass_index(subpass) as int].len() < u32::MAX,
        ensures
            final(self).wf(),
            h.pass() == subpass,
            h.slot() == first_free(old(self)@[subpass_index(subpass) as int]),
            final(self).holds(h),
            final(self).node(h) == (SubpassNode { enabled: true, name, callback }),
            final(self)@ == registered(old(self)@, subpass, SubpassNode { enabled: true, name, callback }),
    {
        let node = SubpassNode { enabled: true, name, callback };
        let ghost gnode = node;
        let idx = subpass.index();
        let list = &mut self.nodes[idx];
        let node_id = find_free_slot(list);
        if node_id < list.len() {
            list.set(node_id, Some(node));
        } else {
            list.push(Some(node));
        }
        proof {
            assert(self@ =~= registered(old(self)@, subpass, gnode));
        }
        SubpassHandle { id: node_id as u32, subpass }
    }

    /// Number of slots, free or not, in the list of `subpass`.
    pub fn slot_count(&self, subpass: RenderSubpass) -> (r: usize)
        requires
            self.wf(),
            !(subpass is Count),
        ensures
            r == self@[subpass_index(subpass) as int].len(),
    {
        self.nodes[subpass.index()].len()
    }

    /// The slot `hndl` names, for reading or replacing what it holds.
    fn access_node_internal(&mut self, hndl: &SubpassHandle) -> (r: &mut Option<SubpassNode<C>>)
        requires
            old(self).wf(),
            subpass_index(hndl.pass()) < subpass_index(RenderSubpass::Count),
            hndl.slot() < old(self)@[subpass_index(hndl.pass()) as int].len(),
        ensures
            *r == old(self)@[subpass_index(hndl.pass()) as int][hndl.slot() as int],
            final(self)@ == old(self)@.update(
                subpass_index(hndl.pass()) as int,
                old(self)@[subpass_index(hndl.pass()) as int].update(hndl.slot() as int, *final(r)),
            ),
    {
        let list = &mut self.nodes[hndl.subpass.index()];
        &mut list[hndl.id as usize]
    }

    /// Unregisters the node `hndl` names; its slot becomes free.
    pub fn remove_node(&mut self, hndl: &SubpassHandle)
        requires
            old(self).wf(),
            subpass_index(hndl.pass()) < subpass_index(RenderSubpass::Count),
            hndl.slot() < old(self)@[subpass_index(hndl.pass()) as int].len(),
        ensures
            final(self)@ == removed(old(self)@, *hndl),
    {
        let node = self.access_node_internal(hndl);
        *node = None;
    }

    /// The slots of `subpass` whose nodes are registered and enabled, in the
    /// order they run.
    pub fn enabled_nodes(&self, subpass: RenderSubpass) -> (r: Vec<u32>)
        requires
            self.wf(),
            !(subpass is Count),
            self@[subpass_index(subpass) as int].len() <= u32::MAX + 1,
        ensures
            r@ == enabled_ids(self@[subpass_index(subpass) as int]),
    {
        let list = &self.nodes[subpass.index()];
        let ghost s = list@;
        let mut out: Vec<u32> = Vec::new();
        let mut i: usize = 0;
        while i < list.len()
            invariant
                i <= list.len(),
                s == list@,
                list.len() <= u32::MAX + 1,
                out@ == enabled_ids(s.take(i as int)),
            decreases list.len() - i,
        {
            proof {
                assert(s.take(i + 1).drop_last() =~= s.take(i as int));
            }
            match &list[i] {
                Some(n) => {
                    if n.enabled {
                        out.push(i as u32);
                    }
                },
                None => {},
            }
            i = i + 1;
        }
        proof {
            assert(s.take(i as int) =~= s);
        }
        out
    }

    /// The callback of the node in slot `id` of `subpass`.
    pub fn callback_mut(&mut self, subpass: RenderSubpass, id: u32) -> (r: &mut C)
        requires
            old(self).wf(),
            !(subpass is Count),
            id < old(self)@[subpass_index(subpass) as int].len(),
            old(self)@[subpass_index(subpass) as int][id as int] is Some,
        ensures
            *r == old(self)@[subpass_index(subpass) as int][id as int]->Some_0.callback,
            final(self)@ == old(self)@.update(
                subpass_index(subpass) as int,
                old(self)@[subpass_index(subpass) as int].update(
                    id as int,
                    Some(SubpassNode {
                        callback: *final(r),
                        ..old(self)@[subpass_index(subpass) as int][id as int]->Some_0
                    }),
                ),
            ),
    {
        let list = &mut self.nodes[subpass.index()];
        let slot = &mut list[id as usize];
        &mut slot.as_mut().unwrap().callback
    }
}

/// The node table after switching the node `h` names `k` times.
pub open spec fn toggled_times<C>(t: Seq<Seq<Option<SubpassNode<C>>>>, h: SubpassHandle, k: nat) -> Seq<Seq<Option<SubpassNode<C>>>>
    decreases k,
{
    if k == 0 {
        t
    } else {
        toggled(toggled_times(t, h, (k - 1) as nat), h)
    }
}

/// After `k` switches a node runs exactly when it ran before and `k` is even,
/// or did not and `k` is odd; every other slot stays as it was.
pub proof fn lemma_toggle_parity<C>(t: Seq<Seq<Option<SubpassNode<C>>>>, h: SubpassHandle, k: nat)
    requires
        subpass_index(h.pass()) < t.len(),
        h.slot() < t[subpass_index(h.pass()) as int].len(),
        t[subpass_index(h.pass()) as int][h.slot() as int] is Some,
    ensures
        ({
            let i = subpass_index(h.pass()) as int;
            let t2 = toggled_times(t, h, k);
            let n = t[i][h.slot() as int]->Some_0;
            &&& t2 == t.update(i, t[i].update(h.slot() as int, Some(SubpassNode { enabled: (n.enabled == (k % 2 == 0)), ..n })))
        }),
    decreases k,
{
    let i = subpass_index(h.pass()) as int;
    let n = t[i][h.slot() as int]->Some_0;
    if k == 0 {
        assert(t[i].update(h.slot() as int, Some(SubpassNode { enabled: n.enabled, ..n })) =~= t[i]);
        assert(t.update(i, t[i]) =~= t);
    } else {
        lemma_toggle_parity(t, h, (k - 1) as nat);
        let t1 = toggled_times(t, h, (k - 1) as nat);
        assert(t1[i] =~= t[i].update(h.slot() as int, Some(SubpassNode { enabled: (n.enabled == ((k - 1) as nat % 2 == 0)), ..n })));
        assert(toggled(t1, h)[i] =~= t[i].update(h.slot() as int, Some(SubpassNode { enabled: (n.enabled == (k % 2 == 0)), ..n })));
        assert(toggled(t1, h) =~= t.update(i, t[i].update(h.slot() as int, Some(SubpassNode { enabled: (n.enabled == (k % 2 == 0)), ..n }))));
    }
}

/// Switching a node twice leaves the table as it was.
pub proof fn lemma_toggle_twice<C>(t: Seq<Seq<Option<SubpassNode<C>>>>, h: SubpassHandle)
    requires
        subpass_index(h.pass()) < t.len(),
        h.slot() < t[subpass_index(h.pass()) as int].len(),
        t[subpass_index(h.pass()) as int][h.slot() as int] is Some,
    ensures
        toggled(toggled(t, h), h) == t,
{
    let i = subpass_index(h.pass()) as int;
    assert(toggled(toggled(t, h), h)[i] =~= t[i]);
    assert(toggled(toggled(t, h), h) =~= t);
}

/// A newly registered node sits in the slot it was given and is among the
/// nodes its subpass runs.
pub proof fn lemma_registered_node_runs<C>(t: Seq<Seq<Option<SubpassNode<C>>>>, subpass: RenderSubpass, node: SubpassNode<C>)
    requires
        subpass_index(subpass) < t.len(),
        t[subpass_index(subpass) as int].len() < u32::MAX,
        node.enabled,
    ensures
        ({
            let i = subpass_index(subpass) as int;
            let k = first_free(t[i]);
            let t2 = registered(t, subpass, node);
            &&& t2[i][k] == Some(node)
            &&& enabled_ids(t2[i]).contains(k as u32)
        }),
{
    let i = subpass_index(subpass) as int;
    lemma_first_free_exists(t[i]);
    let k = first_free(t[i]);
    let t2 = registered(t, subpass, node);
    lemma_enabled_ids_member(t2[i], k);
}

/// The slot a removed node leaves is where the next node of that subpass goes,
/// unless an earlier slot was already free.
pub proof fn lemma_removed_slot_reused<C>(t: Seq<Seq<Option<SubpassNode<C>>>>, h: SubpassHandle)
    requires
        subpass_index(h.pass()) < t.len(),
        h.slot() < t[subpass_index(h.pass()) as int].len(),
    ensures
        first_free(removed(t, h)[subpass_index(h.pass()) as int]) <= h.slot(),
{
    let i = subpass_index(h.pass()) as int;
    let s = removed(t, h)[i];
    lemma_first_free_exists(s);
    let k = first_free(s);
    if k > h.slot() {
        assert(s[h.slot() as int] is None);
    }
}

/// Slot `k` of `s` is listed as enabled exactly when it holds an enabled node.
pub proof fn lemma_enabled_ids_member<C>(s: Seq<Option<SubpassNode<C>>>, k: int)
    requires
        0 <= k < s.len(),
        s.len() <= u32::MAX + 1,
    ensures
        enabled_ids(s).contains(k as u32) <==> (s[k] is Some && s[k]->Some_0.enabled),
    decreases s.len(),
{
    let rest = enabled_ids(s.drop_last());
    lemma_enabled_ids_below(s.drop_last());
    if k < s.len() - 1 {
        lemma_enabled_ids_member(s.drop_last(), k);
        assert(s.drop_last()[k] == s[k]);
        if s.last() is Some && s.last()->Some_0.enabled {
            let p = rest.push((s.len() - 1) as u32);
            assert(p.contains(k as u32) <==> rest.contains(k as u32)) by {
                if p.contains(k as u32) {
                    let j = choose|j: int| 0 <= j < p.len() && #[trigger] p[j] == k as u32;
                    if j == rest.len() {
                        assert(k == s.len() - 1);
                    } else {
                        assert(rest[j] == k as u32);
                    }
                }
                if rest.contains(k as u32) {
                    let j = choose|j: int| 0 <= j < rest.len() && #[trigger] rest[j] == k as u32;
                    assert(p[j] == k as u32);
                }
            }
        }
    } else {
        if rest.contains(k as u32) {
            let j = choose|j: int| 0 <= j < rest.len() && #[trigger] rest[j] == k as u32;
            assert(rest[j] < s.len() - 1);
        }
        if s.last() is Some && s.last()->Some_0.enabled {
            assert(rest.push((s.len() - 1) as u32)[rest.len() as int] == k as u32);
        }
    }
}

/// Every listed slot lies inside `s`.
proof fn lemma_enabled_ids_below<C>(s: Seq<Option<SubpassNode<C>>>)
    requires
        s.len() <= u32::MAX + 1,
    ensures
        forall|j: int| 0 <= j < enabled_ids(s).len() ==> #[trigger] enabled_ids(s)[j] < s.len(),
    decreases s.len(),
{
    if s.len() > 0 {
        lemma_enabled_ids_below(s.drop_last());
        let rest = enabled_ids(s.drop_last());
        assert forall|j: int| 0 <= j < enabled_ids(s).len() implies #[trigger] enabled_ids(s)[j] < s.len() by {
            if j < rest.len() {
                assert(enabled_ids(s)[j] == rest[j]);
            }
        }
    }
}

} // verus!
