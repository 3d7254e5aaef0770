use std::marker::PhantomData;
use vstd::prelude::*;
use crate::slots::{find_free_slot, first_free, is_first_free, lemma_first_free_exists};

verus! {

/// One instance's data and whether it still has to be copied to the GPU.
pub struct AllocState<T> {
    pub val: T,
    pub dirty: bool,
}

/// Per-instance data kept on the CPU: each slot is an instance (or free), and
/// changed instances are marked until the next upload pass copies them.
pub struct InstanceList<T> {
    max_instances: u64,
    instance_states: Vec<Option<AllocState<T>>>,
}

/// Handle to one instance: its slot, which is also its position in the GPU
/// instance buffer.
pub struct InstanceHandle<T> {
    index: usize,
    _v: PhantomData<T>,
}

/// The slots of `s` whose instances wait for upload, in order.
pub open spec fn dirty_ids<T>(s: Seq<Option<AllocState<T>>>) -> Seq<usize>
    decreases s.len(),
{
    if s.len() == 0 {
        Seq::empty()
    } else {
        let rest = dirty_ids(s.drop_last());
        if s.last() is Some && s.last()->Some_0.dirty {
            rest.push((s.len() - 1) as usize)
        } else {
            rest
        }
    }
}

/// `s` with every instance marked as uploaded.
pub open spec fn all_clean<T>(s: Seq<Option<AllocState<T>>>) -> Seq<Option<AllocState<T>>> {
    s.map_values(
        |o: Option<AllocState<T>>|
            match o {
                Some(a) => Some(AllocState { val: a.val, dirty: false }),
                None => None,
            },
    )
}

/// `s` with `val` stored in its first free slot (or a new one at the end),
/// waiting for upload.
pub open spec fn allocated<T>(s: Seq<Option<AllocState<T>>>, val: T) -> Seq<Option<AllocState<T>>> {
    let k = first_free(s);
    if k < s.len() {
        s.update(k, Some(AllocState { val, dirty: true }))
    } else {
        s.push(Some(AllocState { val, dirty: true }))
    }
}

impl<T> InstanceHandle<T> {
    /// The instance's slot.
    pub closed spec fn slot(&self) -> nat {
        self.index as nat
    }

    /// The instance's slot.
    pub fn index(&self) -> (r: usize)
        ensures
            r == self.slot(),
    {
        self.index
    }

    /// Replaces the instance's data; it waits for upload again.
    pub fn update(&self, list: &mut InstanceList<T>, val: T)
        requires
            self.slot() < old(list)@.len(),
            old(list)@[self.slot() as int] is Some,
        ensures
            final(list)@ == old(list)@.update(self.slot() as int, Some(AllocState { val, dirty: true })),
            final(list).max_instances() == old(list).max_instances(),
    {
        list.instance_states.set(self.index, Some(AllocState { val, dirty: true }));
    }

    /// Byte offset of the instance in the GPU instance buffer.
    pub fn offset_bytes(&self) -> (r: u64)
        requires
            self.slot() * vstd::layout::size_of::<T>() <= u64::MAX,
        ensures
            r == self.slot() * vstd::layout::size_of::<T>(),
    {
        let sz = core::mem::size_of::<T>();
        proof {
            assert(sz as int == vstd::layout::size_of::<T>());
        }
        (self.index as u64) * (sz as u64)
    }
}

impl<T> View for InstanceList<T> {
    type V = Seq<Option<AllocState<T>>>;

    closed spec fn view(&self) -> Seq<Option<AllocState<T>>> {
        self.instance_states@
    }
}

impl<T> InstanceList<T> {
    /// The number of instances the GPU buffer was sized for.
    pub closed spec fn max_instances(&self) -> u64 {
        self.max_instances
    }

    /// An empty list for a GPU buffer of `max_instances` instances.
    pub fn new(max_instances: u64) -> (r: Self)
        ensures
            r@ == Seq::<Option<AllocState<T>>>::empty(),
            r.max_instances() == max_instances,
    {
        InstanceList { max_instances, instance_states: Vec::with_capacity(max_instances as usize) }
    }

    /// The number of instances the GPU buffer was sized for.
    pub fn max_instance_count(&self) -> (r: u64)
        ensures
            r == self.max_instances(),
    {
        self.max_instances
    }

    /// Adds an instance in the first free slot (or a new one at the end); it
    /// waits for upload.
    pub fn allocate(&mut self, val: T) -> (h: InstanceHandle<T>)
        ensures
            final(self)@ == allocated(old(self)@, val),
            h.slot() == first_free(old(self)@),
            final(self).max_instances() == old(self).max_instances(),
    {
        let place = find_free_slot(&self.instance_states);
        if place < self.instance_states.len() {
            self.instance_states.set(place, Some(AllocState { val, dirty: true }));
        } else {
            self.instance_states.push(Some(AllocState { val, dirty: true }));
        }
        InstanceHandle { index: place, _v: PhantomData }
    }

    /// Frees the slot of an instance that is gone.
    pub fn release(&mut self, h: &InstanceHandle<T>)
        requires
            h.slot() < old(self)@.len(),
        ensures
            final(self)@ == old(self)@.update(h.slot() as int, None),
            final(self).max_instances() == old(self).max_instances(),
    {
        self.instance_states.set(h.index, None);
    }

    /// The data of the instance in slot `index`.
    pub fn value(&self, index: usize) -> (r: &T)
        requires
            index < self@.len(),
            self@[index as int] is Some,
        ensures
            *r == self@[index as int]->Some_0.val,
    {
        &self.instance_states[index].as_ref().unwrap().val
    }

    /// The upload pass: returns the slots of the instances waiting for upload,
    /// in order, and marks every instance as uploaded.
    pub fn take_dirty(&mut self) -> (r: Vec<usize>)
        ensures
            r@ == dirty_ids(old(self)@),
            final(self)@ == all_clean(old(self)@),
            final(self).max_instances() == old(self).max_instances(),
    {
        let ghost s0 = self.instance_states@;
        let mut out: Vec<usize> = Vec::new();
        let mut i: usize = 0;
        while i < self.instance_states.len()
            invariant
                i <= self.instance_states.len(),
                self.instance_states@.len() == s0.len(),
                self.max_instances == old(self).max_instances,
                s0 == old(self)@,
                out@ == dirty_ids(s0.take(i as int)),
                forall|j: int| 0 <= j < i ==> #[trigger] self.instance_states@[j] == all_clean(s0)[j],
                forall|j: int| i <= j < s0.len() ==> #[trigger] self.instance_states@[j] == s0[j],
            decreases self.instance_states.len() - i,
        {
            proof {
                assert(s0.take(i + 1).drop_last() =~= s0.take(i as int));
            }
            let slot = self.instance_states[i].take();
            match slot {
                Some(st) => {
                    if st.dirty {
                        out.push(i);
                    }
                    self.instance_states.set(i, Some(AllocState { val: st.val, dirty: false }));
                },
                None => {
                    self.instance_states.set(i, None);
                },
            }
            i = i + 1;
        }
        proof {
            assert(s0.take(i as int) =~= s0);
            assert(self.instance_states@ =~= all_clean(s0));
        }
        out
    }
}

/// Slot `k` waits for upload exactly when it holds a changed instance.
pub proof fn lemma_dirty_ids_member<T>(s: Seq<Option<AllocState<T>>>, k: int)
    requires
        0 <= k < s.len(),
        s.len() <= usize::MAX,
    ensures
        dirty_ids(s).contains(k as usize) <==> (s[k] is Some && s[k]->Some_0.dirty),
    decreases s.len(),
{
    let rest = dirty_ids(s.drop_last());
    lemma_dirty_ids_below(s.drop_last());
    if k < s.len() - 1 {
        lemma_dirty_ids_member(s.drop_last(), k);
        assert(s.drop_last()[k] == s[k]);
        if s.last() is Some && s.last()->Some_0.dirty {
            let p = rest.push((s.len() - 1) as usize);
            assert(p.contains(k as usize) <==> rest.contains(k as usize)) by {
                if p.contains(k as usize) {
                    let j = choose|j: int| 0 <= j < p.len() && #[trigger] p[j] == k as usize;
                    if j < rest.len() {
                        assert(rest[j] == k as usize);
                    }
                }
                if rest.contains(k as usize) {
                    let j = choose|j: int| 0 <= j < rest.len() && #[trigger] rest[j] == k as usize;
                    assert(p[j] == k as usize);
                }
            }
        }
    } else {
        if rest.contains(k as usize) {
            let j = choose|j: int| 0 <= j < rest.len() && #[trigger] rest[j] == k as usize;
            assert(rest[j] < s.len() - 1);
        }
        if s.last() is Some && s.last()->Some_0.dirty {
            assert(rest.push((s.len() - 1) as usize)[rest.len() as int] == k as usize);
        }
    }
}

proof fn lemma_dirty_ids_below<T>(s: Seq<Option<AllocState<T>>>)
    requires
        s.len() <= usize::MAX,
    ensures
        forall|j: int| 0 <= j < dirty_ids(s).len() ==> #[trigger] dirty_ids(s)[j] < s.len(),
    decreases s.len(),
{
    if s.len() > 0 {
        lemma_dirty_ids_below(s.drop_last());
        let rest = dirty_ids(s.drop_last());
        assert forall|j: int| 0 <= j < dirty_ids(s).len() implies #[trigger] dirty_ids(s)[j] < s.len() by {
            if j < rest.len() {
                assert(dirty_ids(s)[j] == rest[j]);
            }
        }
    }
}

/// After an upload pass nothing waits for upload.
pub proof fn lemma_clean_after_upload<T>(s: Seq<Option<AllocState<T>>>)
    ensures
        dirty_ids(all_clean(s)) == Seq::<usize>::empty(),
    decreases s.len(),
{
    if s.len() > 0 {
        lemma_clean_after_upload(s.drop_last());
        assert(all_clean(s).drop_last() =~= all_clean(s.drop_last()));
    }
}

/// A new instance, and an instance whose data was replaced, is copied by the
/// next upload pass.
pub proof fn lemma_changes_are_uploaded<T>(s: Seq<Option<AllocState<T>>>, val: T, k: int)
    requires
        s.len() < usize::MAX,
    ensures
        dirty_ids(allocated(s, val)).contains(first_free(s) as usize),
        0 <= k < s.len() ==> dirty_ids(s.update(k, Some(AllocState { val, dirty: true }))).contains(
            k as usize,
        ),
{
    lemma_first_free_exists(s);
    lemma_dirty_ids_member(allocated(s, val), first_free(s));
    if 0 <= k < s.len() {
        lemma_dirty_ids_member(s.update(k, Some(AllocState { val, dirty: true })), k);
    }
}

} // verus!
