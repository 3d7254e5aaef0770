use std::marker::PhantomData;
use vstd::prelude::*;
use crate::slots::{find_free_slot, first_free, is_first_free, lemma_first_free_exists};

verus! {

/// A handle into a [`GenPool`]: the slot it names and the generation that slot
/// had when the value was stored. A handle goes stale when its slot is freed and
/// reused.
#[derive(Hash)]
pub struct GenPoolId<T> {
    index: u32,
    generation: u32,
    _v: PhantomData<T>,
}

impl<T> Clone for GenPoolId<T> {
    fn clone(&self) -> (r: Self)
        ensures
            r == *self,
    {
        GenPoolId { index: self.index, generation: self.generation, _v: PhantomData }
    }
}

impl<T> GenPoolId<T> {
    /// The slot this handle names.
    pub closed spec fn slot(&self) -> nat {
        self.index as nat
    }

    /// The generation this handle was issued for.
    pub closed spec fn gen(&self) -> nat {
        self.generation as nat
    }

    /// The slot this handle names, as an index.
    pub fn index(&self) -> (r: usize)
        ensures
            r as nat == self.slot(),
    {
        self.index as usize
    }
}

/// What a [`GenPool`] holds: each slot's value, if any, and its generation.
pub struct GenPoolModel<T> {
    pub items: Seq<Option<T>>,
    pub generations: Seq<u32>,
}

impl<T> GenPoolModel<T> {
    /// Every slot has a generation.
    pub open spec fn wf(self) -> bool {
        self.items.len() == self.generations.len()
    }

    /// `id` names an occupied slot whose generation is the one `id` was issued for.
    pub open spec fn valid(self, id: GenPoolId<T>) -> bool {
        &&& id.slot() < self.items.len()
        &&& id.slot() < self.generations.len()
        &&& self.generations[id.slot() as int] == id.gen()
        &&& self.items[id.slot() as int] is Some
    }

    /// The value `id` refers to.
    pub open spec fn value(self, id: GenPoolId<T>) -> T {
        self.items[id.slot() as int]->Some_0
    }

    /// The slot the next allocation uses: the first free one, or a new one at the end.
    pub open spec fn next_slot(self) -> int {
        first_free(self.items)
    }

    /// The next allocation can be numbered: the slot it uses fits the handle and
    /// a reused slot's generation can still move on.
    pub open spec fn can_alloc(self) -> bool {
        &&& self.next_slot() <= u32::MAX
        &&& self.next_slot() < self.items.len() ==> self.generations[self.next_slot()] < u32::MAX
    }

    /// Storing `val`: it takes the next slot; a reused slot's generation goes up
    /// by one and a new slot starts at generation 0. Returns the new state, the
    /// slot and its generation.
    pub open spec fn allocate(self, val: T) -> (GenPoolModel<T>, nat, nat) {
        let i = self.next_slot();
        if i < self.items.len() {
            let g = (self.generations[i] + 1) as u32;
            (
                GenPoolModel {
                    items: self.items.update(i, Some(val)),
                    generations: self.generations.update(i, g),
                },
                i as nat,
                g as nat,
            )
        } else {
            (
                GenPoolModel {
                    items: self.items.push(Some(val)),
                    generations: self.generations.push(0u32),
                },
                i as nat,
                0,
            )
        }
    }

    /// Emptying the slot `id` names; generations stay as they are.
    pub open spec fn take(self, id: GenPoolId<T>) -> GenPoolModel<T> {
        GenPoolModel { items: self.items.update(id.slot() as int, None), ..self }
    }
}

/// A pool of values addressed by generational handles: a freed slot is reused
/// by the next allocation and its generation moves on, so handles to the old
/// value stop being valid.
pub struct GenPool<T> {
    items: Vec<Option<T>>,
    generations: Vec<u32>,
}

impl<T> View for GenPool<T> {
    type V = GenPoolModel<T>;

    closed spec fn view(&self) -> GenPoolModel<T> {
        GenPoolModel { items: self.items@, generations: self.generations@ }
    }
}

impl<T> GenPool<T> {
    /// An empty pool.
    pub fn new() -> (r: Self)
        ensures
            r@.items == Seq::<Option<T>>::empty(),
            r@.generations == Seq::<u32>::empty(),
    {
        Self { items: Vec::new(), generations: Vec::new() }
    }

    /// An empty pool with room reserved for `capacity` values.
    pub fn with_capacity(capacity: usize) -> (r: Self)
        ensures
            r@.items == Seq::<Option<T>>::empty(),
            r@.generations == Seq::<u32>::empty(),
    {
        Self { items: Vec::with_capacity(capacity), generations: Vec::with_capacity(capacity) }
    }

    /// Whether the next value can be stored (what [`GenPool::allocate`] needs):
    /// the slot it takes fits a handle and, when it reuses a slot, that slot's
    /// generation can still move on.
    pub fn can_allocate(&self) -> (r: bool)
        requires
            self@.wf(),
        ensures
            r == self@.can_alloc(),
    {
        let free_index = find_free_slot(&self.items);
        if free_index > u32::MAX as usize {
            return false;
        }
        free_index >= self.items.len() || self.generations[free_index] < u32::MAX
    }

    /// Stores `val` in the first free slot (or a new one at the end) and returns
    /// its handle (see [`GenPoolModel::allocate`]).
    pub fn allocate(&mut self, val: T) -> (id: GenPoolId<T>)
        requires
            old(self)@.wf(),
            old(self)@.can_alloc(),
        ensures
            final(self)@ == old(self)@.allocate(val).0,
            id.slot() == old(self)@.allocate(val).1,
            id.gen() == old(self)@.allocate(val).2,
    {
        let free_index = find_free_slot(&self.items);
        if free_index < self.items.len() {
            self.items.set(free_index, Some(val));
            let g = self.generations[free_index] + 1;
            self.generations.set(free_index, g);
        } else {
            self.items.push(Some(val));
            self.generations.push(0);
        }
        GenPoolId {
            index: free_index as u32,
            generation: self.generations[free_index],
            _v: PhantomData,
        }
    }

    /// Removes and returns the value `id` refers to; its slot becomes free.
    pub fn take(&mut self, id: GenPoolId<T>) -> (r: T)
        requires
            old(self)@.wf(),
            old(self)@.valid(id),
        ensures
            r == old(self)@.value(id),
            final(self)@ == old(self)@.take(id),
    {
        let i = id.index();
        let mut slot: Option<T> = None;
        std::mem::swap(&mut slot, &mut self.items[i]);
        slot.unwrap()
    }

    /// Drops the value `id` refers to; its slot becomes free.
    pub fn free(&mut self, id: GenPoolId<T>)
        requires
            old(self)@.wf(),
            old(self)@.valid(id),
        ensures
            final(self)@ == old(self)@.take(id),
    {
        let _ = self.take(id);
    }

    /// Whether `id` still refers to a stored value.
    pub fn check_valid(&self, id: &GenPoolId<T>) -> (r: bool)
        requires
            self@.wf(),
        ensures
            r == self@.valid(*id),
    {
        let i = id.index as usize;
        if i < self.generations.len() {
            self.generations[i] == id.generation && self.items[id.index()].is_some()
        } else {
            false
        }
    }

    /// The value `id` refers to, or `None` when `id` is stale.
    pub fn get(&self, id: &GenPoolId<T>) -> (r: Option<&T>)
        requires
            self@.wf(),
        ensures
            self@.valid(*id) ==> r == Some(&self@.value(*id)),
            !self@.valid(*id) ==> r is None,
    {
        if self.check_valid(id) {
            self.items[id.index()].as_ref()
        } else {
            None
        }
    }

    /// Mutable access to the value `id` refers to, or `None` when `id` is stale.
    pub fn get_mut(&mut self, id: &GenPoolId<T>) -> (r: Option<&mut T>)
        requires
            old(self)@.wf(),
        ensures
            old(self)@.valid(*id) ==> {
                &&& r is Some
                &&& *r->Some_0 == old(self)@.value(*id)
                &&& final(self)@.items == old(self)@.items.update(
                    id.slot() as int,
                    Some(*final(r->Some_0)),
                )
            },
            !old(self)@.valid(*id) ==> r is None && final(self)@.items == old(self)@.items,
            final(self)@.generations == old(self)@.generations,
    {
        if self.check_valid(id) {
            self.items[id.index()].as_mut()
        } else {
            None
        }
    }
}

/// Every operation keeps each slot paired with a generation.
pub proof fn lemma_pool_stays_wf<T>(p: GenPoolModel<T>, val: T, id: GenPoolId<T>)
    requires
        p.wf(),
    ensures
        p.allocate(val).0.wf(),
        p.valid(id) ==> p.take(id).wf(),
{
    lemma_next_slot(p);
}

/// A handle just handed out is valid and refers to the value stored, and every
/// handle that was valid before still is, with the same value.
pub proof fn lemma_allocate_then_get<T>(p: GenPoolModel<T>, val: T, id: GenPoolId<T>, other: GenPoolId<T>)
    requires
        p.wf(),
        p.can_alloc(),
        id.slot() == p.allocate(val).1,
        id.gen() == p.allocate(val).2,
    ensures
        p.allocate(val).0.valid(id),
        p.allocate(val).0.value(id) == val,
        p.valid(other) ==> p.allocate(val).0.valid(other) && p.allocate(val).0.value(other) == p.value(other),
{
    lemma_next_slot(p);
}

/// A handle whose value was taken is no longer valid, and stays invalid after
/// the slot is reused by a later allocation.
pub proof fn lemma_stale_after_take<T>(p: GenPoolModel<T>, id: GenPoolId<T>, val: T)
    requires
        p.wf(),
        p.valid(id),
        p.take(id).can_alloc(),
    ensures
        !p.take(id).valid(id),
        !p.take(id).allocate(val).0.valid(id),
{
    let q = p.take(id);
    lemma_next_slot(q);
}

/// Taking a value leaves every other handle's value alone.
pub proof fn lemma_take_keeps_others<T>(p: GenPoolModel<T>, id: GenPoolId<T>, other: GenPoolId<T>)
    requires
        p.wf(),
        p.valid(id),
        p.valid(other),
        other.slot() != id.slot(),
    ensures
        p.take(id).valid(other),
        p.take(id).value(other) == p.value(other),
{
}

impl<T> GenPoolModel<T> {
    /// `id` could have been handed out by this pool: its slot exists and its
    /// generation is not past that slot's.
    pub open spec fn issued(self, id: GenPoolId<T>) -> bool {
        &&& id.slot() < self.generations.len()
        &&& id.gen() <= self.generations[id.slot() as int]
    }
}

/// An allocation changes nothing for a handle issued before it: it stays
/// issued, it is valid afterwards exactly when it was valid before, with the
/// same value, and the new handle differs from it. The new handle is issued.
pub proof fn lemma_allocate_keeps_issued<T>(p: GenPoolModel<T>, val: T, id: GenPoolId<T>, new_id: GenPoolId<T>)
    requires
        p.wf(),
        p.can_alloc(),
        p.issued(id),
        new_id.slot() == p.allocate(val).1,
        new_id.gen() == p.allocate(val).2,
    ensures
        p.allocate(val).0.issued(id),
        p.allocate(val).0.issued(new_id),
        p.allocate(val).0.valid(id) == p.valid(id),
        p.valid(id) ==> p.allocate(val).0.value(id) == p.value(id),
        !(new_id.slot() == id.slot() && new_id.gen() == id.gen()),
{
    lemma_next_slot(p);
}

/// Taking the value of a valid handle `t`: every issued handle stays issued,
/// and is valid afterwards exactly when it was valid before and names another
/// slot, with the same value.
pub proof fn lemma_take_keeps_issued<T>(p: GenPoolModel<T>, t: GenPoolId<T>, id: GenPoolId<T>)
    requires
        p.wf(),
        p.valid(t),
        p.issued(id),
    ensures
        p.take(t).issued(id),
        p.take(t).valid(id) == (p.valid(id) && id.slot() != t.slot()),
        p.take(t).valid(id) ==> p.take(t).value(id) == p.value(id),
{
}

proof fn lemma_next_slot<T>(p: GenPoolModel<T>)
    ensures
        is_first_free(p.items, p.next_slot()),
{
    lemma_first_free_exists(p.items);
}

} // verus!
