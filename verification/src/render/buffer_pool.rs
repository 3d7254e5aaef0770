use std::ops::Range;
use vstd::prelude::*;
use vstd::arithmetic::div_mod::{
    lemma_fundamental_div_mod, lemma_mod_pos_bound, lemma_div_by_multiple, lemma_mod_multiples_basic,
};

verus! {

/// The byte range `start .. end`.
pub open spec fn span(start: u32, end: u32) -> Range<u32> {
    Range { start, end }
}

/// Number of bytes a range covers (negative when it is reversed).
pub open spec fn span_len(r: Range<u32>) -> int {
    r.end - r.start
}

/// `start` rounded up to a multiple of `elem_size`.
pub open spec fn align_up(start: u32, elem_size: u32) -> int {
    ((start + elem_size - 1) / (elem_size as int)) * elem_size
}

/// A request of `byte_size` bytes, placed at a multiple of `elem_size`, fits in `r`.
pub open spec fn fits(r: Range<u32>, elem_size: u32, byte_size: int) -> bool {
    &&& align_up(r.start, elem_size) < r.end
    &&& r.end - align_up(r.start, elem_size) >= byte_size
}

/// `i` is the best fit for the request: the smallest free range that fits,
/// the first one among equally small ones.
pub open spec fn is_best_fit(free: Seq<Range<u32>>, elem_size: u32, byte_size: int, i: int) -> bool {
    &&& 0 <= i < free.len()
    &&& fits(free[i], elem_size, byte_size)
    &&& forall|j: int|
        0 <= j < free.len() && fits(#[trigger] free[j], elem_size, byte_size) ==> span_len(free[i])
            <= span_len(free[j])
    &&& forall|j: int|
        0 <= j < i && fits(#[trigger] free[j], elem_size, byte_size) ==> span_len(free[i]) < span_len(
            free[j],
        )
}

/// The free range a request is carved from.
pub open spec fn best_fit(free: Seq<Range<u32>>, elem_size: u32, byte_size: int) -> int {
    choose|i: int| is_best_fit(free, elem_size, byte_size, i)
}

/// The free list once the request `a .. end` has been carved out of its `i`-th
/// range `r`: `r` leaves the list; when `a` lies past `r.start` the head piece
/// `r.start .. a` takes its place; and when the request stops short of `r.end`
/// the range `r.start .. a` is put in after that once more. The bytes of `r`
/// behind the request do not come back to the list.
pub open spec fn carve(free: Seq<Range<u32>>, i: int, a: int, end: int) -> Seq<Range<u32>> {
    let r = free[i];
    let s1 = free.remove(i);
    let s2 = if a > r.start {
        s1.insert(i, span(r.start, a as u32))
    } else {
        s1
    };
    let idx = if a > r.start {
        i + 1
    } else {
        i
    };
    if end < r.end {
        s2.insert(idx, span(r.start, a as u32))
    } else {
        s2
    }
}

/// `i` is the first position of `s` holding `r`, or `s.len()` when there is none.
pub open spec fn is_first_match(s: Seq<Range<u32>>, r: Range<u32>, i: int) -> bool {
    &&& 0 <= i <= s.len()
    &&& i < s.len() ==> s[i] == r
    &&& forall|j: int| 0 <= j < i ==> #[trigger] s[j] != r
}

/// The first position of `s` holding `r`, or `s.len()`.
pub open spec fn first_match(s: Seq<Range<u32>>, r: Range<u32>) -> int {
    choose|i: int| is_first_match(s, r, i)
}

/// `i` is the first free range that starts at or after `end`, or `s.len()`.
pub open spec fn is_first_right(s: Seq<Range<u32>>, end: u32, i: int) -> bool {
    &&& 0 <= i <= s.len()
    &&& i < s.len() ==> end <= s[i].start
    &&& forall|j: int| 0 <= j < i ==> #[trigger] s[j].start < end
}

/// The first free range that starts at or after `end`, or `s.len()`.
pub open spec fn first_right(s: Seq<Range<u32>>, end: u32) -> int {
    choose|i: int| is_first_right(s, end, i)
}

/// The free list once `exp` is given back: it goes in front of the first range
/// that starts at or after its end, merged with the range before it and the range
/// after it wherever they touch.
pub open spec fn coalesce(free: Seq<Range<u32>>, exp: Range<u32>) -> Seq<Range<u32>> {
    if free.len() == 0 {
        seq![exp]
    } else {
        let i = first_right(free, exp.end);
        if i == 0 {
            if exp.end == free[0].start {
                free.update(0, span(exp.start, free[0].end))
            } else {
                free.insert(0, exp)
            }
        } else if i < free.len() {
            let left = free[i - 1];
            let right = free[i];
            if left.end == exp.start && exp.end == right.start {
                free.update(i - 1, span(left.start, right.end)).remove(i)
            } else if left.end == exp.start {
                free.update(i - 1, span(left.start, exp.end))
            } else if exp.end == right.start {
                free.update(i, span(exp.start, right.end))
            } else {
                free.insert(i, exp)
            }
        } else {
            let left = free.last();
            if left.end == exp.start {
                free.update(free.len() - 1, span(left.start, exp.end))
            } else {
                free.push(exp)
            }
        }
    }
}

/// What a [`BufferPool`] records: the size of the buffer it manages, the ranges
/// still free and the ranges handed out, in order.
pub struct PoolModel {
    pub size: u32,
    pub free: Seq<Range<u32>>,
    pub used: Seq<Range<u32>>,
}

impl PoolModel {
    /// Every free range may be rounded up to a multiple of `elem_size` without
    /// leaving `u32`.
    pub open spec fn can_round(self, elem_size: u32) -> bool {
        forall|j: int| 0 <= j < self.free.len() ==> #[trigger] self.free[j].start + elem_size <= u32::MAX
    }

    /// The outcome of asking for `num_elems` elements of `elem_size` bytes: the
    /// best fitting free range gives up the bytes from its first multiple of
    /// `elem_size` on, and the offset is counted in elements.
    pub open spec fn allocate(self, elem_size: u32, num_elems: u32) -> (PoolModel, Option<u32>) {
        let bytes = elem_size * num_elems;
        if exists|i: int| is_best_fit(self.free, elem_size, bytes, i) {
            let i = best_fit(self.free, elem_size, bytes);
            let a = align_up(self.free[i].start, elem_size);
            let end = a + bytes;
            (
                PoolModel {
                    size: self.size,
                    free: carve(self.free, i, a, end),
                    used: self.used.push(span(a as u32, end as u32)),
                },
                Some((a / (elem_size as int)) as u32),
            )
        } else {
            (self, None)
        }
    }

    /// The outcome of giving `exp` back: it is found among the ranges handed out
    /// (the first equal one), leaves that list and returns to the free list; a
    /// range that was never handed out changes nothing.
    pub open spec fn release(self, exp: Range<u32>) -> (PoolModel, bool) {
        let i = first_match(self.used, exp);
        if i < self.used.len() {
            (
                PoolModel { size: self.size, free: coalesce(self.free, exp), used: self.used.remove(i) },
                true,
            )
        } else {
            (self, false)
        }
    }
}

/// Sub-allocator for one GPU buffer: hands out byte ranges of it, aligned to
/// the element size asked for, and takes them back.
pub struct BufferPool {
    size: u32,
    free_list: Vec<Range<u32>>,
    used_list: Vec<Range<u32>>,
}

impl View for BufferPool {
    type V = PoolModel;

    closed spec fn view(&self) -> PoolModel {
        PoolModel { size: self.size, free: self.free_list@, used: self.used_list@ }
    }
}

proof fn lemma_align_up(s: u32, e: u32)
    requires
        e > 0,
    ensures
        s <= align_up(s, e) <= s + e - 1,
        align_up(s, e) % (e as int) == 0,
        (align_up(s, e) / (e as int)) * e == align_up(s, e),
        align_up(s, e) / (e as int) == (s + e - 1) / (e as int),
{
    let x = s + e - 1;
    let q = x / (e as int);
    lemma_fundamental_div_mod(x, e as int);
    lemma_mod_pos_bound(x, e as int);
    assert(q >= 0) by (nonlinear_arith)
        requires
            x >= 0,
            e > 0,
            q == x / (e as int),
    ;
    assert(q * e == e * q) by (nonlinear_arith);
    lemma_div_by_multiple(q, e as int);
    lemma_mod_multiples_basic(q, e as int);
}

proof fn lemma_best_fit_unique(free: Seq<Range<u32>>, e: u32, bytes: int, i: int)
    requires
        is_best_fit(free, e, bytes, i),
    ensures
        best_fit(free, e, bytes) == i,
{
    let k = best_fit(free, e, bytes);
    assert(is_best_fit(free, e, bytes, k));
    if k < i {
        assert(fits(free[k], e, bytes));
    } else if i < k {
        assert(fits(free[i], e, bytes));
    }
}

proof fn lemma_best_fit_exists(free: Seq<Range<u32>>, e: u32, bytes: int, j: int)
    requires
        0 <= j < free.len(),
        fits(free[j], e, bytes),
    ensures
        exists|i: int| is_best_fit(free, e, bytes, i),
    decreases free.len(),
{
    let n = free.len() - 1;
    let t = free.drop_last();
    if exists|k: int| 0 <= k < n && fits(#[trigger] free[k], e, bytes) {
        let k0 = choose|k: int| 0 <= k < n && fits(#[trigger] free[k], e, bytes);
        assert(t[k0] == free[k0]);
        lemma_best_fit_exists(t, e, bytes, k0);
        let k = choose|k: int| is_best_fit(t, e, bytes, k);
        assert(t[k] == free[k]);
        if fits(free[n], e, bytes) && span_len(free[n]) < span_len(free[k]) {
            assert forall|q: int| 0 <= q < free.len() && fits(#[trigger] free[q], e, bytes) implies span_len(free[n]) <= span_len(free[q]) by {
                if q < n {
                    assert(t[q] == free[q]);
                }
            }
            assert forall|q: int| 0 <= q < n && fits(#[trigger] free[q], e, bytes) implies span_len(free[n]) < span_len(free[q]) by {
                assert(t[q] == free[q]);
            }
            assert(is_best_fit(free, e, bytes, n));
        } else {
            assert forall|q: int| 0 <= q < free.len() && fits(#[trigger] free[q], e, bytes) implies span_len(free[k]) <= span_len(free[q]) by {
                if q < n {
                    assert(t[q] == free[q]);
                }
            }
            assert forall|q: int| 0 <= q < k && fits(#[trigger] free[q], e, bytes) implies span_len(free[k]) < span_len(free[q]) by {
                assert(t[q] == free[q]);
            }
            assert(is_best_fit(free, e, bytes, k));
        }
    } else {
        assert(j == n);
        assert(is_best_fit(free, e, bytes, n));
    }
}

proof fn lemma_first_match_unique(s: Seq<Range<u32>>, r: Range<u32>, i: int)
    requires
        is_first_match(s, r, i),
    ensures
        first_match(s, r) == i,
{
    let k = first_match(s, r);
    assert(is_first_match(s, r, k));
    if k < i {
        assert(s[k] != r);
    } else if i < k {
        assert(s[i] != r);
    }
}

proof fn lemma_first_right_unique(s: Seq<Range<u32>>, end: u32, i: int)
    requires
        is_first_right(s, end, i),
    ensures
        first_right(s, end) == i,
{
    let k = first_right(s, end);
    assert(is_first_right(s, end, k));
    if k < i {
        assert(s[k].start < end);
    } else if i < k {
        assert(s[i].start < end);
    }
}

impl BufferPool {
    /// A pool over a buffer of `buffer_size` bytes, all of them free.
    pub fn new(buffer_size: u32) -> (r: Self)
        ensures
            r@.size == buffer_size,
            r@.free == seq![span(0, buffer_size)],
            r@.used == Seq::<Range<u32>>::empty(),
    {
        let mut free_list = Vec::new();
        free_list.push(0u32..buffer_size);
        Self { size: buffer_size, free_list, used_list: Vec::new() }
    }

    /// Size in bytes of the buffer this pool manages.
    pub fn size(&self) -> (r: u32)
        ensures
            r == self@.size,
    {
        self.size
    }

    /// The ranges still free.
    pub fn free_ranges(&self) -> (r: &Vec<Range<u32>>)
        ensures
            r@ == self@.free,
    {
        &self.free_list
    }

    /// The ranges handed out.
    pub fn used_ranges(&self) -> (r: &Vec<Range<u32>>)
        ensures
            r@ == self@.used,
    {
        &self.used_list
    }

    /// Whether every free range can be rounded up to a multiple of `elem_size`
    /// without leaving `u32` (what [`BufferPool::try_allocate`] needs).
    pub fn can_round(&self, elem_size: u32) -> (r: bool)
        ensures
            r == self@.can_round(elem_size),
    {
        let mut k: usize = 0;
        while k < self.free_list.len()
            invariant
                k <= self.free_list.len(),
                forall|j: int| 0 <= j < k ==> #[trigger] self.free_list@[j].start + elem_size <= u32::MAX,
            decreases self.free_list.len() - k,
        {
            if self.free_list[k].start > u32::MAX - elem_size {
                assert(!(self.free_list@[k as int].start + elem_size <= u32::MAX));
                assert(self@.free[k as int] == self.free_list@[k as int]);
                return false;
            }
            k = k + 1;
        }
        assert(self@.free == self.free_list@);
        true
    }

    /// Whether a request for `num_elems` elements of `elem_size` bytes would be
    /// placed; nothing changes.
    pub fn has_room(&self, elem_size: u32, num_elems: u32) -> (r: bool)
        requires
            0 < elem_size * num_elems <= u32::MAX,
            self@.can_round(elem_size),
        ensures
            r == self@.allocate(elem_size, num_elems).1 is Some,
    {
        let byte_size = elem_size * num_elems;
        assert(elem_size > 0) by (nonlinear_arith)
            requires
                0 < elem_size * num_elems,
        ;
        let mut k: usize = 0;
        while k < self.free_list.len()
            invariant
                elem_size > 0,
                byte_size == elem_size * num_elems,
                k <= self.free_list.len(),
                self@.can_round(elem_size),
                forall|j: int| 0 <= j < k ==> !fits(#[trigger] self.free_list@[j], elem_size, byte_size as int),
            decreases self.free_list.len() - k,
        {
            let start = self.free_list[k].start;
            let end = self.free_list[k].end;
            proof {
                lemma_align_up(start, elem_size);
                assert(self@.free[k as int] == self.free_list@[k as int]);
            }
            let aligned_start = (start + elem_size - 1u32) / elem_size * elem_size;
            if aligned_start < end && (end - aligned_start) >= byte_size {
                proof {
                    lemma_best_fit_exists(self.free_list@, elem_size, byte_size as int, k as int);
                    let i = choose|i: int| is_best_fit(self.free_list@, elem_size, byte_size as int, i);
                    let bytes = elem_size * num_elems;
                    assert(is_best_fit(self@.free, elem_size, bytes, i));
                }
                return true;
            }
            k = k + 1;
        }
        proof {
            let bytes = elem_size * num_elems;
            if exists|i: int| is_best_fit(self@.free, elem_size, bytes, i) {
                let i = choose|i: int| is_best_fit(self@.free, elem_size, bytes, i);
                assert(fits(self.free_list@[i], elem_size, byte_size as int));
            }
        }
        false
    }

    /// Places `num_elems` elements of `elem_size` bytes in the smallest free
    /// range that holds them once rounded up to a multiple of `elem_size`, and
    /// returns the offset in elements; `None` when no free range is large enough.
    pub fn try_allocate(&mut self, elem_size: u32, num_elems: u32) -> (r: Option<u32>)
        requires
            0 < elem_size * num_elems <= u32::MAX,
            old(self)@.can_round(elem_size),
        ensures
            (final(self)@, r) == old(self)@.allocate(elem_size, num_elems),
            old(self)@.sound() && (forall|j: int|
                0 <= j < old(self)@.free.len() ==> (#[trigger] old(self)@.free[j].start as int) % (elem_size as int)
                    == 0) ==> final(self)@.sound(),
            old(self)@.sound() && r is Some ==> forall|x: int|
                #[trigger] final(self)@.is_free_byte(x) ==> old(self)@.is_free_byte(x) && !holds_byte(
                    span((r->Some_0 * elem_size) as u32, (r->Some_0 * elem_size + elem_size * num_elems) as u32),
                    x,
                ),
    {
        proof {
            if old(self)@.sound() {
                lemma_allocate_placement(old(self)@, elem_size, num_elems);
                if forall|j: int|
                    0 <= j < old(self)@.free.len() ==> (#[trigger] old(self)@.free[j].start as int) % (
                    elem_size as int) == 0 {
                    lemma_allocate_keeps_sound(old(self)@, elem_size, num_elems);
                }
            }
        }
        let byte_size = elem_size * num_elems;
        let ghost bytes = byte_size as int;
        assert(elem_size > 0) by (nonlinear_arith)
            requires
                0 < elem_size * num_elems,
        ;
        let mut best: Option<usize> = None;
        let mut best_len: u32 = 0;
        let mut k: usize = 0;
        while k < self.free_list.len()
            invariant
                elem_size > 0,
                byte_size == elem_size * num_elems,
                bytes == byte_size,
                k <= self.free_list.len(),
                self@ == old(self)@,
                old(self)@.can_round(elem_size),
                match best {
                    None => forall|j: int|
                        0 <= j < k ==> !fits(#[trigger] self.free_list@[j], elem_size, bytes),
                    Some(b) => {
                        &&& b < k
                        &&& fits(self.free_list@[b as int], elem_size, bytes)
                        &&& best_len == span_len(self.free_list@[b as int])
                        &&& forall|j: int|
                            0 <= j < k && fits(#[trigger] self.free_list@[j], elem_size, bytes)
                                ==> best_len <= span_len(self.free_list@[j])
                        &&& forall|j: int|
                            0 <= j < b && fits(#[trigger] self.free_list@[j], elem_size, bytes)
                                ==> best_len < span_len(self.free_list@[j])
                    },
                },
            decreases self.free_list.len() - k,
        {
            let start = self.free_list[k].start;
            let end = self.free_list[k].end;
            proof {
                lemma_align_up(start, elem_size);
                assert(old(self)@.free[k as int] == self.free_list@[k as int]);
                assert(self.free_list@[k as int].start + elem_size <= u32::MAX);
            }
            let aligned_start = (start + elem_size - 1u32) / elem_size * elem_size;
            if aligned_start < end && (end - aligned_start) >= byte_size {
                let len = end - start;
                let better = match best {
                    None => true,
                    Some(_) => len < best_len,
                };
                if better {
                    best = Some(k);
                    best_len = len;
                }
            }
            k = k + 1;
        }
        match best {
            None => {
                proof {
                    if exists|i: int| is_best_fit(old(self)@.free, elem_size, bytes, i) {
                        let i = choose|i: int| is_best_fit(old(self)@.free, elem_size, bytes, i);
                        assert(fits(self.free_list@[i], elem_size, bytes));
                    }
                }
                None
            },
            Some(i) => {
                proof {
                    lemma_best_fit_unique(self.free_list@, elem_size, bytes, i as int);
                }
                let r_start = self.free_list[i].start;
                let r_end = self.free_list[i].end;
                proof {
                    lemma_align_up(r_start, elem_size);
                    assert(old(self)@.free[i as int] == self.free_list@[i as int]);
                    assert(self.free_list@[i as int].start + elem_size <= u32::MAX);
                }
                let aligned_start = (r_start + elem_size - 1u32) / elem_size * elem_size;
                let alloc_end = aligned_start + byte_size;
                self.used_list.push(aligned_start..alloc_end);
                let ghost f0 = self.free_list@;
                let ghost a = aligned_start as int;
                let ghost e = alloc_end as int;
                let mut index = i;
                let _ = self.free_list.remove(index);
                if aligned_start > r_start {
                    self.free_list.insert(index, r_start..aligned_start);
                    index = index + 1;
                }
                if alloc_end < r_end {
                    self.free_list.insert(index, r_start..aligned_start);
                }
                proof {
                    assert(self.free_list@ == carve(f0, i as int, a, e));
                    assert(is_best_fit(old(self)@.free, elem_size, elem_size * num_elems, i as int));
                }
                Some(aligned_start / elem_size)
            },
        }
    }

    /// Gives back a range handed out earlier. It must equal one of the ranges
    /// handed out; otherwise nothing changes and the result is `false`.
    pub fn try_free(&mut self, exp_range: Range<u32>) -> (r: bool)
        ensures
            (final(self)@, r) == old(self)@.release(exp_range),
            old(self)@.sound() ==> final(self)@.sound(),
            old(self)@.sound() && tidy(old(self)@.free) ==> tidy(final(self)@.free),
            old(self)@.sound() && r ==> forall|x: int|
                #[trigger] final(self)@.is_free_byte(x) <==> old(self)@.is_free_byte(x) || holds_byte(exp_range, x),
    {
        proof {
            if old(self)@.sound() {
                lemma_release_keeps_sound(old(self)@, exp_range);
                if tidy(old(self)@.free) {
                    lemma_release_keeps_tidy(old(self)@, exp_range);
                }
            }
        }
        let mut k: usize = 0;
        let mut found = false;
        while k < self.used_list.len()
            invariant_except_break
                !found,
            invariant
                k <= self.used_list.len(),
                self@ == old(self)@,
                forall|j: int| 0 <= j < k ==> #[trigger] self.used_list@[j] != exp_range,
            ensures
                k <= self.used_list.len(),
                self@ == old(self)@,
                forall|j: int| 0 <= j < k ==> #[trigger] self.used_list@[j] != exp_range,
                found ==> k < self.used_list.len() && self.used_list@[k as int] == exp_range,
                !found ==> k == self.used_list.len(),
            decreases self.used_list.len() - k,
        {
            if self.used_list[k].start == exp_range.start && self.used_list[k].end == exp_range.end {
                found = true;
                assert(self.used_list@[k as int] == exp_range);
                break;
            }
            k = k + 1;
        }
        proof {
            lemma_first_match_unique(self.used_list@, exp_range, k as int);
        }
        if !found {
            return false;
        }
        let _ = self.used_list.remove(k);

        if self.free_list.is_empty() {
            self.free_list.push(exp_range);
            assert(self.free_list@ =~= seq![exp_range]);
            return true;
        }

        let mut d: usize = 0;
        while d < self.free_list.len()
            invariant
                d <= self.free_list.len(),
                self.free_list@ == old(self)@.free,
                forall|j: int| 0 <= j < d ==> #[trigger] self.free_list@[j].start < exp_range.end,
            ensures
                d <= self.free_list.len(),
                self.free_list@ == old(self)@.free,
                forall|j: int| 0 <= j < d ==> #[trigger] self.free_list@[j].start < exp_range.end,
                d < self.free_list.len() ==> exp_range.end <= self.free_list@[d as int].start,
            decreases self.free_list.len() - d,
        {
            if exp_range.end <= self.free_list[d].start {
                break;
            }
            d = d + 1;
        }
        proof {
            lemma_first_right_unique(self.free_list@, exp_range.end, d as int);
        }
        let n = self.free_list.len();
        if d == 0 {
            let right_start = self.free_list[0].start;
            let right_end = self.free_list[0].end;
            if exp_range.end == right_start {
                self.free_list.set(0, exp_range.start..right_end);
            } else {
                self.free_list.insert(0, exp_range);
            }
        } else if d < n {
            let right_start = self.free_list[d].start;
            let right_end = self.free_list[d].end;
            let left_start = self.free_list[d - 1].start;
            let left_end = self.free_list[d - 1].end;
            if left_end == exp_range.start && exp_range.end == right_start {
                self.free_list.set(d - 1, left_start..right_end);
                let _ = self.free_list.remove(d);
            } else if left_end == exp_range.start {
                self.free_list.set(d - 1, left_start..exp_range.end);
            } else if exp_range.end == right_start {
                self.free_list.set(d, exp_range.start..right_end);
            } else {
                self.free_list.insert(d, exp_range);
            }
        } else {
            let left_start = self.free_list[n - 1].start;
            let left_end = self.free_list[n - 1].end;
            if left_end == exp_range.start {
                self.free_list.set(n - 1, left_start..exp_range.end);
            } else {
                self.free_list.push(exp_range);
            }
        }
        true
    }
}

} // verus!

verus! {

/// `a` and `b` share no byte.
pub open spec fn disjoint(a: Range<u32>, b: Range<u32>) -> bool {
    a.end <= b.start || b.end <= a.start || a.end <= a.start || b.end <= b.start
}

/// Byte `x` lies in `r`.
pub open spec fn holds_byte(r: Range<u32>, x: int) -> bool {
    r.start <= x < r.end
}

/// Byte `x` lies in one of the ranges of `s`.
pub open spec fn covers(s: Seq<Range<u32>>, x: int) -> bool {
    exists|j: int| 0 <= j < s.len() && holds_byte(#[trigger] s[j], x)
}

/// Every range of `s` is ordered and ends inside a buffer of `size` bytes.
pub open spec fn all_within(s: Seq<Range<u32>>, size: u32) -> bool {
    forall|j: int| 0 <= j < s.len() ==> #[trigger] s[j].start <= s[j].end <= size
}

/// No two ranges of `s` share a byte.
pub open spec fn pairwise_disjoint(s: Seq<Range<u32>>) -> bool {
    forall|i: int, j: int| 0 <= i < j < s.len() ==> disjoint(#[trigger] s[i], #[trigger] s[j])
}

/// `c` shares no byte with any range of `s`.
pub open spec fn apart_from_all(c: Range<u32>, s: Seq<Range<u32>>) -> bool {
    forall|j: int| 0 <= j < s.len() ==> disjoint(c, #[trigger] s[j])
}

/// What giving `exp` back does to a free list whose ranges are apart from each
/// other and from `exp`: the free bytes gain exactly those of `exp`, and the
/// ranges stay inside the buffer and apart from each other and from anything
/// that was apart from both.
pub open spec fn coalesce_ok(free: Seq<Range<u32>>, exp: Range<u32>, size: u32, f2: Seq<Range<u32>>) -> bool {
    &&& all_within(f2, size)
    &&& pairwise_disjoint(f2)
    &&& forall|x: int| #[trigger] covers(f2, x) <==> covers(free, x) || holds_byte(exp, x)
    &&& forall|c: Range<u32>| apart_from_all(c, free) && disjoint(c, exp) ==> #[trigger] apart_from_all(c, f2)
}

proof fn lemma_first_right_exists(s: Seq<Range<u32>>, end: u32)
    ensures
        is_first_right(s, end, first_right(s, end)),
    decreases s.len(),
{
    if s.len() == 0 {
        assert(is_first_right(s, end, 0));
    } else {
        let t = s.drop_last();
        lemma_first_right_exists(t, end);
        let k = first_right(t, end);
        assert forall|j: int| 0 <= j < k implies #[trigger] s[j].start < end by {
            assert(t[j] == s[j]);
        }
        if k < t.len() {
            assert(t[k] == s[k]);
            assert(is_first_right(s, end, k));
        } else if end <= s.last().start {
            assert(is_first_right(s, end, k));
        } else {
            assert(is_first_right(s, end, s.len() as int));
        }
    }
}

proof fn lemma_first_match_exists(s: Seq<Range<u32>>, r: Range<u32>)
    ensures
        is_first_match(s, r, first_match(s, r)),
    decreases s.len(),
{
    if s.len() == 0 {
        assert(is_first_match(s, r, 0));
    } else {
        let t = s.drop_last();
        lemma_first_match_exists(t, r);
        let k = first_match(t, r);
        assert forall|j: int| 0 <= j < k implies #[trigger] s[j] != r by {
            assert(t[j] == s[j]);
        }
        if k < t.len() {
            assert(t[k] == s[k]);
            assert(is_first_match(s, r, k));
        } else if s.last() == r {
            assert(is_first_match(s, r, k));
        } else {
            assert(is_first_match(s, r, s.len() as int));
        }
    }
}

proof fn lemma_insert_ok(free: Seq<Range<u32>>, exp: Range<u32>, size: u32, k: int)
    requires
        0 <= k <= free.len(),
        all_within(free, size),
        pairwise_disjoint(free),
        exp.start < exp.end <= size,
        apart_from_all(exp, free),
    ensures
        coalesce_ok(free, exp, size, free.insert(k, exp)),
{
    let f2 = free.insert(k, exp);
    assert forall|i: int, j: int| 0 <= i < j < f2.len() implies disjoint(#[trigger] f2[i], #[trigger] f2[j]) by {
        if i < k && j < k {
            assert(disjoint(free[i], free[j]));
        } else if i < k && j == k {
            assert(disjoint(exp, free[i]));
        } else if i < k {
            assert(disjoint(free[i], free[j - 1]));
        } else if i == k {
            assert(disjoint(exp, free[j - 1]));
        } else {
            assert(disjoint(free[i - 1], free[j - 1]));
        }
    }
    assert forall|x: int| #[trigger] covers(f2, x) <==> covers(free, x) || holds_byte(exp, x) by {
        if covers(f2, x) {
            let j = choose|j: int| 0 <= j < f2.len() && holds_byte(#[trigger] f2[j], x);
            if j < k {
                assert(holds_byte(free[j], x));
            } else if j > k {
                assert(holds_byte(free[j - 1], x));
            }
        }
        if covers(free, x) {
            let j = choose|j: int| 0 <= j < free.len() && holds_byte(#[trigger] free[j], x);
            if j < k {
                assert(holds_byte(f2[j], x));
            } else {
                assert(holds_byte(f2[j + 1], x));
            }
        }
        if holds_byte(exp, x) {
            assert(holds_byte(f2[k], x));
        }
    }
    assert forall|c: Range<u32>| apart_from_all(c, free) && disjoint(c, exp) implies #[trigger] apart_from_all(c, f2) by {
        assert forall|j: int| 0 <= j < f2.len() implies disjoint(c, #[trigger] f2[j]) by {
            if j < k {
                assert(disjoint(c, free[j]));
            } else if j > k {
                assert(disjoint(c, free[j - 1]));
            }
        }
    }
    assert forall|j: int| 0 <= j < f2.len() implies #[trigger] f2[j].start <= f2[j].end <= size by {
        if j < k {
            assert(free[j] == f2[j]);
        } else if j > k {
            assert(free[j - 1] == f2[j]);
        }
    }
}

/// Replacing the `k`-th range by `m`, whose bytes are those of that range and
/// of `exp` (the two touching), keeps everything in order.
proof fn lemma_merge_ok(free: Seq<Range<u32>>, exp: Range<u32>, size: u32, k: int, m: Range<u32>)
    requires
        0 <= k < free.len(),
        all_within(free, size),
        pairwise_disjoint(free),
        exp.start < exp.end <= size,
        apart_from_all(exp, free),
        (free[k].end == exp.start && m == span(free[k].start, exp.end)) || (exp.end == free[k].start
            && m == span(exp.start, free[k].end)),
    ensures
        coalesce_ok(free, exp, size, free.update(k, m)),
{
    let f2 = free.update(k, m);
    let r = free[k];
    assert(r.start <= r.end <= size);
    assert forall|i: int, j: int| 0 <= i < j < f2.len() implies disjoint(#[trigger] f2[i], #[trigger] f2[j]) by {
        assert(disjoint(exp, free[i]));
        assert(disjoint(exp, free[j]));
        if i == k {
            assert(disjoint(free[k], free[j]));
        } else if j == k {
            assert(disjoint(free[i], free[k]));
        } else {
            assert(disjoint(free[i], free[j]));
        }
    }
    assert forall|x: int| #[trigger] covers(f2, x) <==> covers(free, x) || holds_byte(exp, x) by {
        if covers(f2, x) {
            let j = choose|j: int| 0 <= j < f2.len() && holds_byte(#[trigger] f2[j], x);
            if j != k {
                assert(holds_byte(free[j], x));
            } else if holds_byte(r, x) {
                assert(holds_byte(free[k], x));
            }
        }
        if covers(free, x) {
            let j = choose|j: int| 0 <= j < free.len() && holds_byte(#[trigger] free[j], x);
            assert(holds_byte(f2[j], x));
        }
        if holds_byte(exp, x) {
            assert(holds_byte(f2[k], x));
        }
    }
    assert forall|c: Range<u32>| apart_from_all(c, free) && disjoint(c, exp) implies #[trigger] apart_from_all(c, f2) by {
        assert forall|j: int| 0 <= j < f2.len() implies disjoint(c, #[trigger] f2[j]) by {
            assert(disjoint(c, free[j]));
        }
    }
    assert forall|j: int| 0 <= j < f2.len() implies #[trigger] f2[j].start <= f2[j].end <= size by {
        assert(free[j].start <= free[j].end <= size);
    }
}

/// Replacing the ranges at `k` and `k + 1` by one covering both and `exp`,
/// which sits between them touching both, keeps everything in order.
proof fn lemma_bridge_ok(free: Seq<Range<u32>>, exp: Range<u32>, size: u32, k: int)
    requires
        0 <= k < k + 1 < free.len(),
        all_within(free, size),
        pairwise_disjoint(free),
        exp.start < exp.end <= size,
        apart_from_all(exp, free),
        free[k].end == exp.start,
        exp.end == free[k + 1].start,
    ensures
        coalesce_ok(
            free,
            exp,
            size,
            free.update(k, span(free[k].start, free[k + 1].end)).remove(k + 1),
        ),
{
    let l = free[k];
    let rr = free[k + 1];
    let m = span(l.start, rr.end);
    let f2 = free.update(k, m).remove(k + 1);
    assert(l.start <= l.end <= size);
    assert(rr.start <= rr.end <= size);
    assert(f2.len() == free.len() - 1);
    assert forall|j: int| 0 <= j < f2.len() implies #[trigger] f2[j] == (if j < k {
        free[j]
    } else if j == k {
        m
    } else {
        free[j + 1]
    }) by {}
    assert forall|i: int, j: int| 0 <= i < j < f2.len() implies disjoint(#[trigger] f2[i], #[trigger] f2[j]) by {
        if i == k {
            assert(disjoint(l, free[j + 1]));
            assert(disjoint(rr, free[j + 1]));
            assert(disjoint(exp, free[j + 1]));
        } else if j == k {
            assert(disjoint(free[i], l));
            assert(disjoint(free[i], rr));
            assert(disjoint(exp, free[i]));
        } else if i < k && j < k {
            assert(disjoint(free[i], free[j]));
        } else if i < k {
            assert(disjoint(free[i], free[j + 1]));
        } else {
            assert(disjoint(free[i + 1], free[j + 1]));
        }
    }
    assert forall|x: int| #[trigger] covers(f2, x) <==> covers(free, x) || holds_byte(exp, x) by {
        if covers(f2, x) {
            let j = choose|j: int| 0 <= j < f2.len() && holds_byte(#[trigger] f2[j], x);
            if j < k {
                assert(holds_byte(free[j], x));
            } else if j > k {
                assert(holds_byte(free[j + 1], x));
            } else if holds_byte(l, x) {
                assert(holds_byte(free[k], x));
            } else if holds_byte(rr, x) {
                assert(holds_byte(free[k + 1], x));
            }
        }
        if covers(free, x) {
            let j = choose|j: int| 0 <= j < free.len() && holds_byte(#[trigger] free[j], x);
            if j < k {
                assert(holds_byte(f2[j], x));
            } else if j > k + 1 {
                assert(holds_byte(f2[j - 1], x));
            } else {
                assert(holds_byte(f2[k], x));
            }
        }
        if holds_byte(exp, x) {
            assert(holds_byte(f2[k], x));
        }
    }
    assert forall|c: Range<u32>| apart_from_all(c, free) && disjoint(c, exp) implies #[trigger] apart_from_all(c, f2) by {
        assert forall|j: int| 0 <= j < f2.len() implies disjoint(c, #[trigger] f2[j]) by {
            if j < k {
                assert(disjoint(c, free[j]));
            } else if j > k {
                assert(disjoint(c, free[j + 1]));
            } else {
                assert(disjoint(c, l));
                assert(disjoint(c, rr));
            }
        }
    }
    assert forall|j: int| 0 <= j < f2.len() implies #[trigger] f2[j].start <= f2[j].end <= size by {
        if j < k {
            assert(free[j].start <= free[j].end <= size);
        } else if j > k {
            assert(free[j + 1].start <= free[j + 1].end <= size);
        }
    }
}

/// Giving a range back to a free list keeps it in order (see [`coalesce_ok`]).
pub proof fn lemma_coalesce(free: Seq<Range<u32>>, exp: Range<u32>, size: u32)
    requires
        all_within(free, size),
        pairwise_disjoint(free),
        exp.start < exp.end <= size,
        apart_from_all(exp, free),
    ensures
        coalesce_ok(free, exp, size, coalesce(free, exp)),
{
    if free.len() == 0 {
        lemma_insert_ok(free, exp, size, 0);
        assert(free.insert(0, exp) =~= seq![exp]);
    } else {
        lemma_first_right_exists(free, exp.end);
        let i = first_right(free, exp.end);
        if i == 0 {
            if exp.end == free[0].start {
                lemma_merge_ok(free, exp, size, 0, span(exp.start, free[0].end));
            } else {
                lemma_insert_ok(free, exp, size, 0);
            }
        } else if i < free.len() {
            let left = free[i - 1];
            let right = free[i];
            if left.end == exp.start && exp.end == right.start {
                lemma_bridge_ok(free, exp, size, i - 1);
            } else if left.end == exp.start {
                lemma_merge_ok(free, exp, size, i - 1, span(left.start, exp.end));
            } else if exp.end == right.start {
                lemma_merge_ok(free, exp, size, i, span(exp.start, right.end));
            } else {
                lemma_insert_ok(free, exp, size, i);
            }
        } else {
            let left = free.last();
            if left.end == exp.start {
                lemma_merge_ok(free, exp, size, free.len() - 1, span(left.start, exp.end));
            } else {
                lemma_insert_ok(free, exp, size, free.len() as int);
                assert(free.insert(free.len() as int, exp) =~= free.push(exp));
            }
        }
    }
}

impl PoolModel {
    /// Byte `x` lies in one of the free ranges.
    pub open spec fn is_free_byte(self, x: int) -> bool {
        covers(self.free, x)
    }

    /// Nothing is handed out twice: every range lies inside the buffer, every
    /// range handed out is non-empty, and no two ranges of the pool, free or
    /// handed out, share a byte.
    pub open spec fn sound(self) -> bool {
        &&& forall|j: int|
            0 <= j < self.free.len() ==> #[trigger] self.free[j].start <= self.free[j].end <= self.size
        &&& forall|j: int|
            0 <= j < self.used.len() ==> #[trigger] self.used[j].start < self.used[j].end <= self.size
        &&& forall|i: int, j: int|
            0 <= i < j < self.free.len() ==> disjoint(#[trigger] self.free[i], #[trigger] self.free[j])
        &&& forall|i: int, j: int|
            0 <= i < self.free.len() && 0 <= j < self.used.len() ==> disjoint(
                #[trigger] self.free[i],
                #[trigger] self.used[j],
            )
        &&& forall|i: int, j: int|
            0 <= i < j < self.used.len() ==> disjoint(#[trigger] self.used[i], #[trigger] self.used[j])
    }
}

/// A fresh pool is sound and every byte of its buffer is free; its free list
/// is tidy unless the buffer is empty.
pub proof fn lemma_new_pool(size: u32)
    ensures
        (PoolModel { size, free: seq![span(0, size)], used: Seq::empty() }).sound(),
        size > 0 ==> tidy(seq![span(0, size)]),
        forall|x: int|
            0 <= x < size <==> #[trigger] (PoolModel {
                size,
                free: seq![span(0, size)],
                used: Seq::empty(),
            }).is_free_byte(x),
{
    let m = PoolModel { size, free: seq![span(0, size)], used: Seq::empty() };
    assert forall|x: int| 0 <= x < size <==> #[trigger] m.is_free_byte(x) by {
        if 0 <= x < size {
            assert(holds_byte(m.free[0], x));
        }
    }
}

} // verus!

verus! {

/// Giving back a range keeps a sound pool sound. It succeeds exactly when the
/// range was handed out; then the free bytes gain exactly the bytes of that
/// range, and otherwise nothing changes.
pub proof fn lemma_release_keeps_sound(m: PoolModel, exp: Range<u32>)
    requires
        m.sound(),
    ensures
        m.release(exp).0.sound(),
        m.release(exp).1 <==> m.used.contains(exp),
        m.release(exp).1 ==> forall|x: int| #[trigger] m.release(exp).0.is_free_byte(x) <==> m.is_free_byte(x) || holds_byte(exp, x),
        !m.release(exp).1 ==> m.release(exp).0 == m,
        m.release(exp).0.size == m.size,
{
    lemma_first_match_exists(m.used, exp);
    let i = first_match(m.used, exp);
    if i < m.used.len() {
        assert(m.used[i] == exp);
        assert(m.used[i].start < m.used[i].end <= m.size);
        assert forall|j: int| 0 <= j < m.free.len() implies disjoint(exp, #[trigger] m.free[j]) by {
            assert(disjoint(m.free[j], m.used[i]));
        }
        lemma_coalesce(m.free, exp, m.size);
        let f2 = coalesce(m.free, exp);
        let u2 = m.used.remove(i);
        assert forall|a: int, b: int| 0 <= a < f2.len() && 0 <= b < u2.len() implies disjoint(
            #[trigger] f2[a],
            #[trigger] u2[b],
        ) by {
            let jb = if b < i { b } else { b + 1 };
            assert(u2[b] == m.used[jb]);
            let c = m.used[jb];
            assert forall|j: int| 0 <= j < m.free.len() implies disjoint(c, #[trigger] m.free[j]) by {
                assert(disjoint(m.free[j], m.used[jb]));
            }
            if jb < i {
                assert(disjoint(m.used[jb], m.used[i]));
            } else {
                assert(disjoint(m.used[i], m.used[jb]));
            }
            assert(apart_from_all(c, f2));
            assert(disjoint(c, f2[a]));
        }
        assert forall|a: int, b: int| 0 <= a < b < u2.len() implies disjoint(#[trigger] u2[a], #[trigger] u2[b]) by {
            let ja = if a < i { a } else { a + 1 };
            let jb = if b < i { b } else { b + 1 };
            assert(u2[a] == m.used[ja]);
            assert(u2[b] == m.used[jb]);
            assert(disjoint(m.used[ja], m.used[jb]));
        }
        assert forall|j: int| 0 <= j < u2.len() implies #[trigger] u2[j].start < u2[j].end <= m.size by {
            let jj = if j < i { j } else { j + 1 };
            assert(u2[j] == m.used[jj]);
        }
        assert(m.used.contains(exp));
    } else {
        assert(!m.used.contains(exp));
    }
}

} // verus!

verus! {

/// Where each range of `carve(free, i, a, end)` comes from: the ranges before
/// `i` stay in place, then the head piece `r.start .. a` (when `a` lies past
/// `r.start`), then the range `r.start .. a` once more (when the request stops
/// short of `r.end`), then the ranges after `i` in their old order.
proof fn lemma_carve_parts(free: Seq<Range<u32>>, i: int, a: int, end: int)
    requires
        0 <= i < free.len(),
        free[i].start <= a <= end <= free[i].end,
    ensures
        ({
            let r = free[i];
            let c = carve(free, i, a, end);
            let hh: int = if a > r.start { 1 } else { 0 };
            let tt: int = if end < r.end { 1 } else { 0 };
            &&& c.len() == free.len() - 1 + hh + tt
            &&& forall|j: int| 0 <= j < i ==> #[trigger] c[j] == free[j]
            &&& a > r.start ==> c[i] == span(r.start, a as u32)
            &&& end < r.end ==> c[i + hh] == span(r.start, a as u32)
            &&& forall|k: int| i < k < free.len() ==> c[k - 1 + hh + tt] == #[trigger] free[k]
            &&& forall|j: int|
                0 <= j < c.len() ==> (j < i && #[trigger] c[j] == free[j]) || (i <= j < i + hh + tt && c[j]
                    == span(r.start, a as u32)) || (j >= i + hh + tt && c[j] == free[j + 1 - hh - tt])
        }),
{
    let r = free[i];
    let c = carve(free, i, a, end);
    let hh: int = if a > r.start { 1 } else { 0 };
    let tt: int = if end < r.end { 1 } else { 0 };
    let s1 = free.remove(i);
    assert forall|k: int| i < k < free.len() implies c[k - 1 + hh + tt] == #[trigger] free[k] by {
        assert(s1[k - 1] == free[k]);
    }
    assert forall|j: int| 0 <= j < c.len() implies (j < i && #[trigger] c[j] == free[j]) || (i <= j < i + hh
        + tt && c[j] == span(r.start, a as u32)) || (j >= i + hh + tt && c[j] == free[j + 1 - hh - tt]) by {
        if j >= i + hh + tt {
            assert(s1[j - hh - tt] == free[j + 1 - hh - tt]);
        }
    }
}

/// Where a successful request lands in a sound pool: at a multiple of the
/// element size, inside the buffer, inside a free range `r` and apart from every
/// range already handed out. The bytes free afterwards are exactly the bytes
/// free before less those of `r` from the start of the new range on: the new
/// range and the rest of `r` behind it. A request that fails finds no free
/// range large enough.
pub proof fn lemma_allocate_placement(m: PoolModel, elem_size: u32, num_elems: u32)
    requires
        m.sound(),
        0 < elem_size * num_elems,
    ensures
        ({
            let (m2, r) = m.allocate(elem_size, num_elems);
            let bytes = elem_size * num_elems;
            match r {
                Some(off) => {
                    let a = off * elem_size;
                    let got = span(a as u32, (a + bytes) as u32);
                    &&& a + bytes <= m.size
                    &&& m2.used == m.used.push(got)
                    &&& m2.size == m.size
                    &&& exists|j: int|
                        0 <= j < m.free.len() && #[trigger] m.free[j].start <= a && a + bytes <= m.free[j].end
                            && forall|x: int|
                            #[trigger] m2.is_free_byte(x) <==> m.is_free_byte(x) && !holds_byte(
                                span(a as u32, m.free[j].end),
                                x,
                            )
                    &&& apart_from_all(got, m.used)
                    &&& forall|x: int| #[trigger] m2.is_free_byte(x) ==> m.is_free_byte(x) && !holds_byte(got, x)
                },
                None => forall|j: int| 0 <= j < m.free.len() ==> !fits(#[trigger] m.free[j], elem_size, bytes),
            }
        }),
{
    let bytes = elem_size * num_elems;
    assert(elem_size > 0) by (nonlinear_arith)
        requires
            0 < elem_size * num_elems,
    ;
    if exists|i: int| is_best_fit(m.free, elem_size, bytes, i) {
        let i = best_fit(m.free, elem_size, bytes);
        let r = m.free[i];
        lemma_align_up(r.start, elem_size);
        let a = align_up(r.start, elem_size);
        let end = a + bytes;
        let got = span(a as u32, end as u32);
        let lost = span(a as u32, r.end);
        let (m2, res) = m.allocate(elem_size, num_elems);
        let off = res->Some_0;
        assert(off * elem_size == a);
        assert(r.start <= r.end <= m.size);
        assert forall|j: int| 0 <= j < m.used.len() implies disjoint(got, #[trigger] m.used[j]) by {
            assert(disjoint(m.free[i], m.used[j]));
        }
        lemma_carve_parts(m.free, i, a, end);
        let c = m2.free;
        let hh: int = if a > r.start { 1 } else { 0 };
        let tt: int = if end < r.end { 1 } else { 0 };
        assert forall|x: int| #[trigger] m2.is_free_byte(x) <==> m.is_free_byte(x) && !holds_byte(lost, x) by {
            if m2.is_free_byte(x) {
                let j = choose|j: int| 0 <= j < c.len() && holds_byte(#[trigger] c[j], x);
                if j < i {
                    assert(holds_byte(m.free[j], x));
                    assert(disjoint(m.free[j], m.free[i]));
                } else if j < i + hh + tt {
                    assert(holds_byte(m.free[i], x));
                } else {
                    let k = j + 1 - hh - tt;
                    assert(c[j] == m.free[k]);
                    assert(holds_byte(m.free[k], x));
                    assert(disjoint(m.free[i], m.free[k]));
                }
            }
            if m.is_free_byte(x) && !holds_byte(lost, x) {
                let k = choose|k: int| 0 <= k < m.free.len() && holds_byte(#[trigger] m.free[k], x);
                if k < i {
                    assert(holds_byte(c[k], x));
                } else if k > i {
                    assert(c[k - 1 + hh + tt] == m.free[k]);
                    assert(holds_byte(c[k - 1 + hh + tt], x));
                } else {
                    assert(holds_byte(c[i], x));
                }
            }
        }
        assert(m.free[i].start <= a && a + bytes <= m.free[i].end);
        assert forall|x: int| #[trigger] m2.is_free_byte(x) implies m.is_free_byte(x) && !holds_byte(got, x) by {
            assert(!holds_byte(lost, x));
        }
    } else {
        assert forall|j: int| 0 <= j < m.free.len() implies !fits(#[trigger] m.free[j], elem_size, bytes) by {
            if fits(m.free[j], elem_size, bytes) {
                lemma_best_fit_exists(m.free, elem_size, bytes, j);
            }
        }
    }
}

} // verus!

verus! {

/// A request keeps a sound pool sound when every free range starts at a
/// multiple of the element size asked for. (Otherwise a request that stops
/// short of its range leaves the head piece in the free list twice.)
pub proof fn lemma_allocate_keeps_sound(m: PoolModel, elem_size: u32, num_elems: u32)
    requires
        m.sound(),
        0 < elem_size * num_elems,
        forall|j: int| 0 <= j < m.free.len() ==> (#[trigger] m.free[j].start as int) % (elem_size as int) == 0,
    ensures
        m.allocate(elem_size, num_elems).0.sound(),
{
    let bytes = elem_size * num_elems;
    assert(elem_size > 0) by (nonlinear_arith)
        requires
            0 < elem_size * num_elems,
    ;
    if exists|i: int| is_best_fit(m.free, elem_size, bytes, i) {
        let i = best_fit(m.free, elem_size, bytes);
        let r = m.free[i];
        lemma_align_up(r.start, elem_size);
        let a = align_up(r.start, elem_size);
        assert(a == r.start) by {
            let e = elem_size as int;
            let x = r.start + e - 1;
            lemma_fundamental_div_mod(r.start as int, e);
            lemma_fundamental_div_mod(x, e);
            lemma_mod_pos_bound(x, e);
            let q = (r.start as int) / e;
            let q2 = x / e;
            assert(q2 == q) by (nonlinear_arith)
                requires
                    x == e * q2 + x % e,
                    0 <= x % e < e,
                    r.start == e * q + 0,
                    x == r.start + e - 1,
                    e > 0,
            ;
            assert(q * e == e * q) by (nonlinear_arith);
        }
        let end = a + bytes;
        let got = span(a as u32, end as u32);
        let m2 = m.allocate(elem_size, num_elems).0;
        assert(r.start <= r.end <= m.size);
        lemma_carve_parts(m.free, i, a, end);
        let c = m2.free;
        let tt: int = if end < r.end { 1 } else { 0 };
        let piece = span(r.start, a as u32);
        // every range of `c` is the empty piece or another old free range
        assert forall|j: int| 0 <= j < c.len() implies (#[trigger] c[j] == piece) || exists|k: int|
            0 <= k < m.free.len() && k != i && m.free[k] == c[j] by {
            if j < i {
                assert(m.free[j] == c[j]);
            } else if j >= i + tt {
                assert(m.free[j + 1 - tt] == c[j]);
            }
        }
        assert forall|j: int| 0 <= j < c.len() implies #[trigger] c[j].start <= c[j].end <= m2.size by {
            if j < i {
                assert(m.free[j].start <= m.free[j].end <= m.size);
            } else if j >= i + tt {
                let k = j + 1 - tt;
                assert(m.free[k].start <= m.free[k].end <= m.size);
            }
        }
        assert forall|p: int, q: int| 0 <= p < q < c.len() implies disjoint(#[trigger] c[p], #[trigger] c[q]) by {
            let kp = if p < i { p } else { p + 1 - tt };
            let kq = if q < i { q } else { q + 1 - tt };
            let pfree = p < i || p >= i + tt;
            let qfree = q < i || q >= i + tt;
            if pfree && qfree {
                assert(c[p] == m.free[kp]);
                assert(c[q] == m.free[kq]);
                assert(disjoint(m.free[kp], m.free[kq]));
            }
        }
        assert forall|p: int, q: int| 0 <= p < c.len() && 0 <= q < m2.used.len() implies disjoint(
            #[trigger] c[p],
            #[trigger] m2.used[q],
        ) by {
            if c[p] != piece {
                let kp = choose|k: int| 0 <= k < m.free.len() && k != i && m.free[k] == c[p];
                if q < m.used.len() {
                    assert(m2.used[q] == m.used[q]);
                    assert(disjoint(m.free[kp], m.used[q]));
                } else {
                    assert(m2.used[q] == got);
                    if kp < i {
                        assert(disjoint(m.free[kp], m.free[i]));
                    } else {
                        assert(disjoint(m.free[i], m.free[kp]));
                    }
                }
            }
        }
        assert forall|p: int, q: int| 0 <= p < q < m2.used.len() implies disjoint(#[trigger] m2.used[p], #[trigger] m2.used[q]) by {
            assert(m2.used[p] == m.used[p]);
            if q < m.used.len() {
                assert(m2.used[q] == m.used[q]);
                assert(disjoint(m.used[p], m.used[q]));
            } else {
                assert(disjoint(m.free[i], m.used[p]));
            }
        }
        assert forall|j: int| 0 <= j < m2.used.len() implies #[trigger] m2.used[j].start < m2.used[j].end <= m2.size by {
            if j < m.used.len() {
                assert(m2.used[j] == m.used[j]);
            }
        }
    }
}

/// A range just handed out can be given back.
pub proof fn lemma_allocate_then_release(m: PoolModel, elem_size: u32, num_elems: u32)
    requires
        0 < elem_size * num_elems,
        m.allocate(elem_size, num_elems).1 is Some,
    ensures
        ({
            let (m2, r) = m.allocate(elem_size, num_elems);
            let a = r->Some_0 * elem_size;
            m2.release(span(a as u32, (a + elem_size * num_elems) as u32)).1
        }),
{
    let bytes = elem_size * num_elems;
    assert(elem_size > 0) by (nonlinear_arith)
        requires
            0 < elem_size * num_elems,
    ;
    let i = best_fit(m.free, elem_size, bytes);
    lemma_align_up(m.free[i].start, elem_size);
    let (m2, r) = m.allocate(elem_size, num_elems);
    let a = r->Some_0 * elem_size;
    let got = span(a as u32, (a + bytes) as u32);
    assert(m2.used[m2.used.len() - 1] == got);
    lemma_first_match_exists(m2.used, got);
}

} // verus!

verus! {

/// In a sound pool, giving back a range just handed out succeeds and leaves
/// the ranges handed out as they were before the request.
pub proof fn lemma_allocate_release_round_trip(m: PoolModel, elem_size: u32, num_elems: u32)
    requires
        m.sound(),
        0 < elem_size * num_elems,
        m.allocate(elem_size, num_elems).1 is Some,
    ensures
        ({
            let (m2, r) = m.allocate(elem_size, num_elems);
            let a = r->Some_0 * elem_size;
            let got = span(a as u32, (a + elem_size * num_elems) as u32);
            let (m3, ok) = m2.release(got);
            &&& ok
            &&& m3.used == m.used
        }),
{
    let bytes = elem_size * num_elems;
    lemma_allocate_placement(m, elem_size, num_elems);
    let (m2, r) = m.allocate(elem_size, num_elems);
    let a = r->Some_0 * elem_size;
    let got = span(a as u32, (a + bytes) as u32);
    lemma_allocate_then_release(m, elem_size, num_elems);
    assert(got.start < got.end);
    assert(m2.used[m.used.len() as int] == got);
    assert(is_first_match(m2.used, got, m.used.len() as int)) by {
        assert forall|j: int| 0 <= j < m.used.len() implies #[trigger] m2.used[j] != got by {
            assert(m2.used[j] == m.used[j]);
            assert(disjoint(got, m.used[j]));
        }
    }
    lemma_first_match_unique(m2.used, got, m.used.len() as int);
    assert(m2.used.remove(m.used.len() as int) =~= m.used);
}

} // verus!

verus! {

/// The free list is in address order, no free range is empty, and there is a
/// gap between each free range and the next (touching ranges are merged).
pub open spec fn tidy(free: Seq<Range<u32>>) -> bool {
    &&& forall|j: int| 0 <= j < free.len() ==> #[trigger] free[j].start < free[j].end
    &&& forall|i: int, j: int| 0 <= i < j < free.len() ==> #[trigger] free[i].end < #[trigger] free[j].start
}

proof fn lemma_tidy_insert(free: Seq<Range<u32>>, k: int, x: Range<u32>)
    requires
        tidy(free),
        0 <= k <= free.len(),
        x.start < x.end,
        k > 0 ==> free[k - 1].end < x.start,
        k < free.len() ==> x.end < free[k].start,
    ensures
        tidy(free.insert(k, x)),
{
    let f2 = free.insert(k, x);
    assert forall|j: int| 0 <= j < f2.len() implies #[trigger] f2[j].start < f2[j].end by {
        if j < k {
            assert(f2[j] == free[j]);
        } else if j > k {
            assert(f2[j] == free[j - 1]);
        }
    }
    assert forall|p: int, q: int| 0 <= p < q < f2.len() implies #[trigger] f2[p].end < #[trigger] f2[q].start by {
        if q < k {
            assert(free[p].end < free[q].start);
        } else if q == k {
            if p < k - 1 {
                assert(free[p].end < free[k - 1].start);
            }
        } else if p < k {
            assert(f2[q] == free[q - 1]);
            assert(free[p].end < free[q - 1].start);
        } else if p == k {
            assert(f2[q] == free[q - 1]);
            if q - 1 > k {
                assert(free[k].end < free[q - 1].start);
            }
        } else {
            assert(f2[p] == free[p - 1]);
            assert(f2[q] == free[q - 1]);
            assert(free[p - 1].end < free[q - 1].start);
        }
    }
}

proof fn lemma_tidy_update(free: Seq<Range<u32>>, k: int, x: Range<u32>)
    requires
        tidy(free),
        0 <= k < free.len(),
        x.start < x.end,
        k > 0 ==> free[k - 1].end < x.start,
        k + 1 < free.len() ==> x.end < free[k + 1].start,
    ensures
        tidy(free.update(k, x)),
{
    let f2 = free.update(k, x);
    assert forall|j: int| 0 <= j < f2.len() implies #[trigger] f2[j].start < f2[j].end by {
        if j != k {
            assert(f2[j] == free[j]);
        }
    }
    assert forall|p: int, q: int| 0 <= p < q < f2.len() implies #[trigger] f2[p].end < #[trigger] f2[q].start by {
        if p != k && q != k {
            assert(free[p].end < free[q].start);
        } else if q == k {
            if p < k - 1 {
                assert(free[p].end < free[k - 1].start);
            }
        } else {
            if q > k + 1 {
                assert(free[k + 1].end < free[q].start);
            }
        }
    }
}

proof fn lemma_tidy_remove(free: Seq<Range<u32>>, k: int)
    requires
        tidy(free),
        0 <= k < free.len(),
    ensures
        tidy(free.remove(k)),
{
    let f2 = free.remove(k);
    assert forall|j: int| 0 <= j < f2.len() implies #[trigger] f2[j].start < f2[j].end by {
        if j >= k {
            assert(f2[j] == free[j + 1]);
        }
    }
    assert forall|p: int, q: int| 0 <= p < q < f2.len() implies #[trigger] f2[p].end < #[trigger] f2[q].start by {
        let kp = if p < k { p } else { p + 1 };
        let kq = if q < k { q } else { q + 1 };
        assert(f2[p] == free[kp]);
        assert(f2[q] == free[kq]);
        assert(free[kp].end < free[kq].start);
    }
}

/// Giving back a non-empty range that shares no byte with a tidy free list
/// keeps it tidy: in order, without empty ranges, with gaps between neighbours.
pub proof fn lemma_coalesce_tidy(free: Seq<Range<u32>>, exp: Range<u32>)
    requires
        tidy(free),
        exp.start < exp.end,
        apart_from_all(exp, free),
    ensures
        tidy(coalesce(free, exp)),
{
    if free.len() == 0 {
        lemma_tidy_insert(free, 0, exp);
        assert(free.insert(0, exp) =~= seq![exp]);
    } else {
        lemma_first_right_exists(free, exp.end);
        let i = first_right(free, exp.end);
        let n = free.len() as int;
        // ranges before `i` end at or before `exp` starts
        assert forall|j: int| 0 <= j < i implies #[trigger] free[j].end <= exp.start by {
            assert(disjoint(exp, free[j]));
            assert(free[j].start < free[j].end);
        }
        if i == 0 {
            if exp.end == free[0].start {
                if 1 < n {
                    assert(free[0].end < free[1].start);
                }
                lemma_tidy_update(free, 0, span(exp.start, free[0].end));
            } else {
                lemma_tidy_insert(free, 0, exp);
            }
        } else if i < n {
            let left = free[i - 1];
            let right = free[i];
            if i >= 2 {
                assert(free[i - 2].end < free[i - 1].start);
            }
            if i + 1 < n {
                assert(free[i].end < free[i + 1].start);
            }
            if left.end == exp.start && exp.end == right.start {
                lemma_tidy_remove(free, i);
                let f1 = free.remove(i);
                if i + 1 < n {
                    assert(f1[i] == free[i + 1]);
                }
                if i >= 2 {
                    assert(f1[i - 2] == free[i - 2]);
                }
                lemma_tidy_update(f1, i - 1, span(left.start, right.end));
                assert(free.update(i - 1, span(left.start, right.end)).remove(i) =~= f1.update(
                    i - 1,
                    span(left.start, right.end),
                ));
            } else if left.end == exp.start {
                lemma_tidy_update(free, i - 1, span(left.start, exp.end));
            } else if exp.end == right.start {
                lemma_tidy_update(free, i, span(exp.start, right.end));
            } else {
                lemma_tidy_insert(free, i, exp);
            }
        } else {
            let left = free.last();
            if n >= 2 {
                assert(free[n - 2].end < free[n - 1].start);
            }
            if left.end == exp.start {
                lemma_tidy_update(free, n - 1, span(left.start, exp.end));
            } else {
                lemma_tidy_insert(free, n, exp);
                assert(free.insert(n, exp) =~= free.push(exp));
            }
        }
    }
}

/// Giving back a range keeps a tidy free list of a sound pool tidy.
pub proof fn lemma_release_keeps_tidy(m: PoolModel, exp: Range<u32>)
    requires
        m.sound(),
        tidy(m.free),
    ensures
        tidy(m.release(exp).0.free),
{
    lemma_first_match_exists(m.used, exp);
    let i = first_match(m.used, exp);
    if i < m.used.len() {
        assert(m.used[i] == exp);
        assert forall|j: int| 0 <= j < m.free.len() implies disjoint(exp, #[trigger] m.free[j]) by {
            assert(disjoint(m.free[j], m.used[i]));
        }
        lemma_coalesce_tidy(m.free, exp);
    }
}

} // verus!

verus! {

/// In a sound pool with a tidy free list, when a request takes a whole free
/// range, giving that range back puts the pool back exactly as it was: both the
/// free and the handed-out ranges.
pub proof fn lemma_allocate_release_restores(m: PoolModel, elem_size: u32, num_elems: u32)
    requires
        m.sound(),
        tidy(m.free),
        0 < elem_size * num_elems,
        m.allocate(elem_size, num_elems).1 is Some,
        m.allocate(elem_size, num_elems).0.free.len() + 1 == m.free.len(),
    ensures
        ({
            let (m2, r) = m.allocate(elem_size, num_elems);
            let a = r->Some_0 * elem_size;
            let got = span(a as u32, (a + elem_size * num_elems) as u32);
            m2.release(got) == (m, true)
        }),
{
    let bytes = elem_size * num_elems;
    assert(elem_size > 0) by (nonlinear_arith)
        requires
            0 < elem_size * num_elems,
    ;
    lemma_allocate_release_round_trip(m, elem_size, num_elems);
    let i = best_fit(m.free, elem_size, bytes);
    let r = m.free[i];
    lemma_align_up(r.start, elem_size);
    let a = align_up(r.start, elem_size);
    let end = a + bytes;
    let (m2, res) = m.allocate(elem_size, num_elems);
    assert(res->Some_0 * elem_size == a);
    let got = span(a as u32, end as u32);
    lemma_carve_parts(m.free, i, a, end);
    let c = m2.free;
    let n = m.free.len() as int;
    let hh: int = if a > r.start { 1 } else { 0 };
    let tt: int = if end < r.end { 1 } else { 0 };
    assert(r.start < r.end);
    if i > 0 {
        assert(m.free[i - 1].end < m.free[i].start);
    }
    if i + 1 < n {
        assert(m.free[i].end < m.free[i + 1].start);
    }
    // where `got` goes back in
    let idx = i + hh;
    assert(is_first_right(c, end as u32, idx)) by {
        assert forall|j: int| 0 <= j < idx implies #[trigger] c[j].start < end by {
            if j < i {
                assert(m.free[j].end < m.free[i].start);
                assert(m.free[j].start < m.free[j].end);
            }
        }
        if idx < c.len() {
            if tt == 0 {
                assert(c[idx] == m.free[i + 1]);
            }
        }
    }
    lemma_first_right_unique(c, end as u32, idx);
    assert(r == span(r.start, r.end));
    let f3 = coalesce(c, got);
    if hh == 1 && tt == 1 {
        assert(f3 == c.update(i, span(r.start, r.end)).remove(i + 1));
        assert(f3 =~= m.free);
    } else if hh == 1 {
        if i + 1 < c.len() {
            assert(c[i + 1] == m.free[i + 1]);
            assert(f3 == c.update(i, span(r.start, end as u32)));
        } else {
            assert(f3 == c.update(c.len() - 1, span(r.start, end as u32)));
        }
        assert(f3 =~= m.free);
    } else if tt == 1 {
        if i == 0 {
            assert(f3 == c.update(0, span(a as u32, r.end)));
        } else {
            assert(c[i - 1] == m.free[i - 1]);
            assert(f3 == c.update(i, span(a as u32, r.end)));
        }
        assert(f3 =~= m.free);
    } else {
        assert(got == r);
        if c.len() == 0 {
            assert(f3 =~= m.free);
        } else if i == 0 {
            assert(c[0] == m.free[1]);
            assert(f3 == c.insert(0, got));
            assert(f3 =~= m.free);
        } else if i < c.len() {
            assert(c[i - 1] == m.free[i - 1]);
            assert(c[i] == m.free[i + 1]);
            assert(f3 == c.insert(i, got));
            assert(f3 =~= m.free);
        } else {
            assert(c[i - 1] == m.free[i - 1]);
            assert(f3 == c.push(got));
            assert(f3 =~= m.free);
        }
    }
}

} // verus!
