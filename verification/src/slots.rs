use vstd::prelude::*;

verus! {

/// `i` is the position of the first empty slot of `s`, or `s.len()` when every
/// slot is occupied.
pub open spec fn is_first_free<T>(s: Seq<Option<T>>, i: int) -> bool {
    &&& 0 <= i <= s.len()
    &&& i < s.len() ==> s[i] is None
    &&& forall|j: int| 0 <= j < i ==> #[trigger] s[j] is Some
}

/// Where a slot list places its next entry: the first empty slot, or the end.
pub open spec fn first_free<T>(s: Seq<Option<T>>) -> int {
    choose|i: int| is_first_free(s, i)
}

/// The first free position is unique, so any witness is the chosen one.
pub proof fn lemma_first_free_unique<T>(s: Seq<Option<T>>, i: int)
    requires
        is_first_free(s, i),
    ensures
        first_free(s) == i,
{
    let k = first_free(s);
    assert(is_first_free(s, k));
    if k < i {
        assert(s[k] is Some);
    } else if i < k {
        assert(s[i] is Some);
    }
}

/// Every slot list has a first free position.
pub proof fn lemma_first_free_exists<T>(s: Seq<Option<T>>)
    ensures
        is_first_free(s, first_free(s)),
    decreases s.len(),
{
    if s.len() == 0 {
        lemma_first_free_unique(s, 0);
    } else {
        let t = s.drop_last();
        lemma_first_free_exists(t);
        let k = first_free(t);
        assert forall|j: int| 0 <= j < k implies #[trigger] s[j] is Some by {
            assert(t[j] == s[j]);
        }
        if k < t.len() {
            assert(t[k] == s[k]);
            lemma_first_free_unique(s, k);
        } else if s.last() is None {
            lemma_first_free_unique(s, k);
        } else {
            lemma_first_free_unique(s, s.len() as int);
        }
    }
}

/// Scans `v` for its first empty slot; returns `v.len()` when there is none.
pub fn find_free_slot<T>(v: &Vec<Option<T>>) -> (r: usize)
    ensures
        r as int == first_free(v@),
        is_first_free(v@, r as int),
{
    let mut i: usize = 0;
    while i < v.len()
        invariant
            i <= v.len(),
            forall|j: int| 0 <= j < i ==> #[trigger] v@[j] is Some,
        decreases v.len() - i,
    {
        if v[i].is_none() {
            proof {
                lemma_first_free_unique(v@, i as int);
            }
            return i;
        }
        i = i + 1;
    }
    proof {
        lemma_first_free_unique(v@, i as int);
    }
    i
}

} // verus!
