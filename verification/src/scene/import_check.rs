use vstd::prelude::*;
use crate::scene::import::{ImportNode, Rank, ranked, some_rank, import_count, import_count_children, roots_count};

verus! {

/// `x` capped at `u64::MAX`.
pub open spec fn capped(x: int) -> int {
    if x < u64::MAX {
        x
    } else {
        u64::MAX as int
    }
}

/// Number of slots of `s` not yet given a rank (rank 0).
pub open spec fn unranked_count(s: Seq<u64>) -> nat
    decreases s.len(),
{
    if s.len() == 0 {
        0
    } else {
        unranked_count(s.drop_last()) + if s.last() == 0 { 1nat } else { 0nat }
    }
}

proof fn lemma_unranked_update(s: Seq<u64>, i: int, v: u64)
    requires
        0 <= i < s.len(),
        s[i] == 0,
        v > 0,
    ensures
        unranked_count(s.update(i, v)) + 1 == unranked_count(s),
    decreases s.len(),
{
    let t = s.update(i, v);
    if i < s.len() - 1 {
        assert(t.drop_last() =~= s.drop_last().update(i, v));
        lemma_unranked_update(s.drop_last(), i, v);
    } else {
        assert(t.drop_last() =~= s.drop_last());
    }
}

proof fn lemma_unranked_bound(s: Seq<u64>)
    ensures
        unranked_count(s) <= s.len(),
        unranked_count(s) == 0 <==> forall|i: int| 0 <= i < s.len() ==> #[trigger] s[i] != 0,
    decreases s.len(),
{
    if s.len() > 0 {
        lemma_unranked_bound(s.drop_last());
        assert forall|i: int| 0 <= i < s.len() - 1 implies s.drop_last()[i] == #[trigger] s[i] by {}
        if unranked_count(s) != 0 {
            if s.last() != 0 {
                let i = choose|i: int| 0 <= i < s.drop_last().len() && #[trigger] s.drop_last()[i] == 0;
                assert(s[i] == 0);
            }
        }
    }
}

/// Child `k` of file node `i` is missing, or has no rank yet.
pub open spec fn blocked_child<X>(gn: Seq<ImportNode<X>>, rank: Seq<u64>, i: int, k: int) -> bool {
    let c = gn[i].children@[k];
    c >= gn.len() || rank[c as int] == 0
}

/// Every node still without a rank has a child that is missing or without a
/// rank: no ranking of the whole file exists.
proof fn lemma_stuck_means_cycle<X>(gn: Seq<ImportNode<X>>, rank: Seq<u64>, i0: int)
    requires
        rank.len() == gn.len(),
        0 <= i0 < gn.len(),
        rank[i0] == 0,
        forall|i: int|
            0 <= i < gn.len() && rank[i] == 0 ==> exists|k: int|
                0 <= k < gn[i].children@.len() && #[trigger] blocked_child(gn, rank, i, k),
    ensures
        !(exists|r: Rank| ranked(gn, r)),
{
    if exists|r: Rank| ranked(gn, r) {
        let r = choose|r: Rank| ranked(gn, r);
        lemma_stuck_rank_bound(gn, rank, r, r(i0) + 1);
        assert(r(i0) >= r(i0) + 1);
    }
}

proof fn lemma_stuck_rank_bound<X>(gn: Seq<ImportNode<X>>, rank: Seq<u64>, r: Rank, m: nat)
    requires
        rank.len() == gn.len(),
        ranked(gn, r),
        forall|i: int|
            0 <= i < gn.len() && rank[i] == 0 ==> exists|k: int|
                0 <= k < gn[i].children@.len() && #[trigger] blocked_child(gn, rank, i, k),
    ensures
        forall|i: int| 0 <= i < gn.len() && rank[i] == 0 ==> r(i) >= m,
    decreases m,
{
    if m > 0 {
        lemma_stuck_rank_bound(gn, rank, r, (m - 1) as nat);
        assert forall|i: int| 0 <= i < gn.len() && rank[i] == 0 implies r(i) >= m by {
            let k = choose|k: int| 0 <= k < gn[i].children@.len() && #[trigger] blocked_child(gn, rank, i, k);
            let c = gn[i].children@[k];
            assert(c < gn.len() && r(c as int) < r(i));
        }
    }
}

proof fn lemma_children_count_indep<X>(gn: Seq<ImportNode<X>>, r1: Rank, r2: Rank, id: int, k: int)
    requires
        ranked(gn, r1),
        ranked(gn, r2),
        0 <= id < gn.len(),
        0 <= k <= gn[id].children@.len(),
    ensures
        import_count_children(gn, r1, id, k) == import_count_children(gn, r2, id, k),
    decreases r1(id), k,
{
    if k > 0 {
        lemma_children_count_indep(gn, r1, r2, id, k - 1);
        let c = gn[id].children@[k - 1] as int;
        assert(c < gn.len() && r1(c) < r1(id) && r2(c) < r2(id));
        lemma_count_indep(gn, r1, r2, c);
    }
}

/// The number of nodes an import adds does not depend on which ranking of
/// the file it is counted with.
proof fn lemma_count_indep<X>(gn: Seq<ImportNode<X>>, r1: Rank, r2: Rank, id: int)
    requires
        ranked(gn, r1),
        ranked(gn, r2),
        0 <= id < gn.len(),
    ensures
        import_count(gn, r1, id) == import_count(gn, r2, id),
    decreases r1(id), gn[id].children@.len() + 1,
{
    lemma_children_count_indep(gn, r1, r2, id, gn[id].children@.len() as int);
}

proof fn lemma_roots_count_indep<X>(gn: Seq<ImportNode<X>>, r1: Rank, r2: Rank, roots: Seq<usize>, k: int)
    requires
        ranked(gn, r1),
        ranked(gn, r2),
        forall|j: int| 0 <= j < roots.len() ==> #[trigger] roots[j] < gn.len(),
        0 <= k <= roots.len(),
    ensures
        roots_count(gn, r1, roots, k) == roots_count(gn, r2, roots, k),
    decreases k,
{
    if k > 0 {
        lemma_roots_count_indep(gn, r1, r2, roots, k - 1);
        lemma_count_indep(gn, r1, r2, roots[k - 1] as int);
    }
}

/// `a + b`, capped at `u64::MAX`.
fn capped_add(a: u64, b: u64) -> (r: u64)
    ensures
        r == capped(a + b),
{
    if a > u64::MAX - b {
        u64::MAX
    } else {
        a + b
    }
}

/// Whether importing `roots` from the file nodes `gnodes` can go ahead, and
/// how many scene nodes it adds: `Some(n)` when every root names a node, the
/// nodes form no cycle (every child index names a node and some ranking
/// decreases from each node to its children) and the import adds `n` nodes,
/// fewer than `u64::MAX`; `None` otherwise.
pub fn import_node_count<X>(gnodes: &Vec<ImportNode<X>>, roots: &Vec<usize>) -> (r: Option<u64>)
    ensures
        ({
            let ok = (exists|rank: Rank| ranked(gnodes@, rank)) && forall|k: int|
                0 <= k < roots@.len() ==> #[trigger] roots@[k] < gnodes@.len();
            match r {
                Some(n) => ok && n == roots_count(gnodes@, some_rank(gnodes@), roots@, roots@.len() as int),
                None => !ok || roots_count(gnodes@, some_rank(gnodes@), roots@, roots@.len() as int)
                    >= u64::MAX,
            }
        }),
{
    let n = gnodes.len();
    let ghost gn = gnodes@;
    // Rank the nodes: a node is ranked once all its children are, with the
    // next number, so children always rank lower.
    let mut rank: Vec<u64> = Vec::new();
    let mut z: usize = 0;
    while z < n
        invariant
            z <= n,
            n == gn.len(),
            rank@.len() == z,
            unranked_count(rank@) == z,
            forall|i: int| 0 <= i < z ==> #[trigger] rank@[i] == 0,
        decreases n - z,
    {
        proof {
            assert(rank@.push(0).drop_last() =~= rank@);
        }
        rank.push(0);
        z = z + 1;
    }
    let mut order: Vec<usize> = Vec::new();
    loop
        invariant
            n == gn.len(),
            gn == gnodes@,
            rank@.len() == n,
            order@.len() + unranked_count(rank@) == n,
            forall|j: int| 0 <= j < order@.len() ==> #[trigger] order@[j] < n && rank@[order@[j] as int] == j + 1,
            forall|i: int| 0 <= i < n && #[trigger] rank@[i] != 0 ==> rank@[i] <= order@.len() && order@[rank@[i] - 1] == i,
            forall|i: int, k: int|
                0 <= i < n && rank@[i] != 0 && 0 <= k < gn[i].children@.len() ==> {
                    let c = #[trigger] gn[i].children@[k];
                    &&& c < n
                    &&& rank@[c as int] != 0
                    &&& rank@[c as int] < rank@[i]
                },
        ensures
            n == gn.len(),
            rank@.len() == n,
            order@.len() + unranked_count(rank@) == n,
            forall|j: int| 0 <= j < order@.len() ==> #[trigger] order@[j] < n && rank@[order@[j] as int] == j + 1,
            forall|i: int| 0 <= i < n && #[trigger] rank@[i] != 0 ==> rank@[i] <= order@.len() && order@[rank@[i] - 1] == i,
            forall|i: int, k: int|
                0 <= i < n && rank@[i] != 0 && 0 <= k < gn[i].children@.len() ==> {
                    let c = #[trigger] gn[i].children@[k];
                    &&& c < n
                    &&& rank@[c as int] != 0
                    &&& rank@[c as int] < rank@[i]
                },
            forall|i: int|
                0 <= i < n && rank@[i] == 0 ==> exists|k: int|
                    0 <= k < gn[i].children@.len() && #[trigger] blocked_child(gn, rank@, i, k),
        decreases unranked_count(rank@),
    {
        let ghost start = rank@;
        let mut progress = false;
        let mut i: usize = 0;
        while i < n
            invariant
                n == gn.len(),
                gn == gnodes@,
                i <= n,
                rank@.len() == n,
                order@.len() + unranked_count(rank@) == n,
                !progress ==> rank@ == start,
                progress ==> unranked_count(rank@) < unranked_count(start),
                forall|j: int| 0 <= j < order@.len() ==> #[trigger] order@[j] < n && rank@[order@[j] as int] == j + 1,
                forall|q: int| 0 <= q < n && #[trigger] rank@[q] != 0 ==> rank@[q] <= order@.len() && order@[rank@[q] - 1] == q,
                forall|q: int, k: int|
                    0 <= q < n && rank@[q] != 0 && 0 <= k < gn[q].children@.len() ==> {
                        let c = #[trigger] gn[q].children@[k];
                        &&& c < n
                        &&& rank@[c as int] != 0
                        &&& rank@[c as int] < rank@[q]
                    },
                !progress ==> forall|q: int|
                    0 <= q < i && rank@[q] == 0 ==> exists|k: int|
                        0 <= k < gn[q].children@.len() && #[trigger] blocked_child(gn, rank@, q, k),
            decreases n - i,
        {
            if rank[i] == 0 {
                let children = &gnodes[i].children;
                let mut ready = true;
                let mut k: usize = 0;
                while k < children.len()
                    invariant
                        n == gn.len(),
                        i < n,
                        children@ == gn[i as int].children@,
                        rank@.len() == n,
                        k <= children@.len(),
                        ready ==> forall|k2: int| 0 <= k2 < k ==> !#[trigger] blocked_child(gn, rank@, i as int, k2),
                        !ready ==> exists|k2: int| 0 <= k2 < children@.len() && #[trigger] blocked_child(gn, rank@, i as int, k2),
                    decreases children.len() - k,
                {
                    let c = children[k];
                    if c >= n || rank[c] == 0 {
                        assert(blocked_child(gn, rank@, i as int, k as int));
                        ready = false;
                    }
                    k = k + 1;
                }
                if ready {
                    proof {
                        lemma_unranked_bound(rank@);
                        assert(order@.len() < n);
                        lemma_unranked_update(rank@, i as int, (order@.len() + 1) as u64);
                    }
                    let next = (order.len() + 1) as u64;
                    let ghost before = rank@;
                    rank.set(i, next);
                    order.push(i);
                    proof {
                        assert forall|q: int, k2: int|
                            0 <= q < n && rank@[q] != 0 && 0 <= k2 < gn[q].children@.len() implies {
                                let c = #[trigger] gn[q].children@[k2];
                                &&& c < n
                                &&& rank@[c as int] != 0
                                &&& rank@[c as int] < rank@[q]
                            } by {
                            if q == i {
                                assert(!blocked_child(gn, before, i as int, k2));
                                let c = gn[q].children@[k2];
                                assert(before[c as int] <= order@.len() - 1);
                            }
                        }
                    }
                    progress = true;
                }
            }
            i = i + 1;
        }
        if !progress {
            break;
        }
    }
    // every node must have a rank
    let mut i: usize = 0;
    while i < n
        invariant
            i <= n,
            n == gn.len(),
            gn == gnodes@,
            rank@.len() == n,
            forall|q: int| 0 <= q < i ==> #[trigger] rank@[q] != 0,
            forall|q: int|
                0 <= q < n && rank@[q] == 0 ==> exists|k: int|
                    0 <= k < gn[q].children@.len() && #[trigger] blocked_child(gn, rank@, q, k),
        decreases n - i,
    {
        if rank[i] == 0 {
            proof {
                lemma_stuck_means_cycle(gn, rank@, i as int);
            }
            return None;
        }
        i = i + 1;
    }
    let ghost r: Rank = |q: int| if 0 <= q < n { rank@[q] as nat } else { 0nat };
    proof {
        assert forall|q: int, k: int|
            0 <= q < gn.len() && 0 <= k < gn[q].children@.len() implies {
                let c = #[trigger] gn[q].children@[k];
                &&& c < gn.len()
                &&& r(c as int) < r(q)
            } by {
            assert(rank@[q] != 0);
        }
        assert(ranked(gn, r));
    }
    // every root must name a node
    let mut k: usize = 0;
    while k < roots.len()
        invariant
            k <= roots@.len(),
            n == gn.len(),
            gn == gnodes@,
            forall|j: int| 0 <= j < k ==> #[trigger] roots@[j] < n,
        decreases roots.len() - k,
    {
        if roots[k] >= n {
            return None;
        }
        k = k + 1;
    }
    // count, children first
    proof {
        lemma_unranked_bound(rank@);
    }
    let mut cnt: Vec<u64> = Vec::new();
    let mut z: usize = 0;
    while z < n
        invariant
            z <= n,
            cnt@.len() == z,
        decreases n - z,
    {
        cnt.push(0);
        z = z + 1;
    }
    let mut j: usize = 0;
    while j < n
        invariant
            n == gn.len(),
            gn == gnodes@,
            j <= n,
            cnt@.len() == n,
            rank@.len() == n,
            order@.len() == n,
            ranked(gn, r),
            forall|q: int| 0 <= q < n ==> #[trigger] r(q) == rank@[q] as nat,
            forall|j2: int| 0 <= j2 < order@.len() ==> #[trigger] order@[j2] < n && rank@[order@[j2] as int] == j2 + 1,
            forall|q: int| 0 <= q < n && #[trigger] rank@[q] != 0 ==> rank@[q] <= order@.len() && order@[rank@[q] - 1] == q,
            forall|q: int| 0 <= q < n ==> #[trigger] rank@[q] != 0,
            forall|q: int| 0 <= q < n && rank@[q] <= j ==> #[trigger] cnt@[q] == capped(import_count(gn, r, q) as int),
        decreases n - j,
    {
        let i = order[j];
        let children = &gnodes[i].children;
        let mut acc: u64 = 1;
        let mut k: usize = 0;
        while k < children.len()
            invariant
                n == gn.len(),
                i < n,
                rank@[i as int] == j + 1,
                children@ == gn[i as int].children@,
                k <= children@.len(),
                cnt@.len() == n,
                rank@.len() == n,
                ranked(gn, r),
                forall|q: int| 0 <= q < n ==> #[trigger] r(q) == rank@[q] as nat,
                forall|q: int| 0 <= q < n ==> #[trigger] rank@[q] != 0,
                forall|q: int| 0 <= q < n && rank@[q] <= j ==> #[trigger] cnt@[q] == capped(import_count(gn, r, q) as int),
                acc == capped(1 + import_count_children(gn, r, i as int, k as int) as int),
            decreases children.len() - k,
        {
            let c = children[k];
            proof {
                assert(c < n && r(c as int) < r(i as int));
            }
            acc = capped_add(acc, cnt[c]);
            k = k + 1;
        }
        proof {
            assert(import_count(gn, r, i as int) == 1 + import_count_children(gn, r, i as int, children@.len() as int));
        }
        let ghost before = cnt@;
        cnt.set(i, acc);
        proof {
            assert forall|q: int| 0 <= q < n && rank@[q] <= j + 1 implies #[trigger] cnt@[q] == capped(import_count(gn, r, q) as int) by {
                if q != i {
                    assert(rank@[q] != j + 1);
                }
            }
        }
        j = j + 1;
    }
    let mut total: u64 = 0;
    let mut k: usize = 0;
    while k < roots.len()
        invariant
            n == gn.len(),
            k <= roots@.len(),
            cnt@.len() == n,
            rank@.len() == n,
            ranked(gn, r),
            forall|q: int| 0 <= q < n ==> #[trigger] r(q) == rank@[q] as nat,
            forall|q: int| 0 <= q < n ==> #[trigger] rank@[q] <= n,
            forall|q: int| 0 <= q < n && rank@[q] <= n ==> #[trigger] cnt@[q] == capped(import_count(gn, r, q) as int),
            forall|j2: int| 0 <= j2 < roots@.len() ==> #[trigger] roots@[j2] < n,
            total == capped(roots_count(gn, r, roots@, k as int) as int),
        decreases roots.len() - k,
    {
        total = capped_add(total, cnt[roots[k]]);
        k = k + 1;
    }
    proof {
        lemma_roots_count_indep(gn, r, some_rank(gn), roots@, roots@.len() as int);
    }
    if total == u64::MAX {
        None
    } else {
        Some(total)
    }
}

} // verus!
