//! The mathematical model shared by every union-find forest of the crate:
//! a parent array together with a rank array (union by rank, path
//! compression), the representative of each element, and the number of
//! elements that each representative stands for.
use vstd::prelude::*;
use vstd::arithmetic::power2::{pow2, lemma_pow2_strictly_increases, lemma2_to64};

verus! {

/// The parent array is a forest whose ranks strictly grow towards the roots.
pub open spec fn forest_wf(parent: Seq<usize>, rank: Seq<u8>) -> bool {
    &&& parent.len() == rank.len()
    &&& forall|i: int| 0 <= i < parent.len() ==> (#[trigger] parent[i]) < parent.len()
    &&& forall|i: int|
        0 <= i < parent.len() && parent[i] != i ==> rank[i] < rank[#[trigger] parent[i] as int]
}

/// The representative (root) of element `i`: follow the parents until an
/// element is its own parent.
pub open spec fn root_of(parent: Seq<usize>, rank: Seq<u8>, i: int) -> int
    decreases 256 - rank[i],
    when forest_wf(parent, rank) && 0 <= i < parent.len()
{
    if parent[i] as int == i {
        i
    } else {
        root_of(parent, rank, parent[i] as int)
    }
}

/// `i` lies on the path of parents from `x` up to its root, both ends
/// included.
pub open spec fn on_root_path(parent: Seq<usize>, rank: Seq<u8>, x: int, i: int) -> bool
    decreases 256 - rank[x],
    when forest_wf(parent, rank) && 0 <= x < parent.len()
{
    i == x || (parent[x] as int != x && on_root_path(parent, rank, parent[x] as int, i))
}

/// The number of elements below `k` whose representative is `r`.
pub open spec fn members_below(parent: Seq<usize>, rank: Seq<u8>, r: int, k: int) -> nat
    decreases k,
{
    if k <= 0 {
        0
    } else {
        members_below(parent, rank, r, k - 1) + if root_of(parent, rank, k - 1) == r {
            1nat
        } else {
            0nat
        }
    }
}

/// The size of the set whose representative is `r`.
pub open spec fn set_size(parent: Seq<usize>, rank: Seq<u8>, r: int) -> nat {
    members_below(parent, rank, r, parent.len() as int)
}

/// Every root stands for at least 2^rank elements (this bounds every rank).
pub open spec fn sizes_bound_ranks(parent: Seq<usize>, rank: Seq<u8>) -> bool {
    forall|r: int|
        0 <= r < parent.len() && #[trigger] parent[r] == r ==> pow2(rank[r] as nat)
            <= set_size(parent, rank, r)
}

/// The full invariant of a union-find forest.
pub open spec fn union_find_wf(parent: Seq<usize>, rank: Seq<u8>) -> bool {
    &&& forest_wf(parent, rank)
    &&& sizes_bound_ranks(parent, rank)
}

/// `i` and `j` are in the same set.
pub open spec fn same_set(parent: Seq<usize>, rank: Seq<u8>, i: int, j: int) -> bool {
    root_of(parent, rank, i) == root_of(parent, rank, j)
}

/// The forest in which every element is alone in its set.
pub open spec fn singletons(parent: Seq<usize>, rank: Seq<u8>) -> bool {
    &&& parent.len() == rank.len()
    &&& forall|i: int| 0 <= i < parent.len() ==> #[trigger] parent[i] == i && rank[i] == 0
}

/// The representative after linking root `loser` below root `winner`.
pub open spec fn root_after_link(parent: Seq<usize>, rank: Seq<u8>, winner: int, loser: int, i: int) -> int {
    if root_of(parent, rank, i) == loser {
        winner
    } else {
        root_of(parent, rank, i)
    }
}

/// The root of an element is a root, lies in range, and has a rank at
/// least that of the element (strictly greater unless it is the element).
pub proof fn lemma_root_of(parent: Seq<usize>, rank: Seq<u8>, i: int)
    requires
        forest_wf(parent, rank),
        0 <= i < parent.len(),
    ensures
        0 <= root_of(parent, rank, i) < parent.len(),
        parent[root_of(parent, rank, i)] == root_of(parent, rank, i),
        root_of(parent, rank, root_of(parent, rank, i)) == root_of(parent, rank, i),
        rank[i] <= rank[root_of(parent, rank, i)],
        root_of(parent, rank, i) != i ==> rank[i] < rank[root_of(parent, rank, i)],
        parent[i] == i ==> root_of(parent, rank, i) == i,
        root_of(parent, rank, parent[i] as int) == root_of(parent, rank, i),
    decreases 256 - rank[i],
{
    if parent[i] as int != i {
        lemma_root_of(parent, rank, parent[i] as int);
    }
}

/// Pointing `y` straight at its root changes no representative.
proof fn lemma_compress_at(parent: Seq<usize>, rank: Seq<u8>, y: int, i: int)
    requires
        forest_wf(parent, rank),
        0 <= y < parent.len(),
        0 <= i < parent.len(),
        forest_wf(parent.update(y, root_of(parent, rank, y) as usize), rank),
    ensures
        root_of(parent.update(y, root_of(parent, rank, y) as usize), rank, i) == root_of(
            parent,
            rank,
            i,
        ),
    decreases 256 - rank[i],
{
    let r = root_of(parent, rank, y);
    let p2 = parent.update(y, r as usize);
    lemma_root_of(parent, rank, y);
    if i == y {
        if r != y {
            lemma_root_of(parent, rank, r);
            assert(p2[r] == r);
            assert(root_of(p2, rank, r) == r);
        }
    } else if parent[i] as int != i {
        lemma_compress_at(parent, rank, y, parent[i] as int);
    }
}

/// Path compression keeps the forest shape and every representative.
pub proof fn lemma_compress_forest(parent: Seq<usize>, rank: Seq<u8>, y: int)
    requires
        forest_wf(parent, rank),
        0 <= y < parent.len(),
    ensures
        forest_wf(parent.update(y, root_of(parent, rank, y) as usize), rank),
        forall|i: int|
            0 <= i < parent.len() ==> #[trigger] root_of(
                parent.update(y, root_of(parent, rank, y) as usize),
                rank,
                i,
            ) == root_of(parent, rank, i),
{
    let r = root_of(parent, rank, y);
    let p2 = parent.update(y, r as usize);
    lemma_root_of(parent, rank, y);
    assert(forest_wf(p2, rank)) by {
        assert forall|i: int| 0 <= i < p2.len() && p2[i] != i implies rank[i] < rank[#[trigger] p2[i] as int] by {
            if i == y {
            }
        }
    }
    assert forall|i: int| 0 <= i < parent.len() implies #[trigger] root_of(p2, rank, i) == root_of(parent, rank, i) by {
        lemma_compress_at(parent, rank, y, i);
    }
}

/// Path compression keeps the invariant and every representative.
pub proof fn lemma_compress(parent: Seq<usize>, rank: Seq<u8>, y: int)
    requires
        union_find_wf(parent, rank),
        0 <= y < parent.len(),
    ensures
        union_find_wf(parent.update(y, root_of(parent, rank, y) as usize), rank),
        forall|i: int|
            0 <= i < parent.len() ==> #[trigger] root_of(
                parent.update(y, root_of(parent, rank, y) as usize),
                rank,
                i,
            ) == root_of(parent, rank, i),
{
    let p2 = parent.update(y, root_of(parent, rank, y) as usize);
    lemma_compress_forest(parent, rank, y);
    lemma_members_same_roots(parent, rank, p2, rank);
}

/// Forests with the same representatives have the same set sizes.
pub proof fn lemma_members_same_roots(p1: Seq<usize>, r1: Seq<u8>, p2: Seq<usize>, r2: Seq<u8>)
    requires
        union_find_wf(p1, r1),
        forest_wf(p2, r2),
        p1.len() == p2.len(),
        forall|i: int| 0 <= i < p1.len() ==> #[trigger] root_of(p2, r2, i) == root_of(p1, r1, i),
        forall|i: int| 0 <= i < p1.len() && p1[i] == i ==> r1[i] == r2[i],
    ensures
        forall|r: int, k: int|
            0 <= k <= p1.len() ==> #[trigger] members_below(p2, r2, r, k) == members_below(
                p1,
                r1,
                r,
                k,
            ),
        union_find_wf(p2, r2),
{
    assert forall|r: int, k: int| 0 <= k <= p1.len() implies #[trigger] members_below(p2, r2, r, k)
        == members_below(p1, r1, r, k) by {
        lemma_members_same_roots_at(p1, r1, p2, r2, r, k);
    }
    assert forall|r: int| 0 <= r < p2.len() && #[trigger] p2[r] == r implies pow2(r2[r] as nat)
        <= set_size(p2, r2, r) by {
        lemma_root_of(p2, r2, r);
        lemma_root_of(p1, r1, r);
        assert(root_of(p1, r1, r) == r);
        assert(p1[r] == r);
    }
}

proof fn lemma_members_same_roots_at(
    p1: Seq<usize>,
    r1: Seq<u8>,
    p2: Seq<usize>,
    r2: Seq<u8>,
    r: int,
    k: int,
)
    requires
        forest_wf(p1, r1),
        forest_wf(p2, r2),
        p1.len() == p2.len(),
        forall|i: int| 0 <= i < p1.len() ==> #[trigger] root_of(p2, r2, i) == root_of(p1, r1, i),
        0 <= k <= p1.len(),
    ensures
        members_below(p2, r2, r, k) == members_below(p1, r1, r, k),
    decreases k,
{
    if k > 0 {
        lemma_members_same_roots_at(p1, r1, p2, r2, r, k - 1);
        assert(root_of(p2, r2, k - 1) == root_of(p1, r1, k - 1));
    }
}

/// There are never more members than elements considered.
pub proof fn lemma_members_bounded(parent: Seq<usize>, rank: Seq<u8>, r: int, k: int)
    ensures
        k >= 0 ==> members_below(parent, rank, r, k) <= k,
    decreases k,
{
    if k > 0 {
        lemma_members_bounded(parent, rank, r, k - 1);
    }
}

/// Linking root `loser` below root `winner` redirects exactly the members of `loser`.
proof fn lemma_link_at(
    parent: Seq<usize>,
    rank: Seq<u8>,
    p2: Seq<usize>,
    rk2: Seq<u8>,
    winner: int,
    loser: int,
    i: int,
)
    requires
        forest_wf(parent, rank),
        forest_wf(p2, rk2),
        0 <= winner < parent.len(),
        0 <= loser < parent.len(),
        winner != loser,
        parent[winner] == winner,
        parent[loser] == loser,
        p2 == parent.update(loser, winner as usize),
        0 <= i < parent.len(),
    ensures
        root_of(p2, rk2, i) == root_after_link(parent, rank, winner, loser, i),
    decreases 256 - rank[i],
{
    lemma_root_of(parent, rank, i);
    if i == loser {
        assert(p2[winner] == winner);
        assert(root_of(p2, rk2, winner) == winner);
    } else if parent[i] as int != i {
        lemma_link_at(parent, rank, p2, rk2, winner, loser, parent[i] as int);
    }
}

proof fn lemma_link_members_at(
    parent: Seq<usize>,
    rank: Seq<u8>,
    p2: Seq<usize>,
    rk2: Seq<u8>,
    winner: int,
    loser: int,
    r: int,
    k: int,
)
    requires
        forest_wf(parent, rank),
        forest_wf(p2, rk2),
        p2.len() == parent.len(),
        winner != loser,
        forall|i: int|
            0 <= i < parent.len() ==> #[trigger] root_of(p2, rk2, i) == root_after_link(
                parent,
                rank,
                winner,
                loser,
                i,
            ),
        0 <= k <= parent.len(),
    ensures
        r == winner ==> members_below(p2, rk2, r, k) == members_below(parent, rank, winner, k)
            + members_below(parent, rank, loser, k),
        r != winner && r != loser ==> members_below(p2, rk2, r, k) == members_below(
            parent,
            rank,
            r,
            k,
        ),
    decreases k,
{
    if k > 0 {
        lemma_link_members_at(parent, rank, p2, rk2, winner, loser, r, k - 1);
        assert(root_of(p2, rk2, k - 1) == root_after_link(parent, rank, winner, loser, k - 1));
    }
}

/// Linking two distinct roots, the winner having a rank no smaller than the
/// loser's (and bumped by one on a tie), keeps the invariant and merges
/// exactly the two sets.
pub proof fn lemma_link(
    parent: Seq<usize>,
    rank: Seq<u8>,
    winner: int,
    loser: int,
    p2: Seq<usize>,
    rk2: Seq<u8>,
)
    requires
        union_find_wf(parent, rank),
        parent.len() <= usize::MAX,
        0 <= winner < parent.len(),
        0 <= loser < parent.len(),
        winner != loser,
        parent[winner] == winner,
        parent[loser] == loser,
        rank[loser] <= rank[winner],
        p2 == parent.update(loser, winner as usize),
        rank[winner] < 255 ==> rk2 == if rank[winner] == rank[loser] {
            rank.update(winner, (rank[winner] + 1) as u8)
        } else {
            rank
        },
    ensures
        rank[winner] < 64,
        union_find_wf(p2, rk2),
        forall|i: int|
            0 <= i < parent.len() ==> #[trigger] root_of(p2, rk2, i) == root_after_link(
                parent,
                rank,
                winner,
                loser,
                i,
            ),
        set_size(p2, rk2, winner) == set_size(parent, rank, winner) + set_size(parent, rank, loser),
{
    let n = parent.len() as int;
    lemma_root_rank_bound(parent, rank, winner);
    assert(forest_wf(p2, rk2)) by {
        assert forall|i: int| 0 <= i < p2.len() && p2[i] != i implies rk2[i] < rk2[#[trigger] p2[i] as int] by {
            if i != loser {
                assert(p2[i] == parent[i]);
                assert(parent[i] != winner || rank[i] < rank[winner]);
            }
        }
        assert forall|i: int| 0 <= i < p2.len() implies (#[trigger] p2[i]) < p2.len() by {}
    }
    assert forall|i: int| 0 <= i < parent.len() implies #[trigger] root_of(p2, rk2, i) == root_after_link(
        parent,
        rank,
        winner,
        loser,
        i,
    ) by {
        lemma_link_at(parent, rank, p2, rk2, winner, loser, i);
    }
    assert forall|r: int, k: int| 0 <= k <= n implies (r == winner ==> #[trigger] members_below(p2, rk2, r, k)
        == members_below(parent, rank, winner, k) + members_below(parent, rank, loser, k)) && (r
        != winner && r != loser ==> members_below(p2, rk2, r, k) == members_below(
        parent,
        rank,
        r,
        k,
    )) by {
        lemma_link_members_at(parent, rank, p2, rk2, winner, loser, r, k);
    }
    assert(sizes_bound_ranks(p2, rk2)) by {
        assert forall|r: int| 0 <= r < p2.len() && #[trigger] p2[r] == r implies pow2(rk2[r] as nat)
            <= set_size(p2, rk2, r) by {
            assert(r != loser);
            assert(parent[r] == r);
            if r == winner {
                assert(set_size(p2, rk2, r) == set_size(parent, rank, winner) + set_size(
                    parent,
                    rank,
                    loser,
                ));
                if rank[winner] == rank[loser] {
                    vstd::arithmetic::power2::lemma_pow2_unfold(rk2[r] as nat);
                }
            } else {
                assert(set_size(p2, rk2, r) == set_size(parent, rank, r));
            }
        }
    }
}

/// The rank of a root is below 64: its set has at least 2^rank elements,
/// and there are fewer than 2^64 elements.
pub proof fn lemma_root_rank_bound(parent: Seq<usize>, rank: Seq<u8>, r: int)
    requires
        union_find_wf(parent, rank),
        parent.len() <= usize::MAX,
        0 <= r < parent.len(),
        parent[r] == r,
    ensures
        rank[r] < 64,
{
    let n = parent.len() as int;
    lemma_members_bounded(parent, rank, r, n);
    if rank[r] >= 64 {
        lemma2_to64();
        if rank[r] > 64 {
            lemma_pow2_strictly_increases(64, rank[r] as nat);
        }
        assert(pow2(rank[r] as nat) <= n);
        assert(false);
    }
}

/// The forest of singletons satisfies the invariant and every element is
/// its own representative.
pub proof fn lemma_singletons(parent: Seq<usize>, rank: Seq<u8>)
    requires
        singletons(parent, rank),
    ensures
        union_find_wf(parent, rank),
        forall|i: int| 0 <= i < parent.len() ==> #[trigger] root_of(parent, rank, i) == i,
{
    assert forall|i: int| 0 <= i < parent.len() implies #[trigger] root_of(parent, rank, i) == i by {
        assert(parent[i] == i);
    }
    assert forall|r: int| 0 <= r < parent.len() && #[trigger] parent[r] == r implies pow2(rank[r] as nat)
        <= set_size(parent, rank, r) by {
        lemma_singleton_members(parent, rank, r, parent.len() as int);
        assert(rank[r] == 0);
        vstd::arithmetic::power::lemma_pow0(2);
    }
}

proof fn lemma_singleton_members(parent: Seq<usize>, rank: Seq<u8>, r: int, k: int)
    requires
        singletons(parent, rank),
        0 <= r < k <= parent.len(),
    ensures
        members_below(parent, rank, r, k) >= 1,
    decreases k,
{
    assert(parent[k - 1] == k - 1);
    assert(root_of(parent, rank, k - 1) == k - 1);
    if r < k - 1 {
        lemma_singleton_members(parent, rank, r, k - 1);
    }
}

} // verus!
