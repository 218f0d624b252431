use vstd::prelude::*;
use crate::geometry::papercraft::{
    find_shared_edges, lemma_shared_edge_faces, linked_children, links_acyclic, shared_edges_of, SharedEdge,
};
use crate::union_find::{
    lemma_compress, lemma_link, lemma_members_bounded, lemma_members_same_roots, lemma_root_of,
    lemma_root_rank_bound, lemma_singletons, root_after_link, root_of, set_size, singletons,
    union_find_wf,
};

verus! {

/// Union-find over the faces of a mesh that also knows the size of each set.
pub struct DisjointSet {
    parent: Vec<usize>,
    rank: Vec<u8>,
    size: Vec<usize>,
}

impl DisjointSet {
    pub closed spec fn parents(&self) -> Seq<usize> {
        self.parent@
    }

    pub closed spec fn ranks(&self) -> Seq<u8> {
        self.rank@
    }

    pub closed spec fn sizes(&self) -> Seq<usize> {
        self.size@
    }

    pub open spec fn len(&self) -> nat {
        self.parents().len()
    }

    /// The forest is a union-find forest, and each root records the
    /// number of elements of its set.
    pub open spec fn wf(&self) -> bool {
        &&& union_find_wf(self.parents(), self.ranks())
        &&& self.sizes().len() == self.len()
        &&& forall|r: int|
            0 <= r < self.len() && #[trigger] self.parents()[r] == r ==> self.sizes()[r]
                == set_size(self.parents(), self.ranks(), r)
    }

    pub open spec fn representative(&self, i: int) -> int {
        root_of(self.parents(), self.ranks(), i)
    }

    pub open spec fn same_set(&self, i: int, j: int) -> bool {
        self.representative(i) == self.representative(j)
    }

    /// The number of elements in the set of `i`.
    pub open spec fn size_of_set_of(&self, i: int) -> nat {
        set_size(self.parents(), self.ranks(), self.representative(i))
    }

    /// `count` elements, each alone in its own set.
    pub fn new(count: usize) -> (set: Self)
        ensures
            set.wf(),
            set.len() == count,
            forall|i: int| 0 <= i < count ==> #[trigger] set.representative(i) == i,
    {
        let mut parent: Vec<usize> = Vec::new();
        let mut rank: Vec<u8> = Vec::new();
        let mut size: Vec<usize> = Vec::new();
        let mut i: usize = 0;
        while i < count
            invariant
                i <= count,
                parent@.len() == i,
                size@.len() == i,
                singletons(parent@, rank@),
                forall|j: int| 0 <= j < i ==> #[trigger] size@[j] == 1,
            decreases count - i,
        {
            parent.push(i);
            rank.push(0);
            size.push(1);
            i += 1;
        }
        proof {
            lemma_singletons(parent@, rank@);
            assert forall|r: int| 0 <= r < count && #[trigger] parent@[r] == r implies size@[r]
                == set_size(parent@, rank@, r) by {
                lemma_singleton_size(parent@, rank@, r, count as int);
            }
        }
        DisjointSet { parent, rank, size }
    }

    /// The representative of `x`'s set, with path compression.
    pub fn find(&mut self, x: usize) -> (root: usize)
        requires
            old(self).wf(),
            x < old(self).len(),
        ensures
            final(self).wf(),
            final(self).len() == old(self).len(),
            final(self).ranks() == old(self).ranks(),
            root == old(self).representative(x as int),
            final(self).parents()[root as int] == root,
            forall|i: int|
                0 <= i < old(self).len() ==> #[trigger] final(self).representative(i)
                    == old(self).representative(i),
        decreases 256 - old(self).ranks()[x as int],
    {
        proof {
            lemma_root_of(self.parent@, self.rank@, x as int);
        }
        if self.parent[x] == x {
            x
        } else {
            let ghost before = *self;
            let next = self.parent[x];
            let r = self.find(next);
            let ghost after = *self;
            proof {
                assert(after.representative(x as int) == before.representative(x as int));
                assert(after.representative(next as int) == before.representative(next as int));
                lemma_compress(self.parent@, self.rank@, x as int);
            }
            self.parent.set(x, r);
            proof {
                assert forall|i: int| 0 <= i < before.len() implies #[trigger] self.representative(i)
                    == before.representative(i) by {
                    assert(after.representative(i) == before.representative(i));
                }
                lemma_members_same_roots(after.parent@, after.rank@, self.parent@, self.rank@);
                assert forall|q: int| 0 <= q < self.len() && #[trigger] self.parents()[q] == q implies self.sizes()[q]
                    == set_size(self.parents(), self.ranks(), q) by {
                    assert(q != x);
                    assert(after.parents()[q] == q);
                }
                lemma_root_of(self.parent@, self.rank@, x as int);
            }
            r
        }
    }

    /// Merges the sets of `a` and `b`. Returns (winner, loser, winner):
    /// the root that now represents the merged set and the root hung below
    /// it; when the two were already one set, that root three times.
    pub fn union(&mut self, a: usize, b: usize) -> (roots: (usize, usize, usize))
        requires
            old(self).wf(),
            a < old(self).len(),
            b < old(self).len(),
        ensures
            final(self).wf(),
            final(self).len() == old(self).len(),
            final(self).same_set(a as int, b as int),
            roots.0 == roots.2,
            old(self).same_set(a as int, b as int) ==> {
                &&& roots.0 == old(self).representative(a as int)
                &&& roots.1 == roots.0
                &&& forall|i: int|
                    0 <= i < old(self).len() ==> #[trigger] final(self).representative(i)
                        == old(self).representative(i)
            },
            !old(self).same_set(a as int, b as int) ==> {
                let ra = old(self).representative(a as int);
                let rb = old(self).representative(b as int);
                &&& roots.0 == (if old(self).ranks()[ra] < old(self).ranks()[rb] {
                    rb
                } else {
                    ra
                })
                &&& roots.1 == (if old(self).ranks()[ra] < old(self).ranks()[rb] {
                    ra
                } else {
                    rb
                })
                &&& forall|i: int|
                    0 <= i < old(self).len() ==> #[trigger] final(self).representative(i) == if old(self).same_set(i, a as int) || old(self).same_set(i, b as int) {
                        roots.0 as int
                    } else {
                        old(self).representative(i)
                    }
            },
            final(self).size_of_set_of(a as int) == if old(self).same_set(a as int, b as int) {
                old(self).size_of_set_of(a as int)
            } else {
                old(self).size_of_set_of(a as int) + old(self).size_of_set_of(b as int)
            },
    {
        let ghost s0 = *self;
        let ghost p0 = self.parent@;
        let ghost r0 = self.rank@;
        let mut ra = self.find(a);
        let ghost s1 = *self;
        let mut rb = self.find(b);
        let ghost p1 = self.parent@;
        proof {
            assert forall|i: int| 0 <= i < p0.len() implies #[trigger] root_of(p1, r0, i) == root_of(
                p0,
                r0,
                i,
            ) by {
                assert(self.representative(i) == s1.representative(i));
                assert(s1.representative(i) == s0.representative(i));
            }
            lemma_members_same_roots(p0, r0, p1, r0);
            lemma_root_of(p0, r0, a as int);
            lemma_root_of(p0, r0, b as int);
            lemma_root_of(s1.parent@, r0, ra as int);
            assert(self.representative(ra as int) == s1.representative(ra as int));
            lemma_root_of(p1, r0, ra as int);
        }
        if ra == rb {
            return (ra, rb, ra);
        }
        if self.rank[ra] < self.rank[rb] {
            let t = ra;
            ra = rb;
            rb = t;
        }
        let ghost winner = ra as int;
        let ghost loser = rb as int;
        let ghost s2 = *self;
        let _n = self.parent.len();
        self.parent.set(rb, ra);
        proof {
            lemma_root_rank_bound(p1, r0, winner);
        }
        if self.rank[ra] == self.rank[rb] {
            self.rank.set(ra, self.rank[ra] + 1);
        }
        proof {
            lemma_link(p1, r0, winner, loser, self.parent@, self.rank@);
            lemma_members_bounded(self.parent@, self.rank@, winner, p1.len() as int);
            assert(s2.sizes()[winner] == set_size(p1, r0, winner));
            assert(s2.sizes()[loser] == set_size(p1, r0, loser));
        }
        let grown = self.size[ra] + self.size[rb];
        self.size.set(ra, grown);
        proof {
            assert forall|i: int| 0 <= i < p0.len() implies #[trigger] self.representative(i) == (if s0.same_set(
                i,
                a as int,
            ) || s0.same_set(i, b as int) {
                winner
            } else {
                s0.representative(i)
            }) by {
                assert(root_of(p1, r0, i) == root_of(p0, r0, i));
                assert(root_of(self.parent@, self.rank@, i) == root_after_link(
                    p1,
                    r0,
                    winner,
                    loser,
                    i,
                ));
            }
            assert forall|q: int| 0 <= q < self.len() && #[trigger] self.parents()[q] == q implies self.sizes()[q]
                == set_size(self.parents(), self.ranks(), q) by {
                assert(q != loser);
                assert(p1[q] == q);
                lemma_root_of(p1, r0, q);
                if q != winner {
                    assert(root_of(self.parent@, self.rank@, q) == root_after_link(
                        p1,
                        r0,
                        winner,
                        loser,
                        q,
                    ));
                    lemma_link_other_size(p1, r0, self.parent@, self.rank@, winner, loser, q);
                }
            }
        }
        (ra, rb, ra)
    }

    /// The number of elements in the set of `x`.
    pub fn component_size(&mut self, x: usize) -> (count: usize)
        requires
            old(self).wf(),
            x < old(self).len(),
        ensures
            final(self).wf(),
            final(self).len() == old(self).len(),
            forall|i: int|
                0 <= i < old(self).len() ==> #[trigger] final(self).representative(i)
                    == old(self).representative(i),
            count == old(self).size_of_set_of(x as int),
    {
        let ghost s0 = *self;
        let r = self.find(x);
        proof {
            assert forall|i: int| 0 <= i < s0.len() implies #[trigger] root_of(self.parent@, self.rank@, i)
                == root_of(s0.parent@, s0.rank@, i) by {
                assert(self.representative(i) == s0.representative(i));
            }
            lemma_members_same_roots(s0.parent@, s0.rank@, self.parent@, self.rank@);
            lemma_root_of(s0.parent@, s0.rank@, x as int);
        }
        self.size[r]
    }
}

proof fn lemma_singleton_size(parent: Seq<usize>, rank: Seq<u8>, r: int, k: int)
    requires
        singletons(parent, rank),
        0 <= r < parent.len(),
        0 <= k <= parent.len(),
    ensures
        crate::union_find::members_below(parent, rank, r, k) == if r < k {
            1nat
        } else {
            0nat
        },
    decreases k,
{
    if k > 0 {
        assert(parent[k - 1] == k - 1);
        assert(root_of(parent, rank, k - 1) == k - 1);
        lemma_singleton_size(parent, rank, r, k - 1);
    }
}

proof fn lemma_link_other_size(
    p1: Seq<usize>,
    r0: Seq<u8>,
    p2: Seq<usize>,
    rk2: Seq<u8>,
    winner: int,
    loser: int,
    q: int,
)
    requires
        union_find_wf(p1, r0),
        union_find_wf(p2, rk2),
        p1.len() == p2.len(),
        winner != loser,
        q != winner,
        q != loser,
        forall|i: int|
            0 <= i < p1.len() ==> #[trigger] root_of(p2, rk2, i) == root_after_link(
                p1,
                r0,
                winner,
                loser,
                i,
            ),
    ensures
        set_size(p2, rk2, q) == set_size(p1, r0, q),
{
    lemma_other_members(p1, r0, p2, rk2, winner, loser, q, p1.len() as int);
}

proof fn lemma_other_members(
    p1: Seq<usize>,
    r0: Seq<u8>,
    p2: Seq<usize>,
    rk2: Seq<u8>,
    winner: int,
    loser: int,
    q: int,
    k: int,
)
    requires
        union_find_wf(p1, r0),
        union_find_wf(p2, rk2),
        p1.len() == p2.len(),
        q != winner,
        q != loser,
        0 <= k <= p1.len(),
        forall|i: int|
            0 <= i < p1.len() ==> #[trigger] root_of(p2, rk2, i) == root_after_link(
                p1,
                r0,
                winner,
                loser,
                i,
            ),
    ensures
        crate::union_find::members_below(p2, rk2, q, k) == crate::union_find::members_below(
            p1,
            r0,
            q,
            k,
        ),
    decreases k,
{
    if k > 0 {
        lemma_other_members(p1, r0, p2, rk2, winner, loser, q, k - 1);
        assert(root_of(p2, rk2, k - 1) == root_after_link(p1, r0, winner, loser, k - 1));
    }
}


/// Faces `x` and `y` are in one patch after the first `k` edges were
/// considered.
pub open spec fn patch_connected(
    edges: Seq<SharedEdge>,
    cut: Seq<bool>,
    limit: Option<usize>,
    n: nat,
    k: nat,
    x: int,
    y: int,
) -> bool
    decreases k, 0nat, 0nat,
{
    if k == 0 {
        x == y
    } else {
        let j = (k - 1) as nat;
        let a = edges[j as int].face_a as int;
        let b = edges[j as int].face_b as int;
        ||| patch_connected(edges, cut, limit, n, j, x, y)
        ||| patch_edge_taken(edges, cut, limit, n, j) && patch_connected(edges, cut, limit, n, j, x, a)
            && patch_connected(edges, cut, limit, n, j, y, b)
        ||| patch_edge_taken(edges, cut, limit, n, j) && patch_connected(edges, cut, limit, n, j, x, b)
            && patch_connected(edges, cut, limit, n, j, y, a)
    }
}

/// The number of faces below `m` in the patch of `x` after `k` edges.
pub open spec fn patch_count(
    edges: Seq<SharedEdge>,
    cut: Seq<bool>,
    limit: Option<usize>,
    n: nat,
    k: nat,
    x: int,
    m: nat,
) -> nat
    decreases k, 1nat, m,
{
    if m == 0 {
        0
    } else {
        patch_count(edges, cut, limit, n, k, x, (m - 1) as nat) + if patch_connected(
            edges,
            cut,
            limit,
            n,
            k,
            x,
            m - 1,
        ) {
            1nat
        } else {
            0nat
        }
    }
}

/// Edge `j` joins two patches: it is not cut, its faces are in different
/// patches, and the joined patch stays within the face limit, if any.
pub open spec fn patch_edge_taken(edges: Seq<SharedEdge>, cut: Seq<bool>, limit: Option<usize>, n: nat, j: nat) -> bool
    decreases j, 2nat, 0nat,
{
    let a = edges[j as int].face_a as int;
    let b = edges[j as int].face_b as int;
    &&& !cut[j as int]
    &&& !patch_connected(edges, cut, limit, n, j, a, b)
    &&& (limit matches Some(max) ==> patch_count(edges, cut, limit, n, j, a, n) + patch_count(
        edges,
        cut,
        limit,
        n,
        j,
        b,
        n,
    ) <= max)
}

/// The parent link of every face after the first `k` edges: a taken edge
/// links its `face_b` to its `face_a` (replacing an earlier link of `face_b`).
pub open spec fn patch_links(edges: Seq<SharedEdge>, cut: Seq<bool>, limit: Option<usize>, n: nat, k: nat) -> Seq<
    Option<(usize, u16, u16)>,
>
    decreases k,
{
    if k == 0 {
        Seq::new(n, |i: int| None)
    } else {
        let j = (k - 1) as nat;
        let e = edges[j as int];
        let earlier = patch_links(edges, cut, limit, n, j);
        if patch_edge_taken(edges, cut, limit, n, j) {
            earlier.update(e.face_b as int, Some((e.face_a, e.vertex_a, e.vertex_b)))
        } else {
            earlier
        }
    }
}

/// Being in one patch is an equivalence.
proof fn lemma_patch_connected_equivalence(
    edges: Seq<SharedEdge>,
    cut: Seq<bool>,
    limit: Option<usize>,
    n: nat,
    k: nat,
)
    ensures
        forall|x: int| #[trigger] patch_connected(edges, cut, limit, n, k, x, x),
        forall|x: int, y: int|
            #[trigger] patch_connected(edges, cut, limit, n, k, x, y) ==> patch_connected(edges, cut, limit, n, k, y, x),
        forall|x: int, y: int, z: int|
            #[trigger] patch_connected(edges, cut, limit, n, k, x, y) && #[trigger] patch_connected(
                edges,
                cut,
                limit,
                n,
                k,
                y,
                z,
            ) ==> patch_connected(edges, cut, limit, n, k, x, z),
    decreases k,
{
    if k > 0 {
        let j = (k - 1) as nat;
        lemma_patch_connected_equivalence(edges, cut, limit, n, j);
        let a = edges[j as int].face_a as int;
        let b = edges[j as int].face_b as int;
        let taken = patch_edge_taken(edges, cut, limit, n, j);
        assert forall|x: int| #[trigger] patch_connected(edges, cut, limit, n, k, x, x) by {
            assert(patch_connected(edges, cut, limit, n, j, x, x));
        }
        assert forall|x: int, y: int|
            #[trigger] patch_connected(edges, cut, limit, n, k, x, y) implies patch_connected(
            edges,
            cut,
            limit,
            n,
            k,
            y,
            x,
        ) by {
            if patch_connected(edges, cut, limit, n, j, x, y) {
                assert(patch_connected(edges, cut, limit, n, j, y, x));
            }
        }
        assert forall|x: int, y: int, z: int|
            #[trigger] patch_connected(edges, cut, limit, n, k, x, y) && #[trigger] patch_connected(
                edges,
                cut,
                limit,
                n,
                k,
                y,
                z,
            ) implies patch_connected(edges, cut, limit, n, k, x, z) by {
            let c = |p: int, q: int| patch_connected(edges, cut, limit, n, j, p, q);
            if c(x, y) && c(y, z) {
                assert(c(x, z));
            } else if c(x, y) {
                if c(y, a) {
                    assert(c(x, a));
                }
                if c(y, b) {
                    assert(c(x, b));
                }
            } else if c(y, z) {
                if c(y, a) {
                    assert(c(z, a));
                }
                if c(y, b) {
                    assert(c(z, b));
                }
            } else {
                let xa = c(x, a);
                let xb = c(x, b);
                let ya = c(y, a);
                let yb = c(y, b);
                let za = c(z, a);
                let zb = c(z, b);
                if ya && yb {
                    assert(c(a, y));
                    assert(c(a, b));
                    assert(c(b, a));
                    if xa {
                        assert(c(x, b));
                    }
                    if za {
                        assert(c(z, b));
                    }
                    assert(c(b, z));
                    assert(c(x, z));
                } else if ya {
                    assert(xb && zb);
                    assert(c(b, z));
                } else {
                    assert(xa && za);
                    assert(c(a, z));
                }
            }
        }
    }
}

/// The patch count matches the members of the set of `x` in a union-find
/// forest whose sets are the patches.
proof fn lemma_patch_count_members(
    edges: Seq<SharedEdge>,
    cut: Seq<bool>,
    limit: Option<usize>,
    n: nat,
    k: nat,
    set: DisjointSet,
    x: int,
    m: nat,
)
    requires
        set.wf(),
        set.len() == n,
        0 <= x < n,
        m <= n,
        forall|p: int, q: int|
            0 <= p < n && 0 <= q < n ==> (#[trigger] set.same_set(p, q) <==> #[trigger] patch_connected(
                edges,
                cut,
                limit,
                n,
                k,
                p,
                q,
            )),
    ensures
        patch_count(edges, cut, limit, n, k, x, m) == crate::union_find::members_below(
            set.parents(),
            set.ranks(),
            set.representative(x),
            m as int,
        ),
    decreases m,
{
    if m > 0 {
        lemma_patch_count_members(edges, cut, limit, n, k, set, x, (m - 1) as nat);
        assert(set.same_set(x, m - 1) == patch_connected(edges, cut, limit, n, k, x, m - 1));
    }
}

/// Two different patches hold at most `m` of the faces below `m` together.
proof fn lemma_patch_counts_disjoint(
    edges: Seq<SharedEdge>,
    cut: Seq<bool>,
    limit: Option<usize>,
    n: nat,
    k: nat,
    a: int,
    b: int,
    m: nat,
)
    requires
        !patch_connected(edges, cut, limit, n, k, a, b),
    ensures
        patch_count(edges, cut, limit, n, k, a, m) + patch_count(edges, cut, limit, n, k, b, m) <= m,
    decreases m,
{
    if m > 0 {
        lemma_patch_counts_disjoint(edges, cut, limit, n, k, a, b, (m - 1) as nat);
        lemma_patch_connected_equivalence(edges, cut, limit, n, k);
        if patch_connected(edges, cut, limit, n, k, a, m - 1) && patch_connected(edges, cut, limit, n, k, b, m - 1) {
            assert(patch_connected(edges, cut, limit, n, k, m - 1, b));
            assert(patch_connected(edges, cut, limit, n, k, a, b));
        }
    }
}


/// Before any edge every face is a patch of its own.
proof fn lemma_patch_count_initial(edges: Seq<SharedEdge>, cut: Seq<bool>, limit: Option<usize>, n: nat, x: int, m: nat)
    ensures
        patch_count(edges, cut, limit, n, 0, x, m) <= 1,
    decreases m,
{
    if m > 0 {
        lemma_patch_count_initial(edges, cut, limit, n, x, (m - 1) as nat);
        if patch_connected(edges, cut, limit, n, 0, x, m - 1) {
            assert(x == m - 1);
            lemma_patch_count_none_below(edges, cut, limit, n, x, (m - 1) as nat);
        }
    }
}

proof fn lemma_patch_count_none_below(edges: Seq<SharedEdge>, cut: Seq<bool>, limit: Option<usize>, n: nat, x: int, m: nat)
    requires
        m <= x,
    ensures
        patch_count(edges, cut, limit, n, 0, x, m) == 0,
    decreases m,
{
    if m > 0 {
        lemma_patch_count_none_below(edges, cut, limit, n, x, (m - 1) as nat);
        assert(!patch_connected(edges, cut, limit, n, 0, x, m - 1));
        assert(patch_count(edges, cut, limit, n, 0, x, m) == patch_count(edges, cut, limit, n, 0, x, (m - 1) as nat));
    }
}

/// How one more edge changes the size of a patch: a taken edge merges the
/// patches of its faces, and every other patch keeps its faces.
proof fn lemma_patch_count_step(
    edges: Seq<SharedEdge>,
    cut: Seq<bool>,
    limit: Option<usize>,
    n: nat,
    j: nat,
    x: int,
    m: nat,
)
    ensures
        ({
            let a = edges[j as int].face_a as int;
            let b = edges[j as int].face_b as int;
            let c = |p: int, q: int| patch_connected(edges, cut, limit, n, j, p, q);
            if patch_edge_taken(edges, cut, limit, n, j) && (c(x, a) || c(x, b)) {
                patch_count(edges, cut, limit, n, j + 1, x, m) == patch_count(edges, cut, limit, n, j, a, m)
                    + patch_count(edges, cut, limit, n, j, b, m)
            } else {
                patch_count(edges, cut, limit, n, j + 1, x, m) == patch_count(edges, cut, limit, n, j, x, m)
            }
        }),
    decreases m,
{
    if m > 0 {
        lemma_patch_count_step(edges, cut, limit, n, j, x, (m - 1) as nat);
        lemma_patch_connected_equivalence(edges, cut, limit, n, j);
        let y = m - 1;
        let k = j + 1;
        let a = edges[j as int].face_a as int;
        let b = edges[j as int].face_b as int;
        let taken = patch_edge_taken(edges, cut, limit, n, j);
        let c = |p: int, q: int| patch_connected(edges, cut, limit, n, j, p, q);
        assert(patch_connected(edges, cut, limit, n, k, x, y) == (c(x, y) || taken && c(x, a) && c(y, b) || taken
            && c(x, b) && c(y, a)));
        let pm = (m - 1) as nat;
        assert(patch_count(edges, cut, limit, n, k, x, m) == patch_count(edges, cut, limit, n, k, x, pm) + if patch_connected(edges, cut, limit, n, k, x, y) { 1nat } else { 0nat });
        assert(patch_count(edges, cut, limit, n, j, x, m) == patch_count(edges, cut, limit, n, j, x, pm) + if c(x, y) { 1nat } else { 0nat });
        assert(patch_count(edges, cut, limit, n, j, a, m) == patch_count(edges, cut, limit, n, j, a, pm) + if c(a, y) { 1nat } else { 0nat });
        assert(patch_count(edges, cut, limit, n, j, b, m) == patch_count(edges, cut, limit, n, j, b, pm) + if c(b, y) { 1nat } else { 0nat });
        if taken && (c(x, a) || c(x, b)) {
            assert(!c(a, b));
            if c(a, y) && c(b, y) {
                assert(c(y, b));
                assert(c(a, b));
            }
            if c(x, a) {
                assert(c(a, x));
                assert(patch_connected(edges, cut, limit, n, k, x, y) == (c(a, y) || c(b, y)));
            } else {
                assert(c(b, x));
                assert(patch_connected(edges, cut, limit, n, k, x, y) == (c(a, y) || c(b, y)));
            }
        } else {
            if taken {
                if c(x, y) && c(y, a) {
                    assert(c(x, a));
                }
                if c(x, y) && c(y, b) {
                    assert(c(x, b));
                }
            }
            assert(patch_connected(edges, cut, limit, n, k, x, y) == c(x, y));
        }
    }
}

/// With a face limit of at least one face, no patch ever holds more faces
/// than the limit: two patches are joined only when their sizes add up to
/// at most the limit.
pub proof fn lemma_patch_size_bound(
    edges: Seq<SharedEdge>,
    cut: Seq<bool>,
    max_faces_in_patch: usize,
    n: nat,
    k: nat,
    x: int,
)
    requires
        max_faces_in_patch >= 1,
    ensures
        patch_count(edges, cut, Some(max_faces_in_patch), n, k, x, n) <= max_faces_in_patch,
    decreases k,
{
    let limit = Some(max_faces_in_patch);
    if k == 0 {
        lemma_patch_count_initial(edges, cut, limit, n, x, n);
    } else {
        let j = (k - 1) as nat;
        let a = edges[j as int].face_a as int;
        let b = edges[j as int].face_b as int;
        lemma_patch_count_step(edges, cut, limit, n, j, x, n);
        lemma_patch_size_bound(edges, cut, max_faces_in_patch, n, j, x);
    }
}

/// One more edge keeps the links inside the patches, the depths dropping
/// along the links and the links equal to `patch_links`.
proof fn lemma_patch_step(
    edges: Seq<SharedEdge>,
    cut: Seq<bool>,
    limit: Option<usize>,
    n: nat,
    k: nat,
    before_links: Seq<Option<(usize, u16, u16)>>,
    after_links: Seq<Option<(usize, u16, u16)>>,
    before_depth: Seq<nat>,
    after_depth: Seq<nat>,
)
    requires
        k < edges.len(),
        edges[k as int].face_a < n,
        edges[k as int].face_b < n,
        before_links == patch_links(edges, cut, limit, n, k),
        before_links.len() == n,
        before_depth.len() == n,
        forall|x: int|
            0 <= x < n && #[trigger] before_links[x] is Some ==> {
                &&& before_links[x].unwrap().0 < n
                &&& before_depth[before_links[x].unwrap().0 as int] < before_depth[x]
                &&& patch_connected(edges, cut, limit, n, k, x, before_links[x].unwrap().0 as int)
            },
        ({
            let e = edges[k as int];
            if patch_edge_taken(edges, cut, limit, n, k) {
                &&& after_links == before_links.update(e.face_b as int, Some((e.face_a, e.vertex_a, e.vertex_b)))
                &&& after_depth == Seq::new(
                    n,
                    |x: int|
                        if patch_connected(edges, cut, limit, n, k, x, e.face_b as int) {
                            before_depth[x] + before_depth[e.face_a as int] + 1
                        } else {
                            before_depth[x]
                        },
                )
            } else {
                after_links == before_links && after_depth == before_depth
            }
        }),
    ensures
        after_links == patch_links(edges, cut, limit, n, k + 1),
        after_links.len() == n,
        after_depth.len() == n,
        forall|x: int|
            0 <= x < n && #[trigger] after_links[x] is Some ==> {
                &&& after_links[x].unwrap().0 < n
                &&& after_depth[after_links[x].unwrap().0 as int] < after_depth[x]
                &&& patch_connected(edges, cut, limit, n, k + 1, x, after_links[x].unwrap().0 as int)
            },
{
    let e = edges[k as int];
    let a = e.face_a as int;
    let b = e.face_b as int;
    lemma_patch_connected_equivalence(edges, cut, limit, n, k);
    assert forall|x: int| 0 <= x < n && #[trigger] after_links[x] is Some implies {
        &&& after_links[x].unwrap().0 < n
        &&& after_depth[after_links[x].unwrap().0 as int] < after_depth[x]
        &&& patch_connected(edges, cut, limit, n, k + 1, x, after_links[x].unwrap().0 as int)
    } by {
        let y = after_links[x].unwrap().0 as int;
        if patch_edge_taken(edges, cut, limit, n, k) {
            if x == b {
                assert(y == a);
                assert(patch_connected(edges, cut, limit, n, k, b, b));
                assert(patch_connected(edges, cut, limit, n, k, a, a));
                assert(!patch_connected(edges, cut, limit, n, k, y, b));
            } else {
                assert(after_links[x] == before_links[x]);
                assert(patch_connected(edges, cut, limit, n, k, x, y));
                if patch_connected(edges, cut, limit, n, k, x, b) {
                    assert(patch_connected(edges, cut, limit, n, k, y, b));
                } else {
                    assert(!patch_connected(edges, cut, limit, n, k, y, b));
                }
            }
        } else {
            assert(patch_connected(edges, cut, limit, n, k, x, y));
        }
    }
}

/// The patches of an unfolding: the faces joined by the uncut shared edges
/// in the given order, where an edge is skipped when its faces are already
/// in one patch or when the joined patch would exceed `max_faces_in_patch`;
/// as a forest of parent links (see `patch_links`), which faces are patch
/// roots and each face's linked children.
pub fn build_patch_forest(
    face_count: usize,
    shared_edges: &[SharedEdge],
    cut: &[bool],
    max_faces_in_patch: Option<usize>,
) -> (forest: (Vec<Option<(usize, u16, u16)>>, Vec<bool>, Vec<Vec<usize>>))
    requires
        cut@.len() == shared_edges@.len(),
        forall|i: int|
            0 <= i < shared_edges@.len() ==> (#[trigger] shared_edges@[i]).face_a < face_count
                && shared_edges@[i].face_b < face_count,
    ensures
        forest.0@ == patch_links(shared_edges@, cut@, max_faces_in_patch, face_count as nat, shared_edges@.len() as nat),
        forest.1@.len() == face_count,
        forall|x: int| 0 <= x < face_count ==> (#[trigger] forest.1@[x] <==> forest.0@[x] is None),
        forest.2@.len() == face_count,
        forall|p: int| 0 <= p < face_count ==> (#[trigger] forest.2@[p])@ == linked_children(forest.0@, p, face_count as int),
        links_acyclic(forest.0@),
        forall|x: int| 0 <= x < face_count && #[trigger] forest.0@[x] is Some ==> forest.0@[x].unwrap().0 < face_count,
{
    let ghost edges = shared_edges@;
    let ghost cuts = cut@;
    let ghost limit = max_faces_in_patch;
    let n = face_count;
    let ghost nn = n as nat;
    let mut dsu = DisjointSet::new(n);
    let mut parent_face: Vec<Option<(usize, u16, u16)>> = Vec::with_capacity(n);
    let mut is_root: Vec<bool> = Vec::with_capacity(n);
    let mut i: usize = 0;
    while i < n
        invariant
            i <= n,
            parent_face@.len() == i,
            is_root@.len() == i,
            forall|j: int| 0 <= j < i ==> #[trigger] parent_face@[j] is None,
            forall|j: int| 0 <= j < i ==> #[trigger] is_root@[j],
        decreases n - i,
    {
        parent_face.push(None);
        is_root.push(true);
        i += 1;
    }
    let ghost mut depth: Seq<nat> = Seq::new(nn, |j: int| 0nat);
    proof {
        assert(parent_face@ =~= patch_links(edges, cuts, limit, nn, 0));
    }
    let m = shared_edges.len();
    let mut k: usize = 0;
    while k < m
        invariant
            edges == shared_edges@,
            cuts == cut@,
            limit == max_faces_in_patch,
            nn == n,
            m == edges.len(),
            cuts.len() == m,
            n == face_count,
            k <= m,
            forall|i: int| 0 <= i < m ==> (#[trigger] edges[i]).face_a < n && edges[i].face_b < n,
            dsu.wf(),
            dsu.len() == n,
            forall|x: int, y: int|
                0 <= x < n && 0 <= y < n ==> (#[trigger] dsu.same_set(x, y) <==> #[trigger] patch_connected(
                    edges,
                    cuts,
                    limit,
                    nn,
                    k as nat,
                    x,
                    y,
                )),
            parent_face@ == patch_links(edges, cuts, limit, nn, k as nat),
            parent_face@.len() == n,
            is_root@.len() == n,
            forall|x: int| 0 <= x < n ==> (#[trigger] is_root@[x] <==> parent_face@[x] is None),
            depth.len() == n,
            forall|x: int|
                0 <= x < n && #[trigger] parent_face@[x] is Some ==> {
                    &&& parent_face@[x].unwrap().0 < n
                    &&& depth[parent_face@[x].unwrap().0 as int] < depth[x]
                    &&& patch_connected(edges, cuts, limit, nn, k as nat, x, parent_face@[x].unwrap().0 as int)
                },
        decreases m - k,
    {
        let edge = shared_edges[k];
        let ghost before_links = parent_face@;
        let ghost before_depth = depth;
        let ghost kk = k as nat;
        let ghost a = edge.face_a as int;
        let ghost b = edge.face_b as int;
        let ghost s0 = dsu;
        proof {
            assert(edges[k as int] == edge);
            lemma_patch_connected_equivalence(edges, cuts, limit, nn, kk);
        }
        let mut taken = false;
        if !cut[k] {
            let comp_a = dsu.find(edge.face_a);
            let comp_b = dsu.find(edge.face_b);
            let ghost s1 = dsu;
            proof {
                assert forall|x: int, y: int| 0 <= x < n && 0 <= y < n implies (#[trigger] dsu.same_set(x, y)
                    <==> s0.same_set(x, y)) by {}
                lemma_root_of(s0.parents(), s0.ranks(), a);
                lemma_root_of(s0.parents(), s0.ranks(), b);
            }
            if comp_a != comp_b {
                proof {
                    assert(!s0.same_set(a, b));
                    assert(!patch_connected(edges, cuts, limit, nn, kk, a, b));
                }
                let within = match max_faces_in_patch {
                    Some(max_faces) => {
                        let size_a = dsu.component_size(comp_a);
                        let ghost s1b = dsu;
                        let size_b = dsu.component_size(comp_b);
                        proof {
                            lemma_root_of(s1.parents(), s1.ranks(), comp_a as int);
                            lemma_root_of(s1.parents(), s1.ranks(), comp_b as int);
                            assert(s1.representative(comp_a as int) == s1.representative(a));
                            assert(s1.representative(comp_b as int) == s1.representative(b));
                            assert(s1b.representative(comp_b as int) == s1.representative(comp_b as int));
                            assert(s1b.representative(b) == s1.representative(b));
                            assert forall|x: int, y: int| 0 <= x < n && 0 <= y < n implies (#[trigger] s1b.same_set(x, y)
                                <==> #[trigger] patch_connected(edges, cuts, limit, nn, kk, x, y)) by {
                                assert(s1b.representative(x) == s1.representative(x));
                                assert(s1b.representative(y) == s1.representative(y));
                                assert(s1.same_set(x, y) == s0.same_set(x, y));
                                assert(s0.same_set(x, y) == patch_connected(edges, cuts, limit, nn, kk, x, y));
                            }
                            lemma_patch_count_members(edges, cuts, limit, nn, kk, s1, a, nn);
                            lemma_patch_count_members(edges, cuts, limit, nn, kk, s1b, b, nn);
                            lemma_patch_counts_disjoint(edges, cuts, limit, nn, kk, a, b, nn);
                            assert(size_a == patch_count(edges, cuts, limit, nn, kk, a, nn));
                            assert(size_b == patch_count(edges, cuts, limit, nn, kk, b, nn));
                        }
                        size_a + size_b <= max_faces
                    },
                    None => true,
                };
                proof {
                    assert(within == patch_edge_taken(edges, cuts, limit, nn, kk));
                }
                if within {
                    let ghost s2 = dsu;
                    proof {
                        assert forall|x: int, y: int| 0 <= x < n && 0 <= y < n implies (#[trigger] s2.same_set(x, y)
                            <==> s0.same_set(x, y)) by {}
                    }
                    parent_face.set(edge.face_b, Some((edge.face_a, edge.vertex_a, edge.vertex_b)));
                    is_root.set(edge.face_b, false);
                    proof {
                        depth = Seq::new(
                            nn,
                            |x: int|
                                if patch_connected(edges, cuts, limit, nn, kk, x, b) {
                                    before_depth[x] + before_depth[a] + 1
                                } else {
                                    before_depth[x]
                                },
                        );
                        lemma_root_of(s2.parents(), s2.ranks(), comp_a as int);
                        lemma_root_of(s2.parents(), s2.ranks(), comp_b as int);
                    }
                    let roots = dsu.union(comp_a, comp_b);
                    proof {
                        let ca = comp_a as int;
                        let cb = comp_b as int;
                        assert(!s2.same_set(ca, cb));
                        assert forall|x: int, y: int| 0 <= x < n && 0 <= y < n implies (#[trigger] dsu.same_set(x, y)
                            <==> #[trigger] patch_connected(edges, cuts, limit, nn, kk + 1, x, y)) by {
                            assert(s2.same_set(x, ca) == s2.same_set(x, a));
                            assert(s2.same_set(y, ca) == s2.same_set(y, a));
                            assert(s2.same_set(x, cb) == s2.same_set(x, b));
                            assert(s2.same_set(y, cb) == s2.same_set(y, b));
                            assert(s2.same_set(x, a) == patch_connected(edges, cuts, limit, nn, kk, x, a));
                            assert(s2.same_set(y, b) == patch_connected(edges, cuts, limit, nn, kk, y, b));
                            assert(s2.same_set(x, b) == patch_connected(edges, cuts, limit, nn, kk, x, b));
                            assert(s2.same_set(y, a) == patch_connected(edges, cuts, limit, nn, kk, y, a));
                            assert(s2.same_set(x, y) == patch_connected(edges, cuts, limit, nn, kk, x, y));
                            lemma_root_of(s2.parents(), s2.ranks(), x);
                            lemma_root_of(s2.parents(), s2.ranks(), y);
                        }
                    }
                    taken = true;
                } else {
                    proof {
                        assert(!patch_edge_taken(edges, cuts, limit, nn, kk));
                    }
                }
            } else {
                proof {
                    assert(s0.same_set(a, b));
                    assert(patch_connected(edges, cuts, limit, nn, kk, a, b));
                    assert(!patch_edge_taken(edges, cuts, limit, nn, kk));
                }
            }
        } else {
            proof {
                assert(!patch_edge_taken(edges, cuts, limit, nn, kk));
            }
        }
        proof {
            if !taken {
                assert(!patch_edge_taken(edges, cuts, limit, nn, kk));
                assert forall|x: int, y: int| 0 <= x < n && 0 <= y < n implies (#[trigger] dsu.same_set(x, y)
                    <==> #[trigger] patch_connected(edges, cuts, limit, nn, kk + 1, x, y)) by {
                    assert(s0.same_set(x, y) == patch_connected(edges, cuts, limit, nn, kk, x, y));
                }
            }
            lemma_patch_step(edges, cuts, limit, nn, kk, before_links, parent_face@, before_depth, depth);
        }
        k += 1;
    }
    let mut children: Vec<Vec<usize>> = Vec::with_capacity(n);
    let mut p: usize = 0;
    while p < n
        invariant
            p <= n,
            children@.len() == p,
            forall|q: int| 0 <= q < p ==> (#[trigger] children@[q])@ == Seq::<usize>::empty(),
        decreases n - p,
    {
        children.push(Vec::new());
        p += 1;
    }
    let ghost links = parent_face@;
    let mut f: usize = 0;
    while f < n
        invariant
            links == parent_face@,
            links.len() == n,
            f <= n,
            children@.len() == n,
            forall|x: int| 0 <= x < n && #[trigger] links[x] is Some ==> links[x].unwrap().0 < n,
            forall|q: int| 0 <= q < n ==> (#[trigger] children@[q])@ == linked_children(links, q, f as int),
        decreases n - f,
    {
        match parent_face[f] {
            Some((parent, _, _)) => {
                let ghost before = children@;
                let mut list = Vec::new();
                std::mem::swap(&mut list, &mut children[parent]);
                list.push(f);
                children.set(parent, list);
                proof {
                    assert forall|q: int| 0 <= q < n implies (#[trigger] children@[q])@ == linked_children(links, q, f + 1) by {
                        if q != parent {
                            assert(children@[q] == before[q]);
                        }
                    }
                }
            },
            None => {},
        }
        f += 1;
    }
    proof {
        assert(links_acyclic(links)) by {
            assert(depth.len() == links.len());
        }
    }
    (parent_face, is_root, children)
}

/// The faces that share an edge with face `f`, over the first `k` shared
/// edges in their order: each shared edge lists its first face with its
/// second, and its second with its first.
pub open spec fn neighbor_list(edges: Seq<SharedEdge>, f: int, k: nat) -> Seq<usize>
    decreases k,
{
    if k == 0 {
        seq![]
    } else {
        let e = edges[k - 1];
        let earlier = neighbor_list(edges, f, (k - 1) as nat);
        let with_a = if e.face_b == f {
            earlier.push(e.face_a)
        } else {
            earlier
        };
        if e.face_a == f {
            with_a.push(e.face_b)
        } else {
            with_a
        }
    }
}

/// The neighbouring faces of every face of an indexed triangle list (see
/// `neighbor_list`, over the shared edges that `find_shared_edges` finds).
pub fn face_neighbor_lists(indices: &[u16]) -> (neighbors: Vec<Vec<usize>>)
    ensures
        neighbors@.len() == indices@.len() / 3,
        forall|f: int|
            0 <= f < neighbors@.len() ==> (#[trigger] neighbors@[f])@ == neighbor_list(
                shared_edges_of(indices@),
                f,
                shared_edges_of(indices@).len(),
            ),
{
    let face_count = indices.len() / 3;
    let shared = find_shared_edges(indices);
    let ghost edges = shared@;
    proof {
        lemma_shared_edge_faces(indices@);
    }
    let mut nbr: Vec<Vec<usize>> = Vec::new();
    let mut f: usize = 0;
    while f < face_count
        invariant
            f <= face_count,
            nbr@.len() == f,
            forall|g: int| 0 <= g < f ==> (#[trigger] nbr@[g])@ == Seq::<usize>::empty(),
        decreases face_count - f,
    {
        nbr.push(Vec::new());
        f += 1;
    }
    let mut k: usize = 0;
    while k < shared.len()
        invariant
            edges == shared@,
            face_count == indices@.len() / 3,
            forall|i: int|
                0 <= i < edges.len() ==> (#[trigger] edges[i]).face_a < face_count && edges[i].face_b < face_count,
            k <= edges.len(),
            nbr@.len() == face_count,
            forall|g: int| 0 <= g < face_count ==> (#[trigger] nbr@[g])@ == neighbor_list(edges, g, k as nat),
        decreases edges.len() - k,
    {
        let e = shared[k];
        let ghost before = nbr@;
        let mut list_b = Vec::new();
        std::mem::swap(&mut list_b, &mut nbr[e.face_b]);
        list_b.push(e.face_a);
        nbr.set(e.face_b, list_b);
        let mut list_a = Vec::new();
        std::mem::swap(&mut list_a, &mut nbr[e.face_a]);
        list_a.push(e.face_b);
        nbr.set(e.face_a, list_a);
        proof {
            assert(edges[k as int] == e);
            assert forall|g: int| 0 <= g < face_count implies (#[trigger] nbr@[g])@ == neighbor_list(edges, g, (k + 1) as nat) by {
                if g != e.face_a && g != e.face_b {
                    assert(nbr@[g] == before[g]);
                }
            }
        }
        k += 1;
    }
    nbr
}

} // verus!
