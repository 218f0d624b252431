use vstd::prelude::*;
use crate::fixed_func::dsu::{build_dual_graph, dual_edges_before, lemma_dual_edges_in_range, DualEdge};
use crate::fixed_func::topology::WeldedVertex;
use crate::fixed_func::welding::{
    first_occurrence, first_occurrences_before, lemma_first_occurrences_bounded, numbered_by_first_appearance,
};
use std::collections::HashMap;
use crate::union_find::{
    forest_wf, lemma_compress_forest, lemma_link, lemma_members_same_roots, lemma_root_of, on_root_path,
    lemma_root_rank_bound, lemma_singletons, root_after_link, root_of, same_set, singletons, union_find_wf,
};

verus! {

/// The root of `x` in the parent forest, pointing every face on the way
/// straight at it. The forest must be acyclic: some rank array grows
/// strictly from every face to its parent.
pub fn union_find_find(parent: &mut [usize], x: usize) -> (root: usize)
    requires
        x < old(parent)@.len(),
        exists|rank: Seq<u8>| forest_wf(old(parent)@, rank),
    ensures
        final(parent)@.len() == old(parent)@.len(),
        final(parent)@[root as int] == root,
        forall|rank: Seq<u8>|
            forest_wf(old(parent)@, rank) ==> {
                &&& forest_wf(final(parent)@, rank)
                &&& root == root_of(old(parent)@, rank, x as int)
                &&& forall|i: int|
                    0 <= i < old(parent)@.len() ==> #[trigger] final(parent)@[i] == if on_root_path(
                        old(parent)@,
                        rank,
                        x as int,
                        i,
                    ) {
                        root
                    } else {
                        old(parent)@[i]
                    }
                &&& forall|i: int|
                    0 <= i < old(parent)@.len() ==> #[trigger] root_of(final(parent)@, rank, i)
                        == root_of(old(parent)@, rank, i)
            },
    decreases 256 - (choose|rank: Seq<u8>| forest_wf(old(parent)@, rank))[x as int],
{
    let ghost p0 = parent@;
    let ghost chosen = choose|rank: Seq<u8>| forest_wf(p0, rank);
    if parent[x] == x {
        proof {
            assert forall|rank: Seq<u8>| forest_wf(p0, rank) implies root_of(p0, rank, x as int)
                == x by {
                lemma_root_of(p0, rank, x as int);
            }
        }
        x
    } else {
        let next = parent[x];
        proof {
            assert(chosen[x as int] < chosen[next as int]);
        }
        let r = union_find_find(parent, next);
        let ghost p1 = parent@;
        parent[x] = r;
        proof {
            assert forall|rank: Seq<u8>| forest_wf(p0, rank) implies {
                &&& forest_wf(parent@, rank)
                &&& r == root_of(p0, rank, x as int)
                &&& forall|i: int|
                    0 <= i < p0.len() ==> #[trigger] root_of(parent@, rank, i) == root_of(
                        p0,
                        rank,
                        i,
                    )
            } by {
                lemma_root_of(p0, rank, x as int);
                assert(root_of(p1, rank, x as int) == root_of(p0, rank, x as int));
                lemma_compress_forest(p1, rank, x as int);
                assert(parent@ == p1.update(x as int, root_of(p1, rank, x as int) as usize));
                assert forall|i: int| 0 <= i < p0.len() implies #[trigger] root_of(parent@, rank, i)
                    == root_of(p0, rank, i) by {
                    assert(root_of(p1, rank, i) == root_of(p0, rank, i));
                }
            }
            lemma_root_of(p0, chosen, x as int);
            lemma_root_of(parent@, chosen, x as int);
            assert(root_of(p1, chosen, r as int) == root_of(p0, chosen, r as int));
            lemma_root_of(p0, chosen, r as int);
            lemma_root_of(parent@, chosen, r as int);
        }
        r
    }
}

/// Merges the sets of faces `a` and `b` (union by rank): the root of lower
/// rank is hung below the other, which wins ties when it is `a`'s root.
pub fn union_find_union(parent: &mut [usize], rank: &mut [u8], a: usize, b: usize)
    requires
        union_find_wf(old(parent)@, old(rank)@),
        a < old(parent)@.len(),
        b < old(parent)@.len(),
    ensures
        union_find_wf(final(parent)@, final(rank)@),
        final(parent)@.len() == old(parent)@.len(),
        same_set(final(parent)@, final(rank)@, a as int, b as int),
        forall|i: int, j: int|
            0 <= i < old(parent)@.len() && 0 <= j < old(parent)@.len() ==> (#[trigger] same_set(
                final(parent)@,
                final(rank)@,
                i,
                j,
            ) <==> #[trigger] same_set(old(parent)@, old(rank)@, i, j) || (same_set(
                old(parent)@,
                old(rank)@,
                i,
                a as int,
            ) && same_set(old(parent)@, old(rank)@, j, b as int)) || (same_set(
                old(parent)@,
                old(rank)@,
                i,
                b as int,
            ) && same_set(old(parent)@, old(rank)@, j, a as int))),
        ({
            let r0 = old(rank)@;
            let ra = root_of(old(parent)@, r0, a as int);
            let rb = root_of(old(parent)@, r0, b as int);
            let winner = if r0[ra] < r0[rb] {
                rb
            } else {
                ra
            };
            let loser = if r0[ra] < r0[rb] {
                ra
            } else {
                rb
            };
            &&& ra != rb ==> final(parent)@[loser] == winner
            &&& final(rank)@ == if ra != rb && r0[ra] == r0[rb] {
                r0.update(winner, (r0[winner] + 1) as u8)
            } else {
                r0
            }
            &&& forall|i: int|
                0 <= i < old(parent)@.len() ==> #[trigger] root_of(final(parent)@, final(rank)@, i) == if ra != rb
                    && root_of(old(parent)@, r0, i) == loser {
                    winner
                } else {
                    root_of(old(parent)@, r0, i)
                }
        }),
{
    let ghost p0 = parent@;
    let ghost r0 = rank@;
    let mut root_a = union_find_find(parent, a);
    let ghost pa = parent@;
    proof {
        assert(forest_wf(pa, r0));
    }
    let mut root_b = union_find_find(parent, b);
    let ghost p1 = parent@;
    proof {
        assert forall|i: int| 0 <= i < p0.len() implies #[trigger] root_of(p1, r0, i) == root_of(
            p0,
            r0,
            i,
        ) by {
            assert(root_of(p1, r0, i) == root_of(pa, r0, i));
        }
        lemma_members_same_roots(p0, r0, p1, r0);
        lemma_root_of(p0, r0, a as int);
        lemma_root_of(p0, r0, b as int);
        lemma_root_of(pa, r0, root_a as int);
        assert(root_of(p1, r0, root_a as int) == root_of(pa, r0, root_a as int));
        lemma_root_of(p1, r0, root_a as int);
    }
    if root_a == root_b {
        return;
    }
    if rank[root_a] < rank[root_b] {
        let t = root_a;
        root_a = root_b;
        root_b = t;
    }
    let ghost winner = root_a as int;
    let ghost loser = root_b as int;
    let _n = parent.len();
    parent[root_b] = root_a;
    proof {
        lemma_root_rank_bound(p1, r0, winner);
    }
    if rank[root_a] == rank[root_b] {
        rank[root_a] = rank[root_a] + 1;
    }
    proof {
        lemma_link(p1, r0, winner, loser, parent@, rank@);
        assert forall|i: int| 0 <= i < p0.len() implies #[trigger] root_of(parent@, rank@, i)
            == root_after_link(p1, r0, winner, loser, i) by {}
        assert forall|i: int| 0 <= i < p0.len() implies root_of(p1, r0, i) == #[trigger] root_of(
            p0,
            r0,
            i,
        ) by {}
        assert forall|i: int| 0 <= i < p0.len() implies #[trigger] root_of(parent@, rank@, i) == if root_of(
            p0,
            r0,
            i,
        ) == loser {
            winner
        } else {
            root_of(p0, r0, i)
        } by {
            assert(root_of(p1, r0, i) == root_of(p0, r0, i));
        }
    }
}


/// An edge shared by two faces, with the mesh vertices at its ends.
#[derive(Copy, Clone, Debug, PartialEq, Eq, Structural)]
pub struct SharedEdge {
    pub face_a: usize,
    pub face_b: usize,
    pub vertex_a: u16,
    pub vertex_b: u16,
}

/// The triangles of an indexed triangle list as welded triangles: corner `k`
/// of triangle `t` is vertex `indices[3t + k]` (whole triangles only).
pub open spec fn indexed_triangles(indices: Seq<u16>) -> Seq<[WeldedVertex; 3]> {
    Seq::new(
        indices.len() / 3,
        |t: int|
            [
                WeldedVertex { id: indices[3 * t] as usize },
                WeldedVertex { id: indices[3 * t + 1] as usize },
                WeldedVertex { id: indices[3 * t + 2] as usize },
            ],
    )
}

/// A dual edge as the faces and the mesh vertices of the edge they share.
pub open spec fn shared_edge_of(e: DualEdge) -> SharedEdge {
    SharedEdge {
        face_a: e.triangle_a,
        face_b: e.triangle_b,
        vertex_a: e.welded_edge.vertex_a.id as u16,
        vertex_b: e.welded_edge.vertex_b.id as u16,
    }
}

/// The edges that the faces of an indexed triangle list share, in the order
/// of the scan (triangle by triangle, AB, BC, CA): every edge seen before is
/// shared between the face that first had it and the current one (see
/// `dual_edges_before`); the edge's vertices come lesser first.
pub open spec fn shared_edges_of(indices: Seq<u16>) -> Seq<SharedEdge> {
    dual_edges_before(indexed_triangles(indices), 3 * indexed_triangles(indices).len()).map_values(
        |e: DualEdge| shared_edge_of(e),
    )
}

/// Every shared edge joins two faces of the list.
pub proof fn lemma_shared_edge_faces(indices: Seq<u16>)
    ensures
        forall|i: int|
            0 <= i < shared_edges_of(indices).len() ==> (#[trigger] shared_edges_of(indices)[i]).face_a < indices.len() / 3
                && shared_edges_of(indices)[i].face_b < indices.len() / 3,
{
    let tris = indexed_triangles(indices);
    lemma_dual_edges_in_range(tris, 3 * tris.len());
    assert forall|i: int| 0 <= i < shared_edges_of(indices).len() implies (#[trigger] shared_edges_of(indices)[i]).face_a
        < indices.len() / 3 && shared_edges_of(indices)[i].face_b < indices.len() / 3 by {
        assert(dual_edges_before(tris, 3 * tris.len())[i].triangle_a < tris.len());
    }
}

/// The shared edges of an indexed triangle list (see `shared_edges_of`).
pub fn find_shared_edges(indices: &[u16]) -> (shared_edges: Vec<SharedEdge>)
    ensures
        shared_edges@ == shared_edges_of(indices@),
{
    let ghost tris = indexed_triangles(indices@);
    let triangle_count = indices.len() / 3;
    let mut triangles: Vec<[WeldedVertex; 3]> = Vec::new();
    let mut t: usize = 0;
    while t < triangle_count
        invariant
            triangle_count == indices@.len() / 3,
            tris == indexed_triangles(indices@),
            t <= triangle_count,
            triangles@ == tris.take(t as int),
        decreases triangle_count - t,
    {
        proof {
            let len = indices.len();
            assert(3 * t + 3 <= len) by (nonlinear_arith)
                requires
                    t < len / 3,
            ;
        }
        let base = t * 3;
        let triangle = [
            WeldedVertex { id: indices[base] as usize },
            WeldedVertex { id: indices[base + 1] as usize },
            WeldedVertex { id: indices[base + 2] as usize },
        ];
        proof {
            assert(triangle == tris[t as int]);
        }
        triangles.push(triangle);
        proof {
            assert(triangles@ =~= tris.take(t + 1));
        }
        t += 1;
    }
    proof {
        assert(triangles@ =~= tris);
    }
    let dual_graph = build_dual_graph(triangles.as_slice());
    let ghost pairs = dual_graph@;
    let mut shared_edges: Vec<SharedEdge> = Vec::new();
    let mut k: usize = 0;
    while k < dual_graph.len()
        invariant
            pairs == dual_graph@,
            k <= pairs.len(),
            shared_edges@ == pairs.take(k as int).map_values(|e: DualEdge| shared_edge_of(e)),
        decreases pairs.len() - k,
    {
        let e = dual_graph[k];
        shared_edges.push(
            SharedEdge {
                face_a: e.triangle_a,
                face_b: e.triangle_b,
                vertex_a: e.welded_edge.vertex_a.id as u16,
                vertex_b: e.welded_edge.vertex_b.id as u16,
            },
        );
        proof {
            assert(shared_edges@ =~= pairs.take(k + 1).map_values(|e: DualEdge| shared_edge_of(e)));
        }
        k += 1;
    }
    proof {
        assert(pairs.take(pairs.len() as int) =~= pairs);
    }
    shared_edges
}

/// Faces `x` and `y` are joined by the uncut edges among the first `k`.
pub open spec fn charts_connected(edges: Seq<SharedEdge>, cut: Seq<bool>, k: nat, x: int, y: int) -> bool
    decreases k,
{
    if k == 0 {
        x == y
    } else {
        let e = edges[k - 1];
        let a = e.face_a as int;
        let b = e.face_b as int;
        ||| charts_connected(edges, cut, (k - 1) as nat, x, y)
        ||| !cut[k - 1] && charts_connected(edges, cut, (k - 1) as nat, x, a) && charts_connected(
            edges,
            cut,
            (k - 1) as nat,
            y,
            b,
        )
        ||| !cut[k - 1] && charts_connected(edges, cut, (k - 1) as nat, x, b) && charts_connected(
            edges,
            cut,
            (k - 1) as nat,
            y,
            a,
        )
    }
}

/// The parent link of every face after the first `k` edges: an uncut edge
/// that joins two charts links its `face_b` to its `face_a` (replacing an
/// earlier link of `face_b`).
pub open spec fn chart_links(edges: Seq<SharedEdge>, cut: Seq<bool>, face_count: nat, k: nat) -> Seq<
    Option<(usize, u16, u16)>,
>
    decreases k,
{
    if k == 0 {
        Seq::new(face_count, |i: int| None)
    } else {
        let e = edges[k - 1];
        let earlier = chart_links(edges, cut, face_count, (k - 1) as nat);
        if !cut[k - 1] && !charts_connected(edges, cut, (k - 1) as nat, e.face_a as int, e.face_b as int) {
            earlier.update(e.face_b as int, Some((e.face_a, e.vertex_a, e.vertex_b)))
        } else {
            earlier
        }
    }
}

/// Parent links never close a cycle: some depth drops from every linked
/// face to its parent.
pub open spec fn links_acyclic(links: Seq<Option<(usize, u16, u16)>>) -> bool {
    exists|depth: Seq<nat>|
        depth.len() == links.len() && forall|x: int|
            0 <= x < links.len() && #[trigger] links[x] is Some ==> depth[links[x].unwrap().0 as int]
                < depth[x]
}

/// The faces linked to `parent`, in increasing order.
pub open spec fn linked_children(links: Seq<Option<(usize, u16, u16)>>, parent: int, k: int) -> Seq<usize>
    decreases k,
{
    if k <= 0 {
        seq![]
    } else {
        let earlier = linked_children(links, parent, k - 1);
        if links[k - 1] matches Some(l) && l.0 == parent {
            earlier.push((k - 1) as usize)
        } else {
            earlier
        }
    }
}

/// The charts of an unfolding: the faces joined by the uncut shared edges,
/// as a forest of parent links (see `chart_links`), which faces are chart
/// roots (those without a link) and each face's linked children.
#[verifier::spinoff_prover]
pub fn build_chart_forest(triangle_count: usize, shared_edges: &[SharedEdge], cut: &[bool]) -> (forest: (
    Vec<Option<(usize, u16, u16)>>,
    Vec<bool>,
    Vec<Vec<usize>>,
))
    requires
        cut@.len() == shared_edges@.len(),
        forall|i: int|
            0 <= i < shared_edges@.len() ==> (#[trigger] shared_edges@[i]).face_a < triangle_count
                && shared_edges@[i].face_b < triangle_count,
    ensures
        forest.0@ == chart_links(shared_edges@, cut@, triangle_count as nat, shared_edges@.len() as nat),
        forest.1@.len() == triangle_count,
        forall|x: int| 0 <= x < triangle_count ==> (#[trigger] forest.1@[x] <==> forest.0@[x] is None),
        forest.2@.len() == triangle_count,
        forall|p: int| 0 <= p < triangle_count ==> (#[trigger] forest.2@[p])@ == linked_children(forest.0@, p, triangle_count as int),
        links_acyclic(forest.0@),
        forall|x: int| 0 <= x < triangle_count && #[trigger] forest.0@[x] is Some ==> forest.0@[x].unwrap().0 < triangle_count,
{
    let ghost edges = shared_edges@;
    let ghost cuts = cut@;
    let n = triangle_count;
    let mut parent_edge_for_face: Vec<Option<(usize, u16, u16)>> = Vec::with_capacity(n);
    let mut is_chart_root_face: Vec<bool> = Vec::with_capacity(n);
    let mut union_find_parent: Vec<usize> = Vec::with_capacity(n);
    let mut union_find_rank: Vec<u8> = Vec::with_capacity(n);
    let mut i: usize = 0;
    while i < n
        invariant
            i <= n,
            parent_edge_for_face@.len() == i,
            is_chart_root_face@.len() == i,
            union_find_parent@.len() == i,
            union_find_rank@.len() == i,
            forall|j: int| 0 <= j < i ==> #[trigger] parent_edge_for_face@[j] is None,
            forall|j: int| 0 <= j < i ==> #[trigger] is_chart_root_face@[j],
            forall|j: int| 0 <= j < i ==> #[trigger] union_find_parent@[j] == j && union_find_rank@[j] == 0,
        decreases n - i,
    {
        parent_edge_for_face.push(None);
        is_chart_root_face.push(true);
        union_find_parent.push(i);
        union_find_rank.push(0);
        i += 1;
    }
    let ghost mut depth: Seq<nat> = Seq::new(n as nat, |j: int| 0nat);
    proof {
        assert(singletons(union_find_parent@, union_find_rank@));
        lemma_singletons(union_find_parent@, union_find_rank@);
        assert(parent_edge_for_face@ =~= chart_links(edges, cuts, n as nat, 0));
    }
    let m = shared_edges.len();
    let mut k: usize = 0;
    while k < m
        invariant
            edges == shared_edges@,
            cuts == cut@,
            m == edges.len(),
            cuts.len() == m,
            n == triangle_count,
            k <= m,
            forall|i: int| 0 <= i < m ==> (#[trigger] edges[i]).face_a < n && edges[i].face_b < n,
            union_find_wf(union_find_parent@, union_find_rank@),
            union_find_parent@.len() == n,
            forall|x: int, y: int|
                0 <= x < n && 0 <= y < n ==> (#[trigger] same_set(union_find_parent@, union_find_rank@, x, y)
                    <==> #[trigger] charts_connected(edges, cuts, k as nat, x, y)),
            parent_edge_for_face@ == chart_links(edges, cuts, n as nat, k as nat),
            parent_edge_for_face@.len() == n,
            is_chart_root_face@.len() == n,
            forall|x: int| 0 <= x < n ==> (#[trigger] is_chart_root_face@[x] <==> parent_edge_for_face@[x] is None),
            depth.len() == n,
            forall|x: int|
                0 <= x < n && #[trigger] parent_edge_for_face@[x] is Some ==> {
                    &&& parent_edge_for_face@[x].unwrap().0 < n
                    &&& depth[parent_edge_for_face@[x].unwrap().0 as int] < depth[x]
                    &&& charts_connected(edges, cuts, k as nat, x, parent_edge_for_face@[x].unwrap().0 as int)
                },
        decreases m - k,
    {
        let edge = shared_edges[k];
        let ghost before_links = parent_edge_for_face@;
        let ghost before_depth = depth;
        let ghost kk = k as nat;
        proof {
            assert(edges[k as int] == edge);
        }
        let ghost p0 = union_find_parent@;
        let ghost r0 = union_find_rank@;
        let ghost a = edge.face_a as int;
        let ghost b = edge.face_b as int;
        proof {
            lemma_charts_connected_equivalence(edges, cuts, kk);
            lemma_charts_connected_equivalence(edges, cuts, kk + 1);
        }
        if !cut[k] {
            let root_a = union_find_find(&mut union_find_parent, edge.face_a);
            let ghost p1 = union_find_parent@;
            let root_b = union_find_find(&mut union_find_parent, edge.face_b);
            let ghost p2 = union_find_parent@;
            proof {
                assert(forest_wf(p1, r0));
                assert forall|i: int| 0 <= i < n implies #[trigger] root_of(p2, r0, i) == root_of(p0, r0, i) by {
                    assert(root_of(p2, r0, i) == root_of(p1, r0, i));
                }
                lemma_members_same_roots(p0, r0, p2, r0);
                lemma_root_of(p0, r0, a);
                lemma_root_of(p0, r0, b);
                lemma_root_of(p2, r0, a);
                lemma_root_of(p2, r0, b);
                assert(root_a == root_of(p0, r0, a));
                assert(root_b == root_of(p1, r0, b));
                assert(root_of(p1, r0, b) == root_of(p0, r0, b));
                assert forall|x: int, y: int| 0 <= x < n && 0 <= y < n implies (#[trigger] same_set(p2, r0, x, y)
                    <==> same_set(p0, r0, x, y)) by {}
            }
            if root_a != root_b {
                proof {
                    assert(!same_set(p0, r0, a, b));
                    assert(!charts_connected(edges, cuts, kk, a, b));
                }
                parent_edge_for_face.set(edge.face_b, Some((edge.face_a, edge.vertex_a, edge.vertex_b)));
                is_chart_root_face.set(edge.face_b, false);
                proof {
                    depth = Seq::new(
                        n as nat,
                        |x: int|
                            if charts_connected(edges, cuts, kk, x, b) {
                                before_depth[x] + before_depth[a] + 1
                            } else {
                                before_depth[x]
                            },
                    );
                }
                union_find_union(&mut union_find_parent, &mut union_find_rank, root_a, root_b);
                proof {
                    lemma_root_of(p2, r0, root_a as int);
                    lemma_root_of(p2, r0, root_b as int);
                    assert forall|x: int, y: int| 0 <= x < n && 0 <= y < n implies (#[trigger] same_set(
                        union_find_parent@,
                        union_find_rank@,
                        x,
                        y,
                    ) <==> #[trigger] charts_connected(edges, cuts, kk + 1, x, y)) by {
                        assert(same_set(p2, r0, x, root_a as int) == same_set(p2, r0, x, a));
                        assert(same_set(p2, r0, y, root_b as int) == same_set(p2, r0, y, b));
                        assert(same_set(p2, r0, x, root_b as int) == same_set(p2, r0, x, b));
                        assert(same_set(p2, r0, y, root_a as int) == same_set(p2, r0, y, a));
                        assert(same_set(p2, r0, x, a) == charts_connected(edges, cuts, kk, x, a));
                        assert(same_set(p2, r0, y, b) == charts_connected(edges, cuts, kk, y, b));
                        assert(same_set(p2, r0, x, b) == charts_connected(edges, cuts, kk, x, b));
                        assert(same_set(p2, r0, y, a) == charts_connected(edges, cuts, kk, y, a));
                        assert(same_set(p2, r0, x, y) == charts_connected(edges, cuts, kk, x, y));
                    }
                }
            } else {
                proof {
                    assert(same_set(p0, r0, a, b));
                    assert(charts_connected(edges, cuts, kk, a, b));
                    assert forall|x: int, y: int| 0 <= x < n && 0 <= y < n implies (#[trigger] same_set(
                        union_find_parent@,
                        union_find_rank@,
                        x,
                        y,
                    ) <==> #[trigger] charts_connected(edges, cuts, kk + 1, x, y)) by {
                        assert(same_set(p0, r0, x, y) == charts_connected(edges, cuts, kk, x, y));
                        if charts_connected(edges, cuts, kk, x, a) && charts_connected(edges, cuts, kk, y, b) {
                            assert(charts_connected(edges, cuts, kk, a, y));
                        }
                        if charts_connected(edges, cuts, kk, x, b) && charts_connected(edges, cuts, kk, y, a) {
                            assert(charts_connected(edges, cuts, kk, b, y));
                        }
                    }
                }
            }
        } else {
            proof {
                assert forall|x: int, y: int| 0 <= x < n && 0 <= y < n implies (#[trigger] same_set(
                    union_find_parent@,
                    union_find_rank@,
                    x,
                    y,
                ) <==> #[trigger] charts_connected(edges, cuts, kk + 1, x, y)) by {
                    assert(same_set(p0, r0, x, y) == charts_connected(edges, cuts, kk, x, y));
                }
            }
        }
        proof {
            lemma_chart_step(edges, cuts, n as nat, kk, before_links, parent_edge_for_face@, before_depth, depth);
        }
        k += 1;
    }
    let mut children_faces_per_face: Vec<Vec<usize>> = Vec::with_capacity(n);
    let mut p: usize = 0;
    while p < n
        invariant
            p <= n,
            children_faces_per_face@.len() == p,
            forall|q: int| 0 <= q < p ==> (#[trigger] children_faces_per_face@[q])@ == Seq::<usize>::empty(),
        decreases n - p,
    {
        children_faces_per_face.push(Vec::new());
        p += 1;
    }
    let ghost links = parent_edge_for_face@;
    let mut face_index: usize = 0;
    while face_index < n
        invariant
            links == parent_edge_for_face@,
            links.len() == n,
            face_index <= n,
            children_faces_per_face@.len() == n,
            forall|x: int| 0 <= x < n && #[trigger] links[x] is Some ==> links[x].unwrap().0 < n,
            forall|q: int|
                0 <= q < n ==> (#[trigger] children_faces_per_face@[q])@ == linked_children(links, q, face_index as int),
        decreases n - face_index,
    {
        match parent_edge_for_face[face_index] {
            Some((parent_face, _, _)) => {
                let ghost before = children_faces_per_face@;
                let mut list = Vec::new();
                std::mem::swap(&mut list, &mut children_faces_per_face[parent_face]);
                list.push(face_index);
                children_faces_per_face.set(parent_face, list);
                proof {
                    assert forall|q: int| 0 <= q < n implies (#[trigger] children_faces_per_face@[q])@
                        == linked_children(links, q, face_index + 1) by {
                        if q != parent_face {
                            assert(children_faces_per_face@[q] == before[q]);
                        }
                    }
                }
            },
            None => {},
        }
        face_index += 1;
    }
    proof {
        assert(links_acyclic(links)) by {
            assert(depth.len() == links.len());
        }
    }
    (parent_edge_for_face, is_chart_root_face, children_faces_per_face)
}

/// One more edge keeps the links inside the charts, the depths dropping
/// along the links and the links equal to `chart_links`.
proof fn lemma_chart_step(
    edges: Seq<SharedEdge>,
    cuts: Seq<bool>,
    n: nat,
    k: nat,
    before_links: Seq<Option<(usize, u16, u16)>>,
    after_links: Seq<Option<(usize, u16, u16)>>,
    before_depth: Seq<nat>,
    after_depth: Seq<nat>,
)
    requires
        k < edges.len(),
        cuts.len() == edges.len(),
        edges[k as int].face_a < n,
        edges[k as int].face_b < n,
        before_links == chart_links(edges, cuts, n, k),
        before_links.len() == n,
        before_depth.len() == n,
        forall|x: int|
            0 <= x < n && #[trigger] before_links[x] is Some ==> {
                &&& before_links[x].unwrap().0 < n
                &&& before_depth[before_links[x].unwrap().0 as int] < before_depth[x]
                &&& charts_connected(edges, cuts, k, x, before_links[x].unwrap().0 as int)
            },
        ({
            let e = edges[k as int];
            if !cuts[k as int] && !charts_connected(edges, cuts, k, e.face_a as int, e.face_b as int) {
                &&& after_links == before_links.update(e.face_b as int, Some((e.face_a, e.vertex_a, e.vertex_b)))
                &&& after_depth == Seq::new(
                    n,
                    |x: int|
                        if charts_connected(edges, cuts, k, x, e.face_b as int) {
                            before_depth[x] + before_depth[e.face_a as int] + 1
                        } else {
                            before_depth[x]
                        },
                )
            } else {
                after_links == before_links && after_depth == before_depth
            }
        }),
    ensures
        after_links == chart_links(edges, cuts, n, k + 1),
        after_links.len() == n,
        after_depth.len() == n,
        forall|x: int|
            0 <= x < n && #[trigger] after_links[x] is Some ==> {
                &&& after_links[x].unwrap().0 < n
                &&& after_depth[after_links[x].unwrap().0 as int] < after_depth[x]
                &&& charts_connected(edges, cuts, k + 1, x, after_links[x].unwrap().0 as int)
            },
{
    let e = edges[k as int];
    let a = e.face_a as int;
    let b = e.face_b as int;
    assert forall|x: int| 0 <= x < n && #[trigger] after_links[x] is Some implies {
        &&& after_links[x].unwrap().0 < n
        &&& after_depth[after_links[x].unwrap().0 as int] < after_depth[x]
        &&& charts_connected(edges, cuts, k + 1, x, after_links[x].unwrap().0 as int)
    } by {
        let y = after_links[x].unwrap().0 as int;
        if !cuts[k as int] && !charts_connected(edges, cuts, k, a, b) {
            if x == b {
                assert(y == a);
                assert(charts_connected(edges, cuts, k, b, b)) by {
                    lemma_charts_connected_equivalence(edges, cuts, k);
                }
                assert(charts_connected(edges, cuts, k, a, a)) by {
                    lemma_charts_connected_equivalence(edges, cuts, k);
                }
                assert(!charts_connected(edges, cuts, k, a, b));
                assert(!charts_connected(edges, cuts, k, y, b));
            } else {
                assert(after_links[x] == before_links[x]);
                lemma_charts_connected_equivalence(edges, cuts, k);
                assert(charts_connected(edges, cuts, k, x, y));
                if charts_connected(edges, cuts, k, x, b) {
                    assert(charts_connected(edges, cuts, k, y, b));
                } else {
                    assert(!charts_connected(edges, cuts, k, y, b));
                }
            }
        } else {
            assert(charts_connected(edges, cuts, k, x, y));
        }
    }
}

/// Connection by the first `k` edges is an equivalence.
proof fn lemma_charts_connected_equivalence(edges: Seq<SharedEdge>, cuts: Seq<bool>, k: nat)
    ensures
        forall|x: int| #[trigger] charts_connected(edges, cuts, k, x, x),
        forall|x: int, y: int|
            #[trigger] charts_connected(edges, cuts, k, x, y) ==> charts_connected(edges, cuts, k, y, x),
        forall|x: int, y: int, z: int|
            #[trigger] charts_connected(edges, cuts, k, x, y) && #[trigger] charts_connected(edges, cuts, k, y, z)
                ==> charts_connected(edges, cuts, k, x, z),
    decreases k,
{
    if k > 0 {
        let j = (k - 1) as nat;
        lemma_charts_connected_equivalence(edges, cuts, j);
        let a = edges[j as int].face_a as int;
        let b = edges[j as int].face_b as int;
        assert forall|x: int| #[trigger] charts_connected(edges, cuts, k, x, x) by {
            assert(charts_connected(edges, cuts, j, x, x));
        }
        assert forall|x: int, y: int|
            #[trigger] charts_connected(edges, cuts, k, x, y) implies charts_connected(edges, cuts, k, y, x) by {
            if charts_connected(edges, cuts, j, x, y) {
                assert(charts_connected(edges, cuts, j, y, x));
            }
        }
        assert forall|x: int, y: int, z: int|
            #[trigger] charts_connected(edges, cuts, k, x, y) && #[trigger] charts_connected(edges, cuts, k, y, z)
                implies charts_connected(edges, cuts, k, x, z) by {
            if charts_connected(edges, cuts, j, x, y) && charts_connected(edges, cuts, j, y, z) {
                assert(charts_connected(edges, cuts, j, x, z));
            } else if charts_connected(edges, cuts, j, x, y) {
                if charts_connected(edges, cuts, j, y, a) {
                    assert(charts_connected(edges, cuts, j, x, a));
                }
                if charts_connected(edges, cuts, j, y, b) {
                    assert(charts_connected(edges, cuts, j, x, b));
                }
            } else if charts_connected(edges, cuts, j, y, z) {
                if charts_connected(edges, cuts, j, y, a) {
                    assert(charts_connected(edges, cuts, j, z, a));
                }
                if charts_connected(edges, cuts, j, y, b) {
                    assert(charts_connected(edges, cuts, j, z, b));
                }
            } else {
                let xa = charts_connected(edges, cuts, j, x, a);
                let xb = charts_connected(edges, cuts, j, x, b);
                let ya = charts_connected(edges, cuts, j, y, a);
                let yb = charts_connected(edges, cuts, j, y, b);
                let za = charts_connected(edges, cuts, j, z, a);
                let zb = charts_connected(edges, cuts, j, z, b);
                if ya && yb {
                    assert(charts_connected(edges, cuts, j, a, y));
                    assert(charts_connected(edges, cuts, j, a, b));
                    assert(charts_connected(edges, cuts, j, b, a));
                    if xa {
                        assert(charts_connected(edges, cuts, j, x, b));
                    }
                    if za {
                        assert(charts_connected(edges, cuts, j, z, b));
                    }
                    assert(charts_connected(edges, cuts, j, b, z));
                    assert(charts_connected(edges, cuts, j, x, z));
                } else if ya {
                    assert(xb && zb);
                    assert(charts_connected(edges, cuts, j, b, z));
                } else {
                    assert(xa && za);
                    assert(charts_connected(edges, cuts, j, a, z));
                }
            }
        }
    }
}


/// The face reached from `x` by following at most `k` parent links.
pub open spec fn follow_links(links: Seq<Option<(usize, u16, u16)>>, x: int, k: nat) -> int
    decreases k,
{
    if k == 0 {
        x
    } else {
        match links[x] {
            Some(l) => follow_links(links, l.0 as int, (k - 1) as nat),
            None => x,
        }
    }
}

proof fn lemma_follow_one_more(links: Seq<Option<(usize, u16, u16)>>, x: int, k: nat)
    requires
        links[follow_links(links, x, k)] is Some,
    ensures
        follow_links(links, x, k + 1) == links[follow_links(links, x, k)].unwrap().0 as int,
    decreases k,
{
    reveal_with_fuel(follow_links, 2);
    if k > 0 {
        if let Some(l) = links[x] {
            lemma_follow_one_more(links, l.0 as int, (k - 1) as nat);
        }
    }
}

/// The chart root of every face: following the parent links from the face
/// ends at a face without a link.
pub fn chart_root_faces(parent_edge_for_face: &[Option<(usize, u16, u16)>], is_chart_root_face: &[bool]) -> (roots: Vec<
    usize,
>)
    requires
        is_chart_root_face@.len() == parent_edge_for_face@.len(),
        forall|x: int|
            0 <= x < parent_edge_for_face@.len() ==> (#[trigger] is_chart_root_face@[x]
                <==> parent_edge_for_face@[x] is None),
        forall|x: int|
            0 <= x < parent_edge_for_face@.len() && #[trigger] parent_edge_for_face@[x] is Some
                ==> parent_edge_for_face@[x].unwrap().0 < parent_edge_for_face@.len(),
        links_acyclic(parent_edge_for_face@),
    ensures
        roots@.len() == parent_edge_for_face@.len(),
        forall|x: int|
            0 <= x < roots@.len() ==> {
                &&& (#[trigger] roots@[x]) < roots@.len()
                &&& parent_edge_for_face@[roots@[x] as int] is None
                &&& exists|k: nat| follow_links(parent_edge_for_face@, x, k) == roots@[x]
            },
{
    let ghost links = parent_edge_for_face@;
    let ghost depth = choose|depth: Seq<nat>|
        depth.len() == links.len() && forall|x: int|
            0 <= x < links.len() && #[trigger] links[x] is Some ==> depth[links[x].unwrap().0 as int] < depth[x];
    let n = parent_edge_for_face.len();
    let mut roots: Vec<usize> = Vec::with_capacity(n);
    let mut i: usize = 0;
    while i < n
        invariant
            links == parent_edge_for_face@,
            n == links.len(),
            is_chart_root_face@.len() == n,
            forall|x: int| 0 <= x < n ==> (#[trigger] is_chart_root_face@[x] <==> links[x] is None),
            forall|x: int| 0 <= x < n && #[trigger] links[x] is Some ==> links[x].unwrap().0 < n,
            depth.len() == n,
            forall|x: int| 0 <= x < n && #[trigger] links[x] is Some ==> depth[links[x].unwrap().0 as int] < depth[x],
            i <= n,
            roots@.len() == i,
            forall|x: int|
                0 <= x < i ==> {
                    &&& (#[trigger] roots@[x]) < n
                    &&& links[roots@[x] as int] is None
                    &&& exists|k: nat| follow_links(links, x, k) == roots@[x]
                },
        decreases n - i,
    {
        let mut root = i;
        let ghost mut steps: nat = 0;
        while !is_chart_root_face[root]
            invariant
                links == parent_edge_for_face@,
                n == links.len(),
                is_chart_root_face@.len() == n,
                forall|x: int| 0 <= x < n ==> (#[trigger] is_chart_root_face@[x] <==> links[x] is None),
                forall|x: int| 0 <= x < n && #[trigger] links[x] is Some ==> links[x].unwrap().0 < n,
                depth.len() == n,
                forall|x: int| 0 <= x < n && #[trigger] links[x] is Some ==> depth[links[x].unwrap().0 as int] < depth[x],
                i < n,
                root < n,
                follow_links(links, i as int, steps) == root,
            decreases depth[root as int],
        {
            proof {
                lemma_follow_one_more(links, i as int, steps);
                steps = steps + 1;
            }
            root = match parent_edge_for_face[root] {
                Some(link) => link.0,
                None => root,
            };
        }
        roots.push(root);
        i += 1;
    }
    roots
}

/// The key of every corner of the first `triangle_count` triangles in the
/// unfolded mesh: its source vertex and the chart root of its triangle.
pub open spec fn chart_corner_keys(src_indices: Seq<u16>, chart_root_face_of: Seq<usize>) -> Seq<(u16, usize)> {
    Seq::new(3 * chart_root_face_of.len(), |i: int| (src_indices[i], chart_root_face_of[i / 3]))
}

/// The number that keys a (source vertex, chart root) pair in a map.
pub open spec fn chart_corner_number(key: (u16, usize)) -> u128 {
    (key.0 as int * 0x1_0000_0000_0000_0000 + key.1 as int) as u128
}

proof fn lemma_chart_corner_number(key: (u16, usize))
    ensures
        chart_corner_number(key) == key.0 as int * 0x1_0000_0000_0000_0000 + key.1 as int,
{
    let a = key.0 as int;
    let b = key.1 as int;
    assert(0 <= a * 0x1_0000_0000_0000_0000 + b <= 0xffff * 0x1_0000_0000_0000_0000 + 0xffff_ffff_ffff_ffff)
        by (nonlinear_arith)
        requires
            0 <= a <= 0xffff,
            0 <= b <= 0xffff_ffff_ffff_ffff,
    ;
}

proof fn lemma_chart_corner_number_injective(k1: (u16, usize), k2: (u16, usize))
    requires
        chart_corner_number(k1) == chart_corner_number(k2),
    ensures
        k1 == k2,
{
    lemma_chart_corner_number(k1);
    lemma_chart_corner_number(k2);
    let a1 = k1.0 as int;
    let b1 = k1.1 as int;
    let a2 = k2.0 as int;
    let b2 = k2.1 as int;
    assert(a1 == a2 && b1 == b2) by (nonlinear_arith)
        requires
            a1 * 0x1_0000_0000_0000_0000 + b1 == a2 * 0x1_0000_0000_0000_0000 + b2,
            0 <= b1 <= 0xffff_ffff_ffff_ffff,
            0 <= b2 <= 0xffff_ffff_ffff_ffff,
            0 <= a1,
            0 <= a2,
    ;
}

/// The vertices of the unfolded mesh: a corner gets a new vertex the first
/// time its (source vertex, chart root) pair comes up, and the vertex of
/// that pair after that. The result holds each corner's vertex number (see
/// `numbered_by_first_appearance`; the mesh stores it as a `u16`) and, for
/// every new vertex, the corner that created it.
pub fn number_chart_vertices(src_indices: &[u16], chart_root_face_of: &[usize]) -> (numbering: (Vec<u32>, Vec<usize>))
    requires
        src_indices@.len() >= 3 * chart_root_face_of@.len(),
        3 * chart_root_face_of@.len() <= u32::MAX,
    ensures
        numbered_by_first_appearance(chart_corner_keys(src_indices@, chart_root_face_of@), numbering.0@),
        numbering.1@.len() == first_occurrences_before(
            chart_corner_keys(src_indices@, chart_root_face_of@),
            3 * chart_root_face_of@.len() as nat,
        ),
        forall|v: int|
            0 <= v < numbering.1@.len() ==> {
                &&& #[trigger] numbering.1@[v] < 3 * chart_root_face_of@.len()
                &&& first_occurrence(chart_corner_keys(src_indices@, chart_root_face_of@), numbering.1@[v] as int)
                &&& numbering.0@[numbering.1@[v] as int] == v
            },
{
    broadcast use vstd::std_specs::hash::group_hash_axioms;

    let ghost items = chart_corner_keys(src_indices@, chart_root_face_of@);
    let n = 3 * chart_root_face_of.len();
    let mut map: HashMap<u128, u32> = HashMap::new();
    let mut next_id: u32 = 0;
    let mut ids: Vec<u32> = Vec::with_capacity(n);
    let mut first_corners: Vec<usize> = Vec::new();
    let mut i: usize = 0;
    while i < n
        invariant
            items == chart_corner_keys(src_indices@, chart_root_face_of@),
            n == items.len(),
            n == 3 * chart_root_face_of@.len(),
            src_indices@.len() >= n,
            n <= u32::MAX,
            i <= n,
            ids@.len() == i,
            next_id == first_occurrences_before(items, i as nat),
            first_corners@.len() == next_id,
            forall|v: int|
                0 <= v < next_id ==> {
                    &&& #[trigger] first_corners@[v] < i
                    &&& first_occurrence(items, first_corners@[v] as int)
                    &&& ids@[first_corners@[v] as int] == v
                },
            forall|k: u128| #[trigger]
                map@.contains_key(k) <==> exists|j: int| 0 <= j < i && chart_corner_number(items[j]) == k,
            forall|j: int| 0 <= j < i ==> map@[#[trigger] chart_corner_number(items[j])] == ids@[j],
            forall|j: int| 0 <= j < i ==> #[trigger] ids@[j] < next_id,
            forall|j1: int, j2: int|
                0 <= j1 < i && 0 <= j2 < i ==> (ids@[j1] == ids@[j2] <==> items[j1] == items[j2]),
            forall|j: int|
                0 <= j < i && #[trigger] first_occurrence(items, j) ==> ids@[j] == first_occurrences_before(
                    items,
                    j as nat,
                ),
        decreases n - i,
    {
        proof {
            lemma_first_occurrences_bounded(items, i as nat);
        }
        let key_pair = (src_indices[i], chart_root_face_of[i / 3]);
        proof {
            assert(items[i as int] == key_pair);
            lemma_chart_corner_number(key_pair);
        }
        let key = key_pair.0 as u128 * 0x1_0000_0000_0000_0000 + key_pair.1 as u128;
        let ghost before = ids@;
        match map.get(&key) {
            Some(id) => {
                let id = *id;
                proof {
                    let j = choose|j: int| 0 <= j < i && chart_corner_number(items[j]) == key;
                    lemma_chart_corner_number_injective(items[j], items[i as int]);
                    assert(!first_occurrence(items, i as int));
                    assert(map@[chart_corner_number(items[j])] == before[j]);
                    assert forall|j2: int| 0 <= j2 < i implies (before[j2] == id <==> items[j2] == items[i as int]) by {
                        assert(map@[chart_corner_number(items[j2])] == before[j2]);
                        if before[j2] == id {
                            assert(items[j2] == items[j]);
                        }
                    }
                }
                ids.push(id);
            },
            None => {
                proof {
                    assert forall|j: int| 0 <= j < i implies items[j] != items[i as int] by {
                        if items[j] == items[i as int] {
                            assert(map@.contains_key(chart_corner_number(items[j])));
                        }
                    }
                    assert(first_occurrence(items, i as int));
                }
                map.insert(key, next_id);
                ids.push(next_id);
                first_corners.push(i);
                next_id += 1;
                proof {
                    assert forall|j: int| 0 <= j < i implies map@[#[trigger] chart_corner_number(items[j])]
                        == ids@[j] by {
                        if chart_corner_number(items[j]) == key {
                            lemma_chart_corner_number_injective(items[j], items[i as int]);
                        }
                    }
                }
            },
        }
        proof {
            assert(first_occurrences_before(items, (i + 1) as nat) == first_occurrences_before(items, i as nat)
                + if first_occurrence(items, i as int) {
                1nat
            } else {
                0nat
            });
        }
        i += 1;
    }
    (ids, first_corners)
}

} // verus!
