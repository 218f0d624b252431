use vstd::prelude::*;
use std::collections::{HashMap, HashSet};

verus! {

/// A vertex after welding: every mesh vertex that sits at the same
/// quantized position shares one id.
#[derive(Copy, Clone, Debug, PartialEq, Eq, Structural, Hash)]
pub struct WeldedVertex {
    pub id: usize,
}

/// An undirected edge between two welded vertices, stored with the smaller
/// id first so that both orientations of an edge compare equal.
#[derive(Copy, Clone, Debug, PartialEq, Eq, Structural, Hash)]
pub struct WeldedEdge {
    pub vertex_a: WeldedVertex,
    pub vertex_b: WeldedVertex,
}

impl WeldedEdge {
    /// The canonical (sorted) edge between the two vertices.
    pub open spec fn spec_new(node_a: WeldedVertex, node_b: WeldedVertex) -> WeldedEdge {
        if node_a.id <= node_b.id {
            WeldedEdge { vertex_a: node_a, vertex_b: node_b }
        } else {
            WeldedEdge { vertex_a: node_b, vertex_b: node_a }
        }
    }

    pub fn new(node_a: WeldedVertex, node_b: WeldedVertex) -> (edge: Self)
        ensures
            edge == Self::spec_new(node_a, node_b),
            edge.vertex_a.id <= edge.vertex_b.id,
    {
        if node_a.id <= node_b.id {
            WeldedEdge { vertex_a: node_a, vertex_b: node_b }
        } else {
            WeldedEdge { vertex_a: node_b, vertex_b: node_a }
        }
    }
}

/// The local corner (0, 1 or 2) of a triangle that is not on the given local edge.
pub fn edge_opposing_vertex(edge: (u8, u8)) -> (corner: u8)
    requires
        edge.0 + edge.1 <= 3,
    ensures
        corner == 3 - (edge.0 + edge.1),
{
    3 - (edge.0 + edge.1)
}

/// Two welded vertices are the same vertex exactly when their ids agree.
pub fn welded_eq(a: WeldedVertex, b: WeldedVertex) -> (same: bool)
    ensures
        same == (a.id == b.id),
        same == (a == b),
{
    a.id == b.id
}


/// The welded edge of local edge `i` (0: AB, 1: BC, 2: CA) of triangle `f`.
pub open spec fn corner_edge(triangles: Seq<[WeldedVertex; 3]>, f: int, i: int) -> WeldedEdge {
    WeldedEdge::spec_new(triangles[f][i], triangles[f][(i + 1) % 3])
}

/// The position of local edge `i` of triangle `f` in the scan: triangle by
/// triangle, AB, BC, CA.
pub open spec fn slot(f: int, i: int) -> int {
    3 * f + i
}

pub open spec fn valid_slot(triangles: Seq<[WeldedVertex; 3]>, f: int, i: int) -> bool {
    0 <= f < triangles.len() && 0 <= i < 3
}

/// Slot (g, j) is the first slot with edge `e`.
pub open spec fn first_slot_with(triangles: Seq<[WeldedVertex; 3]>, e: WeldedEdge, g: int, j: int) -> bool {
    &&& valid_slot(triangles, g, j)
    &&& corner_edge(triangles, g, j) == e
    &&& forall|h: int, l: int|
        valid_slot(triangles, h, l) && slot(h, l) < slot(g, j) ==> #[trigger] corner_edge(triangles, h, l) != e
}

/// The number that keys an edge in a map: the two ids side by side in 128 bits.
pub open spec fn edge_number(e: WeldedEdge) -> u128 {
    (e.vertex_a.id as int * 0x1_0000_0000_0000_0000 + e.vertex_b.id as int) as u128
}

proof fn lemma_edge_number(e: WeldedEdge)
    ensures
        edge_number(e) == e.vertex_a.id as int * 0x1_0000_0000_0000_0000 + e.vertex_b.id as int,
{
    let a = e.vertex_a.id as int;
    let b = e.vertex_b.id as int;
    assert(0 <= a * 0x1_0000_0000_0000_0000 + b <= 0xffff_ffff_ffff_ffff * 0x1_0000_0000_0000_0000
        + 0xffff_ffff_ffff_ffff) by (nonlinear_arith)
        requires
            0 <= a <= 0xffff_ffff_ffff_ffff,
            0 <= b <= 0xffff_ffff_ffff_ffff,
    ;
}

pub proof fn lemma_edge_number_injective(e1: WeldedEdge, e2: WeldedEdge)
    requires
        edge_number(e1) == edge_number(e2),
    ensures
        e1 == e2,
{
    lemma_edge_number(e1);
    lemma_edge_number(e2);
    let a1 = e1.vertex_a.id as int;
    let b1 = e1.vertex_b.id as int;
    let a2 = e2.vertex_a.id as int;
    let b2 = e2.vertex_b.id as int;
    assert(a1 == a2 && b1 == b2) by (nonlinear_arith)
        requires
            a1 * 0x1_0000_0000_0000_0000 + b1 == a2 * 0x1_0000_0000_0000_0000 + b2,
            0 <= b1 <= 0xffff_ffff_ffff_ffff,
            0 <= b2 <= 0xffff_ffff_ffff_ffff,
            0 <= a1,
            0 <= a2,
    ;
}

pub fn edge_number_of(e: &WeldedEdge) -> (n: u128)
    ensures
        n == edge_number(*e),
{
    proof {
        lemma_edge_number(*e);
        let a = e.vertex_a.id as int;
        assert(a * 0x1_0000_0000_0000_0000 <= 0xffff_ffff_ffff_ffff * 0x1_0000_0000_0000_0000) by (nonlinear_arith)
            requires
                0 <= a <= 0xffff_ffff_ffff_ffff,
        ;
    }
    e.vertex_a.id as u128 * 0x1_0000_0000_0000_0000 + e.vertex_b.id as u128
}

pub proof fn lemma_first_slot_unique(triangles: Seq<[WeldedVertex; 3]>, e: WeldedEdge, g1: int, j1: int, g2: int, j2: int)
    requires
        first_slot_with(triangles, e, g1, j1),
        first_slot_with(triangles, e, g2, j2),
    ensures
        g1 == g2 && j1 == j2,
{
    if slot(g1, j1) < slot(g2, j2) {
        assert(corner_edge(triangles, g1, j1) != e);
    } else if slot(g2, j2) < slot(g1, j1) {
        assert(corner_edge(triangles, g2, j2) != e);
    }
}

proof fn lemma_last_slot_before_unique(
    triangles: Seq<[WeldedVertex; 3]>,
    e: WeldedEdge,
    g1: int,
    j1: int,
    g2: int,
    j2: int,
    s: int,
)
    requires
        last_slot_before(triangles, e, g1, j1, s),
        last_slot_before(triangles, e, g2, j2, s),
    ensures
        g1 == g2 && j1 == j2,
{
    if slot(g1, j1) < slot(g2, j2) {
        assert(corner_edge(triangles, g2, j2) != e);
    } else if slot(g2, j2) < slot(g1, j1) {
        assert(corner_edge(triangles, g1, j1) != e);
    }
}

/// Slot (g, j) is the last slot before slot number `s` with edge `e`.
pub open spec fn last_slot_before(triangles: Seq<[WeldedVertex; 3]>, e: WeldedEdge, g: int, j: int, s: int) -> bool {
    &&& valid_slot(triangles, g, j)
    &&& slot(g, j) < s
    &&& corner_edge(triangles, g, j) == e
    &&& forall|h: int, l: int|
        valid_slot(triangles, h, l) && slot(g, j) < slot(h, l) < s ==> #[trigger] corner_edge(triangles, h, l) != e
}

/// The neighbour across local edge `i` of triangle `f` once the scan has
/// passed the first `s` slots. The scan records each edge's first slot; a
/// later slot with that edge names the first slot's triangle as its
/// neighbour and is named by the first slot in return. So the first slot of
/// an edge names the triangle of the edge's last slot so far (nothing while
/// it is the only one), any later slot names the first slot's triangle, and
/// slots not yet passed name nothing.
pub open spec fn neighbors_so_far(triangles: Seq<[WeldedVertex; 3]>, s: int, f: int, i: int) -> Option<usize> {
    let e = corner_edge(triangles, f, i);
    if slot(f, i) >= s {
        None
    } else if first_slot_with(triangles, e, f, i) {
        if last_slot_before(triangles, e, f, i, s) {
            None
        } else {
            Some((choose|g: int, j: int| last_slot_before(triangles, e, g, j, s)).0 as usize)
        }
    } else {
        Some((choose|g: int, j: int| first_slot_with(triangles, e, g, j)).0 as usize)
    }
}

/// The neighbour across local edge `i` of triangle `f` after the whole scan.
pub open spec fn neighbor_across(triangles: Seq<[WeldedVertex; 3]>, f: int, i: int) -> Option<usize> {
    neighbors_so_far(triangles, 3 * triangles.len() as int, f, i)
}


/// An edge carried by some slot has a first slot.
proof fn lemma_first_slot_exists(triangles: Seq<[WeldedVertex; 3]>, e: WeldedEdge, f: int, i: int)
    requires
        valid_slot(triangles, f, i),
        corner_edge(triangles, f, i) == e,
    ensures
        exists|g: int, j: int| first_slot_with(triangles, e, g, j),
    decreases slot(f, i),
{
    if !first_slot_with(triangles, e, f, i) {
        let (h, l) = choose|h: int, l: int|
            valid_slot(triangles, h, l) && slot(h, l) < slot(f, i) && #[trigger] corner_edge(triangles, h, l) == e;
        lemma_first_slot_exists(triangles, e, h, l);
    }
}

/// The triangle named as the neighbour across an edge is a triangle of the
/// list that carries the same edge at another slot.
pub proof fn lemma_neighbor_shares_edge(triangles: Seq<[WeldedVertex; 3]>, f: int, i: int)
    requires
        triangles.len() <= usize::MAX,
        valid_slot(triangles, f, i),
        neighbor_across(triangles, f, i) is Some,
    ensures
        ({
            let g = neighbor_across(triangles, f, i).unwrap() as int;
            0 <= g < triangles.len() && exists|j: int|
                0 <= j < 3 && (g != f || j != i) && #[trigger] corner_edge(triangles, g, j) == corner_edge(
                    triangles,
                    f,
                    i,
                )
        }),
{
    let e = corner_edge(triangles, f, i);
    let s = 3 * triangles.len() as int;
    if first_slot_with(triangles, e, f, i) {
        lemma_last_slot_exists(triangles, e, f, i, s);
        let (g, j) = choose|g: int, j: int| last_slot_before(triangles, e, g, j, s);
        assert(last_slot_before(triangles, e, g, j, s));
        assert(neighbor_across(triangles, f, i) == Some(g as usize));
        assert(0 <= j < 3 && (g != f || j != i) && corner_edge(triangles, g, j) == e);
    } else {
        lemma_first_slot_exists(triangles, e, f, i);
        let (g, j) = choose|g: int, j: int| first_slot_with(triangles, e, g, j);
        assert(first_slot_with(triangles, e, g, j));
        assert(neighbor_across(triangles, f, i) == Some(g as usize));
        assert(0 <= j < 3 && (g != f || j != i) && corner_edge(triangles, g, j) == e);
    }
}

/// Across an edge that exactly two slots carry, the two triangles name
/// each other as neighbours.
pub proof fn lemma_neighbors_symmetric(triangles: Seq<[WeldedVertex; 3]>, f: int, i: int, g: int, j: int)
    requires
        triangles.len() <= usize::MAX,
        valid_slot(triangles, f, i),
        valid_slot(triangles, g, j),
        f != g || i != j,
        corner_edge(triangles, g, j) == corner_edge(triangles, f, i),
        forall|h: int, l: int|
            valid_slot(triangles, h, l) && #[trigger] corner_edge(triangles, h, l) == corner_edge(triangles, f, i)
                ==> (h == f && l == i) || (h == g && l == j),
    ensures
        neighbor_across(triangles, f, i) == Some(g as usize),
        neighbor_across(triangles, g, j) == Some(f as usize),
{
    let e = corner_edge(triangles, f, i);
    let s = 3 * triangles.len() as int;
    if slot(f, i) < slot(g, j) {
        lemma_neighbors_of_pair(triangles, e, f, i, g, j);
    } else {
        lemma_neighbors_of_pair(triangles, e, g, j, f, i);
    }
}

proof fn lemma_neighbors_of_pair(triangles: Seq<[WeldedVertex; 3]>, e: WeldedEdge, f: int, i: int, g: int, j: int)
    requires
        triangles.len() <= usize::MAX,
        valid_slot(triangles, f, i),
        valid_slot(triangles, g, j),
        slot(f, i) < slot(g, j),
        corner_edge(triangles, f, i) == e,
        corner_edge(triangles, g, j) == e,
        forall|h: int, l: int|
            valid_slot(triangles, h, l) && #[trigger] corner_edge(triangles, h, l) == e
                ==> (h == f && l == i) || (h == g && l == j),
    ensures
        neighbor_across(triangles, f, i) == Some(g as usize),
        neighbor_across(triangles, g, j) == Some(f as usize),
{
    let s = 3 * triangles.len() as int;
    assert(first_slot_with(triangles, e, f, i));
    assert(last_slot_before(triangles, e, g, j, s));
    assert(!last_slot_before(triangles, e, f, i, s));
    let (g1, j1) = choose|g1: int, j1: int| last_slot_before(triangles, e, g1, j1, s);
    lemma_last_slot_before_unique(triangles, e, g, j, g1, j1, s);
    assert(!first_slot_with(triangles, e, g, j));
    let (f1, i1) = choose|f1: int, i1: int| first_slot_with(triangles, e, f1, i1);
    lemma_first_slot_unique(triangles, e, f, i, f1, i1);
}

/// Passing slot `s`, whose edge differs from that of slot (f, i), leaves the
/// neighbour of (f, i) as it was.
proof fn lemma_neighbors_pass_other_edge(triangles: Seq<[WeldedVertex; 3]>, s: int, t: int, k: int, f: int, i: int)
    requires
        valid_slot(triangles, t, k),
        valid_slot(triangles, f, i),
        slot(t, k) == s,
        corner_edge(triangles, t, k) != corner_edge(triangles, f, i),
    ensures
        neighbors_so_far(triangles, s + 1, f, i) == neighbors_so_far(triangles, s, f, i),
{
    let e = corner_edge(triangles, f, i);
    if slot(f, i) < s && first_slot_with(triangles, e, f, i) {
        assert(last_slot_before(triangles, e, f, i, s + 1) == last_slot_before(triangles, e, f, i, s));
        if !last_slot_before(triangles, e, f, i, s) {
            // the last earlier slot with the edge is the same before and after slot s
            let (g0, j0) = choose|g: int, j: int| last_slot_before(triangles, e, g, j, s);
            lemma_last_slot_exists(triangles, e, f, i, s);
            assert(last_slot_before(triangles, e, g0, j0, s));
            assert(last_slot_before(triangles, e, g0, j0, s + 1));
            let s1 = s + 1;
            let (g1, j1) = choose|g: int, j: int| last_slot_before(triangles, e, g, j, s1);
            lemma_last_slot_before_unique(triangles, e, g0, j0, g1, j1, s1);
        }
    }
}

/// An edge seen before slot `s` has a last slot before `s`.
proof fn lemma_last_slot_exists(triangles: Seq<[WeldedVertex; 3]>, e: WeldedEdge, f: int, i: int, s: int)
    requires
        valid_slot(triangles, f, i),
        slot(f, i) < s,
        corner_edge(triangles, f, i) == e,
    ensures
        exists|g: int, j: int| last_slot_before(triangles, e, g, j, s),
    decreases s - slot(f, i),
{
    if !last_slot_before(triangles, e, f, i, s) {
        let (h, l) = choose|h: int, l: int|
            valid_slot(triangles, h, l) && slot(f, i) < slot(h, l) < s && #[trigger] corner_edge(triangles, h, l) == e;
        lemma_last_slot_exists(triangles, e, h, l, s);
    }
}

/// Every neighbour named in the table is a triangle of the table.
pub open spec fn neighbors_in_range(neighbors: Seq<[Option<usize>; 3]>) -> bool {
    forall|f: int, i: int|
        0 <= f < neighbors.len() && 0 <= i < 3 && #[trigger] neighbors[f][i] is Some ==> neighbors[f][i].unwrap()
            < neighbors.len()
}

/// The neighbour of each local edge of each triangle (see `neighbor_across`).
#[verifier::rlimit(60)]
#[verifier::spinoff_prover]
pub fn neighbors_per_triangle(welded_triangles: &[[WeldedVertex; 3]]) -> (neighbors: Vec<[Option<usize>; 3]>)
    ensures
        neighbors@.len() == welded_triangles@.len(),
        forall|f: int, i: int|
            0 <= f < welded_triangles@.len() && 0 <= i < 3 ==> #[trigger] neighbors@[f][i] == neighbor_across(
                welded_triangles@,
                f,
                i,
            ),
        neighbors_in_range(neighbors@),
{
    broadcast use vstd::std_specs::hash::group_hash_axioms;

    let ghost tris = welded_triangles@;
    let n = welded_triangles.len();
    let mut neighbors: Vec<[Option<usize>; 3]> = Vec::with_capacity(n);
    let mut p: usize = 0;
    while p < n
        invariant
            p <= n,
            neighbors@.len() == p,
            forall|f: int, i: int| 0 <= f < p && 0 <= i < 3 ==> #[trigger] neighbors@[f][i] is None,
        decreases n - p,
    {
        neighbors.push([None, None, None]);
        p += 1;
    }
    let mut first_owner: HashMap<u128, (usize, usize)> = HashMap::new();
    let mut t: usize = 0;
    while t < n
        invariant
            tris == welded_triangles@,
            n == tris.len(),
            t <= n,
            neighbors@.len() == n,
            neighbors_in_range(neighbors@),
            forall|f: int, i: int|
                0 <= f < n && 0 <= i < 3 ==> #[trigger] neighbors@[f][i] == neighbors_so_far(tris, 3 * t, f, i),
            forall|key: u128| #[trigger]
                first_owner@.contains_key(key) <==> exists|h: int, l: int|
                    valid_slot(tris, h, l) && slot(h, l) < 3 * t && edge_number(#[trigger] corner_edge(tris, h, l))
                        == key,
            forall|h: int, l: int|
                valid_slot(tris, h, l) && slot(h, l) < 3 * t ==> {
                    let owner = first_owner@[edge_number(#[trigger] corner_edge(tris, h, l))];
                    first_slot_with(tris, corner_edge(tris, h, l), owner.0 as int, owner.1 as int)
                },
        decreases n - t,
    {
        let triangle = welded_triangles[t];
        let edges = [
            WeldedEdge::new(triangle[0], triangle[1]),
            WeldedEdge::new(triangle[1], triangle[2]),
            WeldedEdge::new(triangle[2], triangle[0]),
        ];
        proof {
            assert(tris[t as int] == triangle);
            assert(edges[0] == corner_edge(tris, t as int, 0));
            assert(edges[1] == corner_edge(tris, t as int, 1));
            assert(edges[2] == corner_edge(tris, t as int, 2));
        }
        let mut k: usize = 0;
        while k < 3
            invariant
                tris == welded_triangles@,
                n == tris.len(),
                t < n,
                k <= 3,
                forall|j: int| 0 <= j < 3 ==> #[trigger] edges[j] == corner_edge(tris, t as int, j),
                neighbors@.len() == n,
                neighbors_in_range(neighbors@),
                forall|f: int, i: int|
                    0 <= f < n && 0 <= i < 3 ==> #[trigger] neighbors@[f][i] == neighbors_so_far(tris, 3 * t + k, f, i),
                forall|key: u128| #[trigger]
                    first_owner@.contains_key(key) <==> exists|h: int, l: int|
                        valid_slot(tris, h, l) && slot(h, l) < 3 * t + k && edge_number(
                            #[trigger] corner_edge(tris, h, l),
                        ) == key,
                forall|h: int, l: int|
                    valid_slot(tris, h, l) && slot(h, l) < 3 * t + k ==> {
                        let owner = first_owner@[edge_number(#[trigger] corner_edge(tris, h, l))];
                        first_slot_with(tris, corner_edge(tris, h, l), owner.0 as int, owner.1 as int)
                    },
            decreases 3 - k,
        {
            let welded_edge = edges[k];
            let key = edge_number_of(&welded_edge);
            let ghost s = 3 * t + k;
            let ghost e = welded_edge;
            let ghost before = neighbors@;
            let ghost owners_before = first_owner@;
            match first_owner.get(&key) {
                Some(owner) => {
                    let (other_triangle, other_local_edge) = *owner;
                    proof {
                        let (h, l) = choose|h: int, l: int|
                            valid_slot(tris, h, l) && slot(h, l) < s && edge_number(#[trigger] corner_edge(tris, h, l)) == key;
                        lemma_edge_number_injective(corner_edge(tris, h, l), e);
                        assert(first_slot_with(tris, e, other_triangle as int, other_local_edge as int));
                    }
                    let mut row = neighbors[t];
                    row[k] = Some(other_triangle);
                    neighbors.set(t, row);
                    let mut other_row = neighbors[other_triangle];
                    other_row[other_local_edge] = Some(t);
                    neighbors.set(other_triangle, other_row);
                    proof {
                        lemma_neighbors_step_seen(
                            tris,
                            s,
                            t as int,
                            k as int,
                            other_triangle as int,
                            other_local_edge as int,
                            before,
                            neighbors@,
                        );
                    }
                },
                None => {
                    proof {
                        assert forall|h: int, l: int| valid_slot(tris, h, l) && slot(h, l) < s implies #[trigger] corner_edge(
                            tris,
                            h,
                            l,
                        ) != e by {
                            if corner_edge(tris, h, l) == e {
                                assert(first_owner@.contains_key(edge_number(corner_edge(tris, h, l))));
                            }
                        }
                        assert(first_slot_with(tris, e, t as int, k as int));
                        assert forall|f: int, i: int| 0 <= f < n && 0 <= i < 3 implies #[trigger] neighbors@[f][i]
                            == neighbors_so_far(tris, s + 1, f, i) by {
                            if f == t && i == k {
                                assert(last_slot_before(tris, e, f, i, s + 1));
                            } else if corner_edge(tris, f, i) == e {
                                assert(slot(f, i) > s);
                            } else {
                                lemma_neighbors_pass_other_edge(tris, s, t as int, k as int, f, i);
                            }
                        }
                    }
                    first_owner.insert(key, (t, k));
                },
            }
            proof {
                assert forall|key2: u128| #[trigger] first_owner@.contains_key(key2) <==> exists|h: int, l: int|
                    valid_slot(tris, h, l) && slot(h, l) < s + 1 && edge_number(#[trigger] corner_edge(tris, h, l))
                        == key2 by {
                    if key2 == key {
                        assert(valid_slot(tris, t as int, k as int) && slot(t as int, k as int) < s + 1
                            && edge_number(corner_edge(tris, t as int, k as int)) == key2);
                    }
                    if exists|h: int, l: int|
                        valid_slot(tris, h, l) && slot(h, l) < s + 1 && edge_number(#[trigger] corner_edge(tris, h, l))
                            == key2 {
                        let (h, l) = choose|h: int, l: int|
                            valid_slot(tris, h, l) && slot(h, l) < s + 1 && edge_number(#[trigger] corner_edge(tris, h, l))
                                == key2;
                        if slot(h, l) < s {
                            assert(owners_before.contains_key(key2));
                        }
                    }
                }
                assert forall|h: int, l: int| valid_slot(tris, h, l) && slot(h, l) < s + 1 implies {
                    let owner = first_owner@[edge_number(#[trigger] corner_edge(tris, h, l))];
                    first_slot_with(tris, corner_edge(tris, h, l), owner.0 as int, owner.1 as int)
                } by {
                    if slot(h, l) == s {
                        assert(h == t && l == k);
                    } else if edge_number(corner_edge(tris, h, l)) == key {
                        lemma_edge_number_injective(corner_edge(tris, h, l), e);
                    }
                }
            }
            k += 1;
        }
        t += 1;
    }
    neighbors
}

/// Passing a slot whose edge was seen before: it names the edge's first
/// slot's triangle and the first slot names it.
proof fn lemma_neighbors_step_seen(
    tris: Seq<[WeldedVertex; 3]>,
    s: int,
    t: int,
    k: int,
    g: int,
    j: int,
    before: Seq<[Option<usize>; 3]>,
    after: Seq<[Option<usize>; 3]>,
)
    requires
        valid_slot(tris, t, k),
        slot(t, k) == s,
        first_slot_with(tris, corner_edge(tris, t, k), g, j),
        slot(g, j) < s,
        before.len() == tris.len(),
        forall|f: int, i: int|
            0 <= f < tris.len() && 0 <= i < 3 ==> #[trigger] before[f][i] == neighbors_so_far(tris, s, f, i),
        after.len() == tris.len(),
        after[t][k] == Some(g as usize),
        after[g][j] == Some(t as usize),
        forall|f: int, i: int|
            0 <= f < tris.len() && 0 <= i < 3 && !(f == t && i == k) && !(f == g && i == j) ==> #[trigger] after[f][i]
                == before[f][i],
    ensures
        forall|f: int, i: int|
            0 <= f < tris.len() && 0 <= i < 3 ==> #[trigger] after[f][i] == neighbors_so_far(tris, s + 1, f, i),
{
    let e = corner_edge(tris, t, k);
    assert forall|f: int, i: int| 0 <= f < tris.len() && 0 <= i < 3 implies #[trigger] after[f][i]
        == neighbors_so_far(tris, s + 1, f, i) by {
        if f == t && i == k {
            assert(!first_slot_with(tris, e, t, k));
            let (g1, j1) = choose|g1: int, j1: int| first_slot_with(tris, e, g1, j1);
            lemma_first_slot_unique(tris, e, g, j, g1, j1);
        } else if f == g && i == j {
            assert(last_slot_before(tris, e, t, k, s + 1));
            assert(!last_slot_before(tris, e, g, j, s + 1));
            let s1 = s + 1;
            let (g1, j1) = choose|g1: int, j1: int| last_slot_before(tris, e, g1, j1, s1);
            lemma_last_slot_before_unique(tris, e, t, k, g1, j1, s1);
        } else if corner_edge(tris, f, i) == e {
            if slot(f, i) < s {
                if first_slot_with(tris, e, f, i) {
                    lemma_first_slot_unique(tris, e, g, j, f, i);
                }
            }
        } else {
            lemma_neighbors_pass_other_edge(tris, s, t, k, f, i);
        }
    }
}


/// The first local edge of triangle `rim` along `edge` (0 when none is).
pub open spec fn rim_local_edge(triangles: Seq<[WeldedVertex; 3]>, rim: int, edge: WeldedEdge) -> int {
    if corner_edge(triangles, rim, 0) == edge {
        0
    } else if corner_edge(triangles, rim, 1) == edge {
        1
    } else if corner_edge(triangles, rim, 2) == edge {
        2
    } else {
        0
    }
}

/// What local edge `i` of triangle `f` adds to the silhouette: when its
/// neighbour faces the other way, the one of the two that faces front (the
/// rim triangle), and the front-facing neighbours across the rim triangle's
/// two other edges.
pub open spec fn silhouette_contribution(
    triangles: Seq<[WeldedVertex; 3]>,
    neighbors: Seq<[Option<usize>; 3]>,
    front: Seq<bool>,
    f: int,
    i: int,
    x: int,
) -> bool {
    &&& neighbors[f][i] is Some
    &&& front[f] != front[neighbors[f][i].unwrap() as int]
    &&& {
        let rim = if front[f] {
            f
        } else {
            neighbors[f][i].unwrap() as int
        };
        let r = rim_local_edge(triangles, rim, corner_edge(triangles, f, i));
        ||| x == rim
        ||| neighbors[rim][(r + 1) % 3] == Some(x as usize) && front[x]
        ||| neighbors[rim][(r + 2) % 3] == Some(x as usize) && front[x]
    }
}

/// Triangle `x` is on the silhouette: some local edge adds it.
pub open spec fn on_triangle_silhouette(
    triangles: Seq<[WeldedVertex; 3]>,
    neighbors: Seq<[Option<usize>; 3]>,
    front: Seq<bool>,
    x: int,
) -> bool {
    exists|f: int, i: int|
        0 <= f < triangles.len() && 0 <= i < 3 && #[trigger] silhouette_contribution(
            triangles,
            neighbors,
            front,
            f,
            i,
            x,
        )
}

/// The front one of triangle `f` and its neighbour across local edge `i`,
/// when the two face opposite ways: the rim triangle of that edge.
pub open spec fn rim_of_edge(neighbors: Seq<[Option<usize>; 3]>, front: Seq<bool>, f: int, i: int) -> Option<int> {
    match neighbors[f][i] {
        Some(g) => if front[f] != front[g as int] {
            Some(
                if front[f] {
                    f
                } else {
                    g as int
                },
            )
        } else {
            None
        },
        None => None,
    }
}

/// The silhouette faces front; the front triangle of every front/back pair
/// of neighbours is on it; and every silhouette triangle is such a rim
/// triangle or a neighbour of one.
pub proof fn lemma_silhouette_laws(
    triangles: Seq<[WeldedVertex; 3]>,
    neighbors: Seq<[Option<usize>; 3]>,
    front: Seq<bool>,
)
    requires
        neighbors.len() == triangles.len(),
        front.len() == triangles.len(),
        neighbors_in_range(neighbors),
    ensures
        forall|x: usize|
            #[trigger] on_triangle_silhouette(triangles, neighbors, front, x as int) ==> x < triangles.len() && front[x as int],
        forall|f: int, i: int|
            0 <= f < triangles.len() && 0 <= i < 3 && #[trigger] rim_of_edge(neighbors, front, f, i) is Some
                ==> on_triangle_silhouette(triangles, neighbors, front, rim_of_edge(neighbors, front, f, i).unwrap()),
        forall|x: usize|
            #[trigger] on_triangle_silhouette(triangles, neighbors, front, x as int) ==> exists|f: int, i: int|
                0 <= f < triangles.len() && 0 <= i < 3 && #[trigger] rim_of_edge(neighbors, front, f, i) is Some && (x
                    == rim_of_edge(neighbors, front, f, i).unwrap() || exists|l: int|
                    0 <= l < 3 && neighbors[rim_of_edge(neighbors, front, f, i).unwrap()][l] == Some(x)),
{
    assert forall|x: usize| #[trigger] on_triangle_silhouette(triangles, neighbors, front, x as int) implies x
        < triangles.len() && front[x as int] && exists|f: int, i: int|
        0 <= f < triangles.len() && 0 <= i < 3 && #[trigger] rim_of_edge(neighbors, front, f, i) is Some && (x
            == rim_of_edge(neighbors, front, f, i).unwrap() || exists|l: int|
            0 <= l < 3 && neighbors[rim_of_edge(neighbors, front, f, i).unwrap()][l] == Some(x)) by {
        let (f, i) = choose|f: int, i: int|
            0 <= f < triangles.len() && 0 <= i < 3 && #[trigger] silhouette_contribution(triangles, neighbors, front, f, i, x as int);
        let g = neighbors[f][i].unwrap() as int;
        assert(0 <= g < triangles.len());
        let rim = if front[f] {
            f
        } else {
            g
        };
        assert(rim_of_edge(neighbors, front, f, i) == Some(rim));
        let r = rim_local_edge(triangles, rim, corner_edge(triangles, f, i));
        assert(0 <= r < 3);
        if x != rim {
            if neighbors[rim][(r + 1) % 3] == Some(x) && front[x as int] {
                assert(0 <= (r + 1) % 3 < 3 && neighbors[rim][(r + 1) % 3] == Some(x));
                assert(neighbors[rim][(r + 1) % 3] is Some);
            } else {
                assert(0 <= (r + 2) % 3 < 3 && neighbors[rim][(r + 2) % 3] == Some(x));
                assert(neighbors[rim][(r + 2) % 3] is Some);
            }
        }
    }
    assert forall|f: int, i: int|
        0 <= f < triangles.len() && 0 <= i < 3 && #[trigger] rim_of_edge(neighbors, front, f, i) is Some implies on_triangle_silhouette(
        triangles,
        neighbors,
        front,
        rim_of_edge(neighbors, front, f, i).unwrap(),
    ) by {
        assert(silhouette_contribution(triangles, neighbors, front, f, i, rim_of_edge(neighbors, front, f, i).unwrap()));
    }
}

/// The silhouette triangles (see `on_triangle_silhouette`) from the welded
/// triangles, their neighbours and which of them face front.
pub fn silhouette_triangles(
    welded_triangles: &[[WeldedVertex; 3]],
    neighbors: &[[Option<usize>; 3]],
    front_facing: &[bool],
) -> (silhouette: HashSet<usize>)
    requires
        neighbors@.len() == welded_triangles@.len(),
        front_facing@.len() == welded_triangles@.len(),
        neighbors_in_range(neighbors@),
    ensures
        forall|x: usize|
            silhouette@.contains(x) <==> on_triangle_silhouette(welded_triangles@, neighbors@, front_facing@, x as int),
        forall|x: usize| #[trigger] silhouette@.contains(x) ==> x < welded_triangles@.len() && front_facing@[x as int],
        forall|f: int, i: int|
            0 <= f < welded_triangles@.len() && 0 <= i < 3 && #[trigger] neighbors@[f][i] is Some && front_facing@[f]
                != front_facing@[neighbors@[f][i].unwrap() as int] ==> silhouette@.contains(
                if front_facing@[f] {
                    f as usize
                } else {
                    neighbors@[f][i].unwrap()
                },
            ),
{
    broadcast use vstd::std_specs::hash::group_hash_axioms;

    let ghost tris = welded_triangles@;
    let ghost nbrs = neighbors@;
    let ghost front = front_facing@;
    let n = welded_triangles.len();
    let mut silhouette: HashSet<usize> = HashSet::new();
    let mut f: usize = 0;
    while f < n
        invariant
            tris == welded_triangles@,
            nbrs == neighbors@,
            front == front_facing@,
            n == tris.len(),
            nbrs.len() == n,
            front.len() == n,
            neighbors_in_range(nbrs),
            f <= n,
            forall|x: usize|
                silhouette@.contains(x) <==> exists|g: int, j: int|
                    0 <= g < f && 0 <= j < 3 && #[trigger] silhouette_contribution(tris, nbrs, front, g, j, x as int),
        decreases n - f,
    {
        let triangle = welded_triangles[f];
        let mut i: usize = 0;
        while i < 3
            invariant
                tris == welded_triangles@,
                nbrs == neighbors@,
                front == front_facing@,
                n == tris.len(),
                nbrs.len() == n,
                front.len() == n,
                neighbors_in_range(nbrs),
                f < n,
                triangle == tris[f as int],
                i <= 3,
                forall|x: usize|
                    silhouette@.contains(x) <==> exists|g: int, j: int|
                        (0 <= g < f && 0 <= j < 3 || g == f && 0 <= j < i) && #[trigger] silhouette_contribution(
                            tris,
                            nbrs,
                            front,
                            g,
                            j,
                            x as int,
                        ),
            decreases 3 - i,
        {
            let ghost before = silhouette@;
            let ghost fi = f as int;
            let ghost ii = i as int;
            match neighbors[f][i] {
                Some(neighbor) => {
                    let is_front_here = front_facing[f];
                    let is_front_neighbor = front_facing[neighbor];
                    if is_front_here != is_front_neighbor {
                        let rim = if is_front_here {
                            f
                        } else {
                            neighbor
                        };
                        let edge = WeldedEdge::new(triangle[i], triangle[(i + 1) % 3]);
                        let rim_triangle = welded_triangles[rim];
                        let rim_local: usize = if WeldedEdge::new(rim_triangle[0], rim_triangle[1]) == edge {
                            0
                        } else if WeldedEdge::new(rim_triangle[1], rim_triangle[2]) == edge {
                            1
                        } else if WeldedEdge::new(rim_triangle[2], rim_triangle[0]) == edge {
                            2
                        } else {
                            0
                        };
                        proof {
                            assert(edge == corner_edge(tris, fi, ii));
                            assert(rim_local == rim_local_edge(tris, rim as int, edge));
                        }
                        silhouette.insert(rim);
                        let ghost after_rim = silhouette@;
                        if let Some(neighbor_0) = neighbors[rim][(rim_local + 1) % 3] {
                            if front_facing[neighbor_0] {
                                silhouette.insert(neighbor_0);
                            }
                        }
                        if let Some(neighbor_1) = neighbors[rim][(rim_local + 2) % 3] {
                            if front_facing[neighbor_1] {
                                silhouette.insert(neighbor_1);
                            }
                        }
                        proof {
                            assert forall|x: usize| silhouette@.contains(x) <==> before.contains(x)
                                || silhouette_contribution(tris, nbrs, front, fi, ii, x as int) by {}
                        }
                    } else {
                        proof {
                            assert forall|x: usize| !silhouette_contribution(tris, nbrs, front, fi, ii, x as int) by {}
                        }
                    }
                },
                None => {
                    proof {
                        assert forall|x: usize| !silhouette_contribution(tris, nbrs, front, fi, ii, x as int) by {}
                    }
                },
            }
            proof {
                assert forall|x: usize| silhouette@.contains(x) <==> exists|g: int, j: int|
                    (0 <= g < f && 0 <= j < 3 || g == f && 0 <= j < i + 1) && #[trigger] silhouette_contribution(
                        tris,
                        nbrs,
                        front,
                        g,
                        j,
                        x as int,
                    ) by {
                    if silhouette_contribution(tris, nbrs, front, fi, ii, x as int) {
                        assert((fi == f && 0 <= ii < i + 1) && silhouette_contribution(tris, nbrs, front, fi, ii, x as int));
                    }
                }
            }
            i += 1;
        }
        f += 1;
    }
    proof {
        assert forall|x: usize| silhouette@.contains(x) <==> on_triangle_silhouette(tris, nbrs, front, x as int) by {
            if on_triangle_silhouette(tris, nbrs, front, x as int) {
                let (g, j) = choose|g: int, j: int|
                    0 <= g < tris.len() && 0 <= j < 3 && #[trigger] silhouette_contribution(tris, nbrs, front, g, j, x as int);
                assert(0 <= g < f && 0 <= j < 3 && silhouette_contribution(tris, nbrs, front, g, j, x as int));
            }
        }
        lemma_silhouette_laws(tris, nbrs, front);
        assert forall|x: usize| #[trigger] silhouette@.contains(x) implies x < tris.len() && front[x as int] by {
            assert(on_triangle_silhouette(tris, nbrs, front, x as int));
        }
        assert forall|f: int, i: int|
            0 <= f < tris.len() && 0 <= i < 3 && #[trigger] nbrs[f][i] is Some && front[f] != front[nbrs[f][i].unwrap() as int]
            implies silhouette@.contains(
            if front[f] {
                f as usize
            } else {
                nbrs[f][i].unwrap()
            },
        ) by {
            assert(rim_of_edge(nbrs, front, f, i) is Some);
        }
    }
    silhouette
}


/// The welded vertices of each triangle: each corner's vertex index looked
/// up in the weld ids.
pub fn welded_vertices_per_triangle(triangles: &[[usize; 3]], welded_ids: &[usize]) -> (welded: Vec<[WeldedVertex; 3]>)
    requires
        forall|f: int, c: int|
            0 <= f < triangles@.len() && 0 <= c < 3 ==> (#[trigger] triangles@[f][c]) < welded_ids@.len(),
    ensures
        welded@.len() == triangles@.len(),
        forall|f: int, c: int|
            0 <= f < triangles@.len() && 0 <= c < 3 ==> (#[trigger] welded@[f][c]).id == welded_ids@[triangles@[f][c] as int],
{
    let mut welded: Vec<[WeldedVertex; 3]> = Vec::with_capacity(triangles.len());
    let mut f: usize = 0;
    while f < triangles.len()
        invariant
            f <= triangles@.len(),
            welded@.len() == f,
            forall|g: int, c: int|
                0 <= g < triangles@.len() && 0 <= c < 3 ==> (#[trigger] triangles@[g][c]) < welded_ids@.len(),
            forall|g: int, c: int|
                0 <= g < f && 0 <= c < 3 ==> (#[trigger] welded@[g][c]).id == welded_ids@[triangles@[g][c] as int],
        decreases triangles@.len() - f,
    {
        let corners = triangles[f];
        let a = corners[0];
        let b = corners[1];
        let c = corners[2];
        proof {
            assert(triangles@[f as int][0] == a && triangles@[f as int][1] == b && triangles@[f as int][2] == c);
            assert(a < welded_ids@.len() && b < welded_ids@.len() && c < welded_ids@.len());
        }
        welded.push(
            [
                WeldedVertex { id: welded_ids[a] },
                WeldedVertex { id: welded_ids[b] },
                WeldedVertex { id: welded_ids[c] },
            ],
        );
        f += 1;
    }
    welded
}

/// The triangles (below `triangle_count`) that do not face front.
pub fn back_triangles(triangle_count: usize, front_triangles: &HashSet<usize>) -> (back: HashSet<usize>)
    ensures
        forall|x: usize| back@.contains(x) <==> x < triangle_count && !front_triangles@.contains(x),
{
    broadcast use vstd::std_specs::hash::group_hash_axioms;

    let mut back: HashSet<usize> = HashSet::new();
    let mut triangle_id: usize = 0;
    while triangle_id < triangle_count
        invariant
            triangle_id <= triangle_count,
            forall|x: usize| back@.contains(x) <==> x < triangle_id && !front_triangles@.contains(x),
        decreases triangle_count - triangle_id,
    {
        if !front_triangles.contains(&triangle_id) {
            back.insert(triangle_id);
        }
        triangle_id += 1;
    }
    back
}

} // verus!
