//! Welding of a triangle soup: vertices at the same quantized position
//! share an id, and each welded edge is owned by the first face that has it.
use vstd::prelude::*;
use std::collections::HashMap;

verus! {

broadcast use vstd::std_specs::hash::group_hash_axioms;

#[derive(Copy, Clone, Debug, PartialEq, Eq, Structural, Hash)]
pub struct WeldedVertex {
    pub id: u32,
}

#[derive(Copy, Clone, Debug, PartialEq, Eq, Structural, Hash)]
pub struct Face {
    pub id: usize,
}

/// An undirected edge between two welded vertices, smaller id first.
#[derive(Copy, Clone, Debug, PartialEq, Eq, Structural, Hash)]
pub struct WeldedEdge {
    pub vertex_a: WeldedVertex,
    pub vertex_b: WeldedVertex,
}

/// The number that keys an edge in the edge owner map: the two ids side by
/// side in 64 bits.
pub open spec fn edge_key(edge: WeldedEdge) -> u64 {
    (edge.vertex_a.id as int * 0x1_0000_0000 + edge.vertex_b.id as int) as u64
}

pub proof fn lemma_edge_key_injective(e1: WeldedEdge, e2: WeldedEdge)
    requires
        edge_key(e1) == edge_key(e2),
    ensures
        e1 == e2,
{
    let a1 = e1.vertex_a.id as int;
    let b1 = e1.vertex_b.id as int;
    let a2 = e2.vertex_a.id as int;
    let b2 = e2.vertex_b.id as int;
    assert(a1 * 0x1_0000_0000 + b1 <= 0xffff_ffff * 0x1_0000_0000 + 0xffff_ffff) by (nonlinear_arith)
        requires
            0 <= a1 <= 0xffff_ffff,
            0 <= b1 <= 0xffff_ffff,
    ;
    assert(a2 * 0x1_0000_0000 + b2 <= 0xffff_ffff * 0x1_0000_0000 + 0xffff_ffff) by (nonlinear_arith)
        requires
            0 <= a2 <= 0xffff_ffff,
            0 <= b2 <= 0xffff_ffff,
    ;
    assert(a1 == a2 && b1 == b2) by (nonlinear_arith)
        requires
            a1 * 0x1_0000_0000 + b1 == a2 * 0x1_0000_0000 + b2,
            0 <= b1 <= 0xffff_ffff,
            0 <= b2 <= 0xffff_ffff,
            0 <= a1,
            0 <= a2,
    ;
}

impl WeldedEdge {
    pub open spec fn spec_new(node_a: WeldedVertex, node_b: WeldedVertex) -> WeldedEdge {
        if node_a.id <= node_b.id {
            WeldedEdge { vertex_a: node_a, vertex_b: node_b }
        } else {
            WeldedEdge { vertex_a: node_b, vertex_b: node_a }
        }
    }

    /// The canonical (sorted) edge between the two vertices.
    pub fn new(node_a: WeldedVertex, node_b: WeldedVertex) -> (edge: Self)
        ensures
            edge == Self::spec_new(node_a, node_b),
            edge.vertex_a.id <= edge.vertex_b.id,
    {
        if node_a.id <= node_b.id {
            WeldedEdge { vertex_a: node_a, vertex_b: node_b }
        } else {
            WeldedEdge { vertex_a: node_b, vertex_b: node_a }
        }
    }

    /// The key of this edge in the edge owner map.
    pub fn key(&self) -> (key: u64)
        ensures
            key == edge_key(*self),
    {
        proof {
            let a = self.vertex_a.id as int;
            let b = self.vertex_b.id as int;
            assert(a * 0x1_0000_0000 + b <= 0xffff_ffff * 0x1_0000_0000 + 0xffff_ffff) by (nonlinear_arith)
                requires
                    0 <= a <= 0xffff_ffff,
                    0 <= b <= 0xffff_ffff,
            ;
        }
        self.vertex_a.id as u64 * 0x1_0000_0000 + self.vertex_b.id as u64
    }
}

/// The local corner (0, 1 or 2) of a triangle that is not on the given local edge.
pub fn edge_opposing_vertex(edge: (u8, u8)) -> (corner: u8)
    requires
        edge.0 + edge.1 <= 3,
    ensures
        corner == 3 - (edge.0 + edge.1),
{
    3 - (edge.0 + edge.1)
}

/// Two welded vertices are the same vertex exactly when their ids agree.
pub fn welded_eq(a: WeldedVertex, b: WeldedVertex) -> (same: bool)
    ensures
        same == (a.id == b.id),
        same == (a == b),
{
    a.id == b.id
}

/// The welded edges of a face, in the order AB, BC, CA.
pub open spec fn face_edges(face: [u32; 3], welded_vertices: Seq<u32>) -> Seq<WeldedEdge> {
    let a = WeldedVertex { id: welded_vertices[face[0] as int] };
    let b = WeldedVertex { id: welded_vertices[face[1] as int] };
    let c = WeldedVertex { id: welded_vertices[face[2] as int] };
    seq![WeldedEdge::spec_new(a, b), WeldedEdge::spec_new(b, c), WeldedEdge::spec_new(c, a)]
}

/// Face `f` has the edge.
pub open spec fn face_has_edge(faces: Seq<[u32; 3]>, welded_vertices: Seq<u32>, f: int, edge: WeldedEdge) -> bool {
    face_edges(faces[f], welded_vertices).contains(edge)
}

/// The edge owner map of the first `count` faces: every edge of those faces
/// maps to the first face that has it, and no other key is present.
pub open spec fn owns_first_faces(
    owner: Map<u64, usize>,
    faces: Seq<[u32; 3]>,
    welded_vertices: Seq<u32>,
    count: int,
) -> bool {
    &&& forall|f: int, e: WeldedEdge|
        0 <= f < count && #[trigger] face_has_edge(faces, welded_vertices, f, e) ==> owner.contains_key(
            edge_key(e),
        )
    &&& forall|k: u64|
        #[trigger] owner.contains_key(k) ==> exists|f: int, e: WeldedEdge|
            0 <= f < count && #[trigger] face_has_edge(faces, welded_vertices, f, e) && edge_key(e) == k
                && owner[k] == f && forall|g: int|
                0 <= g < f ==> !#[trigger] face_has_edge(faces, welded_vertices, g, e)
}

/// Every corner of every face names a welded vertex.
pub open spec fn faces_in_range(faces: Seq<[u32; 3]>, welded_vertices: Seq<u32>) -> bool {
    forall|f: int, corner: int|
        0 <= f < faces.len() && 0 <= corner < 3 ==> (#[trigger] faces[f][corner] as int) < welded_vertices.len()
}

/// Each welded edge of the faces mapped (by its key) to the first face that has it.
pub fn build_edge_owner_map(faces: &[[u32; 3]], welded_vertices: &[u32]) -> (edge_owner: HashMap<u64, usize>)
    requires
        faces_in_range(faces@, welded_vertices@),
    ensures
        owns_first_faces(edge_owner@, faces@, welded_vertices@, faces@.len() as int),
{
    let ghost fs = faces@;
    let ghost wv = welded_vertices@;
    let mut edge_owner: HashMap<u64, usize> = HashMap::new();
    let mut face: usize = 0;
    while face < faces.len()
        invariant
            fs == faces@,
            wv == welded_vertices@,
            faces_in_range(fs, wv),
            face <= fs.len(),
            owns_first_faces(edge_owner@, fs, wv, face as int),
        decreases fs.len() - face,
    {
        let corners = faces[face];
        proof {
            assert(corners[0] as int == fs[face as int][0]);
            assert((fs[face as int][0] as int) < wv.len());
            assert((fs[face as int][1] as int) < wv.len());
            assert((fs[face as int][2] as int) < wv.len());
        }
        let welded_vertex_a = WeldedVertex { id: welded_vertices[corners[0] as usize] };
        let welded_vertex_b = WeldedVertex { id: welded_vertices[corners[1] as usize] };
        let welded_vertex_c = WeldedVertex { id: welded_vertices[corners[2] as usize] };
        let ghost edges = face_edges(fs[face as int], wv);
        let ghost before = edge_owner@;
        let e0 = WeldedEdge::new(welded_vertex_a, welded_vertex_b);
        let e1 = WeldedEdge::new(welded_vertex_b, welded_vertex_c);
        let e2 = WeldedEdge::new(welded_vertex_c, welded_vertex_a);
        proof {
            assert(edges[0] == e0 && edges[1] == e1 && edges[2] == e2);
        }
        let k0 = e0.key();
        if !edge_owner.contains_key(&k0) {
            edge_owner.insert(k0, face);
        }
        let k1 = e1.key();
        if !edge_owner.contains_key(&k1) {
            edge_owner.insert(k1, face);
        }
        let k2 = e2.key();
        if !edge_owner.contains_key(&k2) {
            edge_owner.insert(k2, face);
        }
        proof {
            let after = edge_owner@;
            let n = face as int;
            assert forall|f: int, e: WeldedEdge|
                0 <= f < n + 1 && #[trigger] face_has_edge(fs, wv, f, e) implies after.contains_key(edge_key(e)) by {
                if f == n {
                    let i = choose|i: int| 0 <= i < edges.len() && edges[i] == e;
                }
            }
            assert forall|k: u64| #[trigger] after.contains_key(k) implies exists|f: int, e: WeldedEdge|
                0 <= f < n + 1 && #[trigger] face_has_edge(fs, wv, f, e) && edge_key(e) == k && after[k] == f
                    && forall|g: int| 0 <= g < f ==> !#[trigger] face_has_edge(fs, wv, g, e) by {
                if before.contains_key(k) {
                    let (f, e) = choose|f: int, e: WeldedEdge|
                        0 <= f < n && #[trigger] face_has_edge(fs, wv, f, e) && edge_key(e) == k && before[k] == f
                            && forall|g: int| 0 <= g < f ==> !#[trigger] face_has_edge(fs, wv, g, e);
                    assert(after[k] == before[k]);
                    assert(face_has_edge(fs, wv, f, e));
                } else {
                    let e = if k == k0 {
                        e0
                    } else if k == k1 {
                        e1
                    } else {
                        e2
                    };
                    assert(edges[0] == e0 && edges[1] == e1 && edges[2] == e2);
                    assert(edges.contains(e)) by {
                        if k == k0 {
                            assert(edges[0] == e);
                        } else if k == k1 {
                            assert(edges[1] == e);
                        } else {
                            assert(edges[2] == e);
                        }
                    }
                    assert(face_has_edge(fs, wv, n, e));
                    assert(after[k] == n);
                    assert forall|g: int| 0 <= g < n implies !#[trigger] face_has_edge(fs, wv, g, e) by {
                        if face_has_edge(fs, wv, g, e) {
                            assert(before.contains_key(edge_key(e)));
                        }
                    }
                }
            }
        }
        face += 1;
    }
    edge_owner
}


/// A quantized vertex position.
pub type QuantizedPosition = (i32, i32, i32);

/// The number that keys a quantized position in the weld map: the three
/// coordinates, each shifted to be nonnegative, side by side in 96 bits.
pub open spec fn position_key(p: QuantizedPosition) -> u128 {
    ((p.0 + 0x8000_0000) * 0x1_0000_0000_0000_0000 + (p.1 + 0x8000_0000) * 0x1_0000_0000 + (p.2
        + 0x8000_0000)) as u128
}

proof fn lemma_position_key(p: QuantizedPosition)
    ensures
        position_key(p) == (p.0 + 0x8000_0000) * 0x1_0000_0000_0000_0000 + (p.1 + 0x8000_0000) * 0x1_0000_0000
            + (p.2 + 0x8000_0000),
{
    let a = p.0 + 0x8000_0000;
    let b = p.1 + 0x8000_0000;
    let c = p.2 + 0x8000_0000;
    assert(a * 0x1_0000_0000_0000_0000 + b * 0x1_0000_0000 + c <= 0xffff_ffff * 0x1_0000_0000_0000_0000
        + 0xffff_ffff * 0x1_0000_0000 + 0xffff_ffff) by (nonlinear_arith)
        requires
            0 <= a <= 0xffff_ffff,
            0 <= b <= 0xffff_ffff,
            0 <= c <= 0xffff_ffff,
    ;
    assert(0 <= a * 0x1_0000_0000_0000_0000 + b * 0x1_0000_0000 + c) by (nonlinear_arith)
        requires
            0 <= a,
            0 <= b,
            0 <= c,
    ;
}

proof fn lemma_position_key_injective(p: QuantizedPosition, q: QuantizedPosition)
    requires
        position_key(p) == position_key(q),
    ensures
        p == q,
{
    lemma_position_key(p);
    lemma_position_key(q);
    let a1 = p.0 + 0x8000_0000;
    let b1 = p.1 + 0x8000_0000;
    let c1 = p.2 + 0x8000_0000;
    let a2 = q.0 + 0x8000_0000;
    let b2 = q.1 + 0x8000_0000;
    let c2 = q.2 + 0x8000_0000;
    assert(a1 == a2 && b1 == b2 && c1 == c2) by (nonlinear_arith)
        requires
            a1 * 0x1_0000_0000_0000_0000 + b1 * 0x1_0000_0000 + c1 == a2 * 0x1_0000_0000_0000_0000 + b2
                * 0x1_0000_0000 + c2,
            0 <= a1 <= 0xffff_ffff,
            0 <= b1 <= 0xffff_ffff,
            0 <= c1 <= 0xffff_ffff,
            0 <= a2 <= 0xffff_ffff,
            0 <= b2 <= 0xffff_ffff,
            0 <= c2 <= 0xffff_ffff,
    ;
}

fn quantized_position_key(p: QuantizedPosition) -> (key: u128)
    ensures
        key == position_key(p),
{
    proof {
        lemma_position_key(p);
    }
    let a = (p.0 as i64 + 0x8000_0000) as u128;
    let b = (p.1 as i64 + 0x8000_0000) as u128;
    let c = (p.2 as i64 + 0x8000_0000) as u128;
    proof {
        assert(a * 0x1_0000_0000_0000_0000 <= 0xffff_ffff * 0x1_0000_0000_0000_0000) by (nonlinear_arith)
            requires
                a <= 0xffff_ffff,
        ;
        assert(b * 0x1_0000_0000 <= 0xffff_ffff * 0x1_0000_0000) by (nonlinear_arith)
            requires
                b <= 0xffff_ffff,
        ;
    }
    a * 0x1_0000_0000_0000_0000 + b * 0x1_0000_0000 + c
}

/// Position `i` holds the first occurrence of its value.
pub open spec fn first_occurrence<T>(items: Seq<T>, i: int) -> bool {
    forall|j: int| 0 <= j < i ==> items[j] != items[i]
}

/// How many of the first `k` positions hold a first occurrence: the number
/// of distinct values among them.
pub open spec fn first_occurrences_before<T>(items: Seq<T>, k: nat) -> nat
    decreases k,
{
    if k == 0 {
        0
    } else {
        first_occurrences_before(items, (k - 1) as nat) + if first_occurrence(items, k - 1) {
            1nat
        } else {
            0nat
        }
    }
}

/// `ids` numbers the values of `items` in order of first appearance: equal
/// values share an id, and the n-th distinct value gets id n.
pub open spec fn numbered_by_first_appearance<T>(items: Seq<T>, ids: Seq<u32>) -> bool {
    &&& ids.len() == items.len()
    &&& forall|i: int, j: int|
        0 <= i < items.len() && 0 <= j < items.len() ==> (ids[i] == ids[j] <==> items[i] == items[j])
    &&& forall|i: int|
        0 <= i < items.len() && #[trigger] first_occurrence(items, i) ==> ids[i] == first_occurrences_before(
            items,
            i as nat,
        )
}

pub(crate) proof fn lemma_first_occurrences_bounded<T>(items: Seq<T>, k: nat)
    ensures
        first_occurrences_before(items, k) <= k,
    decreases k,
{
    if k > 0 {
        lemma_first_occurrences_bounded(items, (k - 1) as nat);
    }
}

/// The weld id of every vertex: vertices at the same quantized position share
/// an id, numbered in order of first appearance.
pub fn collect_welded_vertices(quantized_positions: &[QuantizedPosition]) -> (welded_ids: Vec<u32>)
    requires
        quantized_positions@.len() <= u32::MAX,
    ensures
        numbered_by_first_appearance(quantized_positions@, welded_ids@),
{
    broadcast use vstd::std_specs::hash::group_hash_axioms;

    let ghost items = quantized_positions@;
    let n = quantized_positions.len();
    let mut welded_map: HashMap<u128, u32> = HashMap::new();
    let mut next_wid: u32 = 0;
    let mut welded_ids: Vec<u32> = Vec::with_capacity(n);
    let mut i: usize = 0;
    while i < n
        invariant
            items == quantized_positions@,
            n == items.len(),
            n <= u32::MAX,
            i <= n,
            welded_ids@.len() == i,
            next_wid == first_occurrences_before(items, i as nat),
            forall|k: u128| #[trigger]
                welded_map@.contains_key(k) <==> exists|j: int| 0 <= j < i && position_key(items[j]) == k,
            forall|j: int| 0 <= j < i ==> welded_map@[#[trigger] position_key(items[j])] == welded_ids@[j],
            forall|j: int| 0 <= j < i ==> #[trigger] welded_ids@[j] < next_wid,
            forall|j1: int, j2: int|
                0 <= j1 < i && 0 <= j2 < i ==> (welded_ids@[j1] == welded_ids@[j2] <==> items[j1] == items[j2]),
            forall|j: int|
                0 <= j < i && #[trigger] first_occurrence(items, j) ==> welded_ids@[j] == first_occurrences_before(
                    items,
                    j as nat,
                ),
        decreases n - i,
    {
        proof {
            lemma_first_occurrences_bounded(items, i as nat);
        }
        let key = quantized_position_key(quantized_positions[i]);
        let ghost before = welded_ids@;
        match welded_map.get(&key) {
            Some(id) => {
                let id = *id;
                proof {
                    let j = choose|j: int| 0 <= j < i && position_key(items[j]) == key;
                    lemma_position_key_injective(items[j], items[i as int]);
                    assert(!first_occurrence(items, i as int));
                    assert(welded_map@[position_key(items[j])] == before[j]);
                    assert forall|j2: int| 0 <= j2 < i implies (before[j2] == id <==> items[j2] == items[i as int]) by {
                        assert(welded_map@[position_key(items[j2])] == before[j2]);
                        if before[j2] == id {
                            assert(items[j2] == items[j]);
                        }
                    }
                }
                welded_ids.push(id);
            },
            None => {
                proof {
                    assert forall|j: int| 0 <= j < i implies items[j] != items[i as int] by {
                        if items[j] == items[i as int] {
                            assert(welded_map@.contains_key(position_key(items[j])));
                        }
                    }
                    assert(first_occurrence(items, i as int));
                }
                welded_map.insert(key, next_wid);
                welded_ids.push(next_wid);
                next_wid += 1;
                proof {
                    assert forall|j: int| 0 <= j < i implies welded_map@[#[trigger] position_key(items[j])]
                        == welded_ids@[j] by {
                        if position_key(items[j]) == key {
                            lemma_position_key_injective(items[j], items[i as int]);
                        }
                    }
                }
            },
        }
        proof {
            assert(first_occurrences_before(items, (i + 1) as nat) == first_occurrences_before(items, i as nat) + if first_occurrence(items, i as int) {
                1nat
            } else {
                0nat
            });
        }
        i += 1;
    }
    welded_ids
}


proof fn lemma_first_occurrences_monotone<T>(items: Seq<T>, j: nat, k: nat)
    requires
        j <= k,
    ensures
        first_occurrences_before(items, j) <= first_occurrences_before(items, k),
    decreases k - j,
{
    if j < k {
        lemma_first_occurrences_monotone(items, j, (k - 1) as nat);
    }
}

/// Some first occurrence at or before `i` holds the value at `i`.
proof fn lemma_has_first_occurrence<T>(items: Seq<T>, i: int)
    requires
        0 <= i < items.len(),
    ensures
        exists|j: int| 0 <= j <= i && items[j] == items[i] && #[trigger] first_occurrence(items, j),
    decreases i,
{
    if !first_occurrence(items, i) {
        let j = choose|j: int| 0 <= j < i && items[j] == items[i];
        lemma_has_first_occurrence(items, j);
        let j2 = choose|j2: int| 0 <= j2 <= j && items[j2] == items[j] && #[trigger] first_occurrence(items, j2);
        assert(0 <= j2 <= i && items[j2] == items[i] && first_occurrence(items, j2));
    } else {
        assert(0 <= i <= i && items[i] == items[i] && first_occurrence(items, i));
    }
}

/// Some position has id `n`.
pub open spec fn id_used(ids: Seq<u32>, n: nat) -> bool {
    exists|i: int| 0 <= i < ids.len() && ids[i] == n
}

/// Weld ids are dense: every id is below the number of distinct positions,
/// and every id below it is used.
pub proof fn lemma_weld_ids_dense<T>(items: Seq<T>, ids: Seq<u32>)
    requires
        numbered_by_first_appearance(items, ids),
    ensures
        forall|i: int| 0 <= i < ids.len() ==> (#[trigger] ids[i]) < first_occurrences_before(items, items.len()),
        forall|n: nat| n < first_occurrences_before(items, items.len()) ==> #[trigger] id_used(ids, n),
{
    let total = first_occurrences_before(items, items.len());
    assert forall|i: int| 0 <= i < ids.len() implies (#[trigger] ids[i]) < total by {
        lemma_has_first_occurrence(items, i);
        let j = choose|j: int| 0 <= j <= i && items[j] == items[i] && #[trigger] first_occurrence(items, j);
        assert(ids[j] == ids[i]);
        assert(first_occurrences_before(items, (j + 1) as nat) == first_occurrences_before(items, j as nat) + 1);
        lemma_first_occurrences_monotone(items, (j + 1) as nat, items.len());
    }
    assert forall|n: nat| n < total implies #[trigger] id_used(ids, n) by {
        lemma_first_occurrence_with_count(items, n, items.len());
        let j = choose|j: int| 0 <= j < items.len() && #[trigger] first_occurrence(items, j)
            && first_occurrences_before(items, j as nat) == n;
        assert(ids[j] == n);
        assert(0 <= j < ids.len() && ids[j] == n);
    }
}

/// Every count below the number of first occurrences among the first `k`
/// positions is the count before one of them.
proof fn lemma_first_occurrence_with_count<T>(items: Seq<T>, n: nat, k: nat)
    requires
        k <= items.len(),
        n < first_occurrences_before(items, k),
    ensures
        exists|j: int| 0 <= j < k && #[trigger] first_occurrence(items, j) && first_occurrences_before(items, j as nat) == n,
    decreases k,
{
    let m = (k - 1) as nat;
    if n < first_occurrences_before(items, m) {
        lemma_first_occurrence_with_count(items, n, m);
        let j = choose|j: int| 0 <= j < m && #[trigger] first_occurrence(items, j) && first_occurrences_before(items, j as nat) == n;
        assert(0 <= j < k && first_occurrence(items, j) && first_occurrences_before(items, j as nat) == n);
    } else {
        assert(first_occurrence(items, m as int));
        assert(0 <= m < k && first_occurrence(items, m as int) && first_occurrences_before(items, m) == n);
    }
}

} // verus!
