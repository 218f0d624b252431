//! Classification of a mesh's faces seen from an observer: front faces, back
//! faces, and the silhouette faces where a front face meets a back face
//! across a welded edge.
use vstd::prelude::*;
use std::collections::{HashMap, HashSet};
use crate::fixed_func::welding::{
    build_edge_owner_map, edge_key, face_edges, face_has_edge, faces_in_range, owns_first_faces, WeldedEdge,
    WeldedVertex,
};

verus! {

broadcast use vstd::std_specs::hash::group_hash_axioms;

pub struct FaceClassification {
    pub all_faces: Vec<[u32; 3]>,
    pub front_faces: HashSet<usize>,
    pub back_faces: HashSet<usize>,
    pub silhouette_faces: Vec<usize>,
}

/// Face `g` is the first face that has edge `e`.
pub open spec fn first_face_with_edge(faces: Seq<[u32; 3]>, welded_vertices: Seq<u32>, g: int, e: WeldedEdge) -> bool {
    &&& 0 <= g < faces.len()
    &&& face_has_edge(faces, welded_vertices, g, e)
    &&& forall|h: int| 0 <= h < g ==> !#[trigger] face_has_edge(faces, welded_vertices, h, e)
}

/// Face `f` has edge `e`, whose first face is another face `g`, and exactly
/// one of `f` and `g` faces the observer.
pub open spec fn silhouette_edge(
    faces: Seq<[u32; 3]>,
    welded_vertices: Seq<u32>,
    front: Seq<bool>,
    f: int,
    g: int,
    e: WeldedEdge,
) -> bool {
    &&& 0 <= f < faces.len()
    &&& face_has_edge(faces, welded_vertices, f, e)
    &&& first_face_with_edge(faces, welded_vertices, g, e)
    &&& g != f
    &&& front[f] != front[g]
}

/// Face `x` is one of the two faces of a silhouette edge.
pub open spec fn on_silhouette(faces: Seq<[u32; 3]>, welded_vertices: Seq<u32>, front: Seq<bool>, x: int) -> bool {
    exists|f: int, g: int, e: WeldedEdge|
        #[trigger] silhouette_edge(faces, welded_vertices, front, f, g, e) && (x == f || x == g)
}

/// A silhouette edge found by a scan that has passed the faces before
/// `face` and the first `k` edges of `face`.
pub open spec fn silhouette_edge_before(
    faces: Seq<[u32; 3]>,
    welded_vertices: Seq<u32>,
    front: Seq<bool>,
    face: int,
    k: int,
    f: int,
    g: int,
    e: WeldedEdge,
) -> bool {
    &&& silhouette_edge(faces, welded_vertices, front, f, g, e)
    &&& (f < face || (f == face && face_edges(faces[f], welded_vertices).take(k).contains(e)))
}

/// The faces of the silhouette edges found so far.
pub open spec fn found_silhouette(
    set: Set<usize>,
    faces: Seq<[u32; 3]>,
    welded_vertices: Seq<u32>,
    front: Seq<bool>,
    face: int,
    k: int,
) -> bool {
    &&& forall|x: usize| #[trigger] set.contains(x) ==> x < faces.len()
    &&& forall|x: usize|
        #[trigger] set.contains(x) <==> exists|f: int, g: int, e: WeldedEdge|
            #[trigger] silhouette_edge_before(faces, welded_vertices, front, face, k, f, g, e) && (x == f
                || x == g)
}

/// Classifies the faces from the faces that face the observer: the front
/// faces, the other faces below `triangle_count`, and the silhouette faces
/// (see `on_silhouette`) in increasing order.
pub fn classify_faces_by_facing(
    all_faces: Vec<[u32; 3]>,
    front_facing: &[bool],
    triangle_count: usize,
    welded_vertices: &[u32],
) -> (classification: FaceClassification)
    requires
        front_facing@.len() == all_faces@.len(),
        faces_in_range(all_faces@, welded_vertices@),
    ensures
        classification.all_faces@ == all_faces@,
        forall|x: usize| #[trigger]
            classification.front_faces@.contains(x) <==> x < all_faces@.len() && front_facing@[x as int],
        forall|x: usize| #[trigger]
            classification.back_faces@.contains(x) <==> x < triangle_count
                && !classification.front_faces@.contains(x),
        forall|i: int, j: int|
            0 <= i < j < classification.silhouette_faces@.len() ==> classification.silhouette_faces@[i]
                < classification.silhouette_faces@[j],
        forall|x: usize|
            classification.silhouette_faces@.contains(x) <==> on_silhouette(
                all_faces@,
                welded_vertices@,
                front_facing@,
                x as int,
            ),
{
    let ghost faces = all_faces@;
    let ghost wv = welded_vertices@;
    let ghost front = front_facing@;
    let n = all_faces.len();
    let mut front_faces_set: HashSet<usize> = HashSet::with_capacity(n);
    let mut face_id: usize = 0;
    while face_id < n
        invariant
            n == faces.len(),
            front == front_facing@,
            front.len() == n,
            face_id <= n,
            forall|x: usize| #[trigger]
                front_faces_set@.contains(x) <==> x < face_id && front[x as int],
        decreases n - face_id,
    {
        if front_facing[face_id] {
            front_faces_set.insert(face_id);
        }
        face_id += 1;
    }
    let mut back_faces_set: HashSet<usize> = HashSet::new();
    let mut face_id: usize = 0;
    while face_id < triangle_count
        invariant
            face_id <= triangle_count,
            forall|x: usize| #[trigger]
                back_faces_set@.contains(x) <==> x < face_id && !front_faces_set@.contains(x),
        decreases triangle_count - face_id,
    {
        if !front_faces_set.contains(&face_id) {
            back_faces_set.insert(face_id);
        }
        face_id += 1;
    }
    let edge_owner = build_edge_owner_map(all_faces.as_slice(), welded_vertices);
    let mut silhouette_set: HashSet<usize> = HashSet::new();
    let mut current_face: usize = 0;
    proof {
        assert(found_silhouette(silhouette_set@, faces, wv, front, 0, 0));
    }
    while current_face < n
        invariant
            faces == all_faces@,
            wv == welded_vertices@,
            front == front_facing@,
            n == faces.len(),
            front.len() == n,
            faces_in_range(faces, wv),
            owns_first_faces(edge_owner@, faces, wv, n as int),
            current_face <= n,
            found_silhouette(silhouette_set@, faces, wv, front, current_face as int, 0),
            forall|x: usize| #[trigger]
                front_faces_set@.contains(x) <==> x < n && front[x as int],
        decreases n - current_face,
    {
        let corners = all_faces[current_face];
        proof {
            assert((faces[current_face as int][0] as int) < wv.len());
            assert((faces[current_face as int][1] as int) < wv.len());
            assert((faces[current_face as int][2] as int) < wv.len());
        }
        let welded_vertex_a = WeldedVertex { id: welded_vertices[corners[0] as usize] };
        let welded_vertex_b = WeldedVertex { id: welded_vertices[corners[1] as usize] };
        let welded_vertex_c = WeldedVertex { id: welded_vertices[corners[2] as usize] };
        let edges = [
            WeldedEdge::new(welded_vertex_a, welded_vertex_b),
            WeldedEdge::new(welded_vertex_b, welded_vertex_c),
            WeldedEdge::new(welded_vertex_c, welded_vertex_a),
        ];
        let ghost edge_seq = face_edges(faces[current_face as int], wv);
        proof {
            assert(edges@ =~= edge_seq);
            assert(found_silhouette(silhouette_set@, faces, wv, front, current_face as int, 0));
        }
        let mut k: usize = 0;
        while k < 3
            invariant
                faces == all_faces@,
                wv == welded_vertices@,
                front == front_facing@,
                n == faces.len(),
                front.len() == n,
                owns_first_faces(edge_owner@, faces, wv, n as int),
                current_face < n,
                edges@ == edge_seq,
                edge_seq == face_edges(faces[current_face as int], wv),
                k <= 3,
                found_silhouette(silhouette_set@, faces, wv, front, current_face as int, k as int),
                forall|x: usize| #[trigger]
                    front_faces_set@.contains(x) <==> x < n && front[x as int],
            decreases 3 - k,
        {
            let welded_edge = edges[k];
            let ghost before = silhouette_set@;
            proof {
                assert(edge_seq[k as int] == welded_edge);
                assert(face_has_edge(faces, wv, current_face as int, welded_edge));
                assert(edge_owner@.contains_key(edge_key(welded_edge)));
            }
            let key = welded_edge.key();
            match edge_owner.get(&key) {
                Some(adjacent) => {
                    let adjacent_face = *adjacent;
                    proof {
                        let (f2, e2) = choose|f2: int, e2: WeldedEdge|
                            0 <= f2 < n && #[trigger] face_has_edge(faces, wv, f2, e2) && edge_key(e2) == key
                                && edge_owner@[key] == f2 && forall|g: int|
                                0 <= g < f2 ==> !#[trigger] face_has_edge(faces, wv, g, e2);
                        crate::fixed_func::welding::lemma_edge_key_injective(e2, welded_edge);
                        assert(first_face_with_edge(faces, wv, adjacent_face as int, welded_edge));
                    }
                    if adjacent_face != current_face {
                        let is_front_current = front_faces_set.contains(&current_face);
                        let is_front_adjacent = front_faces_set.contains(&adjacent_face);
                        if is_front_current != is_front_adjacent {
                            silhouette_set.insert(current_face);
                            silhouette_set.insert(adjacent_face);
                            proof {
                                assert(silhouette_edge(
                                    faces,
                                    wv,
                                    front,
                                    current_face as int,
                                    adjacent_face as int,
                                    welded_edge,
                                ));
                            }
                        }
                    }
                    proof {
                        lemma_found_step(
                            before,
                            silhouette_set@,
                            faces,
                            wv,
                            front,
                            current_face,
                            k as int,
                            adjacent_face,
                            welded_edge,
                        );
                    }
                },
                None => {
                    proof {
                        assert(false);
                    }
                },
            }
            k += 1;
        }
        proof {
            lemma_found_next_face(silhouette_set@, faces, wv, front, current_face as int);
        }
        current_face += 1;
    }
    let mut silhouette_faces: Vec<usize> = Vec::new();
    let mut x: usize = 0;
    while x < n
        invariant
            n == faces.len(),
            x <= n,
            found_silhouette(silhouette_set@, faces, wv, front, n as int, 0),
            forall|i: int, j: int|
                0 <= i < j < silhouette_faces@.len() ==> silhouette_faces@[i] < silhouette_faces@[j],
            forall|i: int| 0 <= i < silhouette_faces@.len() ==> silhouette_faces@[i] < x,
            forall|y: usize|
                silhouette_faces@.contains(y) <==> y < x && silhouette_set@.contains(y),
        decreases n - x,
    {
        let ghost before = silhouette_faces@;
        if silhouette_set.contains(&x) {
            silhouette_faces.push(x);
        }
        proof {
            assert forall|y: usize| silhouette_faces@.contains(y) <==> y < x + 1 && silhouette_set@.contains(y) by {
                if before.contains(y) {
                    let i = choose|i: int| 0 <= i < before.len() && before[i] == y;
                    assert(silhouette_faces@[i] == y);
                }
                if silhouette_faces@.contains(y) && y != x {
                    let i = choose|i: int| 0 <= i < silhouette_faces@.len() && silhouette_faces@[i] == y;
                    assert(before[i] == y);
                }
                if y == x && silhouette_set@.contains(y) {
                    assert(silhouette_faces@[before.len() as int] == y);
                }
            }
        }
        x += 1;
    }
    proof {
        assert forall|y: usize|
            silhouette_faces@.contains(y) <==> on_silhouette(faces, wv, front, y as int) by {
            if on_silhouette(faces, wv, front, y as int) {
                let (f, g, e) = choose|f: int, g: int, e: WeldedEdge|
                    #[trigger] silhouette_edge(faces, wv, front, f, g, e) && (y == f || y == g);
                assert(silhouette_edge_before(faces, wv, front, n as int, 0, f, g, e));
            }
            if silhouette_set@.contains(y) {
                let (f, g, e) = choose|f: int, g: int, e: WeldedEdge|
                    #[trigger] silhouette_edge_before(faces, wv, front, n as int, 0, f, g, e) && (y == f || y == g);
                assert(silhouette_edge(faces, wv, front, f, g, e));
            }
        }
    }
    FaceClassification {
        all_faces,
        front_faces: front_faces_set,
        back_faces: back_faces_set,
        silhouette_faces,
    }
}

/// One more edge of the current face: the set grows by that edge's faces
/// exactly when it is a silhouette edge.
proof fn lemma_found_step(
    before: Set<usize>,
    after: Set<usize>,
    faces: Seq<[u32; 3]>,
    wv: Seq<u32>,
    front: Seq<bool>,
    face: usize,
    k: int,
    adjacent: usize,
    e: WeldedEdge,
)
    requires
        face < faces.len(),
        0 <= k < 3,
        face_edges(faces[face as int], wv)[k] == e,
        found_silhouette(before, faces, wv, front, face as int, k),
        first_face_with_edge(faces, wv, adjacent as int, e),
        silhouette_edge(faces, wv, front, face as int, adjacent as int, e) ==> after == before.insert(face).insert(
            adjacent,
        ),
        !silhouette_edge(faces, wv, front, face as int, adjacent as int, e) ==> after == before,
    ensures
        found_silhouette(after, faces, wv, front, face as int, k + 1),
{
    let face_i = face as int;
    let adj = adjacent as int;
    let edges = face_edges(faces[face_i], wv);
    assert(edges.take(k + 1) =~= edges.take(k).push(e));
    assert forall|x: usize| #[trigger] after.contains(x) <==> exists|f: int, g: int, e2: WeldedEdge|
        #[trigger] silhouette_edge_before(faces, wv, front, face_i, k + 1, f, g, e2) && (x == f || x == g) by {
        if before.contains(x) {
            let (f, g, e2) = choose|f: int, g: int, e2: WeldedEdge|
                #[trigger] silhouette_edge_before(faces, wv, front, face_i, k, f, g, e2) && (x == f || x == g);
            assert(silhouette_edge_before(faces, wv, front, face_i, k + 1, f, g, e2));
        }
        if silhouette_edge(faces, wv, front, face_i, adj, e) && (x == face || x == adjacent) {
            assert(edges.take(k + 1).contains(e)) by {
                assert(edges.take(k + 1)[k] == e);
            }
            assert(silhouette_edge_before(faces, wv, front, face_i, k + 1, face_i, adj, e));
        }
        if exists|f: int, g: int, e2: WeldedEdge|
            #[trigger] silhouette_edge_before(faces, wv, front, face_i, k + 1, f, g, e2) && (x == f || x == g) {
            let (f, g, e2) = choose|f: int, g: int, e2: WeldedEdge|
                #[trigger] silhouette_edge_before(faces, wv, front, face_i, k + 1, f, g, e2) && (x == f || x == g);
            if f < face_i || edges.take(k).contains(e2) {
                assert(silhouette_edge_before(faces, wv, front, face_i, k, f, g, e2));
            } else {
                let i = choose|i: int| 0 <= i < edges.take(k + 1).len() && #[trigger] edges.take(k + 1)[i] == e2;
                if i < k {
                    assert(edges.take(k)[i] == e2);
                }
                assert(e2 == e);
                // the first face of an edge is unique
                if g < adj {
                    assert(!face_has_edge(faces, wv, g, e));
                } else if adj < g {
                    assert(!face_has_edge(faces, wv, adj, e));
                }
                assert(g == adj);
            }
        }
    }
    assert forall|x: usize| #[trigger] after.contains(x) implies x < faces.len() by {
        if !before.contains(x) {
            assert(silhouette_edge(faces, wv, front, face_i, adj, e));
            assert(x == face || x == adjacent);
        }
    }
}

/// Having passed all three edges of a face is having passed the face.
proof fn lemma_found_next_face(set: Set<usize>, faces: Seq<[u32; 3]>, wv: Seq<u32>, front: Seq<bool>, face: int)
    requires
        0 <= face < faces.len(),
        found_silhouette(set, faces, wv, front, face, 3),
    ensures
        found_silhouette(set, faces, wv, front, face + 1, 0),
{
    let edges = face_edges(faces[face], wv);
    assert(edges.take(3) =~= edges);
    assert forall|x: usize| #[trigger] set.contains(x) <==> exists|f: int, g: int, e: WeldedEdge|
        #[trigger] silhouette_edge_before(faces, wv, front, face + 1, 0, f, g, e) && (x == f || x == g) by {
        if set.contains(x) {
            let (f, g, e) = choose|f: int, g: int, e: WeldedEdge|
                #[trigger] silhouette_edge_before(faces, wv, front, face, 3, f, g, e) && (x == f || x == g);
            assert(silhouette_edge_before(faces, wv, front, face + 1, 0, f, g, e));
        }
        if exists|f: int, g: int, e: WeldedEdge|
            #[trigger] silhouette_edge_before(faces, wv, front, face + 1, 0, f, g, e) && (x == f || x == g) {
            let (f, g, e) = choose|f: int, g: int, e: WeldedEdge|
                #[trigger] silhouette_edge_before(faces, wv, front, face + 1, 0, f, g, e) && (x == f || x == g);
            if f == face {
                assert(face_has_edge(faces, wv, f, e));
                assert(edges.take(3).contains(e));
            }
            assert(silhouette_edge_before(faces, wv, front, face, 3, f, g, e));
        }
    }
}

} // verus!
