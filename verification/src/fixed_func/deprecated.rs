use vstd::prelude::*;
use crate::fixed_func::topology::{WeldedEdge, WeldedVertex};

verus! {

/// The welded edge of local edge `edge` of a welded triangle: 0 is AB, 1 is
/// BC and any other number CA.
pub open spec fn face_edge(face: [WeldedVertex; 3], edge: usize) -> WeldedEdge {
    if edge == 0 {
        WeldedEdge::spec_new(face[0], face[1])
    } else if edge == 1 {
        WeldedEdge::spec_new(face[1], face[2])
    } else {
        WeldedEdge::spec_new(face[2], face[0])
    }
}

/// The welded edge of local edge `edge` of the triangle (see `face_edge`).
pub fn welded_edge_for_welded_face_edge(welded_face: &[WeldedVertex; 3], edge: usize) -> (welded: WeldedEdge)
    ensures
        welded == face_edge(*welded_face, edge),
{
    let (a, b) = match edge {
        0 => (welded_face[0], welded_face[1]),
        1 => (welded_face[1], welded_face[2]),
        _ => (welded_face[2], welded_face[0]),
    };
    WeldedEdge::new(a, b)
}

/// The first local edge (0, 1 or 2) of the triangle that is `key`; 0 when
/// none is.
pub fn local_edge_index_for_welded_edge(welded: &[WeldedVertex; 3], key: WeldedEdge) -> (index: usize)
    ensures
        index < 3,
        forall|j: usize| j < index ==> face_edge(*welded, j) != key,
        face_edge(*welded, index) == key || (index == 0 && forall|j: usize| j < 3 ==> face_edge(*welded, j) != key),
{
    let candidates = [
        WeldedEdge::new(welded[0], welded[1]),
        WeldedEdge::new(welded[1], welded[2]),
        WeldedEdge::new(welded[2], welded[0]),
    ];
    let mut i: usize = 0;
    while i < 3
        invariant
            i <= 3,
            candidates@ == seq![face_edge(*welded, 0), face_edge(*welded, 1), face_edge(*welded, 2)],
            forall|j: usize| j < i ==> face_edge(*welded, j) != key,
        decreases 3 - i,
    {
        if candidates[i] == key {
            return i;
        }
        i += 1;
    }
    0
}

} // verus!
