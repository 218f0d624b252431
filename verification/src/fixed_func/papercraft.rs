//! Edge bookkeeping for laying a child triangle against its parent in a
//! papercraft unfolding.
use vstd::prelude::*;
use crate::fixed_func::topology::{welded_eq, WeldedEdge, WeldedVertex};

verus! {

/// The local edge `local_edge` of a triangle runs along `welded_edge`, in
/// one of its two directions.
pub open spec fn local_edge_on_welded_edge(
    welded_vertices: [WeldedVertex; 3],
    local_edge: (u8, u8),
    welded_edge: WeldedEdge,
) -> bool {
    let a = welded_vertices[local_edge.0 as int];
    let b = welded_vertices[local_edge.1 as int];
    (a == welded_edge.vertex_a && b == welded_edge.vertex_b) || (a == welded_edge.vertex_b && b
        == welded_edge.vertex_a)
}

/// The local edge oriented like the welded edge: unchanged when its first
/// corner is the welded edge's first vertex, else reversed.
pub fn align_to_welded_edge(
    parent_triangle_welded_vertices: &[WeldedVertex; 3],
    local_edge: (u8, u8),
    welded_edge: WeldedEdge,
) -> (aligned: (u8, u8))
    requires
        local_edge.0 < 3,
        local_edge.1 < 3,
        local_edge_on_welded_edge(*parent_triangle_welded_vertices, local_edge, welded_edge),
    ensures
        parent_triangle_welded_vertices[aligned.0 as int] == welded_edge.vertex_a,
        parent_triangle_welded_vertices[aligned.1 as int] == welded_edge.vertex_b,
        aligned == local_edge || aligned == (local_edge.1, local_edge.0),
        parent_triangle_welded_vertices[local_edge.0 as int] == welded_edge.vertex_a ==> aligned == local_edge,
{
    let welded_vertex_a = parent_triangle_welded_vertices[local_edge.0 as usize];
    let welded_vertex_b = parent_triangle_welded_vertices[local_edge.1 as usize];
    if welded_eq(welded_vertex_a, welded_edge.vertex_a) && welded_eq(welded_vertex_b, welded_edge.vertex_b) {
        (local_edge.0, local_edge.1)
    } else {
        (local_edge.1, local_edge.0)
    }
}

} // verus!
