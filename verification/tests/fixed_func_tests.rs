use bath::fixed_func::dsu::{
    build_dual_graph, build_parent_tree, collect_subtree_triangles, dual_edge_sorting_order, DisjointSetUnion, DualEdge,
    ParentLink,
};
use bath::fixed_func::deprecated::{local_edge_index_for_welded_edge, welded_edge_for_welded_face_edge};
use bath::fixed_func::immediate_mode3d::cell_viewport;
use bath::fixed_func::silhouette::pascal_pass;
use bath::fixed_func::silhouette_util::{indices_for_triangle, sample_lum};
use bath::fixed_func::papercraft::align_to_welded_edge;
use bath::fixed_func::papercraft_gore::{find_and_update_parent_face_for_target_face, traverse_edge_path_child_to_parent};
use bath::fixed_func::topology;
use bath::fixed_func::topology_geometry_refactor::classify_faces_by_facing;
use bath::fixed_func::welding::{build_edge_owner_map, collect_welded_vertices, WeldedEdge, WeldedVertex};

#[test]
fn dsu_union_merges_and_reports_it() {
    let mut dsu = DisjointSetUnion::new(4);
    assert!(dsu.union(0, 1));
    assert_eq!(dsu.find(1), 0);
    assert!(!dsu.union(1, 0));
    assert!(dsu.union(2, 3));
    assert_eq!(dsu.find(3), 2);
    // equal ranks: the first argument's representative wins
    assert!(dsu.union(3, 1));
    assert_eq!(dsu.find(0), 2);
    assert_eq!(dsu.find(1), 2);
}

#[test]
fn dsu_higher_rank_wins() {
    let mut dsu = DisjointSetUnion::new(3);
    assert!(dsu.union(0, 1));
    assert!(dsu.union(2, 0));
    assert_eq!(dsu.find(2), 0);
}

#[test]
fn dsu_find_on_singletons_is_identity() {
    let mut dsu = DisjointSetUnion::new(3);
    for i in 0..3 {
        assert_eq!(dsu.find(i), i);
    }
}

#[test]
fn subtree_is_collected_depth_first_last_child_first() {
    let children = vec![vec![1, 2], vec![3], vec![], vec![]];
    assert_eq!(collect_subtree_triangles(0, &children), vec![0, 2, 1, 3]);
    assert_eq!(collect_subtree_triangles(1, &children), vec![1, 3]);
    assert_eq!(collect_subtree_triangles(2, &children), vec![2]);
}

#[test]
fn subtree_of_a_deeper_tree() {
    let children = vec![vec![1, 4], vec![2, 3], vec![], vec![], vec![5], vec![]];
    assert_eq!(collect_subtree_triangles(0, &children), vec![0, 4, 5, 1, 3, 2]);
}

#[test]
fn parent_link_default_is_a_root() {
    let link = ParentLink::default();
    assert!(link.parent.is_none());
    assert!(link.parent_local_edge.is_none());
    assert!(link.child_local_edge.is_none());
    assert!(link.welded_edge.is_none());
}

#[test]
fn viewport_cells_count_rows_from_the_bottom() {
    let v = cell_viewport(5, 3, 2, 300, 200);
    assert_eq!((v.x, v.y, v.w, v.h), (200, 0, 100, 100));
    let v = cell_viewport(0, 3, 2, 300, 200);
    assert_eq!((v.x, v.y, v.w, v.h), (0, 100, 100, 100));
}

#[test]
fn viewport_division_truncates_toward_zero() {
    let v = cell_viewport(-1, 2, 2, 10, 11);
    assert_eq!((v.x, v.y, v.w, v.h), (-5, 5, 5, 5));
    let v = cell_viewport(7, -2, 3, 10, 9);
    assert_eq!((v.x, v.y, v.w, v.h), (-5, 15, -5, 3));
}

#[test]
fn align_keeps_or_reverses_the_local_edge() {
    let tri = [topology::WeldedVertex { id: 5 }, topology::WeldedVertex { id: 7 }, topology::WeldedVertex { id: 9 }];
    let edge = topology::WeldedEdge::new(topology::WeldedVertex { id: 7 }, topology::WeldedVertex { id: 5 });
    assert_eq!(align_to_welded_edge(&tri, (1, 0), edge), (0, 1));
    assert_eq!(align_to_welded_edge(&tri, (0, 1), edge), (0, 1));
    let edge = topology::WeldedEdge::new(topology::WeldedVertex { id: 9 }, topology::WeldedVertex { id: 7 });
    assert_eq!(align_to_welded_edge(&tri, (2, 1), edge), (1, 2));
}

#[test]
fn topology_edges_are_sorted_and_corners_opposed() {
    let e = topology::WeldedEdge::new(topology::WeldedVertex { id: 9 }, topology::WeldedVertex { id: 2 });
    assert_eq!((e.vertex_a.id, e.vertex_b.id), (2, 9));
    assert_eq!(topology::edge_opposing_vertex((0, 1)), 2);
    assert_eq!(topology::edge_opposing_vertex((1, 2)), 0);
    assert_eq!(topology::edge_opposing_vertex((2, 0)), 1);
    assert!(topology::welded_eq(topology::WeldedVertex { id: 3 }, topology::WeldedVertex { id: 3 }));
    assert!(!topology::welded_eq(topology::WeldedVertex { id: 3 }, topology::WeldedVertex { id: 4 }));
}

#[test]
fn weld_ids_follow_first_appearance() {
    let positions = vec![(0, 0, 0), (1, 0, 0), (0, 0, 0), (-5, 7, 2), (1, 0, 0), (i32::MIN, i32::MAX, 0)];
    assert_eq!(collect_welded_vertices(&positions), vec![0, 1, 0, 2, 1, 3]);
    assert!(collect_welded_vertices(&[]).is_empty());
}

#[test]
fn edge_keys_put_the_ids_side_by_side() {
    let e = WeldedEdge::new(WeldedVertex { id: 3 }, WeldedVertex { id: 1 });
    assert_eq!(e.key(), (1u64 << 32) + 3);
    assert_eq!(bath::fixed_func::welding::edge_opposing_vertex((0, 2)), 1);
    assert!(bath::fixed_func::welding::welded_eq(WeldedVertex { id: 8 }, WeldedVertex { id: 8 }));
}

#[test]
fn edge_owner_is_the_first_face_with_the_edge() {
    let faces = vec![[0u32, 1, 2], [2, 1, 3]];
    let welded = vec![0u32, 1, 2, 3];
    let owners = build_edge_owner_map(&faces, &welded);
    assert_eq!(owners.len(), 5);
    let key = |a: u32, b: u32| WeldedEdge::new(WeldedVertex { id: a }, WeldedVertex { id: b }).key();
    assert_eq!(owners[&key(0, 1)], 0);
    assert_eq!(owners[&key(1, 2)], 0);
    assert_eq!(owners[&key(2, 0)], 0);
    assert_eq!(owners[&key(1, 3)], 1);
    assert_eq!(owners[&key(3, 2)], 1);
}

#[test]
fn welded_vertices_make_distinct_corners_share_edges() {
    // corners 3 and 4 sit where corners 1 and 2 sit
    let faces = vec![[0u32, 1, 2], [3, 4, 5]];
    let welded = vec![0u32, 1, 2, 1, 2, 3];
    let owners = build_edge_owner_map(&faces, &welded);
    assert_eq!(owners.len(), 5);
    let key = |a: u32, b: u32| WeldedEdge::new(WeldedVertex { id: a }, WeldedVertex { id: b }).key();
    assert_eq!(owners[&key(1, 2)], 0);
    assert_eq!(owners[&key(2, 3)], 1);
}

#[test]
fn classification_finds_front_back_and_silhouette() {
    let faces = vec![[0u32, 1, 2], [2, 1, 3], [0, 3, 4]];
    let welded = vec![0u32, 1, 2, 3, 4];
    let c = classify_faces_by_facing(faces.clone(), &[true, false, true], 4, &welded);
    assert_eq!(c.all_faces, faces);
    let mut front: Vec<usize> = c.front_faces.iter().copied().collect();
    front.sort();
    assert_eq!(front, vec![0, 2]);
    let mut back: Vec<usize> = c.back_faces.iter().copied().collect();
    back.sort();
    assert_eq!(back, vec![1, 3]);
    // face 1 meets face 0 across edge 1-2; face 2 meets no earlier face
    assert_eq!(c.silhouette_faces, vec![0, 1]);
}

#[test]
fn classification_without_facing_changes_has_no_silhouette() {
    let faces = vec![[0u32, 1, 2], [2, 1, 3]];
    let welded = vec![0u32, 1, 2, 3];
    let c = classify_faces_by_facing(faces, &[false, false], 2, &welded);
    assert!(c.front_faces.is_empty());
    assert_eq!(c.back_faces.len(), 2);
    assert!(c.silhouette_faces.is_empty());
}

#[test]
fn gore_find_compresses_paths() {
    let mut parents = vec![0usize, 0, 1, 2];
    assert_eq!(find_and_update_parent_face_for_target_face(&mut parents, 3), 0);
    assert_eq!(parents, vec![0, 0, 0, 0]);
}

#[test]
fn gore_edge_path_ends_at_a_parent_face() {
    let is_parent = vec![true, false, false, true];
    let path = vec![None, Some((0usize, (1u16, 2u16))), Some((1, (3, 4))), None];
    assert_eq!(traverse_edge_path_child_to_parent(2, &is_parent, &path), 0);
    assert_eq!(traverse_edge_path_child_to_parent(3, &is_parent, &path), 3);
}

fn welded(ids: [usize; 3]) -> [topology::WeldedVertex; 3] {
    [
        topology::WeldedVertex { id: ids[0] },
        topology::WeldedVertex { id: ids[1] },
        topology::WeldedVertex { id: ids[2] },
    ]
}

#[test]
fn neighbors_link_later_triangles_to_the_first_owner() {
    let tris = vec![welded([0, 1, 2]), welded([2, 1, 3]), welded([3, 1, 4]), welded([0, 2, 5]), welded([2, 1, 3])];
    let neighbors = topology::neighbors_per_triangle(&tris);
    assert_eq!(
        neighbors,
        vec![
            [None, Some(4), Some(3)],
            [Some(0), Some(4), Some(4)],
            [Some(1), None, None],
            [Some(0), None, None],
            [Some(0), Some(1), Some(1)],
        ]
    );
}

#[test]
fn silhouette_takes_rims_and_their_front_neighbors() {
    let tris = vec![welded([0, 1, 2]), welded([2, 1, 3]), welded([3, 1, 4]), welded([0, 2, 5]), welded([2, 1, 3])];
    let neighbors = topology::neighbors_per_triangle(&tris);
    let silhouette = topology::silhouette_triangles(&tris, &neighbors, &[true, false, true, true, false]);
    let mut faces: Vec<usize> = silhouette.into_iter().collect();
    faces.sort();
    assert_eq!(faces, vec![0, 2, 3]);
    assert!(topology::silhouette_triangles(&tris, &neighbors, &[true; 5]).is_empty());
}

#[test]
fn welded_vertices_per_triangle_looks_up_ids() {
    let triangles = vec![[0usize, 1, 2], [2, 3, 0]];
    let ids = vec![7usize, 8, 7, 9];
    let welded_triangles = topology::welded_vertices_per_triangle(&triangles, &ids);
    assert_eq!(welded_triangles, vec![welded([7, 8, 7]), welded([7, 9, 7])]);
}

fn tv(id: usize) -> topology::WeldedVertex {
    topology::WeldedVertex { id }
}

fn te(a: usize, b: usize) -> topology::WeldedEdge {
    topology::WeldedEdge { vertex_a: tv(a), vertex_b: tv(b) }
}

fn dual(a: usize, b: usize, a_local: (u8, u8), b_local: (u8, u8), edge: (usize, usize)) -> DualEdge {
    DualEdge { triangle_a: a, triangle_b: b, triangle_a_local_edge: a_local, triangle_b_local_edge: b_local, welded_edge: te(edge.0, edge.1) }
}

fn dual_tuple(e: &DualEdge) -> (usize, usize, (u8, u8), (u8, u8), usize, usize) {
    (e.triangle_a, e.triangle_b, e.triangle_a_local_edge, e.triangle_b_local_edge, e.welded_edge.vertex_a.id, e.welded_edge.vertex_b.id)
}

fn link_tuple(l: &ParentLink) -> (Option<usize>, Option<(u8, u8)>, Option<(u8, u8)>, Option<(usize, usize)>) {
    (l.parent, l.parent_local_edge, l.child_local_edge, l.welded_edge.map(|e| (e.vertex_a.id, e.vertex_b.id)))
}

#[test]
fn dual_graph_pairs_each_shared_edge_with_its_first_triangle() {
    let triangles = [[tv(0), tv(1), tv(2)], [tv(2), tv(1), tv(3)], [tv(2), tv(3), tv(4)]];
    let graph = build_dual_graph(&triangles);
    let got: Vec<_> = graph.iter().map(dual_tuple).collect();
    assert_eq!(got, vec![(0, 1, (1, 2), (0, 1), 1, 2), (1, 2, (2, 0), (0, 1), 2, 3)]);
}

#[test]
fn dual_graph_of_a_lone_triangle_is_empty() {
    let triangles = [[tv(0), tv(1), tv(2)]];
    assert!(build_dual_graph(&triangles).is_empty());
}

#[test]
fn dual_edge_order_is_edge_then_lesser_then_greater_triangle() {
    let e = dual(7, 2, (0, 1), (1, 2), (3, 9));
    assert_eq!(dual_edge_sorting_order(&e), (3, 9, 2, 7));
}

#[test]
fn parent_tree_of_a_strip_links_each_triangle_to_the_previous() {
    let triangles = [[tv(0), tv(1), tv(2)], [tv(2), tv(1), tv(3)], [tv(2), tv(3), tv(4)]];
    let mut graph = build_dual_graph(&triangles);
    let (links, children) = build_parent_tree(3, &mut graph);
    assert_eq!(link_tuple(&links[0]), (None, None, None, None));
    assert_eq!(link_tuple(&links[1]), (Some(0), Some((1, 2)), Some((0, 1)), Some((1, 2))));
    assert_eq!(link_tuple(&links[2]), (Some(1), Some((2, 0)), Some((0, 1)), Some((2, 3))));
    assert_eq!(children, vec![vec![1], vec![2], vec![]]);
}

#[test]
fn parent_tree_sorts_the_graph_and_skips_the_edge_closing_a_cycle() {
    let e_a = dual(1, 2, (0, 1), (1, 2), (5, 6));
    let e_b = dual(2, 0, (1, 2), (2, 0), (3, 4));
    let e_c = dual(0, 1, (0, 1), (0, 1), (3, 9));
    let mut graph = vec![e_a, e_b, e_c];
    let (links, children) = build_parent_tree(4, &mut graph);
    let order: Vec<_> = graph.iter().map(dual_tuple).collect();
    assert_eq!(order, vec![dual_tuple(&e_b), dual_tuple(&e_c), dual_tuple(&e_a)]);
    assert_eq!(link_tuple(&links[0]), (None, None, None, None));
    assert_eq!(link_tuple(&links[1]), (Some(0), Some((0, 1)), Some((0, 1)), Some((3, 9))));
    // reached from triangle 0, which is the edge's second triangle
    assert_eq!(link_tuple(&links[2]), (Some(0), Some((2, 0)), Some((1, 2)), Some((3, 4))));
    assert_eq!(link_tuple(&links[3]), (None, None, None, None));
    assert_eq!(children, vec![vec![1, 2], vec![], vec![], vec![]]);
}

#[test]
fn parent_tree_roots_each_component_at_its_least_triangle() {
    let mut graph = vec![dual(3, 1, (0, 1), (1, 2), (4, 5)), dual(2, 0, (2, 0), (0, 1), (1, 2))];
    let (links, children) = build_parent_tree(4, &mut graph);
    assert_eq!(links[0].parent, None);
    assert_eq!(links[1].parent, None);
    assert_eq!(links[2].parent, Some(0));
    assert_eq!(links[3].parent, Some(1));
    assert_eq!(children, vec![vec![2], vec![3], vec![], vec![]]);
}

#[test]
fn parent_tree_keeps_the_first_of_two_edges_with_one_key() {
    let first = dual(0, 1, (0, 1), (2, 0), (1, 2));
    let second = dual(1, 0, (1, 2), (0, 1), (1, 2));
    let mut graph = vec![first, second];
    let (links, _) = build_parent_tree(2, &mut graph);
    assert_eq!(dual_tuple(&graph[0]), dual_tuple(&first));
    assert_eq!(link_tuple(&links[1]), (Some(0), Some((0, 1)), Some((2, 0)), Some((1, 2))));
}

#[test]
fn face_edges_are_ab_bc_ca_sorted() {
    let face = [tv(7), tv(3), tv(5)];
    let ids = |e: topology::WeldedEdge| (e.vertex_a.id, e.vertex_b.id);
    assert_eq!(ids(welded_edge_for_welded_face_edge(&face, 0)), (3, 7));
    assert_eq!(ids(welded_edge_for_welded_face_edge(&face, 1)), (3, 5));
    assert_eq!(ids(welded_edge_for_welded_face_edge(&face, 2)), (5, 7));
    assert_eq!(ids(welded_edge_for_welded_face_edge(&face, 9)), (5, 7));
}

#[test]
fn local_edge_index_finds_the_first_match_or_zero() {
    let face = [tv(7), tv(3), tv(5)];
    assert_eq!(local_edge_index_for_welded_edge(&face, te(3, 5)), 1);
    assert_eq!(local_edge_index_for_welded_edge(&face, te(5, 7)), 2);
    assert_eq!(local_edge_index_for_welded_edge(&face, te(3, 7)), 0);
    assert_eq!(local_edge_index_for_welded_edge(&face, te(1, 2)), 0);
    let degenerate = [tv(4), tv(4), tv(6)];
    assert_eq!(local_edge_index_for_welded_edge(&degenerate, te(4, 6)), 1);
}

#[test]
fn luminance_is_the_red_byte_inside_the_image_and_zero_outside() {
    // a 2 x 2 RGBA image; the red bytes are 10, 20, 30, 40
    let pixels = [10, 1, 1, 255, 20, 2, 2, 255, 30, 3, 3, 255, 40, 4, 4, 255];
    assert_eq!(sample_lum(&pixels, 2, 0, 0), 10);
    assert_eq!(sample_lum(&pixels, 2, 1, 0), 20);
    assert_eq!(sample_lum(&pixels, 2, 0, 1), 30);
    assert_eq!(sample_lum(&pixels, 2, 1, 1), 40);
    assert_eq!(sample_lum(&pixels, 2, 2, 0), 0);
    assert_eq!(sample_lum(&pixels, 2, 0, 2), 0);
    assert_eq!(sample_lum(&pixels, 2, -1, 0), 0);
    assert_eq!(sample_lum(&pixels, 0, 0, 0), 0);
}

#[test]
fn triangle_indices_come_from_the_buffer_or_run_on() {
    let indices = [4, 5, 6, 7, 8, 9];
    assert_eq!(indices_for_triangle(true, &indices, 1), (7, 8, 9));
    assert_eq!(indices_for_triangle(false, &indices, 1), (3, 4, 5));
    assert_eq!(indices_for_triangle(false, &[], 0), (0, 1, 2));
}

#[test]
fn blur_weights_are_rows_of_pascals_triangle() {
    assert_eq!(pascal_pass(2), &[1, 1]);
    assert_eq!(pascal_pass(3), &[1, 2, 1]);
    assert_eq!(pascal_pass(4), &[1, 3, 3, 1]);
    assert_eq!(pascal_pass(5), &[1, 4, 6, 4, 1]);
    assert_eq!(pascal_pass(9), &[1, 2, 1]);
    assert_eq!(pascal_pass(0), &[1, 2, 1]);
}

#[test]
fn back_triangles_are_the_others() {
    let front: std::collections::HashSet<usize> = [0, 2, 7].into_iter().collect();
    let mut back: Vec<usize> = topology::back_triangles(5, &front).into_iter().collect();
    back.sort();
    assert_eq!(back, vec![1, 3, 4]);
    assert!(topology::back_triangles(0, &front).is_empty());
}

#[test]
fn the_subtree_of_each_root_is_its_component() {
    let mut graph = vec![dual(3, 1, (0, 1), (1, 2), (4, 5)), dual(2, 0, (2, 0), (0, 1), (1, 2)), dual(4, 2, (0, 1), (0, 1), (6, 7))];
    let (links, children) = build_parent_tree(6, &mut graph);
    let roots: Vec<usize> = (0..6).filter(|&t| links[t].parent.is_none()).collect();
    assert_eq!(roots, vec![0, 1, 5]);
    let mut component_of_0 = collect_subtree_triangles(0, &children);
    component_of_0.sort();
    assert_eq!(component_of_0, vec![0, 2, 4]);
    let mut component_of_1 = collect_subtree_triangles(1, &children);
    component_of_1.sort();
    assert_eq!(component_of_1, vec![1, 3]);
    assert_eq!(collect_subtree_triangles(5, &children), vec![5]);
}

#[test]
fn triangles_sharing_one_edge_name_each_other() {
    let tris = vec![welded([0, 1, 2]), welded([2, 1, 3])];
    let neighbors = topology::neighbors_per_triangle(&tris);
    assert_eq!(neighbors, vec![[None, Some(1), None], [Some(0), None, None]]);
}
