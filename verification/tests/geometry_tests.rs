use bath::geometry::papercraft::{
    number_chart_vertices,
    build_chart_forest, chart_root_faces, find_shared_edges, union_find_find, union_find_union, SharedEdge,
};
use bath::geometry::unfold_uv::{build_patch_forest, face_neighbor_lists, DisjointSet};

fn edge(face_a: usize, face_b: usize, vertex_a: u16, vertex_b: u16) -> SharedEdge {
    SharedEdge { face_a, face_b, vertex_a, vertex_b }
}

#[test]
fn union_find_on_slices() {
    let mut parent: Vec<usize> = (0..5).collect();
    let mut rank = vec![0u8; 5];
    union_find_union(&mut parent, &mut rank, 0, 1);
    union_find_union(&mut parent, &mut rank, 2, 3);
    union_find_union(&mut parent, &mut rank, 3, 1);
    let r0 = union_find_find(&mut parent, 0);
    assert_eq!(union_find_find(&mut parent, 1), r0);
    assert_eq!(union_find_find(&mut parent, 2), r0);
    assert_eq!(union_find_find(&mut parent, 3), r0);
    assert_eq!(union_find_find(&mut parent, 4), 4);
    assert_eq!(r0, 2);
}

#[test]
fn chart_forest_links_faces_across_uncut_edges() {
    let edges = vec![edge(0, 1, 10, 11), edge(1, 2, 11, 12), edge(2, 3, 12, 13), edge(0, 2, 10, 12), edge(3, 0, 13, 10)];
    let cut = vec![false, true, false, false, false];
    let (links, roots, children) = build_chart_forest(4, &edges, &cut);
    assert_eq!(links, vec![None, Some((0, 10, 11)), Some((0, 10, 12)), Some((2, 12, 13))]);
    assert_eq!(roots, vec![true, false, false, false]);
    assert_eq!(children, vec![vec![1, 2], vec![], vec![3], vec![]]);
    assert_eq!(chart_root_faces(&links, &roots), vec![0, 0, 0, 0]);
}

#[test]
fn chart_forest_later_link_replaces_earlier_one() {
    let edges = vec![edge(0, 2, 1, 2), edge(1, 2, 3, 4)];
    let cut = vec![false, false];
    let (links, roots, children) = build_chart_forest(3, &edges, &cut);
    assert_eq!(links, vec![None, None, Some((1, 3, 4))]);
    assert_eq!(roots, vec![true, true, false]);
    assert_eq!(children, vec![vec![], vec![2], vec![]]);
    assert_eq!(chart_root_faces(&links, &roots), vec![0, 1, 1]);
}

#[test]
fn chart_forest_with_every_edge_cut() {
    let edges = vec![edge(0, 1, 0, 1), edge(1, 2, 1, 2)];
    let (links, roots, children) = build_chart_forest(3, &edges, &[true, true]);
    assert_eq!(links, vec![None, None, None]);
    assert_eq!(roots, vec![true, true, true]);
    assert_eq!(children, vec![Vec::<usize>::new(), vec![], vec![]]);
    assert_eq!(chart_root_faces(&links, &roots), vec![0, 1, 2]);
}

#[test]
fn chart_forest_of_no_faces() {
    let (links, roots, children) = build_chart_forest(0, &[], &[]);
    assert!(links.is_empty() && roots.is_empty() && children.is_empty());
}

#[test]
fn disjoint_set_union_reports_winner_and_loser() {
    let mut set = DisjointSet::new(4);
    assert_eq!(set.union(0, 1), (0, 1, 0));
    assert_eq!(set.union(2, 0), (0, 2, 0));
    assert_eq!(set.union(1, 2), (0, 0, 0));
    assert_eq!(set.component_size(2), 3);
    assert_eq!(set.component_size(3), 1);
    assert_eq!(set.find(1), 0);
}

#[test]
fn disjoint_set_sizes_add_up() {
    let mut set = DisjointSet::new(6);
    set.union(0, 1);
    set.union(2, 3);
    set.union(4, 5);
    set.union(1, 3);
    assert_eq!(set.component_size(0), 4);
    set.union(5, 0);
    assert_eq!(set.component_size(4), 6);
}

#[test]
fn patch_forest_respects_the_face_limit() {
    let edges = vec![edge(0, 1, 0, 1), edge(1, 2, 1, 2), edge(2, 3, 2, 3), edge(0, 2, 0, 2)];
    let cut = vec![false, false, false, false];
    let (links, roots, children) = build_patch_forest(4, &edges, &cut, Some(2));
    assert_eq!(links, vec![None, Some((0, 0, 1)), None, Some((2, 2, 3))]);
    assert_eq!(roots, vec![true, false, true, false]);
    assert_eq!(children, vec![vec![1], vec![], vec![3], vec![]]);
    assert_eq!(chart_root_faces(&links, &roots), vec![0, 0, 2, 2]);
}

#[test]
fn patch_forest_without_limit_joins_everything() {
    let edges = vec![edge(0, 1, 0, 1), edge(1, 2, 1, 2), edge(2, 3, 2, 3), edge(0, 2, 0, 2)];
    let cut = vec![false, false, false, false];
    let (links, roots, children) = build_patch_forest(4, &edges, &cut, None);
    assert_eq!(links, vec![None, Some((0, 0, 1)), Some((1, 1, 2)), Some((2, 2, 3))]);
    assert_eq!(roots, vec![true, false, false, false]);
    assert_eq!(children, vec![vec![1], vec![2], vec![3], vec![]]);
}

#[test]
fn patch_forest_skips_cut_edges() {
    let edges = vec![edge(0, 1, 0, 1), edge(1, 2, 1, 2)];
    let (links, _, _) = build_patch_forest(3, &edges, &[true, false], Some(10));
    assert_eq!(links, vec![None, None, Some((1, 1, 2))]);
}

#[test]
fn shared_edges_pair_each_face_with_the_first_owner() {
    assert_eq!(find_shared_edges(&[0, 1, 2, 2, 1, 3]), vec![edge(0, 1, 1, 2)]);
    assert_eq!(find_shared_edges(&[0, 1, 2, 1, 0, 3, 0, 1, 4]), vec![edge(0, 1, 0, 1), edge(0, 2, 0, 1)]);
}

#[test]
fn shared_edges_ignore_an_unfinished_triangle() {
    assert_eq!(find_shared_edges(&[0, 1, 2, 2, 1]), vec![]);
    assert_eq!(find_shared_edges(&[]), vec![]);
}

#[test]
fn face_neighbours_come_in_the_order_the_edges_are_found() {
    assert_eq!(face_neighbor_lists(&[0, 1, 2, 2, 1, 3]), vec![vec![1], vec![0]]);
    assert_eq!(face_neighbor_lists(&[0, 1, 2, 1, 0, 3, 0, 1, 4]), vec![vec![1, 2], vec![0], vec![0]]);
}

#[test]
fn a_triangle_folded_onto_itself_is_its_own_neighbour_twice() {
    assert_eq!(face_neighbor_lists(&[0, 0, 1]), vec![vec![0, 0]]);
    assert_eq!(face_neighbor_lists(&[]), Vec::<Vec<usize>>::new());
}

#[test]
fn chart_vertices_are_shared_within_a_chart_only() {
    let indices = vec![0u16, 1, 2, 2, 1, 3];
    assert_eq!(number_chart_vertices(&indices, &[0, 0]), (vec![0, 1, 2, 2, 1, 3], vec![0, 1, 2, 5]));
    assert_eq!(number_chart_vertices(&indices, &[0, 1]), (vec![0, 1, 2, 3, 4, 5], vec![0, 1, 2, 3, 4, 5]));
}
