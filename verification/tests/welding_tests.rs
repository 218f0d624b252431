use bath::geometry::welding::{weld_for_smoothing_topo, welded_neighbors};

fn sorted(mut v: Vec<usize>) -> Vec<usize> {
    v.sort();
    v
}

#[test]
fn two_triangles_sharing_an_edge_weld_into_four_vertices() {
    let a = (0, 0, 0);
    let b = (1, 0, 0);
    let c = (0, 1, 0);
    let d = (1, 1, 0);
    let (ids, neighbors) = weld_for_smoothing_topo(&[a, b, c, c, b, d]);
    assert_eq!(ids, vec![0, 1, 2, 2, 1, 3]);
    assert_eq!(neighbors.len(), 4);
    assert_eq!(sorted(neighbors[0].clone()), vec![1, 2]);
    assert_eq!(sorted(neighbors[1].clone()), vec![0, 2, 3]);
    assert_eq!(sorted(neighbors[2].clone()), vec![0, 1, 3]);
    assert_eq!(sorted(neighbors[3].clone()), vec![1, 2]);
}

#[test]
fn a_vertex_is_not_its_own_neighbour_and_neighbours_are_listed_once() {
    let neighbors = welded_neighbors(&[0, 0, 1, 1, 0, 0], 2);
    assert_eq!(neighbors, vec![vec![1], vec![0]]);
}

#[test]
fn an_unfinished_triangle_adds_no_neighbours() {
    let neighbors = welded_neighbors(&[0, 1, 2, 3, 4], 5);
    assert_eq!(sorted(neighbors[0].clone()), vec![1, 2]);
    assert!(neighbors[3].is_empty());
    assert!(neighbors[4].is_empty());
}

#[test]
fn no_vertices_no_topology() {
    let (ids, neighbors) = weld_for_smoothing_topo(&[]);
    assert!(ids.is_empty());
    assert!(neighbors.is_empty());
}

#[test]
fn neighbours_are_listed_in_the_order_first_met() {
    let neighbors = welded_neighbors(&[0, 1, 2, 2, 1, 3], 4);
    assert_eq!(neighbors, vec![vec![1, 2], vec![0, 2, 3], vec![1, 0, 3], vec![1, 2]]);
}
