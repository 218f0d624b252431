use bath::collision_mask::pixel_perfect::{generate_concave_collision_polygons_pixel_perfect, Collision};
use bath::collision_mask_util::{
    compute_convex_hull_monotone_chain, compute_tile_grid_size, create_solidness_map, find_all_connected_regions,
    generate_collision_polygons, trace_region_contour, PixelPoint,
};

fn p(x: i64, y: i64) -> PixelPoint {
    PixelPoint { x, y }
}

fn rectangle_mask(width: usize, height: usize, x0: usize, x1: usize, y0: usize, y1: usize) -> Vec<u8> {
    let mut mask = vec![0u8; width * height];
    for y in y0..y1 {
        for x in x0..x1 {
            mask[y * width + x] = 1;
        }
    }
    mask
}

#[test]
fn tile_grid_size_rounds_up() {
    assert_eq!(compute_tile_grid_size(10, 10, 4), (3, 3));
    assert_eq!(compute_tile_grid_size(8, 8, 2), (4, 4));
    assert_eq!(compute_tile_grid_size(0, 5, 5), (0, 1));
    assert_eq!(compute_tile_grid_size(7, 1, 1), (7, 1));
}

#[test]
fn solidness_map_marks_tiles_with_a_set_pixel() {
    let mask = rectangle_mask(8, 8, 1, 5, 2, 6);
    let map = create_solidness_map(&mask, 8, 8, 4, 4, 2);
    assert_eq!(map, vec![0, 0, 0, 0, 1, 1, 1, 0, 1, 1, 1, 0, 0, 0, 0, 0]);
}

#[test]
fn solidness_map_ignores_values_other_than_one() {
    let mask = vec![2u8, 0, 0, 0];
    assert_eq!(create_solidness_map(&mask, 2, 2, 1, 1, 2), vec![0]);
}

#[test]
fn connected_regions_come_in_scan_order_breadth_first() {
    let map = vec![0u8, 0, 0, 0, 1, 1, 1, 0, 1, 1, 1, 0, 0, 0, 0, 0];
    let regions = find_all_connected_regions(&map, 4, 4);
    assert_eq!(regions, vec![vec![(0, 1), (1, 1), (0, 2), (2, 1), (1, 2), (2, 2)]]);
}

#[test]
fn diagonal_tiles_are_separate_regions() {
    let map = vec![1u8, 0, 0, 1];
    let regions = find_all_connected_regions(&map, 2, 2);
    assert_eq!(regions, vec![vec![(0, 0)], vec![(1, 1)]]);
}

#[test]
fn region_contour_follows_the_outline() {
    let region = vec![(0usize, 1usize), (1, 1), (0, 2), (2, 1), (1, 2), (2, 2)];
    let contour = trace_region_contour(&region, 2, 8);
    assert_eq!(contour, vec![p(2, 6), p(4, 6), p(4, 6), p(4, 4), p(2, 4), p(0, 2)]);
}

#[test]
fn empty_region_has_no_contour() {
    assert!(trace_region_contour(&[], 2, 8).is_empty());
}

#[test]
fn single_tile_region_has_no_contour() {
    assert!(trace_region_contour(&[(3, 3)], 2, 8).is_empty());
}

#[test]
fn convex_hull_of_the_contour() {
    let contour = vec![p(2, 6), p(4, 6), p(4, 6), p(4, 4), p(2, 4), p(0, 2)];
    assert_eq!(compute_convex_hull_monotone_chain(&contour), vec![p(0, 2), p(4, 4), p(4, 6), p(2, 6)]);
}

#[test]
fn convex_hull_drops_interior_and_colinear_points() {
    let points = vec![p(0, 0), p(2, 0), p(4, 0), p(4, 4), p(0, 4), p(2, 2)];
    assert_eq!(compute_convex_hull_monotone_chain(&points), vec![p(0, 0), p(4, 0), p(4, 4), p(0, 4)]);
}

#[test]
fn convex_hull_of_fewer_than_three_points_is_the_input() {
    let points = vec![p(5, 1), p(-3, 2)];
    assert_eq!(compute_convex_hull_monotone_chain(&points), points);
}

#[test]
fn collision_polygons_of_a_rectangle() {
    let mask = rectangle_mask(8, 8, 1, 5, 2, 6);
    let polygons = generate_collision_polygons(&mask, (8, 8), (4, 4), 2);
    assert_eq!(polygons, vec![vec![p(0, 2), p(4, 4), p(4, 6), p(2, 6)]]);
}

#[test]
fn collision_polygons_of_an_image_whose_height_is_not_a_multiple_of_the_tile() {
    let mask = rectangle_mask(8, 7, 1, 5, 2, 6);
    let polygons = generate_collision_polygons(&mask, (8, 7), (4, 4), 2);
    assert_eq!(polygons, vec![vec![p(0, 1), p(4, 3), p(4, 5), p(2, 5)]]);
}

#[test]
fn collision_polygons_of_an_empty_mask() {
    let mask = vec![0u8; 16];
    assert!(generate_collision_polygons(&mask, (4, 4), (2, 2), 2).is_empty());
}

#[test]
fn pixel_perfect_square_keeps_its_corners() {
    let mask = rectangle_mask(5, 5, 1, 4, 1, 4);
    let polygons = generate_concave_collision_polygons_pixel_perfect(&mask, (5, 5), 1);
    assert_eq!(polygons, vec![vec![(1, 1), (3, 1), (3, 3), (1, 3)]]);
}

#[test]
fn pixel_perfect_full_image() {
    let mask = vec![1u8; 4];
    let polygons = generate_concave_collision_polygons_pixel_perfect(&mask, (2, 2), 1);
    assert_eq!(polygons, vec![vec![(0, 0), (1, 0), (1, 1), (0, 1)]]);
}

#[test]
fn pixel_perfect_lone_pixels_give_no_polygon() {
    let mask = vec![1u8, 0, 0, 1];
    assert!(generate_concave_collision_polygons_pixel_perfect(&mask, (2, 2), 1).is_empty());
}

#[test]
fn pixel_perfect_strip() {
    let mask = vec![1u8; 6];
    let polygons = generate_concave_collision_polygons_pixel_perfect(&mask, (3, 2), 1);
    assert_eq!(polygons, vec![vec![(0, 0), (2, 0), (2, 1), (0, 1)]]);
}

#[test]
fn pixel_perfect_two_regions_in_scan_order() {
    let mut mask = vec![0u8; 6 * 3];
    for (x, y) in [(0usize, 0usize), (1, 0), (0, 1), (1, 1), (4, 1), (5, 1), (4, 2), (5, 2)] {
        mask[y * 6 + x] = 1;
    }
    let polygons = generate_concave_collision_polygons_pixel_perfect(&mask, (6, 3), 1);
    assert_eq!(
        polygons,
        vec![vec![(0, 0), (1, 0), (1, 1), (0, 1)], vec![(4, 1), (5, 1), (5, 2), (4, 2)]]
    );
}

#[test]
fn collision_node_treats_nonzero_bytes_as_set() {
    let raw = vec![0u8, 0, 0, 0, 0, 0, 7, 255, 9, 0, 0, 200, 1, 3, 0, 0, 5, 8, 4, 0, 0, 0, 0, 0, 0];
    let polygons = Collision.compute_concave_collision_polygons(raw, 5, 5, 1);
    assert_eq!(polygons, vec![vec![(1, 1), (3, 1), (3, 3), (1, 3)]]);
}

#[test]
fn convex_hull_of_points_beyond_the_i32_range() {
    let big: i64 = 1 << 40;
    let points = vec![p(0, 0), p(big, 0), p(big, big), p(0, big), p(big / 2, big / 2)];
    assert_eq!(compute_convex_hull_monotone_chain(&points), vec![p(0, 0), p(big, 0), p(big, big), p(0, big)]);
}
