//! Coarse collision polygons from a pixel mask: the mask is cut into square
//! tiles, a tile is solid when one of its pixels is set, the solid tiles are
//! grouped into 4-connected regions, each region's outline is traced and
//! its convex hull becomes a polygon.
use vstd::prelude::*;
use std::collections::VecDeque;
use crate::grid_walk::{
    cell_set, dir_dx, dir_dy, first_open_direction, first_return, lemma_arrived_steps, lemma_grid_index,
    lemma_grid_index_unique, lemma_walk_arrived, lemma_walk_returns, next_direction, open_toward, walk_after,
    walk_step, WalkState,
};

verus! {

/// (columns, rows) of tiles needed to cover the image: ceiling divisions.
pub fn compute_tile_grid_size(
    image_width_pixels: usize,
    image_height_pixels: usize,
    tile_edge_length: usize,
) -> (grid: (usize, usize))
    requires
        tile_edge_length > 0,
        image_width_pixels + tile_edge_length <= usize::MAX,
        image_height_pixels + tile_edge_length <= usize::MAX,
    ensures
        grid.0 == (image_width_pixels + tile_edge_length - 1) / tile_edge_length as int,
        grid.1 == (image_height_pixels + tile_edge_length - 1) / tile_edge_length as int,
        grid.0 * tile_edge_length >= image_width_pixels,
        grid.1 * tile_edge_length >= image_height_pixels,
        (grid.0 - 1) * tile_edge_length < image_width_pixels || image_width_pixels == 0,
        (grid.1 - 1) * tile_edge_length < image_height_pixels || image_height_pixels == 0,
{
    let number_of_tile_columns = (image_width_pixels + tile_edge_length - 1) / tile_edge_length;
    let number_of_tile_rows = (image_height_pixels + tile_edge_length - 1) / tile_edge_length;
    proof {
        lemma_ceil_div(image_width_pixels as int, tile_edge_length as int);
        lemma_ceil_div(image_height_pixels as int, tile_edge_length as int);
    }
    (number_of_tile_columns, number_of_tile_rows)
}

proof fn lemma_ceil_div(n: int, t: int)
    requires
        n >= 0,
        t > 0,
    ensures
        ((n + t - 1) / t) * t >= n,
        n == 0 || ((n + t - 1) / t - 1) * t < n,
{
    let q = (n + t - 1) / t;
    let r = (n + t - 1) % t;
    assert(q * t + r == n + t - 1) by (nonlinear_arith)
        requires
            q == (n + t - 1) / t,
            r == (n + t - 1) % t,
            t > 0,
    ;
    assert(0 <= r < t) by (nonlinear_arith)
        requires
            r == (n + t - 1) % t,
            t > 0,
    ;
    assert((q - 1) * t == q * t - t) by (nonlinear_arith);
}

/// The smaller of two sizes.
pub open spec fn min_nat(a: int, b: int) -> int {
    if a <= b {
        a
    } else {
        b
    }
}

/// First pixel column of a tile and one past its last (clipped to the image).
pub open spec fn tile_span(tile_index: int, tile_edge_length: int, image_extent: int) -> (int, int) {
    (tile_index * tile_edge_length, min_nat((tile_index + 1) * tile_edge_length, image_extent))
}

/// The pixel mask holds every pixel that the tile covers (row-major, with
/// `image_width_pixels` pixels per row).
pub open spec fn tile_in_mask(
    mask_len: int,
    image_width_pixels: int,
    image_height_pixels: int,
    tile_column: int,
    tile_row: int,
    tile_edge_length: int,
) -> bool {
    let (start_x, end_x) = tile_span(tile_column, tile_edge_length, image_width_pixels);
    let (start_y, end_y) = tile_span(tile_row, tile_edge_length, image_height_pixels);
    &&& 0 <= tile_column < usize::MAX
    &&& 0 <= tile_row < usize::MAX
    &&& tile_edge_length >= 0
    &&& (tile_column + 1) * tile_edge_length <= usize::MAX
    &&& (tile_row + 1) * tile_edge_length <= usize::MAX
    &&& start_x < end_x && start_y < end_y ==> (end_y - 1) * image_width_pixels + end_x - 1
        < mask_len
}

/// Some pixel of the tile is set (holds the value 1).
pub open spec fn tile_is_solid(
    pixel_mask: Seq<u8>,
    image_width_pixels: int,
    image_height_pixels: int,
    tile_column: int,
    tile_row: int,
    tile_edge_length: int,
) -> bool {
    let (start_x, end_x) = tile_span(tile_column, tile_edge_length, image_width_pixels);
    let (start_y, end_y) = tile_span(tile_row, tile_edge_length, image_height_pixels);
    exists|x: int, y: int|
        start_x <= x < end_x && start_y <= y < end_y && #[trigger] pixel_mask[y
            * image_width_pixels + x] == 1
}

proof fn lemma_mul_le_next(c: int, t: int)
    requires
        c >= 0,
        t >= 0,
    ensures
        c * t <= (c + 1) * t,
        c * t >= 0,
{
    assert(c * t <= (c + 1) * t) by (nonlinear_arith)
        requires
            c >= 0,
            t >= 0,
    ;
    assert(c * t >= 0) by (nonlinear_arith)
        requires
            c >= 0,
            t >= 0,
    ;
}

proof fn lemma_pixel_index_bound(w: int, x: int, y: int, end_x: int, end_y: int)
    requires
        0 <= x < end_x,
        0 <= y < end_y,
        w >= 0,
        end_x <= w,
    ensures
        y * w + x <= (end_y - 1) * w + end_x - 1,
{
    assert(y * w <= (end_y - 1) * w) by (nonlinear_arith)
        requires
            0 <= y <= end_y - 1,
            w >= 0,
    ;
}

fn check_if_tile_has_solid_pixel(
    pixel_mask_slice: &[u8],
    image_width_pixels: usize,
    image_height_pixels: usize,
    tile_column: usize,
    tile_row: usize,
    tile_edge_length: usize,
) -> (solid: bool)
    requires
        tile_in_mask(
            pixel_mask_slice@.len() as int,
            image_width_pixels as int,
            image_height_pixels as int,
            tile_column as int,
            tile_row as int,
            tile_edge_length as int,
        ),
    ensures
        solid == tile_is_solid(
            pixel_mask_slice@,
            image_width_pixels as int,
            image_height_pixels as int,
            tile_column as int,
            tile_row as int,
            tile_edge_length as int,
        ),
{
    let ghost w = image_width_pixels as int;
    proof {
        lemma_mul_le_next(tile_column as int, tile_edge_length as int);
        lemma_mul_le_next(tile_row as int, tile_edge_length as int);
    }
    let start_x = tile_column * tile_edge_length;
    let end_x_unclipped = (tile_column + 1) * tile_edge_length;
    let end_x = if end_x_unclipped < image_width_pixels {
        end_x_unclipped
    } else {
        image_width_pixels
    };
    let start_y = tile_row * tile_edge_length;
    let end_y_unclipped = (tile_row + 1) * tile_edge_length;
    let end_y = if end_y_unclipped < image_height_pixels {
        end_y_unclipped
    } else {
        image_height_pixels
    };
    assert(tile_span(tile_column as int, tile_edge_length as int, w) == (start_x as int, end_x as int));
    assert(tile_span(tile_row as int, tile_edge_length as int, image_height_pixels as int) == (
    start_y as int, end_y as int));
    let mask_len = pixel_mask_slice.len();
    let mut y = start_y;
    while y < end_y
        invariant
            mask_len == pixel_mask_slice@.len(),
            tile_span(tile_column as int, tile_edge_length as int, w) == (start_x as int, end_x as int),
            tile_span(tile_row as int, tile_edge_length as int, image_height_pixels as int) == (
            start_y as int, end_y as int),
            start_y <= y,
            y <= end_y || start_y >= end_y,
            start_x == tile_column * tile_edge_length,
            end_x <= image_width_pixels,
            end_y <= image_height_pixels,
            start_x < end_x && start_y < end_y ==> (end_y - 1) * w + end_x - 1
                < pixel_mask_slice@.len(),
            w == image_width_pixels,
            forall|px: int, py: int|
                start_x <= px < end_x && start_y <= py < y ==> #[trigger] pixel_mask_slice@[py * w
                    + px] != 1,
        decreases end_y - y,
    {
        let mut x = start_x;
        while x < end_x
            invariant
                mask_len == pixel_mask_slice@.len(),
            tile_span(tile_column as int, tile_edge_length as int, w) == (start_x as int, end_x as int),
            tile_span(tile_row as int, tile_edge_length as int, image_height_pixels as int) == (
            start_y as int, end_y as int),
                start_y <= y < end_y,
                start_x <= x,
                x <= end_x || start_x >= end_x,
                end_x <= image_width_pixels,
                start_x < end_x ==> (end_y - 1) * w + end_x - 1 < pixel_mask_slice@.len(),
                w == image_width_pixels,
                forall|px: int, py: int|
                    start_x <= px < end_x && start_y <= py < y ==> #[trigger] pixel_mask_slice@[py
                        * w + px] != 1,
                forall|px: int| start_x <= px < x ==> #[trigger] pixel_mask_slice@[y * w + px] != 1,
            decreases end_x - x,
        {
            proof {
                lemma_pixel_index_bound(w, x as int, y as int, end_x as int, end_y as int);
            }
            let pixel_index = y * image_width_pixels + x;
            if pixel_mask_slice[pixel_index] == 1 {
                assert(pixel_mask_slice@[y * w + x] == 1);
                return true;
            }
            x += 1;
        }
        y += 1;
    }
    false
}

/// One byte per tile, row-major: 1 when the tile is solid, 0 otherwise.
pub open spec fn is_solidness_map(
    map: Seq<u8>,
    pixel_mask: Seq<u8>,
    image_width_pixels: int,
    image_height_pixels: int,
    number_of_tile_columns: int,
    number_of_tile_rows: int,
    tile_edge_length: int,
) -> bool {
    &&& map.len() == number_of_tile_columns * number_of_tile_rows
    &&& forall|column: int, row: int|
        0 <= column < number_of_tile_columns && 0 <= row < number_of_tile_rows ==> #[trigger] map[row
            * number_of_tile_columns + column] == if tile_is_solid(
            pixel_mask,
            image_width_pixels,
            image_height_pixels,
            column,
            row,
            tile_edge_length,
        ) {
            1u8
        } else {
            0u8
        }
}

/// Every tile of the grid lies within the mask and the grid can be indexed.
pub open spec fn tile_grid_in_mask(
    mask_len: int,
    image_width_pixels: int,
    image_height_pixels: int,
    number_of_tile_columns: int,
    number_of_tile_rows: int,
    tile_edge_length: int,
) -> bool {
    &&& number_of_tile_columns * number_of_tile_rows <= usize::MAX
    &&& forall|column: int, row: int|
        0 <= column < number_of_tile_columns && 0 <= row < number_of_tile_rows ==> #[trigger] tile_in_mask(
            mask_len,
            image_width_pixels,
            image_height_pixels,
            column,
            row,
            tile_edge_length,
        )
}

/// The solidness of every tile of the grid.
pub fn create_solidness_map(
    pixel_mask_slice: &[u8],
    image_width_pixels: usize,
    image_height_pixels: usize,
    number_of_tile_columns: usize,
    number_of_tile_rows: usize,
    tile_edge_length: usize,
) -> (map: Vec<u8>)
    requires
        tile_grid_in_mask(
            pixel_mask_slice@.len() as int,
            image_width_pixels as int,
            image_height_pixels as int,
            number_of_tile_columns as int,
            number_of_tile_rows as int,
            tile_edge_length as int,
        ),
    ensures
        is_solidness_map(
            map@,
            pixel_mask_slice@,
            image_width_pixels as int,
            image_height_pixels as int,
            number_of_tile_columns as int,
            number_of_tile_rows as int,
            tile_edge_length as int,
        ),
{
    let total_tiles = number_of_tile_columns * number_of_tile_rows;
    let mut map: Vec<u8> = Vec::new();
    let mut k: usize = 0;
    while k < total_tiles
        invariant
            k <= total_tiles,
            map@.len() == k,
            forall|i: int| 0 <= i < k ==> #[trigger] map@[i] == 0,
        decreases total_tiles - k,
    {
        map.push(0);
        k += 1;
    }
    let ghost cols = number_of_tile_columns as int;
    proof {
        assert forall|c: int, r: int| 0 <= c < cols && 0 <= r < number_of_tile_rows implies #[trigger] map@[r
            * cols + c] == 0u8 by {
            lemma_grid_index(cols, number_of_tile_rows as int, c, r);
        }
    }
    let mut row: usize = 0;
    while row < number_of_tile_rows
        invariant
            row <= number_of_tile_rows,
            map@.len() == total_tiles,
            total_tiles == cols * number_of_tile_rows,
            cols == number_of_tile_columns,
            tile_grid_in_mask(
                pixel_mask_slice@.len() as int,
                image_width_pixels as int,
                image_height_pixels as int,
                number_of_tile_columns as int,
                number_of_tile_rows as int,
                tile_edge_length as int,
            ),
            forall|c: int, r: int|
                0 <= c < cols && 0 <= r < number_of_tile_rows ==> #[trigger] map@[r * cols + c] == if r
                    < row && tile_is_solid(
                    pixel_mask_slice@,
                    image_width_pixels as int,
                    image_height_pixels as int,
                    c,
                    r,
                    tile_edge_length as int,
                ) {
                    1u8
                } else {
                    0u8
                },
        decreases number_of_tile_rows - row,
    {
        let mut col: usize = 0;
        while col < number_of_tile_columns
            invariant
                row < number_of_tile_rows,
                col <= number_of_tile_columns,
                map@.len() == total_tiles,
                total_tiles == cols * number_of_tile_rows,
                cols == number_of_tile_columns,
                tile_grid_in_mask(
                    pixel_mask_slice@.len() as int,
                    image_width_pixels as int,
                    image_height_pixels as int,
                    number_of_tile_columns as int,
                    number_of_tile_rows as int,
                    tile_edge_length as int,
                ),
                forall|c: int, r: int|
                    0 <= c < cols && 0 <= r < number_of_tile_rows ==> #[trigger] map@[r * cols + c]
                        == if (r < row || (r == row && c < col)) && tile_is_solid(
                        pixel_mask_slice@,
                        image_width_pixels as int,
                        image_height_pixels as int,
                        c,
                        r,
                        tile_edge_length as int,
                    ) {
                        1u8
                    } else {
                        0u8
                    },
            decreases number_of_tile_columns - col,
        {
            proof {
                assert(tile_in_mask(
                    pixel_mask_slice@.len() as int,
                    image_width_pixels as int,
                    image_height_pixels as int,
                    col as int,
                    row as int,
                    tile_edge_length as int,
                ));
                lemma_grid_index(cols, number_of_tile_rows as int, col as int, row as int);
            }
            if check_if_tile_has_solid_pixel(
                pixel_mask_slice,
                image_width_pixels,
                image_height_pixels,
                col,
                row,
                tile_edge_length,
            ) {
                let idx = row * number_of_tile_columns + col;
                map.set(idx, 1);
                proof {
                    assert forall|c: int, r: int|
                        0 <= c < cols && 0 <= r < number_of_tile_rows implies #[trigger] map@[r * cols
                            + c] == if (r < row || (r == row && c <= col)) && tile_is_solid(
                            pixel_mask_slice@,
                            image_width_pixels as int,
                            image_height_pixels as int,
                            c,
                            r,
                            tile_edge_length as int,
                        ) {
                            1u8
                        } else {
                            0u8
                        } by {
                        lemma_grid_index(cols, number_of_tile_rows as int, c, r);
                        if r * cols + c == idx {
                            lemma_grid_index_unique(cols, c, r, col as int, row as int);
                        }
                    }
                }
            }
            col += 1;
        }
        row += 1;
    }
    map
}

/// A tile of the grid, as (column, row).
pub type Tile = (usize, usize);

pub open spec fn in_grid(t: Tile, columns: int, rows: int) -> bool {
    t.0 < columns && t.1 < rows
}

/// Row-major position of a tile in the grid.
pub open spec fn tile_index(t: Tile, columns: int) -> int {
    t.1 * columns + t.0
}

/// An in-grid tile whose byte in the solidness map is 1.
pub open spec fn solid_tile(map: Seq<u8>, columns: int, rows: int, t: Tile) -> bool {
    in_grid(t, columns, rows) && map[tile_index(t, columns)] == 1
}

/// The two tiles share a side.
pub open spec fn adjacent(a: Tile, b: Tile) -> bool {
    ||| (a.0 == b.0 && (a.1 + 1 == b.1 || b.1 + 1 == a.1))
    ||| (a.1 == b.1 && (a.0 + 1 == b.0 || b.0 + 1 == a.0))
}

/// Every tile after the first shares a side with a tile among the first
/// `known` ones that comes before it: the tiles form one connected piece.
pub open spec fn linked_in_order(tiles: Seq<Tile>, known: int) -> bool {
    forall|p: int|
        1 <= p < tiles.len() ==> #[trigger] linked_before(tiles, known, p)
}

/// Tile `p` shares a side with one of the first `known` tiles placed before it.
pub open spec fn linked_before(tiles: Seq<Tile>, known: int, p: int) -> bool {
    exists|q: int| 0 <= q < p && q < known && #[trigger] adjacent(tiles[q], tiles[p])
}

/// The direction of the step from `a` to the neighbour `b`, in the order a
/// flood fill tries them: 0 right, 1 left, 2 down, 3 up (4 for no step).
pub open spec fn step_direction(a: Tile, b: Tile) -> int {
    if b.0 == a.0 + 1 && b.1 == a.1 {
        0
    } else if b.0 + 1 == a.0 && b.1 == a.1 {
        1
    } else if b.0 == a.0 && b.1 == a.1 + 1 {
        2
    } else if b.0 == a.0 && b.1 + 1 == a.1 {
        3
    } else {
        4
    }
}

/// The first position from `j` on, before `i`, whose tile shares a side with
/// tile `i` (`i` when there is none).
pub open spec fn first_neighbor_from(tiles: Seq<Tile>, i: int, j: int) -> int
    decreases i - j,
{
    if j >= i {
        i
    } else if adjacent(tiles[j], tiles[i]) {
        j
    } else {
        first_neighbor_from(tiles, i, j + 1)
    }
}

/// The earliest tile before tile `i` that shares a side with it: the tile
/// from which a breadth-first fill finds tile `i`.
pub open spec fn discoverer(tiles: Seq<Tile>, i: int) -> int {
    first_neighbor_from(tiles, i, 0)
}

/// Tile `i` is found before tile `j`: from an earlier tile, or from the same
/// tile in an earlier direction.
pub open spec fn found_before(tiles: Seq<Tile>, i: int, j: int) -> bool {
    let pi = discoverer(tiles, i);
    let pj = discoverer(tiles, j);
    pi < pj || (pi == pj && step_direction(tiles[pi], tiles[i]) < step_direction(tiles[pj], tiles[j]))
}

/// The tiles come in breadth-first order: every tile after the first comes
/// after the tiles found before it (see `found_before`).
pub open spec fn breadth_first_order(tiles: Seq<Tile>) -> bool {
    forall|i: int, j: int| 1 <= i < j < tiles.len() ==> #[trigger] found_before(tiles, i, j)
}

/// Breadth-first order while the fill works on tile `c`, having tried the
/// directions below `d`: the tiles found so far are in order, and each was
/// found from a tile before `c`, or from `c` in a direction below `d`.
pub open spec fn breadth_first_upto(tiles: Seq<Tile>, c: int, d: int) -> bool {
    &&& breadth_first_order(tiles)
    &&& forall|i: int|
        1 <= i < tiles.len() ==> (discoverer(tiles, i) < c || (discoverer(tiles, i) == c && step_direction(
            tiles[c],
            tiles[i],
        ) < d)) && #[trigger] discoverer(tiles, i) < tiles.len()
}

proof fn lemma_first_neighbor_prefix(tiles: Seq<Tile>, n: Tile, i: int, j: int)
    requires
        0 <= j <= i < tiles.len(),
    ensures
        first_neighbor_from(tiles.push(n), i, j) == first_neighbor_from(tiles, i, j),
        j <= first_neighbor_from(tiles, i, j) <= i,
    decreases i - j,
{
    if j < i {
        assert(tiles.push(n)[j] == tiles[j] && tiles.push(n)[i] == tiles[i]);
        lemma_first_neighbor_prefix(tiles, n, i, j + 1);
    }
}

proof fn lemma_first_neighbor_is(tiles: Seq<Tile>, i: int, c: int, j: int)
    requires
        0 <= j <= c < i < tiles.len(),
        adjacent(tiles[c], tiles[i]),
        forall|q: int| 0 <= q < c ==> !adjacent(#[trigger] tiles[q], tiles[i]),
    ensures
        first_neighbor_from(tiles, i, j) == c,
    decreases c - j,
{
    if j < c {
        lemma_first_neighbor_is(tiles, i, c, j + 1);
    }
}

/// Appending a tile found from tile `c` in direction `d` keeps the order.
proof fn lemma_breadth_first_push(tiles: Seq<Tile>, c: int, d: int, n: Tile)
    requires
        breadth_first_upto(tiles, c, d),
        0 <= c < tiles.len(),
        adjacent(tiles[c], n),
        step_direction(tiles[c], n) == d,
        forall|q: int| 0 <= q < c ==> !adjacent(#[trigger] tiles[q], n),
    ensures
        breadth_first_upto(tiles.push(n), c, d + 1),
{
    let t2 = tiles.push(n);
    let last = tiles.len() as int;
    assert forall|i: int| 0 <= i < tiles.len() implies #[trigger] discoverer(t2, i) == discoverer(tiles, i) && t2[i]
        == tiles[i] && 0 <= discoverer(tiles, i) <= i by {
        lemma_first_neighbor_prefix(tiles, n, i, 0);
    }
    assert(t2[last] == n);
    assert(t2[c] == tiles[c]);
    assert forall|q: int| 0 <= q < c implies !adjacent(#[trigger] t2[q], t2[last]) by {
        assert(t2[q] == tiles[q]);
    }
    lemma_first_neighbor_is(t2, last, c, 0);
    assert(discoverer(t2, last) == c);
    assert forall|i: int, j: int| 1 <= i < j < t2.len() implies #[trigger] found_before(t2, i, j) by {
        if j < last {
            assert(found_before(tiles, i, j));
            assert(discoverer(t2, i) == discoverer(tiles, i));
            assert(discoverer(t2, j) == discoverer(tiles, j));
            assert(t2[discoverer(tiles, i)] == tiles[discoverer(tiles, i)]);
            assert(t2[discoverer(tiles, j)] == tiles[discoverer(tiles, j)]);
        } else {
            assert(discoverer(t2, i) == discoverer(tiles, i));
            assert(t2[discoverer(tiles, i)] == tiles[discoverer(tiles, i)]);
        }
    }
    assert forall|i: int| 1 <= i < t2.len() implies (discoverer(t2, i) < c || (discoverer(t2, i) == c && step_direction(
        t2[c],
        t2[i],
    ) < d + 1)) && #[trigger] discoverer(t2, i) < t2.len() by {
        if i < last {
            assert(discoverer(t2, i) == discoverer(tiles, i));
        }
    }
}

/// Trying a direction that finds nothing keeps the order.
proof fn lemma_breadth_first_skip(tiles: Seq<Tile>, c: int, d: int)
    requires
        breadth_first_upto(tiles, c, d),
    ensures
        breadth_first_upto(tiles, c, d + 1),
{
}

/// A 4-connected component of solid tiles, listed without repetition from
/// its first tile.
pub open spec fn is_component(map: Seq<u8>, columns: int, rows: int, region: Seq<Tile>) -> bool {
    &&& region.len() > 0
    &&& region.no_duplicates()
    &&& forall|p: int| 0 <= p < region.len() ==> solid_tile(map, columns, rows, #[trigger] region[p])
    &&& linked_in_order(region, region.len() as int)
    &&& forall|t: Tile, n: Tile|
        #![trigger region.contains(t), adjacent(t, n)]
        region.contains(t) && solid_tile(map, columns, rows, n) && adjacent(t, n) ==> region.contains(n)
}

/// The solid tiles split into components, listed in row-major order of
/// their first tiles, each starting at its row-major first tile and going
/// on in breadth-first order (right, left, down, up from each tile).
pub open spec fn are_components_in_scan_order(
    map: Seq<u8>,
    columns: int,
    rows: int,
    regions: Seq<Seq<Tile>>,
) -> bool {
    &&& forall|k: int| 0 <= k < regions.len() ==> is_component(map, columns, rows, #[trigger] regions[k])
    &&& forall|k: int| 0 <= k < regions.len() ==> breadth_first_order(#[trigger] regions[k])
    &&& forall|k1: int, k2: int, t: Tile|
        0 <= k1 < regions.len() && 0 <= k2 < regions.len() && k1 != k2 && #[trigger] regions[k1].contains(t)
            ==> !#[trigger] regions[k2].contains(t)
    &&& forall|t: Tile|
        #[trigger] solid_tile(map, columns, rows, t) ==> exists|k: int|
            0 <= k < regions.len() && #[trigger] regions[k].contains(t)
    &&& forall|k: int, t: Tile|
        0 <= k < regions.len() && #[trigger] regions[k].contains(t) ==> tile_index(regions[k][0], columns)
            <= tile_index(t, columns)
    &&& forall|k1: int, k2: int|
        0 <= k1 < k2 < regions.len() ==> tile_index(#[trigger] regions[k1][0], columns) < tile_index(
            #[trigger] regions[k2][0],
            columns,
        )
}

/// The number of unset flags.
pub open spec fn count_unset(flags: Seq<bool>) -> nat
    decreases flags.len(),
{
    if flags.len() == 0 {
        0
    } else {
        count_unset(flags.drop_last()) + if flags.last() {
            0nat
        } else {
            1nat
        }
    }
}

proof fn lemma_count_unset_set(flags: Seq<bool>, i: int)
    requires
        0 <= i < flags.len(),
        !flags[i],
    ensures
        count_unset(flags.update(i, true)) + 1 == count_unset(flags),
    decreases flags.len(),
{
    let f2 = flags.update(i, true);
    if i == flags.len() - 1 {
        assert(f2.drop_last() =~= flags.drop_last());
    } else {
        assert(f2.drop_last() =~= flags.drop_last().update(i, true));
        lemma_count_unset_set(flags.drop_last(), i);
    }
}

/// The state of a flood fill from `start`: `out` holds the tiles taken
/// from the queue so far, `queue` those waiting; `visited` marks the tiles
/// of earlier regions (`before`) and those of `out` and `queue`; the solid
/// neighbours of the first `closed` tiles of `out` are all marked.
pub open spec fn fill_state(
    map: Seq<u8>,
    columns: int,
    rows: int,
    before: Seq<bool>,
    visited: Seq<bool>,
    start: Tile,
    out: Seq<Tile>,
    queue: Seq<Tile>,
    closed: int,
) -> bool {
    let found = out + queue;
    &&& visited.len() == columns * rows
    &&& before.len() == columns * rows
    &&& found.len() > 0
    &&& found[0] == start
    &&& found.no_duplicates()
    &&& forall|p: int|
        #![trigger found[p]]
        0 <= p < found.len() ==> solid_tile(map, columns, rows, found[p]) && !before[tile_index(
            found[p],
            columns,
        )]
    &&& forall|t: Tile|
        #![trigger visited[tile_index(t, columns)]]
        in_grid(t, columns, rows) ==> (visited[tile_index(t, columns)] <==> before[tile_index(
            t,
            columns,
        )] || found.contains(t))
    &&& linked_in_order(found, out.len() as int)
    &&& 0 <= closed <= out.len()
    &&& forall|q: int, n: Tile|
        0 <= q < closed && solid_tile(map, columns, rows, n) && #[trigger] adjacent(out[q], n)
            ==> visited[tile_index(n, columns)]
}

proof fn lemma_tile_index(columns: int, rows: int, t: Tile)
    requires
        in_grid(t, columns, rows),
    ensures
        0 <= tile_index(t, columns) < columns * rows,
{
    lemma_grid_index(columns, rows, t.0 as int, t.1 as int);
}

proof fn lemma_tile_index_unique(columns: int, rows: int, a: Tile, b: Tile)
    requires
        in_grid(a, columns, rows),
        in_grid(b, columns, rows),
        tile_index(a, columns) == tile_index(b, columns),
    ensures
        a == b,
{
    lemma_grid_index_unique(columns, a.0 as int, a.1 as int, b.0 as int, b.1 as int);
}

proof fn lemma_linked_push(tiles: Seq<Tile>, known: int, n: Tile, q: int)
    requires
        linked_in_order(tiles, known),
        0 <= q < tiles.len(),
        q < known,
        adjacent(tiles[q], n),
    ensures
        linked_in_order(tiles.push(n), known),
{
    let t2 = tiles.push(n);
    assert forall|p: int| 1 <= p < t2.len() implies #[trigger] linked_before(t2, known, p) by {
        if p == tiles.len() {
            assert(t2[q] == tiles[q]);
            assert(adjacent(t2[q], t2[p]));
        } else {
            assert(t2[p] == tiles[p]);
            assert(linked_before(tiles, known, p));
            let r = choose|r: int| 0 <= r < p && r < known && #[trigger] adjacent(tiles[r], tiles[p]);
            assert(t2[r] == tiles[r]);
            assert(adjacent(t2[r], t2[p]));
        }
    }
}

proof fn lemma_linked_weaken(tiles: Seq<Tile>, k1: int, k2: int)
    requires
        linked_in_order(tiles, k1),
        k1 <= k2,
    ensures
        linked_in_order(tiles, k2),
{
    assert forall|p: int| 1 <= p < tiles.len() implies #[trigger] linked_before(tiles, k2, p) by {
        assert(linked_before(tiles, k1, p));
        let q = choose|q: int| 0 <= q < p && q < k1 && #[trigger] adjacent(tiles[q], tiles[p]);
    }
}

/// Marks and queues the neighbour `n` of the tile just taken from the
/// queue when it is solid and not yet marked.
fn visit_neighbor(
    solidness_map_slice: &[u8],
    number_of_tile_columns: usize,
    number_of_tile_rows: usize,
    n: Tile,
    visited_flags: &mut [bool],
    queue: &mut VecDeque<Tile>,
    Ghost(before): Ghost<Seq<bool>>,
    Ghost(start): Ghost<Tile>,
    Ghost(out): Ghost<Seq<Tile>>,
    Ghost(closed): Ghost<int>,
    Ghost(direction): Ghost<int>,
)
    requires
        solidness_map_slice@.len() >= number_of_tile_columns * number_of_tile_rows,
        fill_state(
            solidness_map_slice@,
            number_of_tile_columns as int,
            number_of_tile_rows as int,
            before,
            old(visited_flags)@,
            start,
            out,
            old(queue)@,
            closed,
        ),
        in_grid(n, number_of_tile_columns as int, number_of_tile_rows as int),
        out.len() >= 1,
        adjacent(out.last(), n),
        closed == out.len() - 1,
        step_direction(out.last(), n) == direction,
        breadth_first_upto(out + old(queue)@, out.len() - 1, direction),
    ensures
        breadth_first_upto(out + final(queue)@, out.len() - 1, direction + 1),
        fill_state(
            solidness_map_slice@,
            number_of_tile_columns as int,
            number_of_tile_rows as int,
            before,
            final(visited_flags)@,
            start,
            out,
            final(queue)@,
            closed,
        ),
        solid_tile(solidness_map_slice@, number_of_tile_columns as int, number_of_tile_rows as int, n)
            ==> final(visited_flags)@[tile_index(n, number_of_tile_columns as int)],
        forall|i: int|
            0 <= i < old(visited_flags)@.len() && #[trigger] old(visited_flags)@[i] ==> final(visited_flags)@[i],
        final(queue)@ == if solid_tile(
            solidness_map_slice@,
            number_of_tile_columns as int,
            number_of_tile_rows as int,
            n,
        ) && !old(visited_flags)@[tile_index(n, number_of_tile_columns as int)] {
            old(queue)@.push(n)
        } else {
            old(queue)@
        },
        2 * count_unset(final(visited_flags)@) + final(queue)@.len() <= 2 * count_unset(
            old(visited_flags)@,
        ) + old(queue)@.len(),
{
    let ghost columns = number_of_tile_columns as int;
    let ghost rows = number_of_tile_rows as int;
    let ghost map = solidness_map_slice@;
    proof {
        lemma_tile_index(columns, rows, n);
    }
    let _flag_count = visited_flags.len();
    let nidx = n.1 * number_of_tile_columns + n.0;
    if solidness_map_slice[nidx] == 1 && !visited_flags[nidx] {
        let ghost v0 = visited_flags@;
        let ghost q0 = queue@;
        visited_flags[nidx] = true;
        queue.push_back(n);
        proof {
            lemma_count_unset_set(v0, nidx as int);
            let found0 = out + q0;
            let found = out + queue@;
            assert(found =~= found0.push(n));
            assert(!found0.contains(n)) by {
                assert(!v0[tile_index(n, columns)]);
            }
            assert forall|t: Tile| #![trigger visited_flags@[tile_index(t, columns)]]
                in_grid(t, columns, rows) implies (visited_flags@[tile_index(t, columns)] <==> before[tile_index(
                t,
                columns,
            )] || found.contains(t)) by {
                lemma_tile_index(columns, rows, t);
                if t == n {
                    assert(found[found.len() - 1] == n);
                } else {
                    if tile_index(t, columns) == tile_index(n, columns) {
                        lemma_tile_index_unique(columns, rows, t, n);
                    }
                    assert(v0[tile_index(t, columns)] <==> before[tile_index(t, columns)]
                        || found0.contains(t));
                    if found0.contains(t) {
                        let p = choose|p: int| 0 <= p < found0.len() && found0[p] == t;
                        assert(found[p] == t);
                    }
                    if found.contains(t) {
                        let p = choose|p: int| 0 <= p < found.len() && found[p] == t;
                        assert(p < found0.len());
                        assert(found0[p] == t);
                    }
                }
            }
            assert(found.no_duplicates()) by {
                assert forall|i: int, j: int| 0 <= i < found.len() && 0 <= j < found.len() && i != j implies found[i]
                    != found[j] by {
                    if i == found.len() - 1 {
                        assert(found[j] == found0[j]);
                    } else if j == found.len() - 1 {
                        assert(found[i] == found0[i]);
                    }
                }
            }
            assert forall|p: int| #![trigger found[p]] 0 <= p < found.len() implies solid_tile(
                map,
                columns,
                rows,
                found[p],
            ) && !before[tile_index(found[p], columns)] by {
                if p < found0.len() {
                    assert(found[p] == found0[p]);
                }
            }
            assert(found0[out.len() - 1] == out.last());
            lemma_linked_push(found0, out.len() as int, n, out.len() - 1);
            assert(linked_in_order(found, out.len() as int));
            assert forall|q: int, m: Tile|
                0 <= q < closed && solid_tile(map, columns, rows, m) && #[trigger] adjacent(out[q], m)
                implies visited_flags@[tile_index(m, columns)] by {
                assert(v0[tile_index(m, columns)]);
                lemma_tile_index(columns, rows, m);
            }
            assert forall|q: int| 0 <= q < closed implies !adjacent(#[trigger] found0[q], n) by {
                assert(found0[q] == out[q]);
                if adjacent(out[q], n) {
                    assert(v0[tile_index(n, columns)]);
                }
            }
            lemma_breadth_first_push(found0, closed, direction, n);
        }
    } else {
        proof {
            lemma_breadth_first_skip(out + queue@, closed, direction);
        }
    }
}

/// Breadth-first fill of the 4-connected solid tiles reachable from the
/// start tile, marking them visited and appending them to `out_region_tiles`.
#[verifier::rlimit(100)]
#[verifier::spinoff_prover]
fn flood_fill_connected_region(
    solidness_map_slice: &[u8],
    number_of_tile_columns: usize,
    number_of_tile_rows: usize,
    start_column: usize,
    start_row: usize,
    visited_flags: &mut [bool],
    out_region_tiles: &mut Vec<Tile>,
)
    requires
        solidness_map_slice@.len() >= number_of_tile_columns * number_of_tile_rows,
        old(visited_flags)@.len() == number_of_tile_columns * number_of_tile_rows,
        old(out_region_tiles)@.len() == 0,
        solid_tile(
            solidness_map_slice@,
            number_of_tile_columns as int,
            number_of_tile_rows as int,
            (start_column, start_row),
        ),
        !old(visited_flags)@[tile_index((start_column, start_row), number_of_tile_columns as int)],
        forall|t: Tile, n: Tile|
            #![trigger old(visited_flags)@[tile_index(t, number_of_tile_columns as int)], adjacent(t, n)]
            in_grid(t, number_of_tile_columns as int, number_of_tile_rows as int)
                && old(visited_flags)@[tile_index(t, number_of_tile_columns as int)] && solid_tile(
                solidness_map_slice@,
                number_of_tile_columns as int,
                number_of_tile_rows as int,
                n,
            ) && adjacent(t, n) ==> old(visited_flags)@[tile_index(n, number_of_tile_columns as int)],
    ensures
        is_component(
            solidness_map_slice@,
            number_of_tile_columns as int,
            number_of_tile_rows as int,
            final(out_region_tiles)@,
        ),
        final(out_region_tiles)@[0] == (start_column, start_row),
        breadth_first_order(final(out_region_tiles)@),
        final(visited_flags)@.len() == old(visited_flags)@.len(),
        forall|t: Tile|
            #![trigger final(visited_flags)@[tile_index(t, number_of_tile_columns as int)]]
            in_grid(t, number_of_tile_columns as int, number_of_tile_rows as int) ==> (final(visited_flags)@[tile_index(t, number_of_tile_columns as int)] <==> old(visited_flags)@[tile_index(
                t,
                number_of_tile_columns as int,
            )] || final(out_region_tiles)@.contains(t)),
        forall|t: Tile|
            #[trigger] final(out_region_tiles)@.contains(t) ==> !old(visited_flags)@[tile_index(
                t,
                number_of_tile_columns as int,
            )],
{
    let ghost columns = number_of_tile_columns as int;
    let ghost rows = number_of_tile_rows as int;
    let ghost map = solidness_map_slice@;
    let ghost before = visited_flags@;
    let ghost start: Tile = (start_column, start_row);
    let mut queue: VecDeque<Tile> = VecDeque::new();
    queue.push_back((start_column, start_row));
    proof {
        lemma_tile_index(columns, rows, start);
    }
    let _flag_count = visited_flags.len();
    visited_flags[start_row * number_of_tile_columns + start_column] = true;
    proof {
        let found = out_region_tiles@ + queue@;
        assert(found =~= seq![start]);
        assert forall|t: Tile| #![trigger visited_flags@[tile_index(t, columns)]]
            in_grid(t, columns, rows) implies (visited_flags@[tile_index(t, columns)] <==> before[tile_index(
            t,
            columns,
        )] || found.contains(t)) by {
            lemma_tile_index(columns, rows, t);
            if tile_index(t, columns) == tile_index(start, columns) {
                lemma_tile_index_unique(columns, rows, t, start);
            }
            if t == start {
                assert(found[0] == start);
            }
        }
        lemma_count_unset_set(before, tile_index(start, columns));
    }
    loop
        invariant
            solidness_map_slice@.len() >= number_of_tile_columns * number_of_tile_rows,
            map == solidness_map_slice@,
            columns == number_of_tile_columns,
            rows == number_of_tile_rows,
            start == (start_column, start_row),
            fill_state(
                map,
                columns,
                rows,
                before,
                visited_flags@,
                start,
                out_region_tiles@,
                queue@,
                out_region_tiles@.len() as int,
            ),
            breadth_first_upto(out_region_tiles@ + queue@, out_region_tiles@.len() as int, 0),
            forall|t: Tile, n: Tile|
                #![trigger before[tile_index(t, columns)], adjacent(t, n)]
                in_grid(t, columns, rows) && before[tile_index(t, columns)] && solid_tile(
                    map,
                    columns,
                    rows,
                    n,
                ) && adjacent(t, n) ==> before[tile_index(n, columns)],
        ensures
            fill_state(
                map,
                columns,
                rows,
                before,
                visited_flags@,
                start,
                out_region_tiles@,
                queue@,
                out_region_tiles@.len() as int,
            ),
            breadth_first_upto(out_region_tiles@ + queue@, out_region_tiles@.len() as int, 0),
            queue@.len() == 0,
        decreases 2 * count_unset(visited_flags@) + queue@.len(),
    {
        let ghost q0 = queue@;
        let ghost o0 = out_region_tiles@;
        let ghost m0 = 2 * count_unset(visited_flags@) + queue@.len();
        match queue.pop_front() {
            None => {
                break;
            },
            Some(current) => {
                out_region_tiles.push(current);
                let ghost out = out_region_tiles@;
                proof {
                    assert(out + queue@ =~= o0 + q0);
                    assert(current == (o0 + q0)[o0.len() as int]);
                    assert(out.last() == current);
                    lemma_linked_weaken(o0 + q0, o0.len() as int, out.len() as int);
                    assert forall|q: int, n: Tile|
                        0 <= q < out.len() - 1 && solid_tile(map, columns, rows, n) && #[trigger] adjacent(
                            out[q],
                            n,
                        ) implies visited_flags@[tile_index(n, columns)] by {
                        assert(out[q] == o0[q]);
                    }
                }
                let (current_x, current_y) = current;
                if current_x + 1 < number_of_tile_columns {
                    visit_neighbor(
                        solidness_map_slice,
                        number_of_tile_columns,
                        number_of_tile_rows,
                        (current_x + 1, current_y),
                        visited_flags,
                        &mut queue,
                        Ghost(before),
                        Ghost(start),
                        Ghost(out),
                        Ghost(out.len() - 1),
                        Ghost(0int),
                    );
                } else {
                    proof {
                        lemma_breadth_first_skip(out + queue@, out.len() - 1, 0);
                    }
                }
                let ghost v1 = visited_flags@;
                if current_x >= 1 {
                    visit_neighbor(
                        solidness_map_slice,
                        number_of_tile_columns,
                        number_of_tile_rows,
                        (current_x - 1, current_y),
                        visited_flags,
                        &mut queue,
                        Ghost(before),
                        Ghost(start),
                        Ghost(out),
                        Ghost(out.len() - 1),
                        Ghost(1int),
                    );
                } else {
                    proof {
                        lemma_breadth_first_skip(out + queue@, out.len() - 1, 1);
                    }
                }
                let ghost v2 = visited_flags@;
                if current_y + 1 < number_of_tile_rows {
                    visit_neighbor(
                        solidness_map_slice,
                        number_of_tile_columns,
                        number_of_tile_rows,
                        (current_x, current_y + 1),
                        visited_flags,
                        &mut queue,
                        Ghost(before),
                        Ghost(start),
                        Ghost(out),
                        Ghost(out.len() - 1),
                        Ghost(2int),
                    );
                } else {
                    proof {
                        lemma_breadth_first_skip(out + queue@, out.len() - 1, 2);
                    }
                }
                let ghost v3 = visited_flags@;
                if current_y >= 1 {
                    visit_neighbor(
                        solidness_map_slice,
                        number_of_tile_columns,
                        number_of_tile_rows,
                        (current_x, current_y - 1),
                        visited_flags,
                        &mut queue,
                        Ghost(before),
                        Ghost(start),
                        Ghost(out),
                        Ghost(out.len() - 1),
                        Ghost(3int),
                    );
                } else {
                    proof {
                        lemma_breadth_first_skip(out + queue@, out.len() - 1, 3);
                    }
                }
                proof {
                    let tiles = out + queue@;
                    assert forall|i: int| 1 <= i < tiles.len() implies (discoverer(tiles, i) < out.len() as int
                        || (discoverer(tiles, i) == out.len() as int && step_direction(
                        tiles[out.len() as int],
                        tiles[i],
                    ) < 0)) && #[trigger] discoverer(tiles, i) < tiles.len() by {
                        assert(discoverer(tiles, i) < tiles.len());
                    }
                    assert forall|q: int, n: Tile|
                        0 <= q < out.len() && solid_tile(map, columns, rows, n) && #[trigger] adjacent(
                            out[q],
                            n,
                        ) implies visited_flags@[tile_index(n, columns)] by {
                        lemma_tile_index(columns, rows, n);
                        if q == out.len() - 1 {
                            assert(out[q] == current);
                            if n.0 == current_x + 1 && n.1 == current_y {
                                assert(v1[tile_index(n, columns)]);
                            } else if n.0 + 1 == current_x && n.1 == current_y {
                                assert(v2[tile_index(n, columns)]);
                            } else if n.0 == current_x && n.1 == current_y + 1 {
                                assert(v3[tile_index(n, columns)]);
                            }
                        }
                    }
                }
            },
        }
    }
    proof {
        let region = out_region_tiles@;
        assert(region + queue@ =~= region);
        assert forall|t: Tile, n: Tile|
            #![trigger region.contains(t), adjacent(t, n)]
            region.contains(t) && solid_tile(map, columns, rows, n) && adjacent(t, n) implies region.contains(
            n,
        ) by {
            let q = choose|q: int| 0 <= q < region.len() && region[q] == t;
            assert(adjacent(region[q], n));
            lemma_tile_index(columns, rows, n);
            assert(visited_flags@[tile_index(n, columns)]);
            if before[tile_index(n, columns)] {
                assert(adjacent(n, t)) by {
                    assert(adjacent(t, n));
                }
                lemma_tile_index(columns, rows, t);
                assert(before[tile_index(t, columns)]);
                assert(region[q] == (region + queue@)[q]);
                assert(false);
            }
        }
        assert forall|t: Tile| #[trigger] region.contains(t) implies !before[tile_index(t, columns)] by {
            let q = choose|q: int| 0 <= q < region.len() && region[q] == t;
            assert(region[q] == (region + queue@)[q]);
        }
        assert forall|p: int| 0 <= p < region.len() implies solid_tile(map, columns, rows, #[trigger] region[p]) by {
            assert(region[p] == (region + queue@)[p]);
        }
    }
}

/// Each vector, as a sequence.
pub open spec fn nested_views<T>(vectors: Seq<Vec<T>>) -> Seq<Seq<T>> {
    vectors.map_values(|v: Vec<T>| v@)
}

/// The state of the scan that collects regions: `visited` marks exactly the
/// tiles of the regions found so far, every solid tile before position
/// `scanned` is marked, and the regions are components in scan order that
/// start before `scanned`.
pub open spec fn scan_state(
    map: Seq<u8>,
    columns: int,
    rows: int,
    visited: Seq<bool>,
    regions: Seq<Seq<Tile>>,
    scanned: int,
) -> bool {
    &&& visited.len() == columns * rows
    &&& forall|k: int| 0 <= k < regions.len() ==> is_component(map, columns, rows, #[trigger] regions[k])
    &&& forall|k: int| 0 <= k < regions.len() ==> breadth_first_order(#[trigger] regions[k])
    &&& forall|k1: int, k2: int, t: Tile|
        0 <= k1 < regions.len() && 0 <= k2 < regions.len() && k1 != k2 && #[trigger] regions[k1].contains(t)
            ==> !#[trigger] regions[k2].contains(t)
    &&& forall|t: Tile|
        #![trigger visited[tile_index(t, columns)]]
        in_grid(t, columns, rows) ==> (visited[tile_index(t, columns)] <==> exists|k: int|
            0 <= k < regions.len() && #[trigger] regions[k].contains(t))
    &&& forall|t: Tile|
        #![trigger visited[tile_index(t, columns)]]
        solid_tile(map, columns, rows, t) && tile_index(t, columns) < scanned ==> visited[tile_index(
            t,
            columns,
        )]
    &&& forall|k: int, t: Tile|
        0 <= k < regions.len() && #[trigger] regions[k].contains(t) ==> tile_index(regions[k][0], columns)
            <= tile_index(t, columns)
    &&& forall|k1: int, k2: int|
        0 <= k1 < k2 < regions.len() ==> tile_index(#[trigger] regions[k1][0], columns) < tile_index(
            #[trigger] regions[k2][0],
            columns,
        )
    &&& forall|k: int| 0 <= k < regions.len() ==> tile_index(#[trigger] regions[k][0], columns) < scanned
}

proof fn lemma_contains_in_grid(map: Seq<u8>, columns: int, rows: int, region: Seq<Tile>, t: Tile)
    requires
        is_component(map, columns, rows, region),
        region.contains(t),
    ensures
        solid_tile(map, columns, rows, t),
{
    let p = choose|p: int| 0 <= p < region.len() && region[p] == t;
    assert(solid_tile(map, columns, rows, region[p]));
}

/// The 4-connected components of the solid tiles (byte 1 in the map), in
/// row-major order of their first tiles.
pub fn find_all_connected_regions(
    solidness_map_slice: &[u8],
    number_of_tile_columns: usize,
    number_of_tile_rows: usize,
) -> (regions: Vec<Vec<Tile>>)
    requires
        solidness_map_slice@.len() >= number_of_tile_columns * number_of_tile_rows,
        number_of_tile_columns * number_of_tile_rows <= usize::MAX,
    ensures
        are_components_in_scan_order(
            solidness_map_slice@,
            number_of_tile_columns as int,
            number_of_tile_rows as int,
            nested_views(regions@),
        ),
{
    let ghost columns = number_of_tile_columns as int;
    let ghost rows = number_of_tile_rows as int;
    let ghost map = solidness_map_slice@;
    let total_tiles = number_of_tile_columns * number_of_tile_rows;
    let mut visited: Vec<bool> = Vec::new();
    let mut k: usize = 0;
    while k < total_tiles
        invariant
            k <= total_tiles,
            visited@.len() == k,
            forall|i: int| 0 <= i < k ==> !#[trigger] visited@[i],
        decreases total_tiles - k,
    {
        visited.push(false);
        k += 1;
    }
    let mut regions: Vec<Vec<Tile>> = Vec::new();
    proof {
        assert forall|t: Tile| #![trigger visited@[tile_index(t, columns)]] in_grid(t, columns, rows) implies (visited@[tile_index(
            t,
            columns,
        )] <==> exists|k: int|
            0 <= k < nested_views(regions@).len() && #[trigger] nested_views(regions@)[k].contains(t)) by {
            lemma_tile_index(columns, rows, t);
        }
    }
    let mut row: usize = 0;
    while row < number_of_tile_rows
        invariant
            solidness_map_slice@.len() >= number_of_tile_columns * number_of_tile_rows,
            total_tiles == number_of_tile_columns * number_of_tile_rows,
            map == solidness_map_slice@,
            columns == number_of_tile_columns,
            rows == number_of_tile_rows,
            row <= number_of_tile_rows,
            scan_state(map, columns, rows, visited@, nested_views(regions@), row * columns),
        decreases number_of_tile_rows - row,
    {
        let mut col: usize = 0;
        while col < number_of_tile_columns
            invariant
                solidness_map_slice@.len() >= number_of_tile_columns * number_of_tile_rows,
                total_tiles == number_of_tile_columns * number_of_tile_rows,
                map == solidness_map_slice@,
                columns == number_of_tile_columns,
                rows == number_of_tile_rows,
                row < number_of_tile_rows,
                col <= number_of_tile_columns,
                scan_state(map, columns, rows, visited@, nested_views(regions@), row * columns + col),
            decreases number_of_tile_columns - col,
        {
            let ghost here: Tile = (col, row);
            proof {
                lemma_tile_index(columns, rows, here);
            }
            let idx = row * number_of_tile_columns + col;
            let ghost regs0 = nested_views(regions@);
            let ghost v0 = visited@;
            if solidness_map_slice[idx] == 1 && !visited[idx] {
                let mut region: Vec<Tile> = Vec::new();
                proof {
                    assert forall|t: Tile, n: Tile|
                        #![trigger v0[tile_index(t, columns)], adjacent(t, n)]
                        in_grid(t, columns, rows) && v0[tile_index(t, columns)] && solid_tile(
                            map,
                            columns,
                            rows,
                            n,
                        ) && adjacent(t, n) implies v0[tile_index(n, columns)] by {
                        let k = choose|k: int| 0 <= k < regs0.len() && #[trigger] regs0[k].contains(t);
                        assert(regs0[k].contains(t) && adjacent(t, n));
                        assert(regs0[k].contains(n));
                        lemma_tile_index(columns, rows, n);
                    }
                }
                flood_fill_connected_region(
                    solidness_map_slice,
                    number_of_tile_columns,
                    number_of_tile_rows,
                    col,
                    row,
                    visited.as_mut_slice(),
                    &mut region,
                );
                let ghost r = region@;
                regions.push(region);
                proof {
                    let regs = nested_views(regions@);
                    assert(regs =~= regs0.push(r));
                    let s = row * columns + col;
                    assert forall|t: Tile| #[trigger] r.contains(t) implies s <= tile_index(t, columns) by {
                        lemma_contains_in_grid(map, columns, rows, r, t);
                        lemma_tile_index(columns, rows, t);
                        if tile_index(t, columns) < s {
                            assert(v0[tile_index(t, columns)]);
                        }
                    }
                    assert forall|k1: int, k2: int, t: Tile|
                        0 <= k1 < regs.len() && 0 <= k2 < regs.len() && k1 != k2 && #[trigger] regs[k1].contains(t)
                        implies !#[trigger] regs[k2].contains(t) by {
                        if k1 == regs.len() - 1 || k2 == regs.len() - 1 {
                            let other = if k1 == regs.len() - 1 { k2 } else { k1 };
                            if regs[other].contains(t) && r.contains(t) {
                                lemma_contains_in_grid(map, columns, rows, r, t);
                                lemma_tile_index(columns, rows, t);
                                assert(regs0[other].contains(t));
                                assert(v0[tile_index(t, columns)]);
                            }
                        }
                    }
                    assert forall|t: Tile| #![trigger visited@[tile_index(t, columns)]] in_grid(t, columns, rows) implies (visited@[tile_index(
                        t,
                        columns,
                    )] <==> exists|k: int| 0 <= k < regs.len() && #[trigger] regs[k].contains(t)) by {
                        if v0[tile_index(t, columns)] {
                            let k = choose|k: int| 0 <= k < regs0.len() && #[trigger] regs0[k].contains(t);
                            assert(regs[k].contains(t));
                        }
                        if r.contains(t) {
                            assert(regs[regs.len() - 1].contains(t));
                        }
                        if exists|k: int| 0 <= k < regs.len() && #[trigger] regs[k].contains(t) {
                            let k = choose|k: int| 0 <= k < regs.len() && #[trigger] regs[k].contains(t);
                            if k < regs0.len() {
                                assert(regs0[k].contains(t));
                            }
                        }
                    }
                    assert forall|t: Tile| #![trigger visited@[tile_index(t, columns)]]
                        solid_tile(map, columns, rows, t) && tile_index(t, columns) < s + 1 implies visited@[tile_index(
                        t,
                        columns,
                    )] by {
                        lemma_tile_index(columns, rows, t);
                        if tile_index(t, columns) == s {
                            lemma_tile_index_unique(columns, rows, t, here);
                            assert(r[0] == here);
                            assert(r.contains(here));
                        }
                    }
                    assert forall|k: int, t: Tile|
                        0 <= k < regs.len() && #[trigger] regs[k].contains(t) implies tile_index(regs[k][0], columns)
                        <= tile_index(t, columns) by {
                        if k < regs0.len() {
                            assert(regs0[k].contains(t));
                        }
                    }
                    assert forall|k1: int, k2: int|
                        0 <= k1 < k2 < regs.len() implies tile_index(#[trigger] regs[k1][0], columns)
                        < tile_index(#[trigger] regs[k2][0], columns) by {
                        if k2 < regs0.len() {
                            assert(regs[k1] == regs0[k1]);
                            assert(regs[k2] == regs0[k2]);
                        } else {
                            assert(regs[k1] == regs0[k1]);
                        }
                    }
                    assert forall|k: int| 0 <= k < regs.len() implies tile_index(#[trigger] regs[k][0], columns)
                        < s + 1 by {
                        if k < regs0.len() {
                            assert(regs[k] == regs0[k]);
                        }
                    }
                    assert forall|k: int| 0 <= k < regs.len() implies is_component(
                        map,
                        columns,
                        rows,
                        #[trigger] regs[k],
                    ) by {
                        if k < regs0.len() {
                            assert(regs[k] == regs0[k]);
                        }
                    }
                    assert forall|k: int| 0 <= k < regs.len() implies breadth_first_order(#[trigger] regs[k]) by {
                        if k < regs0.len() {
                            assert(regs[k] == regs0[k]);
                        }
                    }
                }
            } else {
                proof {
                    let s = row * columns + col;
                    assert forall|t: Tile| #![trigger visited@[tile_index(t, columns)]]
                        solid_tile(map, columns, rows, t) && tile_index(t, columns) < s + 1 implies visited@[tile_index(
                        t,
                        columns,
                    )] by {
                        lemma_tile_index(columns, rows, t);
                        if tile_index(t, columns) == s {
                            lemma_tile_index_unique(columns, rows, t, here);
                        }
                    }
                }
            }
            col += 1;
        }
        assert(row * columns + columns == (row + 1) * columns) by (nonlinear_arith);
        row += 1;
    }
    proof {
        let regs = nested_views(regions@);
        assert(rows * columns == columns * rows) by (nonlinear_arith);
        assert forall|t: Tile| #[trigger] solid_tile(map, columns, rows, t) implies exists|k: int|
            0 <= k < regs.len() && #[trigger] regs[k].contains(t) by {
            lemma_tile_index(columns, rows, t);
            assert(visited@[tile_index(t, columns)]);
        }
    }
    regions
}

/// The smallest and largest column and row among a region's tiles.
struct RegionBounds {
    min_column: usize,
    min_row: usize,
    max_column: usize,
    max_row: usize,
}

/// The bounds are the extreme columns and rows of the tiles.
pub open spec fn bounds_of(tiles: Seq<Tile>, min_column: int, min_row: int, max_column: int, max_row: int) -> bool {
    &&& forall|i: int|
        0 <= i < tiles.len() ==> min_column <= (#[trigger] tiles[i]).0 <= max_column && min_row
            <= tiles[i].1 <= max_row
    &&& exists|i: int| 0 <= i < tiles.len() && (#[trigger] tiles[i]).0 == min_column
    &&& exists|i: int| 0 <= i < tiles.len() && (#[trigger] tiles[i]).0 == max_column
    &&& exists|i: int| 0 <= i < tiles.len() && (#[trigger] tiles[i]).1 == min_row
    &&& exists|i: int| 0 <= i < tiles.len() && (#[trigger] tiles[i]).1 == max_row
}

fn compute_region_bounds(region_tiles: &[Tile]) -> (bounds: RegionBounds)
    requires
        region_tiles@.len() > 0,
    ensures
        bounds_of(
            region_tiles@,
            bounds.min_column as int,
            bounds.min_row as int,
            bounds.max_column as int,
            bounds.max_row as int,
        ),
{
    let ghost tiles = region_tiles@;
    let mut min_column = region_tiles[0].0;
    let mut max_column = region_tiles[0].0;
    let mut min_row = region_tiles[0].1;
    let mut max_row = region_tiles[0].1;
    let ghost mut at_min_column: int = 0;
    let ghost mut at_max_column: int = 0;
    let ghost mut at_min_row: int = 0;
    let ghost mut at_max_row: int = 0;
    let mut i: usize = 1;
    while i < region_tiles.len()
        invariant
            tiles == region_tiles@,
            1 <= i <= tiles.len(),
            forall|j: int|
                0 <= j < i ==> min_column <= (#[trigger] tiles[j]).0 <= max_column && min_row
                    <= tiles[j].1 <= max_row,
            0 <= at_min_column < i && tiles[at_min_column].0 == min_column,
            0 <= at_max_column < i && tiles[at_max_column].0 == max_column,
            0 <= at_min_row < i && tiles[at_min_row].1 == min_row,
            0 <= at_max_row < i && tiles[at_max_row].1 == max_row,
        decreases tiles.len() - i,
    {
        let (c, r) = region_tiles[i];
        if c < min_column {
            min_column = c;
            proof {
                at_min_column = i as int;
            }
        }
        if c > max_column {
            max_column = c;
            proof {
                at_max_column = i as int;
            }
        }
        if r < min_row {
            min_row = r;
            proof {
                at_min_row = i as int;
            }
        }
        if r > max_row {
            max_row = r;
            proof {
                at_max_row = i as int;
            }
        }
        i += 1;
    }
    RegionBounds { min_column, min_row, max_column, max_row }
}

fn compute_grid_dimensions(bounds: &RegionBounds) -> (dimensions: (usize, usize))
    requires
        bounds.min_column <= bounds.max_column < usize::MAX,
        bounds.min_row <= bounds.max_row < usize::MAX,
    ensures
        dimensions.0 == bounds.max_column - bounds.min_column + 1,
        dimensions.1 == bounds.max_row - bounds.min_row + 1,
{
    let width_in_tiles = bounds.max_column - bounds.min_column + 1;
    let height_in_tiles = bounds.max_row - bounds.min_row + 1;
    (width_in_tiles, height_in_tiles)
}

/// The region drawn into its bounding grid: byte 1 at the local position
/// of every region tile, 0 elsewhere.
pub open spec fn is_region_mask(
    mask: Seq<u8>,
    tiles: Seq<Tile>,
    min_column: int,
    min_row: int,
    grid_width: int,
    grid_height: int,
) -> bool {
    &&& mask.len() == grid_width * grid_height
    &&& forall|x: int, y: int|
        0 <= x < grid_width && 0 <= y < grid_height ==> (#[trigger] mask[y * grid_width + x] == 1
            <==> tiles.contains(((min_column + x) as usize, (min_row + y) as usize))) && (mask[y
            * grid_width + x] == 0 || mask[y * grid_width + x] == 1)
}

fn build_region_mask(
    region_tiles: &[Tile],
    bounds: &RegionBounds,
    grid_width: usize,
    grid_height: usize,
) -> (mask: Vec<u8>)
    requires
        grid_width * grid_height <= usize::MAX,
        bounds.min_column + grid_width <= usize::MAX + 1,
        bounds.min_row + grid_height <= usize::MAX + 1,
        forall|i: int|
            0 <= i < region_tiles@.len() ==> bounds.min_column <= (#[trigger] region_tiles@[i]).0
                < bounds.min_column + grid_width && bounds.min_row <= region_tiles@[i].1
                < bounds.min_row + grid_height,
    ensures
        is_region_mask(
            mask@,
            region_tiles@,
            bounds.min_column as int,
            bounds.min_row as int,
            grid_width as int,
            grid_height as int,
        ),
{
    let ghost tiles = region_tiles@;
    let ghost gw = grid_width as int;
    let ghost gh = grid_height as int;
    let ghost mc = bounds.min_column as int;
    let ghost mr = bounds.min_row as int;
    let total = grid_width * grid_height;
    let mut mask_vector: Vec<u8> = Vec::new();
    let mut k: usize = 0;
    while k < total
        invariant
            k <= total,
            mask_vector@.len() == k,
            forall|i: int| 0 <= i < k ==> #[trigger] mask_vector@[i] == 0,
        decreases total - k,
    {
        mask_vector.push(0);
        k += 1;
    }
    proof {
        assert forall|x: int, y: int| 0 <= x < gw && 0 <= y < gh implies (#[trigger] mask_vector@[y * gw + x]
            == 1 <==> tiles.subrange(0, 0).contains(((mc + x) as usize, (mr + y) as usize))) && (
        mask_vector@[y * gw + x] == 0 || mask_vector@[y * gw + x] == 1) by {
            lemma_grid_index(gw, gh, x, y);
        }
    }
    let mut i: usize = 0;
    while i < region_tiles.len()
        invariant
            tiles == region_tiles@,
            gw == grid_width,
            gh == grid_height,
            mc == bounds.min_column,
            mr == bounds.min_row,
            total == gw * gh,
            mc + gw <= usize::MAX + 1,
            mr + gh <= usize::MAX + 1,
            i <= tiles.len(),
            mask_vector@.len() == total,
            forall|j: int|
                0 <= j < tiles.len() ==> mc <= (#[trigger] tiles[j]).0 < mc + gw && mr <= tiles[j].1
                    < mr + gh,
            forall|x: int, y: int|
                0 <= x < gw && 0 <= y < gh ==> (#[trigger] mask_vector@[y * gw + x] == 1
                    <==> tiles.subrange(0, i as int).contains(((mc + x) as usize, (mr + y) as usize)))
                    && (mask_vector@[y * gw + x] == 0 || mask_vector@[y * gw + x] == 1),
        decreases tiles.len() - i,
    {
        let (tile_column, tile_row) = region_tiles[i];
        let local_x = tile_column - bounds.min_column;
        let local_y = tile_row - bounds.min_row;
        proof {
            lemma_grid_index(gw, gh, local_x as int, local_y as int);
        }
        let ghost m0 = mask_vector@;
        mask_vector.set(local_y * grid_width + local_x, 1);
        proof {
            assert forall|x: int, y: int| 0 <= x < gw && 0 <= y < gh implies (#[trigger] mask_vector@[y * gw + x]
                == 1 <==> tiles.subrange(0, i + 1).contains(((mc + x) as usize, (mr + y) as usize)))
                && (mask_vector@[y * gw + x] == 0 || mask_vector@[y * gw + x] == 1) by {
                lemma_grid_index(gw, gh, x, y);
                let t = ((mc + x) as usize, (mr + y) as usize);
                let prefix = tiles.subrange(0, i as int);
                let prefix1 = tiles.subrange(0, i + 1);
                assert(prefix1 =~= prefix.push(tiles[i as int]));
                if y * gw + x == local_y * gw + local_x {
                    lemma_grid_index_unique(gw, x, y, local_x as int, local_y as int);
                    assert(prefix1[i as int] == t);
                } else {
                    if prefix.contains(t) {
                        let q = choose|q: int| 0 <= q < prefix.len() && prefix[q] == t;
                        assert(prefix1[q] == t);
                    }
                    if prefix1.contains(t) {
                        let q = choose|q: int| 0 <= q < prefix1.len() && prefix1[q] == t;
                        if q == i {
                            assert(t == tiles[i as int]);
                            assert(x == local_x && y == local_y);
                        } else {
                            assert(prefix[q] == t);
                        }
                    }
                }
            }
        }
        i += 1;
    }
    proof {
        assert(tiles.subrange(0, tiles.len() as int) =~= tiles);
    }
    mask_vector
}

/// A point with integer pixel coordinates.
#[derive(Copy, Clone, Debug, PartialEq, Eq, Structural)]
pub struct PixelPoint {
    pub x: i64,
    pub y: i64,
}

/// The contour point of a move from local tile (x, y) in direction `d`:
/// the tile's corner on the side it leaves, in image pixels with y up.
pub open spec fn contour_point(
    min_column: int,
    min_row: int,
    tile_edge_length: int,
    image_height_pixels: int,
    x: int,
    y: int,
    d: int,
) -> PixelPoint {
    let offset_x = if dir_dx(d) > 0 {
        1int
    } else {
        0int
    };
    let offset_y = if dir_dy(d) < 0 {
        1int
    } else {
        0int
    };
    PixelPoint {
        x: ((min_column + x + offset_x) * tile_edge_length) as i64,
        y: (image_height_pixels - (min_row + y + offset_y) * tile_edge_length) as i64,
    }
}

/// The points of the walk's moves until it stands on its start again (or
/// cannot move): one point per move.
pub open spec fn is_contour_walk(
    points: Seq<PixelPoint>,
    mask: Seq<u8>,
    width: int,
    height: int,
    s0: WalkState,
    min_column: int,
    min_row: int,
    tile_edge_length: int,
    image_height_pixels: int,
) -> bool {
    &&& (walk_after(mask, width, height, s0, 1) is None && points.len() == 0) || first_return(
        mask,
        width,
        height,
        s0,
        points.len(),
    )
    &&& forall|i: int|
        0 <= i < points.len() ==> #[trigger] points[i] == contour_point(
            min_column,
            min_row,
            tile_edge_length,
            image_height_pixels,
            walk_after(mask, width, height, s0, i as nat).unwrap().0,
            walk_after(mask, width, height, s0, i as nat).unwrap().1,
            walk_after(mask, width, height, s0, (i + 1) as nat).unwrap().2,
        )
}

/// The walk from `s0` makes its first `moves` moves without standing on its
/// start cell again.
pub open spec fn not_returned_within(mask: Seq<u8>, width: int, height: int, s0: WalkState, moves: nat) -> bool {
    forall|i: nat|
        1 <= i <= moves ==> (#[trigger] walk_after(mask, width, height, s0, i)) is Some && !(walk_after(
            mask,
            width,
            height,
            s0,
            i,
        ).unwrap().0 == s0.0 && walk_after(mask, width, height, s0, i).unwrap().1 == s0.1)
}

/// The corner recorded by move `i + 1` of the walk, if it makes that move,
/// lies at or above the bottom of the image (its row edge, counted in
/// pixels from the top, is at most the image height).
pub open spec fn corner_within_image(
    mask: Seq<u8>,
    width: int,
    height: int,
    s0: WalkState,
    i: nat,
    min_row: int,
    tile_edge_length: int,
    image_height_pixels: int,
) -> bool {
    walk_after(mask, width, height, s0, (i + 1) as nat) is Some ==> (min_row + walk_after(
        mask,
        width,
        height,
        s0,
        i,
    ).unwrap().1 + if dir_dy(walk_after(mask, width, height, s0, (i + 1) as nat).unwrap().2) < 0 {
        1int
    } else {
        0int
    }) * tile_edge_length <= image_height_pixels
}

/// Every corner the walk records before it first stands on its start cell
/// again lies at or above the bottom of the image.
pub open spec fn walk_within_image(
    mask: Seq<u8>,
    width: int,
    height: int,
    s0: WalkState,
    min_row: int,
    tile_edge_length: int,
    image_height_pixels: int,
) -> bool {
    forall|i: nat|
        not_returned_within(mask, width, height, s0, i) ==> #[trigger] corner_within_image(
            mask,
            width,
            height,
            s0,
            i,
            min_row,
            tile_edge_length,
            image_height_pixels,
        )
}

/// The x coordinates of the contour points of the region's bounding grid
/// fit, and so do the rows.
pub open spec fn contour_fits(
    min_column: int,
    min_row: int,
    grid_width: int,
    grid_height: int,
    tile_edge_length: int,
    image_height_pixels: int,
) -> bool {
    &&& image_height_pixels <= coordinate_limit()
    &&& (min_column + grid_width) * tile_edge_length <= coordinate_limit()
    &&& (min_column + grid_width) * tile_edge_length <= usize::MAX
    &&& min_column + grid_width <= usize::MAX
    &&& min_row + grid_height <= usize::MAX
    &&& tile_edge_length >= 0
    &&& min_column >= 0
    &&& min_row >= 0
}

proof fn lemma_contour_point_fits(
    min_column: int,
    min_row: int,
    grid_width: int,
    grid_height: int,
    tile_edge_length: int,
    image_height_pixels: int,
    x: int,
    y: int,
    ox: int,
    oy: int,
)
    requires
        contour_fits(min_column, min_row, grid_width, grid_height, tile_edge_length, image_height_pixels),
        0 <= x < grid_width,
        0 <= y < grid_height,
        0 <= ox <= 1,
        0 <= oy <= 1,
    ensures
        0 <= (min_column + x + ox) * tile_edge_length <= coordinate_limit(),
        (min_column + x + ox) * tile_edge_length <= usize::MAX,
        0 <= (min_row + y + oy) * tile_edge_length,
        min_row + y + oy <= usize::MAX,
{
    assert(0 <= (min_column + x + ox) * tile_edge_length <= (min_column + grid_width) * tile_edge_length)
        by (nonlinear_arith)
        requires
            0 <= min_column + x + ox <= min_column + grid_width,
            tile_edge_length >= 0,
    ;
    assert(0 <= (min_row + y + oy) * tile_edge_length) by (nonlinear_arith)
        requires
            0 <= min_row + y + oy,
            tile_edge_length >= 0,
    ;
}

#[verifier::rlimit(80)]
#[verifier::spinoff_prover]
fn follow_region_contour(
    start_tile_column: usize,
    start_tile_row: usize,
    bounds: &RegionBounds,
    grid_width: usize,
    grid_height: usize,
    tile_edge_length: usize,
    image_height_pixels: usize,
    mask_vector: &[u8],
) -> (contour_points: Vec<PixelPoint>)
    requires
        mask_vector@.len() == grid_width * grid_height,
        bounds.min_column <= start_tile_column < bounds.min_column + grid_width,
        bounds.min_row <= start_tile_row < bounds.min_row + grid_height,
        cell_set(
            mask_vector@,
            grid_width as int,
            grid_height as int,
            start_tile_column - bounds.min_column,
            start_tile_row - bounds.min_row,
        ),
        contour_fits(
            bounds.min_column as int,
            bounds.min_row as int,
            grid_width as int,
            grid_height as int,
            tile_edge_length as int,
            image_height_pixels as int,
        ),
        walk_within_image(
            mask_vector@,
            grid_width as int,
            grid_height as int,
            (start_tile_column - bounds.min_column, start_tile_row - bounds.min_row, 0int),
            bounds.min_row as int,
            tile_edge_length as int,
            image_height_pixels as int,
        ),
    ensures
        is_contour_walk(
            contour_points@,
            mask_vector@,
            grid_width as int,
            grid_height as int,
            (start_tile_column - bounds.min_column, start_tile_row - bounds.min_row, 0int),
            bounds.min_column as int,
            bounds.min_row as int,
            tile_edge_length as int,
            image_height_pixels as int,
        ),
{
    let ghost mask = mask_vector@;
    let ghost gw = grid_width as int;
    let ghost gh = grid_height as int;
    let mut contour_points: Vec<PixelPoint> = Vec::new();
    let start_x = start_tile_column - bounds.min_column;
    let start_y = start_tile_row - bounds.min_row;
    let ghost s0: WalkState = (start_x as int, start_y as int, 0int);
    let mut current_local_x = start_x;
    let mut current_local_y = start_y;
    let mut previous_direction_index: usize = 3;
    proof {
        lemma_walk_returns(mask, gw, gh, s0);
    }
    let ghost bound: nat = if walk_after(mask, gw, gh, s0, 1) is None {
        1
    } else {
        choose|j: nat|
            1 <= j <= 4 * gw * gh && (#[trigger] walk_after(mask, gw, gh, s0, j)) is Some && walk_after(
                mask,
                gw,
                gh,
                s0,
                j,
            ).unwrap().0 == s0.0 && walk_after(mask, gw, gh, s0, j).unwrap().1 == s0.1
    };
    let ghost mut moves: nat = 0;
    proof {
        assert(walk_after(mask, gw, gh, s0, 0) == Some(s0));
    }
    loop
        invariant_except_break
            moves < bound,
            forall|i: nat|
                1 <= i <= moves ==> (#[trigger] walk_after(mask, gw, gh, s0, i)) is Some && !(walk_after(
                    mask,
                    gw,
                    gh,
                    s0,
                    i,
                ).unwrap().0 == s0.0 && walk_after(mask, gw, gh, s0, i).unwrap().1 == s0.1),
        invariant
            mask == mask_vector@,
            gw == grid_width,
            gh == grid_height,
            mask_vector@.len() == grid_width * grid_height,
            contour_fits(
                bounds.min_column as int,
                bounds.min_row as int,
                grid_width as int,
                grid_height as int,
                tile_edge_length as int,
                image_height_pixels as int,
            ),
            s0 == (start_x as int, start_y as int, 0int),
            walk_within_image(
                mask,
                gw,
                gh,
                s0,
                bounds.min_row as int,
                tile_edge_length as int,
                image_height_pixels as int,
            ),
            start_x < grid_width,
            start_y < grid_height,
            cell_set(mask, gw, gh, start_x as int, start_y as int),
            previous_direction_index < 4,
            current_local_x < grid_width,
            current_local_y < grid_height,
            walk_after(mask, gw, gh, s0, moves) == Some(
                (current_local_x as int, current_local_y as int, (previous_direction_index + 1) % 4),
            ),
            contour_points@.len() == moves,
            walk_after(mask, gw, gh, s0, 1) is Some ==> (walk_after(mask, gw, gh, s0, bound) is Some
                && walk_after(mask, gw, gh, s0, bound).unwrap().0 == s0.0 && walk_after(
                mask,
                gw,
                gh,
                s0,
                bound,
            ).unwrap().1 == s0.1),
            forall|i: int|
                0 <= i < contour_points@.len() ==> #[trigger] contour_points@[i] == contour_point(
                    bounds.min_column as int,
                    bounds.min_row as int,
                    tile_edge_length as int,
                    image_height_pixels as int,
                    walk_after(mask, gw, gh, s0, i as nat).unwrap().0,
                    walk_after(mask, gw, gh, s0, i as nat).unwrap().1,
                    walk_after(mask, gw, gh, s0, (i + 1) as nat).unwrap().2,
                ),
        ensures
            is_contour_walk(
                contour_points@,
                mask,
                gw,
                gh,
                s0,
                bounds.min_column as int,
                bounds.min_row as int,
                tile_edge_length as int,
                image_height_pixels as int,
            ),
        decreases bound - moves,
    {
        let found = first_open_direction(
            mask_vector,
            grid_width,
            grid_height,
            current_local_x,
            current_local_y,
            previous_direction_index,
        );
        match found {
            None => {
                proof {
                    assert(walk_step(
                        mask,
                        gw,
                        gh,
                        (current_local_x as int, current_local_y as int, (previous_direction_index + 1) % 4),
                    ) is None);
                    if moves > 0 {
                        // a moved walk can always move on (it can go back)
                        assert(walk_after(mask, gw, gh, s0, 1) is Some);
                        lemma_walk_arrived(mask, gw, gh, s0, moves);
                        lemma_arrived_steps(mask, gw, gh, walk_after(mask, gw, gh, s0, moves).unwrap());
                        assert(false);
                    }
                    assert(walk_after(mask, gw, gh, s0, 1) is None);
                }
                break;
            },
            Some((candidate_direction_index, (next_x, next_y))) => {
                let ghost d = candidate_direction_index as int;
                let offset_for_x: usize = if candidate_direction_index == 0 {
                    1
                } else {
                    0
                };
                let offset_for_y: usize = if candidate_direction_index == 3 {
                    1
                } else {
                    0
                };
                proof {
                    lemma_contour_point_fits(
                        bounds.min_column as int,
                        bounds.min_row as int,
                        gw,
                        gh,
                        tile_edge_length as int,
                        image_height_pixels as int,
                        current_local_x as int,
                        current_local_y as int,
                        offset_for_x as int,
                        offset_for_y as int,
                    );
                    assert(walk_after(mask, gw, gh, s0, (moves + 1) as nat) == Some(
                        (next_x as int, next_y as int, d),
                    ));
                    assert(not_returned_within(mask, gw, gh, s0, moves));
                    assert(corner_within_image(
                        mask,
                        gw,
                        gh,
                        s0,
                        moves,
                        bounds.min_row as int,
                        tile_edge_length as int,
                        image_height_pixels as int,
                    ));
                }
                let world_x = ((bounds.min_column + current_local_x) + offset_for_x) * tile_edge_length;
                let world_y = image_height_pixels - ((bounds.min_row + current_local_y) + offset_for_y)
                    * tile_edge_length;
                let point = PixelPoint { x: world_x as i64, y: world_y as i64 };
                contour_points.push(point);
                current_local_x = next_x;
                current_local_y = next_y;
                previous_direction_index = (candidate_direction_index + 4 - 1) % 4;
                proof {
                    moves = moves + 1;
                    assert(walk_after(mask, gw, gh, s0, moves) == Some(
                        (current_local_x as int, current_local_y as int, d),
                    ));
                    assert((previous_direction_index + 1) % 4 == d);
                    assert(contour_points@[moves - 1] == contour_point(
                        bounds.min_column as int,
                        bounds.min_row as int,
                        tile_edge_length as int,
                        image_height_pixels as int,
                        walk_after(mask, gw, gh, s0, (moves - 1) as nat).unwrap().0,
                        walk_after(mask, gw, gh, s0, (moves - 1) as nat).unwrap().1,
                        walk_after(mask, gw, gh, s0, moves).unwrap().2,
                    ));
                }
                if current_local_x == start_x && current_local_y == start_y {
                    proof {
                        assert(first_return(mask, gw, gh, s0, moves));
                    }
                    break;
                }
                proof {
                    if moves == bound {
                        assert(walk_after(mask, gw, gh, s0, 1) is Some);
                    }
                }
            },
        }
    }
    contour_points
}

/// A region tile with a side that does not touch another tile of the region.
pub open spec fn border_tile(tiles: Seq<Tile>, t: Tile) -> bool {
    ||| t.0 == 0
    ||| t.1 == 0
    ||| !tiles.contains(((t.0 + 1) as usize, t.1))
    ||| !tiles.contains(((t.0 - 1) as usize, t.1))
    ||| !tiles.contains((t.0, (t.1 + 1) as usize))
    ||| !tiles.contains((t.0, (t.1 - 1) as usize))
}

/// `tiles[i]` is the first border tile of the list.
pub open spec fn first_border_at(tiles: Seq<Tile>, i: int) -> bool {
    &&& 0 <= i < tiles.len()
    &&& border_tile(tiles, tiles[i])
    &&& forall|j: int| 0 <= j < i ==> !border_tile(tiles, #[trigger] tiles[j])
}

/// The cell at local (x, y) is outside the grid or clear in the mask.
pub open spec fn cell_clear(mask: Seq<u8>, width: int, height: int, x: int, y: int) -> bool {
    x < 0 || y < 0 || x >= width || y >= height || mask[y * width + x] == 0
}

proof fn lemma_border_by_mask(
    mask: Seq<u8>,
    tiles: Seq<Tile>,
    min_column: int,
    min_row: int,
    max_column: int,
    max_row: int,
    t: Tile,
)
    requires
        bounds_of(tiles, min_column, min_row, max_column, max_row),
        max_column < usize::MAX,
        max_row < usize::MAX,
        is_region_mask(
            mask,
            tiles,
            min_column,
            min_row,
            max_column - min_column + 1,
            max_row - min_row + 1,
        ),
        tiles.contains(t),
    ensures
        border_tile(tiles, t) <==> {
            let gw = max_column - min_column + 1;
            let gh = max_row - min_row + 1;
            let x = t.0 - min_column;
            let y = t.1 - min_row;
            ||| cell_clear(mask, gw, gh, x + 1, y)
            ||| cell_clear(mask, gw, gh, x, y + 1)
            ||| cell_clear(mask, gw, gh, x - 1, y)
            ||| cell_clear(mask, gw, gh, x, y - 1)
        },
{
    let gw = max_column - min_column + 1;
    let gh = max_row - min_row + 1;
    let i = choose|i: int| 0 <= i < tiles.len() && tiles[i] == t;
    assert(min_column <= tiles[i].0 <= max_column);
    let x = t.0 - min_column;
    let y = t.1 - min_row;
    // a tile outside the bounding box is no region tile
    assert forall|u: Tile| #[trigger] tiles.contains(u) implies min_column <= u.0 <= max_column && min_row
        <= u.1 <= max_row by {
        let k = choose|k: int| 0 <= k < tiles.len() && tiles[k] == u;
        assert(min_column <= tiles[k].0 <= max_column);
    }
    if 0 <= x + 1 < gw {
        let xi = x + 1;
        assert(mask[y * gw + xi] == 1 <==> tiles.contains(((min_column + xi) as usize, (min_row + y) as usize)));
    }
    if 0 <= x - 1 {
        let xi = x - 1;
        assert(mask[y * gw + xi] == 1 <==> tiles.contains(((min_column + xi) as usize, (min_row + y) as usize)));
    }
    if 0 <= y + 1 < gh {
        let yi = y + 1;
        assert(mask[yi * gw + x] == 1 <==> tiles.contains(((min_column + x) as usize, (min_row + yi) as usize)));
    }
    if 0 <= y - 1 {
        let yi = y - 1;
        assert(mask[yi * gw + x] == 1 <==> tiles.contains(((min_column + x) as usize, (min_row + yi) as usize)));
    }
}

/// Some side of the local tile (x, y) faces a cell outside the grid or clear
/// in the mask (tried right, down, left, up).
fn tile_has_clear_side(
    mask_vector: &[u8],
    grid_width: usize,
    grid_height: usize,
    local_x: usize,
    local_y: usize,
) -> (clear: bool)
    requires
        mask_vector@.len() == grid_width * grid_height,
        local_x < grid_width,
        local_y < grid_height,
    ensures
        clear == (cell_clear(mask_vector@, grid_width as int, grid_height as int, local_x + 1, local_y as int)
            || cell_clear(mask_vector@, grid_width as int, grid_height as int, local_x as int, local_y + 1)
            || cell_clear(mask_vector@, grid_width as int, grid_height as int, local_x - 1, local_y as int)
            || cell_clear(mask_vector@, grid_width as int, grid_height as int, local_x as int, local_y - 1)),
{
    let ghost gw = grid_width as int;
    let ghost gh = grid_height as int;
    let _cells = mask_vector.len();
        let mut direction: usize = 0;
        while direction < 4
            invariant
                mask_vector@.len() == grid_width * grid_height,
                grid_width * grid_height <= usize::MAX,
                gw == grid_width,
                gh == grid_height,
                local_x < grid_width,
                local_y < grid_height,
                direction <= 4,
                direction > 0 ==> !cell_clear(mask_vector@, gw, gh, local_x + 1, local_y as int),
                direction > 1 ==> !cell_clear(mask_vector@, gw, gh, local_x as int, local_y + 1),
                direction > 2 ==> !cell_clear(mask_vector@, gw, gh, local_x - 1, local_y as int),
                direction > 3 ==> !cell_clear(mask_vector@, gw, gh, local_x as int, local_y - 1),
            decreases 4 - direction,
        {
            let clear = if direction == 0 {
                if local_x + 1 >= grid_width {
                    true
                } else {
                    proof {
                        lemma_grid_index(gw, gh, local_x + 1, local_y as int);
                    }
                    mask_vector[local_y * grid_width + local_x + 1] == 0
                }
            } else if direction == 1 {
                if local_y + 1 >= grid_height {
                    true
                } else {
                    proof {
                        lemma_grid_index(gw, gh, local_x as int, local_y + 1);
                    }
                    mask_vector[(local_y + 1) * grid_width + local_x] == 0
                }
            } else if direction == 2 {
                if local_x == 0 {
                    true
                } else {
                    proof {
                        lemma_grid_index(gw, gh, local_x - 1, local_y as int);
                    }
                    mask_vector[local_y * grid_width + local_x - 1] == 0
                }
            } else {
                if local_y == 0 {
                    true
                } else {
                    proof {
                        lemma_grid_index(gw, gh, local_x as int, local_y - 1);
                    }
                    mask_vector[(local_y - 1) * grid_width + local_x] == 0
                }
            };
            if clear {
                return true;
            }
            direction += 1;
        }
    false
}

fn find_contour_start_tile(
    region_tiles: &[Tile],
    bounds: &RegionBounds,
    grid_width: usize,
    grid_height: usize,
    mask_vector: &[u8],
) -> (start: Tile)
    requires
        bounds_of(
            region_tiles@,
            bounds.min_column as int,
            bounds.min_row as int,
            bounds.max_column as int,
            bounds.max_row as int,
        ),
        bounds.max_column < usize::MAX,
        bounds.max_row < usize::MAX,
        grid_width == bounds.max_column - bounds.min_column + 1,
        grid_height == bounds.max_row - bounds.min_row + 1,
        grid_width * grid_height <= usize::MAX,
        is_region_mask(
            mask_vector@,
            region_tiles@,
            bounds.min_column as int,
            bounds.min_row as int,
            grid_width as int,
            grid_height as int,
        ),
    ensures
        (exists|i: int| first_border_at(region_tiles@, i) && start == region_tiles@[i]) || ((forall|
            i: int,
        | 0 <= i < region_tiles@.len() ==> !border_tile(region_tiles@, #[trigger] region_tiles@[i]))
            && start == (bounds.min_column, bounds.min_row)),
{
    let ghost tiles = region_tiles@;
    let ghost gw = grid_width as int;
    let ghost gh = grid_height as int;
    let mut i: usize = 0;
    while i < region_tiles.len()
        invariant
            tiles == region_tiles@,
            gw == grid_width,
            gh == grid_height,
            i <= tiles.len(),
            forall|j: int| 0 <= j < i ==> !border_tile(tiles, #[trigger] tiles[j]),
            bounds_of(
                tiles,
                bounds.min_column as int,
                bounds.min_row as int,
                bounds.max_column as int,
                bounds.max_row as int,
            ),
            bounds.max_column < usize::MAX,
            bounds.max_row < usize::MAX,
            grid_width == bounds.max_column - bounds.min_column + 1,
            grid_height == bounds.max_row - bounds.min_row + 1,
            grid_width * grid_height <= usize::MAX,
            is_region_mask(
                mask_vector@,
                tiles,
                bounds.min_column as int,
                bounds.min_row as int,
                grid_width as int,
                grid_height as int,
            ),
        decreases tiles.len() - i,
    {
        let (tile_column, tile_row) = region_tiles[i];
        let local_x = tile_column - bounds.min_column;
        let local_y = tile_row - bounds.min_row;
        proof {
            assert(tiles.contains(tiles[i as int]));
            lemma_border_by_mask(
                mask_vector@,
                tiles,
                bounds.min_column as int,
                bounds.min_row as int,
                bounds.max_column as int,
                bounds.max_row as int,
                tiles[i as int],
            );
        }
        if tile_has_clear_side(mask_vector, grid_width, grid_height, local_x, local_y) {
            proof {
                assert(first_border_at(tiles, i as int));
            }
            return (tile_column, tile_row);
        }
        i += 1;
    }
    (bounds.min_column, bounds.min_row)
}

/// The region drawn into its bounding grid (min_column, min_row) .. + (width, height).
pub open spec fn region_mask_of(tiles: Seq<Tile>, min_column: int, min_row: int, width: int, height: int) -> Seq<u8> {
    Seq::new(
        (width * height) as nat,
        |i: int|
            if tiles.contains(((min_column + i % width) as usize, (min_row + i / width) as usize)) {
                1u8
            } else {
                0u8
            },
    )
}

proof fn lemma_region_mask_of(mask: Seq<u8>, tiles: Seq<Tile>, min_column: int, min_row: int, width: int, height: int)
    requires
        is_region_mask(mask, tiles, min_column, min_row, width, height),
        width > 0,
        height > 0,
    ensures
        mask == region_mask_of(tiles, min_column, min_row, width, height),
{
    let spec_mask = region_mask_of(tiles, min_column, min_row, width, height);
    assert forall|i: int| 0 <= i < mask.len() implies mask[i] == spec_mask[i] by {
        let x = i % width;
        let y = i / width;
        vstd::arithmetic::div_mod::lemma_fundamental_div_mod(i, width);
        assert(0 <= x < width) by {
            vstd::arithmetic::div_mod::lemma_mod_bound(i, width);
        }
        assert(0 <= y) by {
            vstd::arithmetic::div_mod::lemma_div_pos_is_pos(i, width);
        }
        assert(y < height) by {
            if y >= height {
                assert(y * width >= height * width) by (nonlinear_arith)
                    requires
                        y >= height,
                        width > 0,
                ;
                assert(width * y == y * width) by (nonlinear_arith);
                assert(width * height == height * width) by (nonlinear_arith);
            }
        }
        assert(width * y == y * width) by (nonlinear_arith);
        assert(i == y * width + x);
        assert(mask[y * width + x] == 1 <==> tiles.contains(((min_column + x) as usize, (min_row + y) as usize)));
    }
    assert(mask =~= spec_mask);
}

/// The outline walk of the region (over its bounding-grid mask, from its
/// first border tile) records no corner below the bottom of the image.
pub open spec fn contour_within_image(tiles: Seq<Tile>, tile_edge_length: int, image_height_pixels: int) -> bool {
    forall|min_column: int, min_row: int, max_column: int, max_row: int, i: int|
        #![trigger bounds_of(tiles, min_column, min_row, max_column, max_row), first_border_at(tiles, i)]
        bounds_of(tiles, min_column, min_row, max_column, max_row) && first_border_at(tiles, i)
            ==> walk_within_image(
            region_mask_of(tiles, min_column, min_row, max_column - min_column + 1, max_row - min_row + 1),
            max_column - min_column + 1,
            max_row - min_row + 1,
            (tiles[i].0 - min_column, tiles[i].1 - min_row, 0int),
            min_row,
            tile_edge_length,
            image_height_pixels,
        )
}

/// The region's tiles can be traced: its outline stays within the image
/// height, each tile's corners fit `coordinate_limit` and a `usize`, and its bounding
/// grid can be allocated.
pub open spec fn region_traceable(tiles: Seq<Tile>, tile_edge_length: int, image_height_pixels: int) -> bool {
    &&& image_height_pixels <= coordinate_limit()
    &&& contour_within_image(tiles, tile_edge_length, image_height_pixels)
    &&& forall|i: int|
        0 <= i < tiles.len() ==> {
            &&& (#[trigger] tiles[i]).0 < usize::MAX
            &&& tiles[i].1 < usize::MAX
            &&& (tiles[i].0 + 1) * tile_edge_length <= coordinate_limit()
            &&& (tiles[i].0 + 1) * tile_edge_length <= usize::MAX
        }
    &&& forall|min_column: int, min_row: int, max_column: int, max_row: int|
        #[trigger] bounds_of(tiles, min_column, min_row, max_column, max_row) ==> (max_column - min_column
            + 1) * (max_row - min_row + 1) <= isize::MAX
}

/// `contour` is the outline of the region: empty for no tiles; otherwise
/// the walk around the region's bounding-grid mask from its first border
/// tile, one corner point per move.
#[verifier::opaque]
pub open spec fn is_traced_contour(
    tiles: Seq<Tile>,
    contour: Seq<PixelPoint>,
    tile_edge_length: int,
    image_height_pixels: int,
) -> bool {
    &&& tiles.len() == 0 ==> contour.len() == 0
    &&& tiles.len() > 0 ==> exists|min_column: int, min_row: int, max_column: int, max_row: int, i: int|
        {
            &&& bounds_of(tiles, min_column, min_row, max_column, max_row)
            &&& first_border_at(tiles, i)
            &&& is_contour_walk(
                contour,
                region_mask_of(tiles, min_column, min_row, max_column - min_column + 1, max_row - min_row + 1),
                max_column - min_column + 1,
                max_row - min_row + 1,
                (tiles[i].0 - min_column, tiles[i].1 - min_row, 0int),
                min_column,
                min_row,
                tile_edge_length,
                image_height_pixels,
            )
        }
}

/// The outline of a region: the walk around its bounding-grid mask from
/// its first border tile, one corner point per move.
pub fn trace_region_contour(
    region_tiles: &[Tile],
    tile_edge_length: usize,
    image_height_pixels: usize,
) -> (contour: Vec<PixelPoint>)
    requires
        region_traceable(region_tiles@, tile_edge_length as int, image_height_pixels as int),
    ensures
        region_tiles@.len() == 0 ==> contour@.len() == 0,
        is_traced_contour(region_tiles@, contour@, tile_edge_length as int, image_height_pixels as int),
{
    reveal(is_traced_contour);
    if region_tiles.len() == 0 {
        return Vec::new();
    }
    let ghost tiles = region_tiles@;
    let region_bounds = compute_region_bounds(region_tiles);
    let ghost mc = region_bounds.min_column as int;
    let ghost mr = region_bounds.min_row as int;
    let ghost xc = region_bounds.max_column as int;
    let ghost xr = region_bounds.max_row as int;
    proof {
        let ia = choose|i: int| 0 <= i < tiles.len() && (#[trigger] tiles[i]).0 == xc;
        let ic = choose|i: int| 0 <= i < tiles.len() && (#[trigger] tiles[i]).1 == xr;
        assert(bounds_of(tiles, mc, mr, xc, xr));
        assert(tiles[ia].0 < usize::MAX && tiles[ic].1 < usize::MAX);
    }
    let (grid_width, grid_height) = compute_grid_dimensions(&region_bounds);
    proof {
        assert(grid_width * grid_height <= isize::MAX);
        assert(1 <= grid_width && 1 <= grid_height);
    }
    let region_mask = build_region_mask(region_tiles, &region_bounds, grid_width, grid_height);
    proof {
        lemma_region_mask_of(region_mask@, tiles, mc, mr, grid_width as int, grid_height as int);
    }
    let (start_column, start_row) = find_contour_start_tile(
        region_tiles,
        &region_bounds,
        grid_width,
        grid_height,
        &region_mask,
    );
    let ghost i_start: int = if exists|i: int| first_border_at(tiles, i) && (start_column, start_row) == tiles[i] {
        choose|i: int| first_border_at(tiles, i) && (start_column, start_row) == tiles[i]
    } else {
        0
    };
    proof {
        // the tile with the smallest column always has a free left side
        let ib = choose|i: int| 0 <= i < tiles.len() && (#[trigger] tiles[i]).0 == mc;
        assert(tiles.contains(tiles[ib]));
        lemma_border_by_mask(region_mask@, tiles, mc, mr, xc, xr, tiles[ib]);
        assert(border_tile(tiles, tiles[ib]));
        assert(first_border_at(tiles, i_start) && (start_column, start_row) == tiles[i_start]);
        assert(tiles.contains(tiles[i_start]));
        assert(tiles[i_start] == (
        ((mc + (start_column - mc)) as usize, (mr + (start_row - mr)) as usize)));
        let ih = choose|i: int| 0 <= i < tiles.len() && (#[trigger] tiles[i]).1 == xr;
        let iw = choose|i: int| 0 <= i < tiles.len() && (#[trigger] tiles[i]).0 == xc;
        assert(tiles[ih].1 < usize::MAX);
        assert((tiles[iw].0 + 1) * tile_edge_length <= coordinate_limit());
        assert((tiles[iw].0 + 1) * tile_edge_length <= usize::MAX);
        assert(contour_fits(mc, mr, grid_width as int, grid_height as int, tile_edge_length as int, image_height_pixels as int));
        assert(bounds_of(tiles, mc, mr, xc, xr));
        assert(walk_within_image(
            region_mask_of(tiles, mc, mr, xc - mc + 1, xr - mr + 1),
            xc - mc + 1,
            xr - mr + 1,
            (tiles[i_start].0 - mc, tiles[i_start].1 - mr, 0int),
            mr,
            tile_edge_length as int,
            image_height_pixels as int,
        ));
    }
    follow_region_contour(
        start_column,
        start_row,
        &region_bounds,
        grid_width,
        grid_height,
        tile_edge_length,
        image_height_pixels,
        &region_mask,
    )
}

/// Lexicographic order on points: by x, then by y.
pub open spec fn point_le(a: PixelPoint, b: PixelPoint) -> bool {
    a.x < b.x || (a.x == b.x && a.y <= b.y)
}

pub open spec fn sorted_by_x_then_y(points: Seq<PixelPoint>) -> bool {
    forall|i: int, j: int| 0 <= i <= j < points.len() ==> point_le(#[trigger] points[i], #[trigger] points[j])
}

/// The largest coordinate a point may have: differences of two such
/// coordinates, and the cross products of such differences, fit an `i128`.
pub open spec fn coordinate_limit() -> int {
    0x3fff_ffff_ffff_ffff
}

/// Both coordinates lie within `coordinate_limit` of zero.
pub open spec fn point_in_range(p: PixelPoint) -> bool {
    -coordinate_limit() <= p.x <= coordinate_limit() && -coordinate_limit() <= p.y <= coordinate_limit()
}

/// Sorts by x, then by y (insertion sort).
fn sort_points_by_x_then_y(points: &mut [PixelPoint])
    ensures
        sorted_by_x_then_y(final(points)@),
        final(points)@.to_multiset() == old(points)@.to_multiset(),
        final(points)@.len() == old(points)@.len(),
{
    let n = points.len();
    let mut i: usize = 1;
    if n == 0 {
        return;
    }
    while i < n
        invariant
            n == points@.len(),
            1 <= i <= n,
            points@.to_multiset() == old(points)@.to_multiset(),
            sorted_by_x_then_y(points@.subrange(0, i as int)),
        decreases n - i,
    {
        let mut j = i;
        proof {
            let pre = points@.subrange(0, i as int);
            assert forall|a: int, b: int| 0 <= a <= b <= i && a != j && b != j implies point_le(
                #[trigger] points@[a],
                #[trigger] points@[b],
            ) by {
                assert(pre[a] == points@[a]);
                assert(pre[b] == points@[b]);
                assert(point_le(pre[a], pre[b]));
            }
        }
        while j > 0 && !(points[j - 1].x < points[j].x || (points[j - 1].x == points[j].x
            && points[j - 1].y <= points[j].y))
            invariant
                n == points@.len(),
                1 <= i < n,
                j <= i,
                points@.to_multiset() == old(points)@.to_multiset(),
                // the prefix up to i is sorted except that the element at j may be
                // smaller than those before it
                forall|a: int, b: int|
                    0 <= a <= b <= i && a != j && b != j ==> point_le(
                        #[trigger] points@[a],
                        #[trigger] points@[b],
                    ),
                forall|b: int| j < b <= i ==> point_le(points@[j as int], #[trigger] points@[b]),
            decreases j,
        {
            let left = points[j - 1];
            let right = points[j];
            let ghost before = points@;
            points[j - 1] = right;
            points[j] = left;
            proof {
                let mid = before.update(j - 1, right);
                assert(points@ == mid.update(j as int, left));
                vstd::seq_lib::to_multiset_update(before, j - 1, right);
                vstd::seq_lib::to_multiset_update(mid, j as int, left);
                assert(mid[j as int] == right);
                let m = before.to_multiset();
                assert(m.contains(left) && m.contains(right)) by {
                    vstd::seq_lib::to_multiset_contains(before, left);
                    vstd::seq_lib::to_multiset_contains(before, right);
                    assert(before[j - 1] == left);
                    assert(before[j as int] == right);
                }
                assert(m.insert(right).remove(left).insert(left).remove(right) =~= m);
            }
            j -= 1;
        }
        proof {
            let pre = points@.subrange(0, i + 1);
            assert forall|a: int, b: int| 0 <= a <= b < pre.len() implies point_le(
                #[trigger] pre[a],
                #[trigger] pre[b],
            ) by {
                if a == j && b != j && j > 0 {
                    assert(point_le(points@[j - 1], points@[j as int]));
                    assert(point_le(points@[a], points@[b]));
                }
            }
        }
        i += 1;
    }
    proof {
        assert(points@.subrange(0, n as int) =~= points@);
    }
}

/// Twice the signed area of the triangle a, b, c: positive when c lies to
/// the left of the line from a to b.
#[verifier::opaque]
pub open spec fn cross_z(a: PixelPoint, b: PixelPoint, c: PixelPoint) -> int {
    (b.x - a.x) * (c.y - a.y) - (b.y - a.y) * (c.x - a.x)
}

fn compute_cross_product_z(point_a: &PixelPoint, point_b: &PixelPoint, point_c: &PixelPoint) -> (z: i128)
    requires
        point_in_range(*point_a),
        point_in_range(*point_b),
        point_in_range(*point_c),
    ensures
        z == cross_z(*point_a, *point_b, *point_c),
{
    let delta_x_ab = point_b.x as i128 - point_a.x as i128;
    let delta_y_ab = point_b.y as i128 - point_a.y as i128;
    let delta_x_bc = point_c.x as i128 - point_a.x as i128;
    let delta_y_bc = point_c.y as i128 - point_a.y as i128;
    assert(-0x7fff_ffff_ffff_fffe * 0x7fff_ffff_ffff_fffe <= delta_x_ab * delta_y_bc <= 0x7fff_ffff_ffff_fffe * 0x7fff_ffff_ffff_fffe)
        by (nonlinear_arith)
        requires
            -0x7fff_ffff_ffff_fffe <= delta_x_ab <= 0x7fff_ffff_ffff_fffe,
            -0x7fff_ffff_ffff_fffe <= delta_y_bc <= 0x7fff_ffff_ffff_fffe,
    ;
    assert(-0x7fff_ffff_ffff_fffe * 0x7fff_ffff_ffff_fffe <= delta_y_ab * delta_x_bc <= 0x7fff_ffff_ffff_fffe * 0x7fff_ffff_ffff_fffe)
        by (nonlinear_arith)
        requires
            -0x7fff_ffff_ffff_fffe <= delta_y_ab <= 0x7fff_ffff_ffff_fffe,
            -0x7fff_ffff_ffff_fffe <= delta_x_bc <= 0x7fff_ffff_ffff_fffe,
    ;
    proof {
        reveal(cross_z);
    }
    delta_x_ab * delta_y_bc - delta_y_ab * delta_x_bc
}

/// Drops points from the end of the chain while its last two points and
/// `p` fail to make a strict left turn.
pub open spec fn pop_non_left_turns(chain: Seq<PixelPoint>, p: PixelPoint) -> Seq<PixelPoint>
    decreases chain.len(),
{
    if chain.len() >= 2 && cross_z(chain[chain.len() - 2], chain[chain.len() - 1], p) <= 0 {
        pop_non_left_turns(chain.drop_last(), p)
    } else {
        chain
    }
}

/// Andrew's monotone chain over the points in the given order: each point
/// is appended after the points that it would leave on a non-left turn
/// have been dropped.
pub open spec fn monotone_chain(points: Seq<PixelPoint>) -> Seq<PixelPoint>
    decreases points.len(),
{
    if points.len() == 0 {
        Seq::empty()
    } else {
        pop_non_left_turns(monotone_chain(points.drop_last()), points.last()).push(points.last())
    }
}

/// Every three consecutive points make a strict left turn.
pub open spec fn strictly_convex(chain: Seq<PixelPoint>) -> bool {
    forall|i: int| 0 <= i < chain.len() - 2 ==> #[trigger] left_turn_at(chain, i)
}

/// The points at i, i + 1 and i + 2 make a strict left turn.
pub open spec fn left_turn_at(chain: Seq<PixelPoint>, i: int) -> bool {
    cross_z(chain[i], chain[i + 1], chain[i + 2]) > 0
}

proof fn lemma_pop_keeps(chain: Seq<PixelPoint>, p: PixelPoint)
    requires
        strictly_convex(chain),
    ensures
        strictly_convex(pop_non_left_turns(chain, p)),
        pop_non_left_turns(chain, p).len() <= chain.len(),
        forall|i: int|
            0 <= i < pop_non_left_turns(chain, p).len() ==> #[trigger] pop_non_left_turns(chain, p)[i]
                == chain[i],
        pop_non_left_turns(chain, p).len() >= 2 ==> cross_z(
            pop_non_left_turns(chain, p)[pop_non_left_turns(chain, p).len() - 2],
            pop_non_left_turns(chain, p)[pop_non_left_turns(chain, p).len() - 1],
            p,
        ) > 0,
    decreases chain.len(),
{
    if chain.len() >= 2 && cross_z(chain[chain.len() - 2], chain[chain.len() - 1], p) <= 0 {
        let shorter = chain.drop_last();
        assert forall|i: int| 0 <= i < shorter.len() - 2 implies #[trigger] left_turn_at(shorter, i) by {
            assert(left_turn_at(chain, i));
            assert(shorter[i] == chain[i]);
            assert(shorter[i + 1] == chain[i + 1]);
            assert(shorter[i + 2] == chain[i + 2]);
        }
        lemma_pop_keeps(shorter, p);
    }
}

/// Every chain that the monotone-chain steps build turns strictly left at
/// each of its inner points: it has no collinear or reflex corner.
pub proof fn lemma_monotone_chain_strictly_convex(points: Seq<PixelPoint>)
    ensures
        strictly_convex(monotone_chain(points)),
    decreases points.len(),
{
    if points.len() > 0 {
        let p = points.last();
        let rest = monotone_chain(points.drop_last());
        lemma_monotone_chain_strictly_convex(points.drop_last());
        lemma_pop_keeps(rest, p);
        let kept = pop_non_left_turns(rest, p);
        let chain = kept.push(p);
        assert(monotone_chain(points) == chain);
        assert forall|i: int| 0 <= i < chain.len() - 2 implies #[trigger] left_turn_at(chain, i) by {
            assert(chain[i] == kept[i]);
            assert(chain[i + 1] == kept[i + 1]);
            if i < kept.len() - 2 {
                assert(left_turn_at(kept, i));
                assert(chain[i + 2] == kept[i + 2]);
            } else {
                assert(chain[i + 2] == p);
            }
        }
    }
}

/// The chain of the points in order: `points` must be in range (see `point_in_range`).
fn build_monotone_chain(sorted_points: &[PixelPoint], reversed: bool) -> (chain: Vec<PixelPoint>)
    requires
        forall|i: int| 0 <= i < sorted_points@.len() ==> point_in_range(#[trigger] sorted_points@[i]),
    ensures
        chain@ == monotone_chain(if reversed {
            sorted_points@.reverse()
        } else {
            sorted_points@
        }),
        strictly_convex(chain@),
        forall|i: int| 0 <= i < chain@.len() ==> sorted_points@.contains(#[trigger] chain@[i]),
{
    let ghost order = if reversed {
        sorted_points@.reverse()
    } else {
        sorted_points@
    };
    let n = sorted_points.len();
    let mut chain: Vec<PixelPoint> = Vec::new();
    let mut k: usize = 0;
    while k < n
        invariant
            n == sorted_points@.len(),
            order.len() == n,
            order == (if reversed {
                sorted_points@.reverse()
            } else {
                sorted_points@
            }),
            forall|i: int| 0 <= i < sorted_points@.len() ==> point_in_range(#[trigger] sorted_points@[i]),
            k <= n,
            chain@ == monotone_chain(order.subrange(0, k as int)),
            strictly_convex(chain@),
            forall|i: int| 0 <= i < chain@.len() ==> sorted_points@.contains(#[trigger] chain@[i]),
        decreases n - k,
    {
        let candidate_point = if reversed {
            sorted_points[n - 1 - k]
        } else {
            sorted_points[k]
        };
        let ghost prefix = order.subrange(0, k + 1);
        proof {
            assert(candidate_point == order[k as int]);
            assert(prefix.drop_last() =~= order.subrange(0, k as int));
            assert(prefix.last() == candidate_point);
            assert(sorted_points@.contains(candidate_point)) by {
                if reversed {
                    assert(sorted_points@[n - 1 - k] == candidate_point);
                } else {
                    assert(sorted_points@[k as int] == candidate_point);
                }
            }
        }
        let ghost target = pop_non_left_turns(chain@, candidate_point);
        proof {
            lemma_pop_keeps(chain@, candidate_point);
        }
        loop
            invariant
                pop_non_left_turns(chain@, candidate_point) == target,
                strictly_convex(chain@),
                forall|i: int| 0 <= i < chain@.len() ==> sorted_points@.contains(#[trigger] chain@[i]),
                forall|i: int| 0 <= i < sorted_points@.len() ==> point_in_range(#[trigger] sorted_points@[i]),
                point_in_range(candidate_point),
            ensures
                pop_non_left_turns(chain@, candidate_point) == target,
                chain@ == target,
                strictly_convex(chain@),
                forall|i: int| 0 <= i < chain@.len() ==> sorted_points@.contains(#[trigger] chain@[i]),
            decreases chain@.len(),
        {
            if chain.len() < 2 {
                break;
            }
            let len = chain.len();
            let a = chain[len - 2];
            let b = chain[len - 1];
            proof {
                assert(sorted_points@.contains(a));
                assert(sorted_points@.contains(b));
                let ia = choose|i: int| 0 <= i < sorted_points@.len() && sorted_points@[i] == a;
                let ib = choose|i: int| 0 <= i < sorted_points@.len() && sorted_points@[i] == b;
                assert(point_in_range(sorted_points@[ia]));
                assert(point_in_range(sorted_points@[ib]));
            }
            if compute_cross_product_z(&a, &b, &candidate_point) > 0 {
                break;
            }
            let ghost before = chain@;
            chain.pop();
            proof {
                assert(chain@ =~= before.drop_last());
                assert forall|i: int| 0 <= i < chain@.len() - 2 implies #[trigger] left_turn_at(chain@, i) by {
                    assert(left_turn_at(before, i));
                    assert(chain@[i] == before[i]);
                    assert(chain@[i + 1] == before[i + 1]);
                    assert(chain@[i + 2] == before[i + 2]);
                }
                assert forall|i: int| 0 <= i < chain@.len() implies sorted_points@.contains(#[trigger] chain@[i]) by {
                    assert(chain@[i] == before[i]);
                }
            }
        }
        proof {
            lemma_pop_keeps(chain@, candidate_point);
        }
        let ghost before_push = chain@;
        chain.push(candidate_point);
        proof {
            assert(chain@ == monotone_chain(prefix));
            assert forall|i: int| 0 <= i < chain@.len() - 2 implies #[trigger] left_turn_at(chain@, i) by {
                assert(chain@[i] == before_push[i]);
                assert(chain@[i + 1] == before_push[i + 1]);
                if i + 2 < before_push.len() {
                    assert(left_turn_at(before_push, i));
                    assert(chain@[i + 2] == before_push[i + 2]);
                }
            }
            assert forall|i: int| 0 <= i < chain@.len() implies sorted_points@.contains(#[trigger] chain@[i]) by {
                if i < before_push.len() {
                    assert(chain@[i] == before_push[i]);
                }
            }
        }
        k += 1;
    }
    proof {
        assert(order.subrange(0, n as int) =~= order);
    }
    chain
}

/// The lower chain without its last point followed by the upper chain
/// without its last point (each chain ends where the other starts).
pub open spec fn merged_hull(lower_chain: Seq<PixelPoint>, upper_chain: Seq<PixelPoint>) -> Seq<PixelPoint> {
    lower_chain.take(lower_chain.len() - 1) + upper_chain.take(upper_chain.len() - 1)
}

fn merge_monotone_chain_hulls(mut lower_chain: Vec<PixelPoint>, mut upper_chain: Vec<PixelPoint>) -> (hull: Vec<PixelPoint>)
    requires
        lower_chain@.len() > 0,
        upper_chain@.len() > 0,
    ensures
        hull@ == merged_hull(lower_chain@, upper_chain@),
{
    let ghost l0 = lower_chain@;
    let ghost u0 = upper_chain@;
    lower_chain.pop();
    upper_chain.pop();
    lower_chain.append(&mut upper_chain);
    proof {
        assert(lower_chain@ =~= merged_hull(l0, u0));
    }
    lower_chain
}

/// `hull` is what the monotone chain algorithm gives for `points`: fewer
/// than three points come back unchanged; otherwise the points are sorted
/// by x then y, and the lower chain (left to right) and the upper chain
/// (right to left) are joined.
#[verifier::opaque]
pub open spec fn is_monotone_chain_hull(points: Seq<PixelPoint>, hull: Seq<PixelPoint>) -> bool {
    if points.len() < 3 {
        hull == points
    } else {
        exists|sorted: Seq<PixelPoint>|
            sorted_by_x_then_y(sorted) && sorted.to_multiset() == points.to_multiset() && hull
                == merged_hull(monotone_chain(sorted), monotone_chain(sorted.reverse()))
    }
}

/// The convex hull by Andrew's monotone chain, counter-clockwise in a
/// y-up frame, without collinear points.
pub fn compute_convex_hull_monotone_chain(boundary_points_slice: &[PixelPoint]) -> (hull: Vec<PixelPoint>)
    requires
        forall|i: int|
            0 <= i < boundary_points_slice@.len() ==> point_in_range(#[trigger] boundary_points_slice@[i]),
    ensures
        is_monotone_chain_hull(boundary_points_slice@, hull@),
        forall|i: int| 0 <= i < hull@.len() ==> boundary_points_slice@.contains(#[trigger] hull@[i]),
{
    reveal(is_monotone_chain_hull);
    if boundary_points_slice.len() < 3 {
        let mut copy: Vec<PixelPoint> = Vec::new();
        let mut i: usize = 0;
        while i < boundary_points_slice.len()
            invariant
                i <= boundary_points_slice@.len(),
                copy@ == boundary_points_slice@.subrange(0, i as int),
            decreases boundary_points_slice@.len() - i,
        {
            copy.push(boundary_points_slice[i]);
            proof {
                assert(copy@ =~= boundary_points_slice@.subrange(0, i + 1));
            }
            i += 1;
        }
        proof {
            assert(copy@ =~= boundary_points_slice@);
            assert forall|i: int| 0 <= i < copy@.len() implies boundary_points_slice@.contains(#[trigger] copy@[i]) by {
                assert(boundary_points_slice@[i] == copy@[i]);
            }
        }
        return copy;
    }
    let mut sorted_points: Vec<PixelPoint> = Vec::new();
    let mut i: usize = 0;
    while i < boundary_points_slice.len()
        invariant
            i <= boundary_points_slice@.len(),
            sorted_points@ == boundary_points_slice@.subrange(0, i as int),
        decreases boundary_points_slice@.len() - i,
    {
        sorted_points.push(boundary_points_slice[i]);
        proof {
            assert(sorted_points@ =~= boundary_points_slice@.subrange(0, i + 1));
        }
        i += 1;
    }
    proof {
        assert(sorted_points@ =~= boundary_points_slice@);
    }
    sort_points_by_x_then_y(sorted_points.as_mut_slice());
    let ghost sorted = sorted_points@;
    proof {
        broadcast use vstd::seq_lib::group_to_multiset_ensures;
        assert forall|i: int| 0 <= i < sorted.len() implies point_in_range(#[trigger] sorted[i]) by {
            assert(sorted.to_multiset().count(sorted[i]) > 0);
            assert(boundary_points_slice@.to_multiset().count(sorted[i]) > 0);
            assert(boundary_points_slice@.contains(sorted[i]));
            let k = choose|k: int| 0 <= k < boundary_points_slice@.len() && boundary_points_slice@[k] == sorted[i];
            assert(point_in_range(boundary_points_slice@[k]));
        }
    }
    let lower_hull = build_monotone_chain(sorted_points.as_slice(), false);
    let upper_hull = build_monotone_chain(sorted_points.as_slice(), true);
    proof {
        assert(lower_hull@.len() > 0) by {
            let s = sorted;
            assert(s.len() > 0);
            assert(s.drop_last().len() + 1 == s.len());
        }
        assert(upper_hull@.len() > 0) by {
            let s = sorted.reverse();
            assert(s.len() > 0);
        }
    }
    let hull = merge_monotone_chain_hulls(lower_hull, upper_hull);
    proof {
        broadcast use vstd::seq_lib::group_to_multiset_ensures;
        assert forall|i: int| 0 <= i < hull@.len() implies boundary_points_slice@.contains(#[trigger] hull@[i]) by {
            let l = lower_hull@;
            let u = upper_hull@;
            if i < l.len() - 1 {
                assert(hull@[i] == l[i]);
                assert(sorted.contains(l[i]));
            } else {
                assert(hull@[i] == u[i - (l.len() - 1)]);
                assert(sorted.contains(u[i - (l.len() - 1)]));
            }
            assert(sorted.to_multiset().count(hull@[i]) > 0);
            assert(boundary_points_slice@.to_multiset().count(hull@[i]) > 0);
        }
    }
    hull
}

/// `polygons` are the hulls, with at least three points, of the outlines
/// of the regions of solid tiles of the mask, in scan order.
pub open spec fn is_collision_polygon_set(
    polygons: Seq<Seq<PixelPoint>>,
    pixel_mask: Seq<u8>,
    image_width_pixels: int,
    image_height_pixels: int,
    number_of_tile_columns: int,
    number_of_tile_rows: int,
    tile_edge_length: int,
) -> bool {
    exists|map: Seq<u8>, regions: Seq<Seq<Tile>>, contours: Seq<Seq<PixelPoint>>, hulls: Seq<Seq<PixelPoint>>|
        {
            &&& is_solidness_map(
                map,
                pixel_mask,
                image_width_pixels,
                image_height_pixels,
                number_of_tile_columns,
                number_of_tile_rows,
                tile_edge_length,
            )
            &&& are_components_in_scan_order(map, number_of_tile_columns, number_of_tile_rows, regions)
            &&& contours.len() == regions.len()
            &&& hulls.len() == regions.len()
            &&& forall|k: int|
                0 <= k < regions.len() ==> is_traced_contour(
                    #[trigger] regions[k],
                    contours[k],
                    tile_edge_length,
                    image_height_pixels,
                ) && is_monotone_chain_hull(contours[k], hulls[k])
            &&& polygons == hulls.filter(|hull: Seq<PixelPoint>| hull.len() >= 3)
        }
}

/// Every region of solid tiles of the mask can be traced: the outline of
/// each stays within the image height, and every x coordinate of the grid's
/// corners and the image height fit `coordinate_limit` (and a `usize`).
pub open spec fn tile_grid_traceable(
    pixel_mask: Seq<u8>,
    image_width_pixels: int,
    image_height_pixels: int,
    number_of_tile_columns: int,
    number_of_tile_rows: int,
    tile_edge_length: int,
) -> bool {
    &&& forall|map: Seq<u8>, regions: Seq<Seq<Tile>>, k: int|
        #![trigger is_solidness_map(map, pixel_mask, image_width_pixels, image_height_pixels, number_of_tile_columns, number_of_tile_rows, tile_edge_length), are_components_in_scan_order(map, number_of_tile_columns, number_of_tile_rows, regions), regions[k]]
        is_solidness_map(
            map,
            pixel_mask,
            image_width_pixels,
            image_height_pixels,
            number_of_tile_columns,
            number_of_tile_rows,
            tile_edge_length,
        ) && are_components_in_scan_order(map, number_of_tile_columns, number_of_tile_rows, regions) && 0 <= k
            < regions.len() ==> contour_within_image(regions[k], tile_edge_length, image_height_pixels)
    &&& image_height_pixels <= coordinate_limit()
    &&& number_of_tile_columns * tile_edge_length <= coordinate_limit()
    &&& number_of_tile_columns * tile_edge_length <= usize::MAX
    &&& number_of_tile_columns * number_of_tile_rows <= isize::MAX
}

proof fn lemma_component_traceable(
    map: Seq<u8>,
    columns: int,
    rows: int,
    region: Seq<Tile>,
    tile_edge_length: int,
    image_height_pixels: int,
)
    requires
        is_component(map, columns, rows, region),
        contour_within_image(region, tile_edge_length, image_height_pixels),
        image_height_pixels <= coordinate_limit(),
        columns * tile_edge_length <= coordinate_limit(),
        columns * tile_edge_length <= usize::MAX,
        columns * rows <= isize::MAX,
        tile_edge_length >= 0,
    ensures
        region_traceable(region, tile_edge_length, image_height_pixels),
        forall|i: int| 0 <= i < region.len() ==> in_grid(#[trigger] region[i], columns, rows),
{
    assert forall|i: int| 0 <= i < region.len() implies in_grid(#[trigger] region[i], columns, rows) by {
        assert(solid_tile(map, columns, rows, region[i]));
    }
    assert forall|i: int| 0 <= i < region.len() implies {
        &&& (#[trigger] region[i]).0 < usize::MAX
        &&& region[i].1 < usize::MAX
        &&& (region[i].0 + 1) * tile_edge_length <= coordinate_limit()
        &&& (region[i].0 + 1) * tile_edge_length <= usize::MAX
    } by {
        assert(in_grid(region[i], columns, rows));
        let c = region[i].0 as int;
        assert((c + 1) * tile_edge_length <= columns * tile_edge_length) by (nonlinear_arith)
            requires
                c + 1 <= columns,
                tile_edge_length >= 0,
        ;
        assert(columns <= columns * rows) by (nonlinear_arith)
            requires
                columns >= 0,
                rows >= 1,
        ;
        assert(rows <= columns * rows) by (nonlinear_arith)
            requires
                columns >= 1,
                rows >= 0,
        ;
    }
    assert forall|min_column: int, min_row: int, max_column: int, max_row: int|
        #[trigger] bounds_of(region, min_column, min_row, max_column, max_row) implies (max_column - min_column
        + 1) * (max_row - min_row + 1) <= isize::MAX by {
        let a = choose|i: int| 0 <= i < region.len() && (#[trigger] region[i]).0 == max_column;
        let b = choose|i: int| 0 <= i < region.len() && (#[trigger] region[i]).1 == max_row;
        assert(in_grid(region[a], columns, rows));
        assert(in_grid(region[b], columns, rows));
        assert(min_column <= region[a].0 && min_row <= region[b].1);
        assert((max_column - min_column + 1) * (max_row - min_row + 1) <= columns * rows) by (nonlinear_arith)
            requires
                1 <= max_column - min_column + 1 <= columns,
                1 <= max_row - min_row + 1 <= rows,
        ;
    }
}

#[verifier::rlimit(80)]
/// Collision polygons for a pixel mask: the convex hulls of the outlines of
/// the 4-connected regions of solid tiles, those with at least three points.
pub fn generate_collision_polygons(
    pixel_mask_slice: &[u8],
    image_size_pixels: (usize, usize),
    tile_grid_size: (usize, usize),
    tile_edge_length: usize,
) -> (polygons: Vec<Vec<PixelPoint>>)
    requires
        tile_grid_in_mask(
            pixel_mask_slice@.len() as int,
            image_size_pixels.0 as int,
            image_size_pixels.1 as int,
            tile_grid_size.0 as int,
            tile_grid_size.1 as int,
            tile_edge_length as int,
        ),
        tile_grid_traceable(
            pixel_mask_slice@,
            image_size_pixels.0 as int,
            image_size_pixels.1 as int,
            tile_grid_size.0 as int,
            tile_grid_size.1 as int,
            tile_edge_length as int,
        ),
    ensures
        is_collision_polygon_set(
            nested_views(polygons@),
            pixel_mask_slice@,
            image_size_pixels.0 as int,
            image_size_pixels.1 as int,
            tile_grid_size.0 as int,
            tile_grid_size.1 as int,
            tile_edge_length as int,
        ),
{
    let (image_width_pixels, image_height_pixels) = image_size_pixels;
    let (number_of_tile_columns, number_of_tile_rows) = tile_grid_size;
    let solidness_map = create_solidness_map(
        pixel_mask_slice,
        image_width_pixels,
        image_height_pixels,
        number_of_tile_columns,
        number_of_tile_rows,
        tile_edge_length,
    );
    let connected_regions = find_all_connected_regions(
        solidness_map.as_slice(),
        number_of_tile_columns,
        number_of_tile_rows,
    );
    let ghost map = solidness_map@;
    let ghost regions = nested_views(connected_regions@);
    let ghost columns = number_of_tile_columns as int;
    let ghost rows = number_of_tile_rows as int;
    let ghost mut contours: Seq<Seq<PixelPoint>> = Seq::empty();
    let ghost mut hulls: Seq<Seq<PixelPoint>> = Seq::empty();
    let mut polygons: Vec<Vec<PixelPoint>> = Vec::new();
    let mut k: usize = 0;
    while k < connected_regions.len()
        invariant
            map == solidness_map@,
            regions == nested_views(connected_regions@),
            columns == number_of_tile_columns,
            rows == number_of_tile_rows,
            are_components_in_scan_order(map, columns, rows, regions),
            tile_grid_traceable(
                pixel_mask_slice@,
                image_width_pixels as int,
                image_height_pixels as int,
                columns,
                rows,
                tile_edge_length as int,
            ),
            is_solidness_map(
                map,
                pixel_mask_slice@,
                image_width_pixels as int,
                image_height_pixels as int,
                columns,
                rows,
                tile_edge_length as int,
            ),
            k <= connected_regions@.len(),
            contours.len() == k,
            hulls.len() == k,
            forall|j: int|
                0 <= j < k ==> is_traced_contour(
                    #[trigger] regions[j],
                    contours[j],
                    tile_edge_length as int,
                    image_height_pixels as int,
                ) && is_monotone_chain_hull(contours[j], hulls[j]),
            nested_views(polygons@) == hulls.filter(|hull: Seq<PixelPoint>| hull.len() >= 3),
        decreases connected_regions@.len() - k,
    {
        let region_tiles = &connected_regions[k];
        proof {
            assert(regions[k as int] == region_tiles@);
            assert(contour_within_image(regions[k as int], tile_edge_length as int, image_height_pixels as int));
            lemma_component_traceable(map, columns, rows, region_tiles@, tile_edge_length as int, image_height_pixels as int);
        }
        let contour = trace_region_contour(region_tiles.as_slice(), tile_edge_length, image_height_pixels);
        proof {
            // every contour point is a corner of a region tile, so it is in range
            assert forall|i: int| 0 <= i < contour@.len() implies point_in_range(#[trigger] contour@[i]) by {
                lemma_contour_points_in_range(region_tiles@, contour@, tile_edge_length as int, image_height_pixels as int, i);
            }
        }
        let hull = compute_convex_hull_monotone_chain(contour.as_slice());
        let ghost hull_view = hull@;
        let ghost h0 = hulls;
        proof {
            contours = contours.push(contour@);
            hulls = hulls.push(hull_view);
            h0.lemma_filter_push(hull_view, |hull: Seq<PixelPoint>| hull.len() >= 3);
        }
        if hull.len() >= 3 {
            polygons.push(hull);
            proof {
                assert(nested_views(polygons@) =~= hulls.filter(|hull: Seq<PixelPoint>| hull.len() >= 3));
            }
        }
        k += 1;
    }
    proof {
        assert(is_collision_polygon_set(
            nested_views(polygons@),
            pixel_mask_slice@,
            image_width_pixels as int,
            image_height_pixels as int,
            columns,
            rows,
            tile_edge_length as int,
        ));
    }
    polygons
}

#[verifier::rlimit(80)]
proof fn lemma_contour_points_in_range(
    tiles: Seq<Tile>,
    contour: Seq<PixelPoint>,
    tile_edge_length: int,
    image_height_pixels: int,
    i: int,
)
    requires
        region_traceable(tiles, tile_edge_length, image_height_pixels),
        is_traced_contour(tiles, contour, tile_edge_length, image_height_pixels),
        tile_edge_length >= 0,
        0 <= i < contour.len(),
    ensures
        point_in_range(contour[i]),
{
    reveal(is_traced_contour);
    let (mc, mr, xc, xr, b) = choose|min_column: int, min_row: int, max_column: int, max_row: int, i: int|
        {
            &&& bounds_of(tiles, min_column, min_row, max_column, max_row)
            &&& first_border_at(tiles, i)
            &&& is_contour_walk(
                contour,
                region_mask_of(tiles, min_column, min_row, max_column - min_column + 1, max_row - min_row + 1),
                max_column - min_column + 1,
                max_row - min_row + 1,
                (tiles[i].0 - min_column, tiles[i].1 - min_row, 0int),
                min_column,
                min_row,
                tile_edge_length,
                image_height_pixels,
            )
        };
    let gw = xc - mc + 1;
    let gh = xr - mr + 1;
    let mask = region_mask_of(tiles, mc, mr, gw, gh);
    let s0: WalkState = (tiles[b].0 - mc, tiles[b].1 - mr, 0int);
    assert(contour.len() >= 1);
    assert(walk_after(mask, gw, gh, s0, 1) is Some);
    let ia = choose|k: int| 0 <= k < tiles.len() && (#[trigger] tiles[k]).0 == xc;
    let ic = choose|k: int| 0 <= k < tiles.len() && (#[trigger] tiles[k]).1 == xr;
    let im = choose|k: int| 0 <= k < tiles.len() && (#[trigger] tiles[k]).0 == mc;
    let ir = choose|k: int| 0 <= k < tiles.len() && (#[trigger] tiles[k]).1 == mr;
    assert(tiles[ia].0 < usize::MAX && (tiles[ia].0 + 1) * tile_edge_length <= coordinate_limit());
    assert((tiles[ia].0 + 1) * tile_edge_length <= usize::MAX);
    assert(tiles[ic].1 < usize::MAX);
    assert(tiles[im].0 >= 0 && tiles[ir].1 >= 0);
    assert(contour_fits(mc, mr, gw, gh, tile_edge_length, image_height_pixels));
    let st = walk_after(mask, gw, gh, s0, i as nat).unwrap();
    let nx = walk_after(mask, gw, gh, s0, (i + 1) as nat).unwrap();
    if i == 0 {
        assert(walk_after(mask, gw, gh, s0, 0) == Some(s0));
        assert(0 <= tiles[b].0 - mc < gw && 0 <= tiles[b].1 - mr < gh);
    } else {
        lemma_walk_arrived(mask, gw, gh, s0, i as nat);
    }
    lemma_walk_arrived(mask, gw, gh, s0, (i + 1) as nat);
    assert(0 <= st.0 < gw && 0 <= st.1 < gh);
    assert(0 <= nx.2 < 4);
    let ox = if dir_dx(nx.2) > 0 { 1int } else { 0int };
    let oy = if dir_dy(nx.2) < 0 { 1int } else { 0int };
    lemma_contour_point_fits(mc, mr, gw, gh, tile_edge_length, image_height_pixels, st.0, st.1, ox, oy);
    assert(walk_within_image(mask, gw, gh, s0, mr, tile_edge_length, image_height_pixels));
    assert(not_returned_within(mask, gw, gh, s0, i as nat)) by {
        assert forall|j: nat| 1 <= j <= i implies (#[trigger] walk_after(mask, gw, gh, s0, j)) is Some && !(
        walk_after(mask, gw, gh, s0, j).unwrap().0 == s0.0 && walk_after(mask, gw, gh, s0, j).unwrap().1
            == s0.1) by {
            assert(first_return(mask, gw, gh, s0, contour.len()));
        }
    }
    assert(corner_within_image(mask, gw, gh, s0, i as nat, mr, tile_edge_length, image_height_pixels));
}

} // verus!
