//! Pixel-exact outlines of the set regions of a byte mask: every set pixel
//! that touches the image border or a clear pixel starts an outline walk
//! (unless an earlier walk already passed over it); the walk's pixels, with
//! the straight-run pixels removed, form one polygon. Points are pixel
//! coordinates; the pixel centres lie half a pixel further right and down.
use vstd::prelude::*;
use vstd::arithmetic::div_mod::lemma_fundamental_div_mod_converse;
use crate::grid_walk::{
    cell_set, dir_dx, dir_dy, first_open_direction, first_return, lemma_arrived_steps, lemma_grid_index,
    lemma_grid_index_unique, lemma_walk_arrived, lemma_walk_returns, walk_after, walk_step, WalkState,
};
use crate::collision_mask_util::nested_views;

verus! {

/// A pixel of the mask, as (column, row).
pub type PixelCell = (usize, usize);

/// The neighbour of (x, y) in direction `c` lies outside the image or is clear (0).
pub open spec fn neighbor_clear(mask: Seq<u8>, width: int, height: int, x: int, y: int, c: int) -> bool {
    let nx = x + dir_dx(c);
    let ny = y + dir_dy(c);
    !(0 <= nx < width && 0 <= ny < height) || mask[ny * width + nx] == 0
}

/// One of the four neighbours of (x, y) lies outside the image or is clear.
pub open spec fn on_boundary(mask: Seq<u8>, width: int, height: int, x: int, y: int) -> bool {
    ||| neighbor_clear(mask, width, height, x, y, 0)
    ||| neighbor_clear(mask, width, height, x, y, 1)
    ||| neighbor_clear(mask, width, height, x, y, 2)
    ||| neighbor_clear(mask, width, height, x, y, 3)
}

/// The number of pixels an outline walk from (x, y) records: one when the walk
/// cannot move, else the number of moves until it first stands on (x, y) again.
pub open spec fn outline_length(mask: Seq<u8>, width: int, height: int, x: int, y: int) -> nat {
    let s0: WalkState = (x, y, 3int);
    if walk_after(mask, width, height, s0, 1) is None {
        1
    } else {
        choose|j: nat| first_return(mask, width, height, s0, j)
    }
}

/// The pixels an outline walk from (x, y) stands on, from the start up to
/// (not including) its return to the start. The walk starts as if it had
/// just moved up.
pub open spec fn outline(mask: Seq<u8>, width: int, height: int, x: int, y: int) -> Seq<PixelCell> {
    let s0: WalkState = (x, y, 3int);
    Seq::new(
        outline_length(mask, width, height, x, y),
        |i: int|
            (
                walk_after(mask, width, height, s0, i as nat).unwrap().0 as usize,
                walk_after(mask, width, height, s0, i as nat).unwrap().1 as usize,
            ),
    )
}

/// The visited flags after an outline: its pixels are marked as well.
#[verifier::opaque]
pub open spec fn mark_outline(visited: Seq<bool>, width: int, pixels: Seq<PixelCell>) -> Seq<bool> {
    Seq::new(
        visited.len(),
        |c: int|
            visited[c] || exists|i: int|
                0 <= i < pixels.len() && (#[trigger] pixels[i]).1 * width + pixels[i].0 == c,
    )
}

proof fn lemma_first_return_unique(mask: Seq<u8>, width: int, height: int, s0: WalkState, j1: nat, j2: nat)
    requires
        first_return(mask, width, height, s0, j1),
        first_return(mask, width, height, s0, j2),
    ensures
        j1 == j2,
{
    if j1 < j2 {
        assert(walk_after(mask, width, height, s0, j1) is Some);
    } else if j2 < j1 {
        assert(walk_after(mask, width, height, s0, j2) is Some);
    }
}

/// Whether (x, y) is a boundary pixel (see `on_boundary`).
fn is_boundary_pixel(mask: &[u8], w: usize, h: usize, x: usize, y: usize) -> (boundary: bool)
    requires
        mask@.len() >= w * h,
        x < w,
        y < h,
    ensures
        boundary == on_boundary(mask@, w as int, h as int, x as int, y as int),
{
    let _len = mask.len();
    if x + 1 >= w {
        return true;
    }
    proof {
        lemma_grid_index(w as int, h as int, x + 1, y as int);
    }
    if mask[y * w + x + 1] == 0 {
        return true;
    }
    if x == 0 {
        return true;
    }
    proof {
        lemma_grid_index(w as int, h as int, x - 1, y as int);
    }
    if mask[y * w + x - 1] == 0 {
        return true;
    }
    if y + 1 >= h {
        return true;
    }
    proof {
        lemma_grid_index(w as int, h as int, x as int, y + 1);
        assert((y + 1) * w + x == y * w + x + w) by (nonlinear_arith);
    }
    if mask[(y + 1) * w + x] == 0 {
        return true;
    }
    if y == 0 {
        return true;
    }
    proof {
        lemma_grid_index(w as int, h as int, x as int, y - 1);
    }
    if mask[(y - 1) * w + x] == 0 {
        return true;
    }
    false
}


/// Marking one more outline pixel keeps the flags equal to the marked outline.
proof fn lemma_mark_one_more(
    visited0: Seq<bool>,
    before_visited: Seq<bool>,
    after_visited: Seq<bool>,
    width: int,
    before: Seq<PixelCell>,
    after: Seq<PixelCell>,
    index: int,
)
    requires
        before_visited == mark_outline(visited0, width, before),
        0 <= index < before_visited.len(),
        after_visited == before_visited.update(index, true),
        after.len() == before.len() + 1,
        after.subrange(0, before.len() as int) == before,
        after[before.len() as int].1 * width + after[before.len() as int].0 == index,
    ensures
        after_visited == mark_outline(visited0, width, after),
{
    reveal(mark_outline);
    assert forall|c: int| 0 <= c < after_visited.len() implies after_visited[c] == mark_outline(
        visited0,
        width,
        after,
    )[c] by {
        if c != index {
            if exists|i: int| 0 <= i < after.len() && (#[trigger] after[i]).1 * width + after[i].0 == c {
                let i = choose|i: int| 0 <= i < after.len() && (#[trigger] after[i]).1 * width + after[i].0 == c;
                assert(i < before.len());
                assert(before[i] == after.subrange(0, before.len() as int)[i]);
            }
            if exists|i: int| 0 <= i < before.len() && (#[trigger] before[i]).1 * width + before[i].0 == c {
                let i = choose|i: int| 0 <= i < before.len() && (#[trigger] before[i]).1 * width + before[i].0 == c;
                assert(after.subrange(0, before.len() as int)[i] == after[i]);
            }
        }
    }
    assert(after_visited =~= mark_outline(visited0, width, after));
}

/// Walks the outline from the boundary pixel (sx, sy), recording the pixels
/// it stands on and marking them visited.
fn trace_boundary(
    mask: &[u8],
    w: usize,
    h: usize,
    sx: usize,
    sy: usize,
    visited: &mut [bool],
) -> (contour: Vec<PixelCell>)
    requires
        mask@.len() >= w * h,
        old(visited)@.len() == w * h,
        cell_set(mask@, w as int, h as int, sx as int, sy as int),
    ensures
        contour@ == outline(mask@, w as int, h as int, sx as int, sy as int),
        final(visited)@ == mark_outline(old(visited)@, w as int, contour@),
{
    let ghost m = mask@;
    let ghost wi = w as int;
    let ghost hi = h as int;
    let ghost s0: WalkState = (sx as int, sy as int, 3int);
    let ghost visited0 = visited@;
    let mut contour: Vec<PixelCell> = Vec::new();
    let mut x = sx;
    let mut y = sy;
    let mut dir: usize = 3;
    proof {
        lemma_walk_returns(m, wi, hi, s0);
    }
    let ghost bound: nat = if walk_after(m, wi, hi, s0, 1) is None {
        1
    } else {
        choose|j: nat|
            1 <= j <= 4 * wi * hi && (#[trigger] walk_after(m, wi, hi, s0, j)) is Some && walk_after(
                m,
                wi,
                hi,
                s0,
                j,
            ).unwrap().0 == s0.0 && walk_after(m, wi, hi, s0, j).unwrap().1 == s0.1
    };
    let ghost mut moves: nat = 0;
    proof {
        assert(walk_after(m, wi, hi, s0, 0) == Some(s0));
        reveal(mark_outline);
        assert(visited0 =~= mark_outline(visited0, wi, contour@));
    }
    loop
        invariant_except_break
            moves < bound,
            forall|i: nat|
                1 <= i <= moves ==> (#[trigger] walk_after(m, wi, hi, s0, i)) is Some && !(walk_after(
                    m,
                    wi,
                    hi,
                    s0,
                    i,
                ).unwrap().0 == s0.0 && walk_after(m, wi, hi, s0, i).unwrap().1 == s0.1),
            contour@.len() == moves,
            walk_after(m, wi, hi, s0, moves) == Some((x as int, y as int, dir as int)),
        invariant
            m == mask@,
            wi == w,
            hi == h,
            mask@.len() >= w * h,
            visited@.len() == w * h,
            visited0.len() == w * h,
            s0 == (sx as int, sy as int, 3int),
            cell_set(m, wi, hi, sx as int, sy as int),
            dir < 4,
            x < w,
            y < h,
            cell_set(m, wi, hi, x as int, y as int),
            walk_after(m, wi, hi, s0, 1) is Some ==> (walk_after(m, wi, hi, s0, bound) is Some
                && walk_after(m, wi, hi, s0, bound).unwrap().0 == s0.0 && walk_after(
                m,
                wi,
                hi,
                s0,
                bound,
            ).unwrap().1 == s0.1),
            forall|i: int|
                0 <= i < contour@.len() ==> #[trigger] contour@[i] == (
                    walk_after(m, wi, hi, s0, i as nat).unwrap().0 as usize,
                    walk_after(m, wi, hi, s0, i as nat).unwrap().1 as usize,
                ),
            visited@ == mark_outline(visited0, wi, contour@),
        ensures
            contour@.len() == outline_length(m, wi, hi, sx as int, sy as int),
            forall|i: int|
                0 <= i < contour@.len() ==> #[trigger] contour@[i] == (
                    walk_after(m, wi, hi, s0, i as nat).unwrap().0 as usize,
                    walk_after(m, wi, hi, s0, i as nat).unwrap().1 as usize,
                ),
            visited@ == mark_outline(visited0, wi, contour@),
        decreases bound - moves,
    {
        proof {
            lemma_grid_index(wi, hi, x as int, y as int);
        }
        let _len = mask.len();
        let ghost before = contour@;
        let ghost before_visited = visited@;
        let index = y * w + x;
        visited[index] = true;
        contour.push((x, y));
        proof {
            assert(contour@.subrange(0, before.len() as int) =~= before);
            lemma_mark_one_more(visited0, before_visited, visited@, wi, before, contour@, index as int);
        }
        let found = first_open_direction(mask, w, h, x, y, (dir + 3) % 4);
        match found {
            None => {
                proof {
                    assert((((dir + 3) % 4) as int + 1) % 4 == dir);
                    assert(walk_step(m, wi, hi, (x as int, y as int, dir as int)) is None);
                    if moves > 0 {
                        assert(walk_after(m, wi, hi, s0, 1) is Some);
                        lemma_walk_arrived(m, wi, hi, s0, moves);
                        lemma_arrived_steps(m, wi, hi, walk_after(m, wi, hi, s0, moves).unwrap());
                        assert(false);
                    }
                    assert(walk_after(m, wi, hi, s0, 1) == walk_step(m, wi, hi, s0));
                    assert(walk_after(m, wi, hi, s0, 1) is None);
                }
                break;
            },
            Some((next_direction_index, (next_x, next_y))) => {
                proof {
                    assert((((dir + 3) % 4) as int + 1) % 4 == dir);
                    moves = moves + 1;
                    assert(walk_after(m, wi, hi, s0, moves) == walk_step(
                        m,
                        wi,
                        hi,
                        walk_after(m, wi, hi, s0, (moves - 1) as nat).unwrap(),
                    ));
                }
                x = next_x;
                y = next_y;
                dir = next_direction_index;
                proof {
                    assert(walk_after(m, wi, hi, s0, moves) == Some((x as int, y as int, dir as int)));
                }
                if x == sx && y == sy {
                    proof {
                        assert(first_return(m, wi, hi, s0, moves));
                        let j = choose|j: nat| first_return(m, wi, hi, s0, j);
                        lemma_first_return_unique(m, wi, hi, s0, j, moves);
                    }
                    break;
                }
                proof {
                    if moves == bound {
                        assert(walk_after(m, wi, hi, s0, 1) is Some);
                    }
                }
            },
        }
    }
    proof {
        assert(contour@ =~= outline(m, wi, hi, sx as int, sy as int));
    }
    contour
}


/// The z component of the cross product of (b - a) and (c - b).
pub open spec fn turn_z(a: PixelCell, b: PixelCell, c: PixelCell) -> int {
    (b.0 - a.0) * (c.1 - b.1) - (b.1 - a.1) * (c.0 - b.0)
}

/// The contour turns at corner `i` (its neighbours taken cyclically).
pub open spec fn turns_at(contour: Seq<PixelCell>, i: int) -> bool {
    let n = contour.len() as int;
    turn_z(contour[(i + n - 1) % n], contour[i], contour[(i + 1) % n]) != 0
}

/// The corners among the first `k` at which the contour turns, in order.
pub open spec fn turning_corners(contour: Seq<PixelCell>, k: nat) -> Seq<PixelCell>
    decreases k,
{
    if k == 0 {
        seq![]
    } else {
        let earlier = turning_corners(contour, (k - 1) as nat);
        if turns_at(contour, k - 1) {
            earlier.push(contour[k - 1])
        } else {
            earlier
        }
    }
}

/// A closed contour without its corners that lie on a straight run; contours
/// of fewer than three points are kept as they are.
pub open spec fn without_colinear(contour: Seq<PixelCell>) -> Seq<PixelCell> {
    if contour.len() < 3 {
        contour
    } else {
        turning_corners(contour, contour.len())
    }
}

/// `a - b` as a sign (`true` for negative) and a magnitude.
fn signed_difference(a: usize, b: usize) -> (d: (bool, u128))
    ensures
        d.1 <= usize::MAX,
        (if d.0 {
            -(d.1 as int)
        } else {
            d.1 as int
        }) == a - b,
{
    if a >= b {
        (false, (a - b) as u128)
    } else {
        (true, (b - a) as u128)
    }
}

/// A signed product from signs and magnitudes.
proof fn lemma_signed_product(n1: bool, m1: int, n2: bool, m2: int)
    requires
        m1 >= 0,
        m2 >= 0,
    ensures
        (if n1 {
            -m1
        } else {
            m1
        }) * (if n2 {
            -m2
        } else {
            m2
        }) == (if n1 != n2 {
            -(m1 * m2)
        } else {
            m1 * m2
        }),
        m1 * m2 >= 0,
{
    assert(m1 * m2 >= 0) by (nonlinear_arith)
        requires
            m1 >= 0,
            m2 >= 0,
    ;
    if n1 {
        if n2 {
            assert((-m1) * (-m2) == m1 * m2) by (nonlinear_arith);
        } else {
            assert((-m1) * m2 == -(m1 * m2)) by (nonlinear_arith);
        }
    } else {
        if n2 {
            assert(m1 * (-m2) == -(m1 * m2)) by (nonlinear_arith);
        }
    }
}

/// Whether the path a, b, c turns at b.
fn is_turn(a: PixelCell, b: PixelCell, c: PixelCell) -> (turn: bool)
    ensures
        turn == (turn_z(a, b, c) != 0),
{
    let (n1, m1) = signed_difference(b.0, a.0);
    let (n2, m2) = signed_difference(c.1, b.1);
    let (n3, m3) = signed_difference(b.1, a.1);
    let (n4, m4) = signed_difference(c.0, b.0);
    proof {
        assert(m1 * m2 <= usize::MAX * usize::MAX) by (nonlinear_arith)
            requires
                m1 <= usize::MAX,
                m2 <= usize::MAX,
        ;
        assert(m3 * m4 <= usize::MAX * usize::MAX) by (nonlinear_arith)
            requires
                m3 <= usize::MAX,
                m4 <= usize::MAX,
        ;
        assert(usize::MAX * usize::MAX <= u128::MAX) by (nonlinear_arith)
            requires
                usize::MAX <= u64::MAX,
        ;
        lemma_signed_product(n1, m1 as int, n2, m2 as int);
        lemma_signed_product(n3, m3 as int, n4, m4 as int);
    }
    let first = m1 * m2;
    let second = m3 * m4;
    let first_negative = n1 != n2;
    let second_negative = n3 != n4;
    !((first == 0 && second == 0) || (first == second && first_negative == second_negative))
}

/// The contour without the corners that lie on a straight run (see `without_colinear`).
fn filter_colinear(contour: &[PixelCell]) -> (simple: Vec<PixelCell>)
    ensures
        simple@ == without_colinear(contour@),
{
    let n = contour.len();
    let mut out: Vec<PixelCell> = Vec::with_capacity(n);
    if n < 3 {
        let mut j: usize = 0;
        while j < n
            invariant
                n == contour@.len(),
                j <= n,
                out@ == contour@.subrange(0, j as int),
            decreases n - j,
        {
            out.push(contour[j]);
            j += 1;
        }
        proof {
            assert(contour@.subrange(0, n as int) =~= contour@);
        }
        return out;
    }
    let mut i: usize = 0;
    while i < n
        invariant
            n == contour@.len(),
            n >= 3,
            i <= n,
            out@ == turning_corners(contour@, i as nat),
        decreases n - i,
    {
        let previous = if i == 0 {
            n - 1
        } else {
            i - 1
        };
        let next = if i + 1 == n {
            0
        } else {
            i + 1
        };
        proof {
            let ni = n as int;
            let ii = i as int;
            if ii == 0 {
                lemma_fundamental_div_mod_converse(ii + ni - 1, ni, 0, ni - 1);
            } else {
                lemma_fundamental_div_mod_converse(ii + ni - 1, ni, 1, ii - 1);
            }
            if ii + 1 == ni {
                lemma_fundamental_div_mod_converse(ii + 1, ni, 1, 0);
            } else {
                lemma_fundamental_div_mod_converse(ii + 1, ni, 0, ii + 1);
            }
        }
        if is_turn(contour[previous], contour[i], contour[next]) {
            out.push(contour[i]);
        }
        i += 1;
    }
    out
}


/// The visited flags and polygons after the scan has looked at the first `k`
/// pixels in row-major order: a set, unvisited boundary pixel starts an
/// outline; its pixels become visited and, without its straight-run corners,
/// it becomes a polygon when at least three corners remain.
pub open spec fn scan_after(mask: Seq<u8>, width: int, height: int, k: nat) -> (Seq<bool>, Seq<Seq<PixelCell>>)
    decreases k,
{
    if k == 0 {
        (Seq::new((width * height) as nat, |c: int| false), seq![])
    } else {
        let (visited, polygons) = scan_after(mask, width, height, (k - 1) as nat);
        let c = k - 1;
        let x = c % width;
        let y = c / width;
        if mask[c] == 1 && !visited[c] && on_boundary(mask, width, height, x, y) {
            let pixels = outline(mask, width, height, x, y);
            let simple = without_colinear(pixels);
            (
                mark_outline(visited, width, pixels),
                if simple.len() >= 3 {
                    polygons.push(simple)
                } else {
                    polygons
                },
            )
        } else {
            (visited, polygons)
        }
    }
}

/// The polygons of the whole scan.
pub open spec fn pixel_perfect_polygons(mask: Seq<u8>, width: int, height: int) -> Seq<Seq<PixelCell>> {
    scan_after(mask, width, height, (width * height) as nat).1
}

proof fn lemma_scan_visited_len(mask: Seq<u8>, width: int, height: int, k: nat)
    requires
        width >= 0,
        height >= 0,
    ensures
        scan_after(mask, width, height, k).0.len() == width * height,
    decreases k,
{
    assert(width * height >= 0) by (nonlinear_arith)
        requires
            width >= 0,
            height >= 0,
    ;
    if k > 0 {
        reveal(mark_outline);
        lemma_scan_visited_len(mask, width, height, (k - 1) as nat);
    }
}

/// The outline polygons of the mask's set regions, pixel by pixel (see
/// `pixel_perfect_polygons`). The tile edge length plays no part.
pub fn generate_concave_collision_polygons_pixel_perfect(
    pixel_mask_slice: &[u8],
    image_size: (usize, usize),
    _tile_edge_length: usize,
) -> (polygons: Vec<Vec<PixelCell>>)
    requires
        pixel_mask_slice@.len() >= image_size.0 * image_size.1,
    ensures
        nested_views(polygons@) == pixel_perfect_polygons(
            pixel_mask_slice@,
            image_size.0 as int,
            image_size.1 as int,
        ),
{
    let (w, h) = image_size;
    let ghost m = pixel_mask_slice@;
    let ghost wi = w as int;
    let ghost hi = h as int;
    let _len = pixel_mask_slice.len();
    proof {
        assert(w * h >= 0) by (nonlinear_arith)
            requires
                w >= 0,
                h >= 0,
        ;
    }
    let mut polygons: Vec<Vec<PixelCell>> = Vec::new();
    let mut visited: Vec<bool> = vec![false; w * h];
    proof {
        assert(visited@ =~= scan_after(m, wi, hi, 0).0);
        assert(nested_views(polygons@) =~= scan_after(m, wi, hi, 0).1);
    }
    let mut y: usize = 0;
    while y < h
        invariant
            m == pixel_mask_slice@,
            wi == w,
            hi == h,
            m.len() >= w * h,
            y <= h,
            visited@ == scan_after(m, wi, hi, (y * w) as nat).0,
            nested_views(polygons@) == scan_after(m, wi, hi, (y * w) as nat).1,
        decreases h - y,
    {
        let mut x: usize = 0;
        while x < w
            invariant
                m == pixel_mask_slice@,
                wi == w,
                hi == h,
                m.len() >= w * h,
                y < h,
                x <= w,
                visited@ == scan_after(m, wi, hi, (y * w + x) as nat).0,
                nested_views(polygons@) == scan_after(m, wi, hi, (y * w + x) as nat).1,
            decreases w - x,
        {
            proof {
                lemma_grid_index(wi, hi, x as int, y as int);
                lemma_scan_visited_len(m, wi, hi, (y * w + x) as nat);
                lemma_fundamental_div_mod_converse((y * w + x) as int, wi, y as int, x as int);
            }
            let _len = pixel_mask_slice.len();
            let idx = y * w + x;
            if pixel_mask_slice[idx] == 1 && !visited[idx] && is_boundary_pixel(pixel_mask_slice, w, h, x, y) {
                let raw = trace_boundary(pixel_mask_slice, w, h, x, y, &mut visited);
                let simple = filter_colinear(&raw);
                if simple.len() >= 3 {
                    let ghost before = polygons@;
                    polygons.push(simple);
                    proof {
                        assert(nested_views(polygons@) =~= nested_views(before).push(simple@));
                    }
                }
            }
            proof {
                assert((y * w + x + 1) as nat == (idx + 1) as nat);
            }
            x += 1;
        }
        proof {
            assert(y * w + w == (y + 1) * w) by (nonlinear_arith);
        }
        y += 1;
    }
    proof {
        assert(y * w == w * h) by (nonlinear_arith)
            requires
                y == h,
        ;
    }
    polygons
}

/// The pixel outline polygons of a mask handed over as raw bytes, where any
/// nonzero byte counts as set.
pub struct Collision;

/// Each byte as a mask value: 1 where it is nonzero, else 0.
pub open spec fn normalized_mask(raw: Seq<u8>) -> Seq<u8> {
    Seq::new(raw.len(), |i: int| if raw[i] != 0 { 1u8 } else { 0u8 })
}

impl Collision {
    /// The outline polygons (see `pixel_perfect_polygons`) of the normalized
    /// mask of the given size.
    pub fn compute_concave_collision_polygons(
        &self,
        raw_pixel_mask: Vec<u8>,
        image_width_pixels: i32,
        image_height_pixels: i32,
        tile_edge_length: i32,
    ) -> (polygons: Vec<Vec<PixelCell>>)
        requires
            image_width_pixels >= 0,
            image_height_pixels >= 0,
            raw_pixel_mask@.len() >= image_width_pixels * image_height_pixels,
        ensures
            nested_views(polygons@) == pixel_perfect_polygons(
                normalized_mask(raw_pixel_mask@),
                image_width_pixels as int,
                image_height_pixels as int,
            ),
    {
        let mut pixel_data: Vec<u8> = Vec::with_capacity(raw_pixel_mask.len());
        let mut i: usize = 0;
        while i < raw_pixel_mask.len()
            invariant
                i <= raw_pixel_mask@.len(),
                pixel_data@ == normalized_mask(raw_pixel_mask@).subrange(0, i as int),
            decreases raw_pixel_mask@.len() - i,
        {
            let b = raw_pixel_mask[i];
            pixel_data.push(if b != 0 {
                1
            } else {
                0
            });
            proof {
                assert(pixel_data@ =~= normalized_mask(raw_pixel_mask@).subrange(0, i + 1));
            }
            i += 1;
        }
        proof {
            assert(pixel_data@ =~= normalized_mask(raw_pixel_mask@));
        }
        let width: usize = image_width_pixels as usize;
        let height: usize = image_height_pixels as usize;
        let tile_size: usize = tile_edge_length as usize;
        generate_concave_collision_polygons_pixel_perfect(&pixel_data, (width, height), tile_size)
    }
}


proof fn lemma_walk_prefix_some(mask: Seq<u8>, width: int, height: int, s0: WalkState, i: nat, j: nat)
    requires
        i <= j,
        walk_after(mask, width, height, s0, j) is Some,
    ensures
        walk_after(mask, width, height, s0, i) is Some,
    decreases j - i,
{
    if i < j {
        lemma_walk_prefix_some(mask, width, height, s0, i, (j - 1) as nat);
    }
}

/// A walk that stands on its start again after some move has a first such move.
proof fn lemma_first_return_exists(mask: Seq<u8>, width: int, height: int, s0: WalkState, j0: nat)
    requires
        j0 >= 1,
        walk_after(mask, width, height, s0, j0) is Some,
        walk_after(mask, width, height, s0, j0).unwrap().0 == s0.0,
        walk_after(mask, width, height, s0, j0).unwrap().1 == s0.1,
    ensures
        exists|j: nat| first_return(mask, width, height, s0, j),
    decreases j0,
{
    if exists|i: nat|
        1 <= i < j0 && (#[trigger] walk_after(mask, width, height, s0, i)) is Some && walk_after(
            mask,
            width,
            height,
            s0,
            i,
        ).unwrap().0 == s0.0 && walk_after(mask, width, height, s0, i).unwrap().1 == s0.1 {
        let i = choose|i: nat|
            1 <= i < j0 && (#[trigger] walk_after(mask, width, height, s0, i)) is Some && walk_after(
                mask,
                width,
                height,
                s0,
                i,
            ).unwrap().0 == s0.0 && walk_after(mask, width, height, s0, i).unwrap().1 == s0.1;
        lemma_first_return_exists(mask, width, height, s0, i);
    } else {
        assert forall|i: nat| 1 <= i < j0 implies (#[trigger] walk_after(mask, width, height, s0, i)) is Some
            && !(walk_after(mask, width, height, s0, i).unwrap().0 == s0.0 && walk_after(
            mask,
            width,
            height,
            s0,
            i,
        ).unwrap().1 == s0.1) by {
            lemma_walk_prefix_some(mask, width, height, s0, i, j0);
        }
        assert(first_return(mask, width, height, s0, j0));
    }
}

/// Every pixel of an outline walk from a set pixel is set.
proof fn lemma_outline_on_set_pixels(mask: Seq<u8>, width: int, height: int, x: int, y: int)
    requires
        cell_set(mask, width, height, x, y),
        width <= usize::MAX,
        height <= usize::MAX,
    ensures
        forall|i: int|
            0 <= i < outline(mask, width, height, x, y).len() ==> cell_set(
                mask,
                width,
                height,
                (#[trigger] outline(mask, width, height, x, y)[i]).0 as int,
                outline(mask, width, height, x, y)[i].1 as int,
            ),
{
    let s0: WalkState = (x, y, 3int);
    let pixels = outline(mask, width, height, x, y);
    assert(walk_after(mask, width, height, s0, 0) == Some(s0));
    if walk_after(mask, width, height, s0, 1) is Some {
        lemma_walk_returns(mask, width, height, s0);
        let j0 = choose|j: nat|
            1 <= j <= 4 * width * height && (#[trigger] walk_after(mask, width, height, s0, j)) is Some
                && walk_after(mask, width, height, s0, j).unwrap().0 == s0.0 && walk_after(
                mask,
                width,
                height,
                s0,
                j,
            ).unwrap().1 == s0.1;
        lemma_first_return_exists(mask, width, height, s0, j0);
        let j = choose|j: nat| first_return(mask, width, height, s0, j);
        assert forall|i: int| 0 <= i < pixels.len() implies cell_set(
            mask,
            width,
            height,
            (#[trigger] pixels[i]).0 as int,
            pixels[i].1 as int,
        ) by {
            if i > 0 {
                lemma_walk_arrived(mask, width, height, s0, i as nat);
            }
        }
    } else {
        assert(pixels.len() == 1);
        assert(pixels[0] == (x as usize, y as usize));
    }
}

/// The corners a contour keeps are points of the contour.
proof fn lemma_turning_corners_from_contour(contour: Seq<PixelCell>, k: nat)
    requires
        k <= contour.len(),
    ensures
        forall|j: int|
            0 <= j < turning_corners(contour, k).len() ==> exists|i: int|
                0 <= i < k && #[trigger] turning_corners(contour, k)[j] == contour[i],
    decreases k,
{
    if k > 0 {
        lemma_turning_corners_from_contour(contour, (k - 1) as nat);
        let earlier = turning_corners(contour, (k - 1) as nat);
        assert forall|j: int| 0 <= j < turning_corners(contour, k).len() implies exists|i: int|
            0 <= i < k && #[trigger] turning_corners(contour, k)[j] == contour[i] by {
            if j < earlier.len() {
                assert(turning_corners(contour, k)[j] == earlier[j]);
                let i = choose|i: int| 0 <= i < k - 1 && #[trigger] earlier[j] == contour[i];
            } else {
                assert(turning_corners(contour, k)[j] == contour[k - 1]);
            }
        }
    }
}

proof fn lemma_scan_polygons_on_set_pixels(mask: Seq<u8>, width: int, height: int, k: nat)
    requires
        0 <= width <= usize::MAX,
        0 <= height <= usize::MAX,
        mask.len() >= width * height,
        k <= width * height,
    ensures
        forall|p: int|
            0 <= p < scan_after(mask, width, height, k).1.len() ==> (#[trigger] scan_after(mask, width, height, k).1[p]).len()
                >= 3,
        forall|p: int, q: int|
            0 <= p < scan_after(mask, width, height, k).1.len() && 0 <= q < scan_after(mask, width, height, k).1[p].len()
                ==> cell_set(
                mask,
                width,
                height,
                (#[trigger] scan_after(mask, width, height, k).1[p][q]).0 as int,
                scan_after(mask, width, height, k).1[p][q].1 as int,
            ),
    decreases k,
{
    if k > 0 {
        let m = (k - 1) as nat;
        lemma_scan_polygons_on_set_pixels(mask, width, height, m);
        let (visited, polygons) = scan_after(mask, width, height, m);
        let c = k - 1;
        let x = c % width;
        let y = c / width;
        lemma_scan_visited_len(mask, width, height, m);
        if mask[c] == 1 && !visited[c] && on_boundary(mask, width, height, x, y) {
            assert(width > 0) by (nonlinear_arith)
                requires
                    0 <= c < width * height,
                    width >= 0,
                    height >= 0,
            ;
            vstd::arithmetic::div_mod::lemma_fundamental_div_mod(c, width);
            assert(0 <= x < width) by {
                vstd::arithmetic::div_mod::lemma_mod_bound(c, width);
            }
            assert(0 <= y < height) by {
                vstd::arithmetic::div_mod::lemma_div_pos_is_pos(c, width);
                if y >= height {
                    assert(width * y >= width * height) by (nonlinear_arith)
                        requires
                            y >= height,
                            width > 0,
                    ;
                }
            }
            assert(y * width + x == c) by (nonlinear_arith)
                requires
                    c == width * y + x,
            ;
            assert(cell_set(mask, width, height, x, y));
            let pixels = outline(mask, width, height, x, y);
            let simple = without_colinear(pixels);
            lemma_outline_on_set_pixels(mask, width, height, x, y);
            if simple.len() >= 3 {
                lemma_turning_corners_from_contour(pixels, pixels.len());
                let next = scan_after(mask, width, height, k).1;
                assert(next == polygons.push(simple));
                assert forall|q: int| 0 <= q < simple.len() implies cell_set(
                    mask,
                    width,
                    height,
                    (#[trigger] simple[q]).0 as int,
                    simple[q].1 as int,
                ) by {
                    let i = choose|i: int| 0 <= i < pixels.len() && #[trigger] turning_corners(pixels, pixels.len())[q] == pixels[i];
                }
                assert forall|p: int, q: int|
                    0 <= p < next.len() && 0 <= q < next[p].len() implies cell_set(
                    mask,
                    width,
                    height,
                    (#[trigger] next[p][q]).0 as int,
                    next[p][q].1 as int,
                ) by {
                    if p < polygons.len() {
                        assert(next[p] == polygons[p]);
                    } else {
                        assert(next[p] == simple);
                    }
                }
            }
        }
    }
}

/// Every pixel-perfect polygon has at least three corners, and every corner
/// is a set pixel of the mask.
pub proof fn lemma_pixel_polygons_on_set_pixels(mask: Seq<u8>, width: int, height: int)
    requires
        0 <= width <= usize::MAX,
        0 <= height <= usize::MAX,
        mask.len() >= width * height,
    ensures
        forall|p: int|
            0 <= p < pixel_perfect_polygons(mask, width, height).len() ==> (#[trigger] pixel_perfect_polygons(
                mask,
                width,
                height,
            )[p]).len() >= 3,
        forall|p: int, q: int|
            0 <= p < pixel_perfect_polygons(mask, width, height).len() && 0 <= q < pixel_perfect_polygons(
                mask,
                width,
                height,
            )[p].len() ==> cell_set(
                mask,
                width,
                height,
                (#[trigger] pixel_perfect_polygons(mask, width, height)[p][q]).0 as int,
                pixel_perfect_polygons(mask, width, height)[p][q].1 as int,
            ),
{
    assert(width * height >= 0) by (nonlinear_arith)
        requires
            width >= 0,
            height >= 0,
    ;
    lemma_scan_polygons_on_set_pixels(mask, width, height, (width * height) as nat);
}

} // verus!
