use vstd::prelude::*;

verus! {

/// A rectangle of the render target, in pixels (origin bottom-left).
#[derive(Clone, Copy, Debug, PartialEq, Eq, Structural)]
pub struct Viewport {
    pub x: i32,
    pub y: i32,
    pub w: i32,
    pub h: i32,
}

pub open spec fn abs_int(a: int) -> int {
    if a < 0 {
        -a
    } else {
        a
    }
}

/// Integer division rounding toward zero (Rust's `/`).
pub open spec fn div_toward_zero(a: int, b: int) -> int {
    if (a >= 0) == (b >= 0) {
        abs_int(a) / abs_int(b)
    } else {
        -(abs_int(a) / abs_int(b))
    }
}

/// The remainder that goes with `div_toward_zero` (Rust's `%`).
pub open spec fn rem_toward_zero(a: int, b: int) -> int {
    a - b * div_toward_zero(a, b)
}

/// `a / b` as Rust computes it on `i32`, rounding toward zero.
fn div_i32(a: i32, b: i32) -> (q: i32)
    requires
        b != 0,
        !(a == i32::MIN && b == -1),
    ensures
        q == div_toward_zero(a as int, b as int),
{
    let magnitude_a: u32 = if a >= 0 {
        a as u32
    } else {
        (-(a as i64)) as u32
    };
    let magnitude_b: u32 = if b >= 0 {
        b as u32
    } else {
        (-(b as i64)) as u32
    };
    let magnitude_q = magnitude_a / magnitude_b;
    assert(magnitude_q <= magnitude_a) by (nonlinear_arith)
        requires
            magnitude_q == magnitude_a / magnitude_b,
            magnitude_b >= 1,
    ;
    if (a >= 0) == (b >= 0) {
        assert(magnitude_q <= i32::MAX) by {
            if a == i32::MIN {
                assert(magnitude_b >= 2);
                assert(magnitude_q <= magnitude_a / 2) by (nonlinear_arith)
                    requires
                        magnitude_q == magnitude_a / magnitude_b,
                        magnitude_b >= 2,
                ;
            }
        }
        magnitude_q as i32
    } else {
        (-(magnitude_q as i64)) as i32
    }
}

/// `a % b` as Rust computes it on `i32`: the remainder that goes with
/// rounding toward zero, with the sign of `a`.
fn rem_i32(a: i32, b: i32) -> (r: i32)
    requires
        b != 0,
        !(a == i32::MIN && b == -1),
    ensures
        r == rem_toward_zero(a as int, b as int),
{
    let magnitude_a: u32 = if a >= 0 {
        a as u32
    } else {
        (-(a as i64)) as u32
    };
    let magnitude_b: u32 = if b >= 0 {
        b as u32
    } else {
        (-(b as i64)) as u32
    };
    let magnitude_r = magnitude_a % magnitude_b;
    proof {
        let ma = magnitude_a as int;
        let mb = magnitude_b as int;
        let mq = ma / mb;
        let mr = magnitude_r as int;
        assert(ma == mb * mq + mr && 0 <= mr < mb) by (nonlinear_arith)
            requires
                mq == ma / mb,
                mr == ma % mb,
                mb >= 1,
                ma >= 0,
        ;
        let q = div_toward_zero(a as int, b as int);
        if (a >= 0) == (b >= 0) {
            assert(q == mq);
            if a >= 0 {
                assert(a - b * q == mr) by (nonlinear_arith)
                    requires
                        a == ma,
                        b == mb,
                        q == mq,
                        ma == mb * mq + mr,
                ;
            } else {
                assert(a - b * q == -mr) by (nonlinear_arith)
                    requires
                        a == -ma,
                        b == -mb,
                        q == mq,
                        ma == mb * mq + mr,
                ;
            }
        } else {
            assert(q == -mq);
            if a >= 0 {
                assert(a - b * q == mr) by (nonlinear_arith)
                    requires
                        a == ma,
                        b == -mb,
                        q == -mq,
                        ma == mb * mq + mr,
                ;
            } else {
                assert(a - b * q == -mr) by (nonlinear_arith)
                    requires
                        a == -ma,
                        b == mb,
                        q == -mq,
                        ma == mb * mq + mr,
                ;
            }
        }
    }
    if a >= 0 {
        magnitude_r as i32
    } else {
        (-(magnitude_r as i64)) as i32
    }
}

/// The cell of a `grid_columns` x `grid_rows` grid of equal viewports that
/// view `view_index` occupies; cells are numbered row by row from the top,
/// while y counts from the bottom.
pub open spec fn cell_viewport_spec(
    view_index: int,
    grid_columns: int,
    grid_rows: int,
    render_w: int,
    render_h: int,
) -> (int, int, int, int) {
    let cell_w = div_toward_zero(render_w, grid_columns);
    let cell_h = div_toward_zero(render_h, grid_rows);
    let col = rem_toward_zero(view_index, grid_columns);
    let row = div_toward_zero(view_index, grid_columns);
    (col * cell_w, ((grid_rows - 1) - row) * cell_h, cell_w, cell_h)
}

pub fn cell_viewport(view_index: i32, grid_columns: i32, grid_rows: i32, render_w: i32, render_h: i32) -> (viewport: Viewport)
    requires
        grid_columns != 0,
        grid_rows != 0,
        grid_rows != i32::MIN,
        !(render_w == i32::MIN && grid_columns == -1),
        !(render_h == i32::MIN && grid_rows == -1),
        !(view_index == i32::MIN && grid_columns == -1),
        i32::MIN <= grid_rows - 1 - div_toward_zero(view_index as int, grid_columns as int) <= i32::MAX,
        i32::MIN <= cell_viewport_spec(view_index as int, grid_columns as int, grid_rows as int, render_w as int, render_h as int).0 <= i32::MAX,
        i32::MIN <= cell_viewport_spec(view_index as int, grid_columns as int, grid_rows as int, render_w as int, render_h as int).1 <= i32::MAX,
    ensures
        (viewport.x as int, viewport.y as int, viewport.w as int, viewport.h as int) == cell_viewport_spec(
            view_index as int,
            grid_columns as int,
            grid_rows as int,
            render_w as int,
            render_h as int,
        ),
{
    let cell_w = div_i32(render_w, grid_columns);
    let cell_h = div_i32(render_h, grid_rows);
    let col = rem_i32(view_index, grid_columns);
    let row = div_i32(view_index, grid_columns);
    let row_inv = (grid_rows - 1) - row;
    Viewport { x: col * cell_w, y: row_inv * cell_h, w: cell_w, h: cell_h }
}


/// With a positive grid and a nonnegative render size, the cell of every
/// view of the grid lies inside the render area.
pub proof fn lemma_cell_viewport_inside(
    view_index: int,
    grid_columns: int,
    grid_rows: int,
    render_w: int,
    render_h: int,
)
    requires
        grid_columns > 0,
        grid_rows > 0,
        render_w >= 0,
        render_h >= 0,
        0 <= view_index < grid_columns * grid_rows,
    ensures
        ({
            let (x, y, w, h) = cell_viewport_spec(view_index, grid_columns, grid_rows, render_w, render_h);
            &&& 0 <= x
            &&& x + w <= render_w
            &&& 0 <= y
            &&& y + h <= render_h
            &&& w >= 0
            &&& h >= 0
        }),
{
    let cell_w = render_w / grid_columns;
    let cell_h = render_h / grid_rows;
    let col = view_index % grid_columns;
    let row = view_index / grid_columns;
    assert(div_toward_zero(render_w, grid_columns) == cell_w);
    assert(div_toward_zero(render_h, grid_rows) == cell_h);
    assert(div_toward_zero(view_index, grid_columns) == row);
    vstd::arithmetic::div_mod::lemma_fundamental_div_mod(view_index, grid_columns);
    vstd::arithmetic::div_mod::lemma_fundamental_div_mod(render_w, grid_columns);
    vstd::arithmetic::div_mod::lemma_fundamental_div_mod(render_h, grid_rows);
    assert(rem_toward_zero(view_index, grid_columns) == col);
    assert(0 <= col < grid_columns) by {
        vstd::arithmetic::div_mod::lemma_mod_bound(view_index, grid_columns);
    }
    assert(0 <= row) by {
        vstd::arithmetic::div_mod::lemma_div_pos_is_pos(view_index, grid_columns);
    }
    assert(row < grid_rows) by (nonlinear_arith)
        requires
            view_index == grid_columns * row + col,
            0 <= col,
            view_index < grid_columns * grid_rows,
            grid_columns > 0,
    ;
    assert(cell_w >= 0 && cell_h >= 0) by {
        vstd::arithmetic::div_mod::lemma_div_pos_is_pos(render_w, grid_columns);
        vstd::arithmetic::div_mod::lemma_div_pos_is_pos(render_h, grid_rows);
    }
    assert(0 <= col * cell_w && col * cell_w + cell_w <= render_w) by (nonlinear_arith)
        requires
            0 <= col < grid_columns,
            cell_w >= 0,
            render_w == grid_columns * cell_w + render_w % grid_columns,
            render_w % grid_columns >= 0,
    {
        assert(col * cell_w + cell_w == (col + 1) * cell_w);
        assert((col + 1) * cell_w <= grid_columns * cell_w);
    }
    assert(0 <= (grid_rows - 1 - row) * cell_h && (grid_rows - 1 - row) * cell_h + cell_h <= render_h)
        by (nonlinear_arith)
        requires
            0 <= row < grid_rows,
            cell_h >= 0,
            render_h == grid_rows * cell_h + render_h % grid_rows,
            render_h % grid_rows >= 0,
    {
        assert((grid_rows - 1 - row) * cell_h + cell_h == (grid_rows - row) * cell_h);
        assert((grid_rows - row) * cell_h <= grid_rows * cell_h);
    }
}

} // verus!
