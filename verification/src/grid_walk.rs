//! The outline walk over a row-major byte mask shared by the contour
//! tracers: standing on a set cell after a move in direction `c`, the walk
//! tries to turn left (`c - 1`), then goes straight (`c`), turns right
//! (`c + 1`) and finally turns back (`c + 2`), taking the first neighbour
//! that is set. Directions: 0 right, 1 down, 2 left, 3 up.
//!
//! The main result: a walk that starts on a set cell either cannot move at
//! all or comes back to its starting cell within `4 * width * height` moves.
use vstd::prelude::*;
use vstd::set_lib::{lemma_int_range, lemma_len_subset, set_int_range};

verus! {

pub open spec fn dir_dx(c: int) -> int {
    if c == 0 {
        1
    } else if c == 2 {
        -1
    } else {
        0
    }
}

pub open spec fn dir_dy(c: int) -> int {
    if c == 1 {
        1
    } else if c == 3 {
        -1
    } else {
        0
    }
}

/// The cell at (x, y) lies in the mask and is set.
pub open spec fn cell_set(mask: Seq<u8>, width: int, height: int, x: int, y: int) -> bool {
    0 <= x < width && 0 <= y < height && mask[y * width + x] == 1
}

/// The neighbour of (x, y) in direction `c` lies in the mask and is set.
pub open spec fn open_toward(mask: Seq<u8>, width: int, height: int, x: int, y: int, c: int) -> bool {
    cell_set(mask, width, height, x + dir_dx(c), y + dir_dy(c))
}

/// The direction of the next move after a move in direction `c`: the first
/// open one among left, straight, right and back.
pub open spec fn next_direction(mask: Seq<u8>, width: int, height: int, x: int, y: int, c: int) -> Option<int> {
    if open_toward(mask, width, height, x, y, (c + 3) % 4) {
        Some((c + 3) % 4)
    } else if open_toward(mask, width, height, x, y, c) {
        Some(c)
    } else if open_toward(mask, width, height, x, y, (c + 1) % 4) {
        Some((c + 1) % 4)
    } else if open_toward(mask, width, height, x, y, (c + 2) % 4) {
        Some((c + 2) % 4)
    } else {
        None
    }
}

/// A state of the walk: position and the direction of the last move.
pub type WalkState = (int, int, int);

/// The state after one more move, if there is an open direction.
pub open spec fn walk_step(mask: Seq<u8>, width: int, height: int, s: WalkState) -> Option<WalkState> {
    match next_direction(mask, width, height, s.0, s.1, s.2) {
        Some(d) => Some((s.0 + dir_dx(d), s.1 + dir_dy(d), d)),
        None => None,
    }
}

/// The state after `k` moves from `s0`, if the walk gets that far.
pub open spec fn walk_after(mask: Seq<u8>, width: int, height: int, s0: WalkState, k: nat) -> Option<WalkState>
    decreases k,
{
    if k == 0 {
        Some(s0)
    } else {
        match walk_after(mask, width, height, s0, (k - 1) as nat) {
            Some(s) => walk_step(mask, width, height, s),
            None => None,
        }
    }
}

/// A state reached by a move: it stands on a set cell and the cell it came
/// from is set.
pub open spec fn arrived(mask: Seq<u8>, width: int, height: int, s: WalkState) -> bool {
    &&& 0 <= s.2 < 4
    &&& cell_set(mask, width, height, s.0, s.1)
    &&& open_toward(mask, width, height, s.0, s.1, (s.2 + 2) % 4)
}

/// Each state of the walk gets a distinct number below 4 * width * height.
pub open spec fn state_code(width: int, s: WalkState) -> int {
    (s.1 * width + s.0) * 4 + s.2
}

proof fn lemma_step_arrives(mask: Seq<u8>, width: int, height: int, s: WalkState)
    requires
        cell_set(mask, width, height, s.0, s.1),
        0 <= s.2 < 4,
        walk_step(mask, width, height, s) is Some,
    ensures
        arrived(mask, width, height, walk_step(mask, width, height, s).unwrap()),
{
}

pub proof fn lemma_arrived_steps(mask: Seq<u8>, width: int, height: int, s: WalkState)
    requires
        arrived(mask, width, height, s),
    ensures
        walk_step(mask, width, height, s) is Some,
{
}

/// A move is undone uniquely: two arrived states with the same successor are equal.
proof fn lemma_step_injective(mask: Seq<u8>, width: int, height: int, s1: WalkState, s2: WalkState)
    requires
        arrived(mask, width, height, s1),
        arrived(mask, width, height, s2),
        walk_step(mask, width, height, s1) == walk_step(mask, width, height, s2),
        walk_step(mask, width, height, s1) is Some,
    ensures
        s1 == s2,
{
    let t = walk_step(mask, width, height, s1).unwrap();
    let d = t.2;
    assert(s1.0 == s2.0 && s1.1 == s2.1);
    let x = s1.0;
    let y = s1.1;
    // which of the four directions lead to d depends only on the cell (x, y)
    assert(s1.2 == s2.2) by {
        let c1 = s1.2;
        let c2 = s2.2;
        assert(0 <= d < 4);
        assert(c1 == (d + 1) % 4 <==> open_toward(mask, width, height, x, y, (d + 3) % 4));
        assert(c2 == (d + 1) % 4 <==> open_toward(mask, width, height, x, y, (d + 3) % 4));
        assert(c1 == d <==> !open_toward(mask, width, height, x, y, (d + 3) % 4) && open_toward(
            mask,
            width,
            height,
            x,
            y,
            (d + 2) % 4,
        ));
        assert(c2 == d <==> !open_toward(mask, width, height, x, y, (d + 3) % 4) && open_toward(
            mask,
            width,
            height,
            x,
            y,
            (d + 2) % 4,
        ));
        assert(c1 == (d + 3) % 4 <==> !open_toward(mask, width, height, x, y, (d + 3) % 4)
            && !open_toward(mask, width, height, x, y, (d + 2) % 4) && open_toward(
            mask,
            width,
            height,
            x,
            y,
            (d + 1) % 4,
        ));
        assert(c2 == (d + 3) % 4 <==> !open_toward(mask, width, height, x, y, (d + 3) % 4)
            && !open_toward(mask, width, height, x, y, (d + 2) % 4) && open_toward(
            mask,
            width,
            height,
            x,
            y,
            (d + 1) % 4,
        ));
    }
}

pub proof fn lemma_walk_arrived(mask: Seq<u8>, width: int, height: int, s0: WalkState, k: nat)
    requires
        cell_set(mask, width, height, s0.0, s0.1),
        0 <= s0.2 < 4,
        walk_after(mask, width, height, s0, 1) is Some,
        k >= 1,
    ensures
        walk_after(mask, width, height, s0, k) is Some,
        arrived(mask, width, height, walk_after(mask, width, height, s0, k).unwrap()),
    decreases k,
{
    if k == 1 {
        lemma_step_arrives(mask, width, height, s0);
    } else {
        lemma_walk_arrived(mask, width, height, s0, (k - 1) as nat);
        let s = walk_after(mask, width, height, s0, (k - 1) as nat).unwrap();
        lemma_arrived_steps(mask, width, height, s);
        lemma_step_arrives(mask, width, height, s);
    }
}

/// Equal states at moves i < j mean equal states at moves 1 and j - i + 1.
proof fn lemma_walk_rewind(mask: Seq<u8>, width: int, height: int, s0: WalkState, i: nat, j: nat)
    requires
        cell_set(mask, width, height, s0.0, s0.1),
        0 <= s0.2 < 4,
        walk_after(mask, width, height, s0, 1) is Some,
        1 <= i < j,
        walk_after(mask, width, height, s0, i) == walk_after(mask, width, height, s0, j),
    ensures
        walk_after(mask, width, height, s0, 1) == walk_after(mask, width, height, s0, (j - i + 1) as nat),
    decreases i,
{
    if i > 1 {
        lemma_walk_arrived(mask, width, height, s0, (i - 1) as nat);
        lemma_walk_arrived(mask, width, height, s0, (j - 1) as nat);
        lemma_step_injective(
            mask,
            width,
            height,
            walk_after(mask, width, height, s0, (i - 1) as nat).unwrap(),
            walk_after(mask, width, height, s0, (j - 1) as nat).unwrap(),
        );
        lemma_walk_rewind(mask, width, height, s0, (i - 1) as nat, (j - 1) as nat);
    }
}

proof fn lemma_state_code_range(width: int, height: int, s: WalkState)
    requires
        0 <= s.0 < width,
        0 <= s.1 < height,
        0 <= s.2 < 4,
    ensures
        0 <= state_code(width, s) < 4 * width * height,
{
    assert(0 <= s.1 * width + s.0 < width * height) by (nonlinear_arith)
        requires
            0 <= s.0 < width,
            0 <= s.1 < height,
    ;
    assert(4 * (width * height) == 4 * width * height) by (nonlinear_arith);
}

proof fn lemma_state_code_injective(width: int, height: int, a: WalkState, b: WalkState)
    requires
        0 <= a.0 < width,
        0 <= a.1 < height,
        0 <= a.2 < 4,
        0 <= b.0 < width,
        0 <= b.1 < height,
        0 <= b.2 < 4,
        state_code(width, a) == state_code(width, b),
    ensures
        a == b,
{
    let ia = a.1 * width + a.0;
    let ib = b.1 * width + b.0;
    assert(ia == ib && a.2 == b.2);
    if a.1 < b.1 {
        assert(a.1 * width + width <= b.1 * width) by (nonlinear_arith)
            requires
                a.1 < b.1,
                width > 0,
        ;
    } else if b.1 < a.1 {
        assert(b.1 * width + width <= a.1 * width) by (nonlinear_arith)
            requires
                b.1 < a.1,
                width > 0,
        ;
    }
}

/// Among `count + 1` values below `count` two are equal.
proof fn lemma_pigeonhole(values: Seq<int>, count: int)
    requires
        count >= 0,
        values.len() == count + 1,
        forall|i: int| 0 <= i < values.len() ==> 0 <= #[trigger] values[i] < count,
    ensures
        exists|i: int, j: int| 0 <= i < j < values.len() && values[i] == values[j],
{
    if !(exists|i: int, j: int| 0 <= i < j < values.len() && values[i] == values[j]) {
        assert(values.no_duplicates()) by {
            assert forall|i: int, j: int| 0 <= i < values.len() && 0 <= j < values.len() && i != j implies values[i]
                != values[j] by {
                if i < j {
                    assert(!(values[i] == values[j]));
                } else {
                    assert(!(values[j] == values[i]));
                }
            }
        }
        values.unique_seq_to_set();
        lemma_int_range(0, count);
        assert(values.to_set().subset_of(set_int_range(0, count)));
        lemma_len_subset(values.to_set(), set_int_range(0, count));
    }
}

/// A walk that starts on a set cell of a `width` x `height` mask either
/// cannot move or is back on its starting cell after some move `j`, with
/// `1 <= j <= 4 * width * height`.
pub proof fn lemma_walk_returns(mask: Seq<u8>, width: int, height: int, s0: WalkState)
    requires
        cell_set(mask, width, height, s0.0, s0.1),
        0 <= s0.2 < 4,
    ensures
        walk_after(mask, width, height, s0, 1) is None || exists|j: nat|
            1 <= j <= 4 * width * height && (#[trigger] walk_after(mask, width, height, s0, j)) is Some
                && walk_after(mask, width, height, s0, j).unwrap().0 == s0.0 && walk_after(
                mask,
                width,
                height,
                s0,
                j,
            ).unwrap().1 == s0.1,
{
    if walk_after(mask, width, height, s0, 1) is Some {
        let n = 4 * width * height;
        assert(4 * width * height >= 0) by (nonlinear_arith)
            requires
                width >= 0,
                height >= 0,
        ;
        let codes = Seq::new(
            (n + 1) as nat,
            |i: int| state_code(width, walk_after(mask, width, height, s0, (i + 1) as nat).unwrap()),
        );
        assert forall|i: int| 0 <= i < codes.len() implies 0 <= #[trigger] codes[i] < n by {
            lemma_walk_arrived(mask, width, height, s0, (i + 1) as nat);
            lemma_state_code_range(width, height, walk_after(mask, width, height, s0, (i + 1) as nat).unwrap());
        }
        lemma_pigeonhole(codes, n);
        let (a, b) = choose|a: int, b: int| 0 <= a < b < codes.len() && codes[a] == codes[b];
        let i = (a + 1) as nat;
        let j = (b + 1) as nat;
        lemma_walk_arrived(mask, width, height, s0, i);
        lemma_walk_arrived(mask, width, height, s0, j);
        lemma_state_code_injective(
            width,
            height,
            walk_after(mask, width, height, s0, i).unwrap(),
            walk_after(mask, width, height, s0, j).unwrap(),
        );
        lemma_walk_rewind(mask, width, height, s0, i, j);
        let m = (j - i + 1) as nat;
        // the move into the state of move 1 starts from the state of move m - 1,
        // which therefore stands where the walk started
        let back = (m - 1) as nat;
        lemma_walk_arrived(mask, width, height, s0, back);
        let sb = walk_after(mask, width, height, s0, back).unwrap();
        assert(walk_after(mask, width, height, s0, m) == walk_step(mask, width, height, sb));
        assert(walk_after(mask, width, height, s0, 0) == Some(s0));
        assert(walk_after(mask, width, height, s0, 1) == walk_step(mask, width, height, s0));
        assert(sb.0 == s0.0 && sb.1 == s0.1);
        assert(1 <= back <= n);
    }
}

pub proof fn lemma_grid_index(columns: int, rows: int, column: int, row: int)
    requires
        0 <= column < columns,
        0 <= row < rows,
    ensures
        0 <= row * columns + column < columns * rows,
{
    assert(row * columns + column < columns * rows) by (nonlinear_arith)
        requires
            0 <= column < columns,
            0 <= row < rows,
    ;
    assert(0 <= row * columns) by (nonlinear_arith)
        requires
            0 <= row,
            0 <= columns,
    ;
}

pub proof fn lemma_grid_index_unique(columns: int, c1: int, r1: int, c2: int, r2: int)
    requires
        0 <= c1 < columns,
        0 <= c2 < columns,
        0 <= r1,
        0 <= r2,
        r1 * columns + c1 == r2 * columns + c2,
    ensures
        c1 == c2,
        r1 == r2,
{
    if r1 < r2 {
        assert(r1 * columns + columns <= r2 * columns) by (nonlinear_arith)
            requires
                r1 < r2,
                columns > 0,
        ;
    } else if r2 < r1 {
        assert(r2 * columns + columns <= r1 * columns) by (nonlinear_arith)
            requires
                r2 < r1,
                columns > 0,
        ;
    }
}

/// The walk first stands on its starting cell again after exactly `moves` moves.
pub open spec fn first_return(mask: Seq<u8>, width: int, height: int, s0: WalkState, moves: nat) -> bool {
    &&& moves >= 1
    &&& walk_after(mask, width, height, s0, moves) is Some
    &&& walk_after(mask, width, height, s0, moves).unwrap().0 == s0.0
    &&& walk_after(mask, width, height, s0, moves).unwrap().1 == s0.1
    &&& forall|i: nat|
        1 <= i < moves ==> (#[trigger] walk_after(mask, width, height, s0, i)) is Some && !(
        walk_after(mask, width, height, s0, i).unwrap().0 == s0.0 && walk_after(
            mask,
            width,
            height,
            s0,
            i,
        ).unwrap().1 == s0.1)
}

/// The neighbour of (x, y) in direction `direction` (0 right, 1 down, 2 left,
/// 3 up) when it lies in the grid and is set in the mask.
pub(crate) fn open_neighbor(
    mask_vector: &[u8],
    grid_width: usize,
    grid_height: usize,
    x: usize,
    y: usize,
    direction: usize,
) -> (next: Option<(usize, usize)>)
    requires
        mask_vector@.len() >= grid_width * grid_height,
        x < grid_width,
        y < grid_height,
        direction < 4,
    ensures
        next is Some <==> open_toward(
            mask_vector@,
            grid_width as int,
            grid_height as int,
            x as int,
            y as int,
            direction as int,
        ),
        next is Some ==> next.unwrap().0 == x + dir_dx(direction as int) && next.unwrap().1 == y
            + dir_dy(direction as int),
{
    let (nx, ny) = if direction == 0 {
        if x + 1 >= grid_width {
            return None;
        }
        (x + 1, y)
    } else if direction == 1 {
        if y + 1 >= grid_height {
            return None;
        }
        (x, y + 1)
    } else if direction == 2 {
        if x == 0 {
            return None;
        }
        (x - 1, y)
    } else {
        if y == 0 {
            return None;
        }
        (x, y - 1)
    };
    proof {
        lemma_grid_index(grid_width as int, grid_height as int, nx as int, ny as int);
    }
    let _cells = mask_vector.len();
    if mask_vector[ny * grid_width + nx] == 1 {
        Some((nx, ny))
    } else {
        None
    }
}

/// The first direction among `previous`, `previous + 1`, `previous + 2`,
/// `previous + 3` (mod 4) whose neighbour is set, with that neighbour.
pub(crate) fn first_open_direction(
    mask_vector: &[u8],
    grid_width: usize,
    grid_height: usize,
    x: usize,
    y: usize,
    previous: usize,
) -> (found: Option<(usize, (usize, usize))>)
    requires
        mask_vector@.len() >= grid_width * grid_height,
        x < grid_width,
        y < grid_height,
        previous < 4,
    ensures
        match next_direction(
            mask_vector@,
            grid_width as int,
            grid_height as int,
            x as int,
            y as int,
            (previous as int + 1) % 4,
        ) {
            Some(d) => found is Some && found.unwrap().0 == d && found.unwrap().1.0 == x + dir_dx(d)
                && found.unwrap().1.1 == y + dir_dy(d),
            None => found is None,
        },
{
    let mut step_offset: usize = 0;
    while step_offset < 4
        invariant
            mask_vector@.len() >= grid_width * grid_height,
            x < grid_width,
            y < grid_height,
            previous < 4,
            step_offset <= 4,
            step_offset > 0 ==> !open_toward(
                mask_vector@,
                grid_width as int,
                grid_height as int,
                x as int,
                y as int,
                (previous + 0) % 4,
            ),
            step_offset > 1 ==> !open_toward(
                mask_vector@,
                grid_width as int,
                grid_height as int,
                x as int,
                y as int,
                (previous + 1) % 4,
            ),
            step_offset > 2 ==> !open_toward(
                mask_vector@,
                grid_width as int,
                grid_height as int,
                x as int,
                y as int,
                (previous + 2) % 4,
            ),
            step_offset > 3 ==> !open_toward(
                mask_vector@,
                grid_width as int,
                grid_height as int,
                x as int,
                y as int,
                (previous + 3) % 4,
            ),
        decreases 4 - step_offset,
    {
        let candidate = (previous + step_offset) % 4;
        match open_neighbor(mask_vector, grid_width, grid_height, x, y, candidate) {
            Some(next) => {
                return Some((candidate, next));
            },
            None => {},
        }
        step_offset += 1;
    }
    None
}

} // verus!
