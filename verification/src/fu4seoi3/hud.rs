use vstd::prelude::*;
use crate::fu4seoi3::config_and_state::PlacedCell;

verus! {

/// How many edits the edit-stack panel shows at once.
pub const EDIT_STACK_VISIBLE_ROWS: usize = 7;

/// The panel row of the cursor: the middle one.
pub const EDIT_STACK_CURSOR_ROW: usize = EDIT_STACK_VISIBLE_ROWS / 2;

/// The edit that the panel shows on row `row` (0 at the top), if any: the
/// cursor row shows the last applied edit (the first edit while none is
/// applied), each row below it the edit before, each row above it the edit
/// after.
pub open spec fn edit_at_row(edit_count: int, edit_cursor: int, cursor_row: int, row: int) -> Option<usize> {
    let applied = if edit_cursor < edit_count {
        edit_cursor
    } else {
        edit_count
    };
    let shown = if applied > 0 {
        applied - 1
    } else {
        0
    };
    let index = shown + cursor_row - row;
    if 0 <= index < edit_count {
        Some(index as usize)
    } else {
        None
    }
}

/// The rows of the edit-stack panel for `edit_count` edits of which the
/// first `edit_cursor` are applied: the edit shown on each row (see
/// `edit_at_row`), whether later edits lie beyond the top row and whether
/// earlier edits lie beyond the bottom row.
pub fn edit_stack_rows(edit_count: usize, edit_cursor: usize, visible_rows: usize, cursor_row: usize) -> (window: (
    Vec<Option<usize>>,
    bool,
    bool,
))
    requires
        edit_count > 0,
        cursor_row < visible_rows,
    ensures
        window.0@.len() == visible_rows,
        forall|row: int|
            0 <= row < visible_rows ==> #[trigger] window.0@[row] == edit_at_row(
                edit_count as int,
                edit_cursor as int,
                cursor_row as int,
                row,
            ),
        window.1 == edit_at_row(edit_count as int, edit_cursor as int, cursor_row as int, -1) is Some,
        window.2 == edit_at_row(edit_count as int, edit_cursor as int, cursor_row as int, visible_rows as int) is Some,
{
    let ghost at = |row: int| edit_at_row(edit_count as int, edit_cursor as int, cursor_row as int, row);
    let applied = if edit_cursor < edit_count {
        edit_cursor
    } else {
        edit_count
    };
    let shown = if applied > 0 {
        applied - 1
    } else {
        0
    };
    let mut rows: Vec<Option<usize>> = Vec::new();
    let mut k: usize = 0;
    while k < visible_rows
        invariant
            k <= visible_rows,
            rows@.len() == k,
            forall|r: int| 0 <= r < k ==> #[trigger] rows@[r] is None,
        decreases visible_rows - k,
    {
        rows.push(None);
        k += 1;
    }
    rows.set(cursor_row, Some(shown));
    // earlier edits, downwards from the cursor row
    let mut row: usize = cursor_row + 1;
    let mut below: usize = shown;
    while row < visible_rows && below > 0
        invariant
            cursor_row < visible_rows,
            shown < edit_count,
            at == (|r: int| edit_at_row(edit_count as int, edit_cursor as int, cursor_row as int, r)),
            shown + cursor_row == (if edit_cursor < edit_count { edit_cursor as int } else { edit_count as int }) - 1
                + cursor_row || (shown == 0 && (if edit_cursor < edit_count { edit_cursor as int } else {
                edit_count as int
            }) == 0),
            below <= shown,
            row == cursor_row + 1 + (shown - below),
            row <= visible_rows,
            rows@.len() == visible_rows,
            forall|r: int|
                0 <= r < visible_rows ==> #[trigger] rows@[r] == if cursor_row <= r < row {
                    at(r)
                } else {
                    None
                },
        decreases below,
    {
        rows.set(row, Some(below - 1));
        row += 1;
        below -= 1;
    }
    let has_below = below > 0;
    // later edits, upwards from the cursor row
    let mut above_row: usize = cursor_row;
    let mut next: usize = shown + 1;
    proof {
        assert forall|r: int| 0 <= r < visible_rows implies #[trigger] rows@[r] == if r >= cursor_row {
            at(r)
        } else {
            None
        } by {
            if r >= row {
                assert(at(r) is None);
            }
        }
    }
    while above_row > 0 && next < edit_count
        invariant
            cursor_row < visible_rows,
            shown < edit_count,
            at == (|r: int| edit_at_row(edit_count as int, edit_cursor as int, cursor_row as int, r)),
            shown + cursor_row == (if edit_cursor < edit_count { edit_cursor as int } else { edit_count as int }) - 1
                + cursor_row || (shown == 0 && (if edit_cursor < edit_count { edit_cursor as int } else {
                edit_count as int
            }) == 0),
            above_row <= cursor_row,
            next == shown + 1 + (cursor_row - above_row),
            next <= edit_count,
            rows@.len() == visible_rows,
            forall|r: int|
                0 <= r < visible_rows ==> #[trigger] rows@[r] == if r >= above_row {
                    at(r)
                } else {
                    None
                },
        decreases above_row,
    {
        above_row -= 1;
        rows.set(above_row, Some(next));
        next += 1;
    }
    let has_above = next < edit_count;
    proof {
        assert forall|r: int| 0 <= r < visible_rows implies #[trigger] rows@[r] == at(r) by {
            if r < above_row {
                assert(at(r) is None);
            }
        }
    }
    (rows, has_above, has_below)
}

/// The number of cells placed with mesh `mesh`; only those that are filled
/// (settled, showing a colour or a texture) when `filled_only` holds.
pub open spec fn cells_on_mesh<T>(cells: Seq<PlacedCell<T>>, mesh: int, filled_only: bool) -> nat
    decreases cells.len(),
{
    if cells.len() == 0 {
        0
    } else {
        let c = cells.last();
        cells_on_mesh(cells.drop_last(), mesh, filled_only) + if c.mesh_index == mesh && (!filled_only || (
        c.settled && (c.color_enabled || c.texture_enabled))) {
            1nat
        } else {
            0nat
        }
    }
}

proof fn lemma_cells_on_mesh_bound<T>(cells: Seq<PlacedCell<T>>, mesh: int, filled_only: bool)
    ensures
        cells_on_mesh(cells, mesh, filled_only) <= cells.len(),
        cells_on_mesh(cells, mesh, true) <= cells_on_mesh(cells, mesh, false),
    decreases cells.len(),
{
    if cells.len() > 0 {
        lemma_cells_on_mesh_bound(cells.drop_last(), mesh, filled_only);
    }
}

/// No cells count nothing; one more cell adds one to its mesh's count, and
/// one to its mesh's filled count exactly when it is settled and shows a
/// colour or a texture.
pub proof fn lemma_cells_on_mesh_step<T>(cells: Seq<PlacedCell<T>>, c: PlacedCell<T>, mesh: int)
    ensures
        cells_on_mesh(Seq::<PlacedCell<T>>::empty(), mesh, false) == 0,
        cells_on_mesh(Seq::<PlacedCell<T>>::empty(), mesh, true) == 0,
        cells_on_mesh(cells.push(c), mesh, false) == cells_on_mesh(cells, mesh, false) + if c.mesh_index == mesh {
            1int
        } else {
            0int
        },
        cells_on_mesh(cells.push(c), mesh, true) == cells_on_mesh(cells, mesh, true) + if c.mesh_index == mesh
            && c.settled && (c.color_enabled || c.texture_enabled) {
            1int
        } else {
            0int
        },
{
    assert(cells.push(c).drop_last() =~= cells);
}

/// Whether a cell is placed with mesh `mesh`.
pub open spec fn placed_on<T>(mesh: int) -> spec_fn(PlacedCell<T>) -> bool {
    |c: PlacedCell<T>| c.mesh_index == mesh
}

/// Whether a cell is placed with mesh `mesh` and filled: settled, showing
/// a colour or a texture.
pub open spec fn filled_on<T>(mesh: int) -> spec_fn(PlacedCell<T>) -> bool {
    |c: PlacedCell<T>| c.mesh_index == mesh && c.settled && (c.color_enabled || c.texture_enabled)
}

/// The cells on a mesh are those of the list placed with that mesh, and
/// its filled cells those of them that are settled and show a colour or a
/// texture (what `PlacedCell::is_filled` answers).
pub proof fn lemma_cells_on_mesh_counts<T>(cells: Seq<PlacedCell<T>>, mesh: int)
    ensures
        cells_on_mesh(cells, mesh, false) == cells.filter(placed_on::<T>(mesh)).len(),
        cells_on_mesh(cells, mesh, true) == cells.filter(filled_on::<T>(mesh)).len(),
    decreases cells.len(),
{
    reveal(Seq::filter);
    if cells.len() > 0 {
        lemma_cells_on_mesh_counts(cells.drop_last(), mesh);
    }
}

/// The counts of one mesh in a frame: its placed instances, its filled
/// draws (the filled cells on it, and the target mesh once more when it is
/// drawn filled) and its wire-and-point overlay draws (the cells on it, and
/// the target mesh once more).
pub open spec fn mesh_counts_of<T>(
    cells: Seq<PlacedCell<T>>,
    mesh: int,
    target_mesh_index: int,
    target_filled: bool,
) -> (nat, nat, nat) {
    (
        cells_on_mesh(cells, mesh, false),
        cells_on_mesh(cells, mesh, true) + if mesh == target_mesh_index && target_filled {
            1nat
        } else {
            0nat
        },
        cells_on_mesh(cells, mesh, false) + if mesh == target_mesh_index {
            1nat
        } else {
            0nat
        },
    )
}

/// The three count lists hold the counts of the first `len` meshes.
pub open spec fn counts_match<T>(
    cells: Seq<PlacedCell<T>>,
    instances: Seq<usize>,
    filled: Seq<usize>,
    overlays: Seq<usize>,
    len: int,
    target_mesh_index: int,
    target_filled: bool,
) -> bool {
    &&& instances.len() == len
    &&& filled.len() == len
    &&& overlays.len() == len
    &&& forall|m: int|
        0 <= m < len ==> (instances[m] as nat, filled[m] as nat, overlays[m] as nat) == #[trigger] mesh_counts_of(
            cells,
            m,
            target_mesh_index,
            target_filled,
        )
}

/// The three count lists give, for each of the first `len` meshes, the
/// number of cells placed with it, the number of those that are filled
/// (settled, showing a colour or a texture) plus one for the target mesh
/// when it is drawn filled, and the number of cells on it plus one for the
/// target mesh.
pub open spec fn counts_by_filter<T>(
    cells: Seq<PlacedCell<T>>,
    instances: Seq<usize>,
    filled: Seq<usize>,
    overlays: Seq<usize>,
    len: int,
    target_mesh_index: int,
    target_filled: bool,
) -> bool {
    forall|m: int|
        0 <= m < len ==> {
            &&& #[trigger] instances[m] == cells.filter(placed_on::<T>(m)).len()
            &&& filled[m] == cells.filter(filled_on::<T>(m)).len() + if m == target_mesh_index && target_filled {
                1int
            } else {
                0int
            }
            &&& overlays[m] == cells.filter(placed_on::<T>(m)).len() + if m == target_mesh_index {
                1int
            } else {
                0int
            }
        }
}

/// Counts that match `mesh_counts_of` are the filtered counts.
pub proof fn lemma_counts_by_filter<T>(
    cells: Seq<PlacedCell<T>>,
    instances: Seq<usize>,
    filled: Seq<usize>,
    overlays: Seq<usize>,
    len: int,
    target_mesh_index: int,
    target_filled: bool,
)
    requires
        counts_match(cells, instances, filled, overlays, len, target_mesh_index, target_filled),
    ensures
        counts_by_filter(cells, instances, filled, overlays, len, target_mesh_index, target_filled),
{
    assert forall|m: int| 0 <= m < len implies {
        &&& #[trigger] instances[m] == cells.filter(placed_on::<T>(m)).len()
        &&& filled[m] == cells.filter(filled_on::<T>(m)).len() + if m == target_mesh_index && target_filled {
            1int
        } else {
            0int
        }
        &&& overlays[m] == cells.filter(placed_on::<T>(m)).len() + if m == target_mesh_index {
            1int
        } else {
            0int
        }
    } by {
        lemma_cells_on_mesh_counts(cells, m);
        assert(mesh_counts_of(cells, m, target_mesh_index, target_filled) == (
        instances[m] as nat,
        filled[m] as nat,
        overlays[m] as nat,
        ));
    }
}

/// The draw counts of every mesh in a frame (see `mesh_counts_of`). Cells
/// of meshes beyond `mesh_count`, and a target beyond it, count nowhere.
pub fn mesh_draw_counts<T>(
    placed_cells: &[PlacedCell<T>],
    mesh_count: usize,
    target_mesh_index: usize,
    target_filled: bool,
) -> (counts: (Vec<usize>, Vec<usize>, Vec<usize>))
    requires
        placed_cells@.len() < usize::MAX,
    ensures
        counts_match(
            placed_cells@,
            counts.0@,
            counts.1@,
            counts.2@,
            mesh_count as int,
            target_mesh_index as int,
            target_filled,
        ),
        counts_by_filter(
            placed_cells@,
            counts.0@,
            counts.1@,
            counts.2@,
            mesh_count as int,
            target_mesh_index as int,
            target_filled,
        ),
{
    let ghost cells = placed_cells@;
    let ghost none: Seq<PlacedCell<T>> = Seq::empty();
    let mut instances: Vec<usize> = Vec::new();
    let mut filled: Vec<usize> = Vec::new();
    let mut overlays: Vec<usize> = Vec::new();
    let mut m: usize = 0;
    while m < mesh_count
        invariant
            m <= mesh_count,
            none.len() == 0,
            counts_match(none, instances@, filled@, overlays@, m as int, target_mesh_index as int, target_filled),
        decreases mesh_count - m,
    {
        let ghost (i0, f0, o0) = (instances@, filled@, overlays@);
        instances.push(0);
        filled.push(
            if m == target_mesh_index && target_filled {
                1
            } else {
                0
            },
        );
        overlays.push(
            if m == target_mesh_index {
                1
            } else {
                0
            },
        );
        proof {
            assert forall|j: int| 0 <= j < m + 1 implies (instances@[j] as nat, filled@[j] as nat, overlays@[j] as nat)
                == #[trigger] mesh_counts_of(none, j, target_mesh_index as int, target_filled) by {
                if j < m {
                    assert(instances@[j] == i0[j] && filled@[j] == f0[j] && overlays@[j] == o0[j]);
                }
            }
        }
        m += 1;
    }
    let mut k: usize = 0;
    proof {
        assert(cells.subrange(0, 0) =~= none);
    }
    while k < placed_cells.len()
        invariant
            cells == placed_cells@,
            cells.len() < usize::MAX,
            k <= cells.len(),
            counts_match(
                cells.subrange(0, k as int),
                instances@,
                filled@,
                overlays@,
                mesh_count as int,
                target_mesh_index as int,
                target_filled,
            ),
        decreases cells.len() - k,
    {
        let ghost before = cells.subrange(0, k as int);
        let ghost after = cells.subrange(0, k + 1);
        let ghost (i0, f0, o0) = (instances@, filled@, overlays@);
        proof {
            assert(after.drop_last() =~= before);
            assert(after.last() == cells[k as int]);
        }
        let cell = &placed_cells[k];
        let i = cell.mesh_index;
        if i < mesh_count {
            let is_filled = cell.settled && (cell.color_enabled || cell.texture_enabled);
            proof {
                lemma_cells_on_mesh_bound(before, i as int, false);
                assert(mesh_counts_of(before, i as int, target_mesh_index as int, target_filled).0 == i0[i as int]);
                assert(mesh_counts_of(before, i as int, target_mesh_index as int, target_filled).1 == f0[i as int]);
                assert(mesh_counts_of(before, i as int, target_mesh_index as int, target_filled).2 == o0[i as int]);
            }
            instances.set(i, instances[i] + 1);
            if is_filled {
                filled.set(i, filled[i] + 1);
            }
            overlays.set(i, overlays[i] + 1);
        }
        proof {
            assert forall|j: int| 0 <= j < mesh_count implies (instances@[j] as nat, filled@[j] as nat, overlays@[j] as nat)
                == #[trigger] mesh_counts_of(after, j, target_mesh_index as int, target_filled) by {
                assert(mesh_counts_of(before, j, target_mesh_index as int, target_filled) == (
                i0[j] as nat,
                f0[j] as nat,
                o0[j] as nat,
                ));
                assert(cells_on_mesh(after, j, false) == cells_on_mesh(before, j, false) + if cells[k as int].mesh_index
                    == j {
                    1nat
                } else {
                    0nat
                });
            }
        }
        k += 1;
    }
    proof {
        assert(cells.subrange(0, cells.len() as int) =~= cells);
    }
    let counts = (instances, filled, overlays);
    proof {
        lemma_counts_by_filter(cells, counts.0@, counts.1@, counts.2@, mesh_count as int, target_mesh_index as int, target_filled);
    }
    counts
}

/// The estimated GPU work of a frame for a mesh of `vertex_count` vertices,
/// `triangle_count` triangles and `index_count` indices, with vertices of
/// `vertex_stride` bytes: vertices submitted (each filled draw once, each
/// overlay draw twice), triangles (filled draws only) and bytes (vertices
/// and 16-bit indices of the filled draws, vertices of the overlay draws
/// twice).
pub fn gpu_submission_estimate(
    filled_draws: usize,
    overlay_draws: usize,
    vertex_count: usize,
    triangle_count: usize,
    index_count: usize,
    vertex_stride: usize,
) -> (estimate: (usize, usize, usize))
    requires
        filled_draws + overlay_draws * 2 <= usize::MAX,
        vertex_count * (filled_draws + overlay_draws * 2) <= usize::MAX,
        triangle_count * filled_draws <= usize::MAX,
        vertex_stride * vertex_count + index_count * 2 <= usize::MAX,
        filled_draws * (vertex_stride * vertex_count + index_count * 2) + overlay_draws * 2 * (vertex_stride
            * vertex_count) <= usize::MAX,
    ensures
        estimate.0 == vertex_count * (filled_draws + overlay_draws * 2),
        estimate.1 == triangle_count * filled_draws,
        estimate.2 == filled_draws * (vertex_stride * vertex_count + index_count * 2) + overlay_draws * 2 * (
        vertex_stride * vertex_count),
{
    proof {
        assert(0 <= filled_draws * (vertex_stride * vertex_count + index_count * 2)) by (nonlinear_arith)
            requires
                filled_draws >= 0,
                vertex_stride * vertex_count + index_count * 2 >= 0,
        ;
        assert(0 <= overlay_draws * 2 * (vertex_stride * vertex_count)) by (nonlinear_arith)
            requires
                overlay_draws >= 0,
                vertex_stride * vertex_count >= 0,
        ;
        assert(vertex_stride * vertex_count >= 0) by (nonlinear_arith)
            requires
                vertex_stride >= 0,
                vertex_count >= 0,
        ;
        assert(filled_draws * (vertex_stride * vertex_count + index_count * 2) <= usize::MAX);
        assert(overlay_draws * 2 * (vertex_stride * vertex_count) <= usize::MAX);
    }
    let total_vertex_passes = filled_draws + overlay_draws * 2;
    let gpu_verts_per_frame = vertex_count * total_vertex_passes;
    let gpu_tris_per_frame = triangle_count * filled_draws;
    let vertex_bytes_per_draw = vertex_stride * vertex_count;
    let index_bytes_per_draw = index_count * 2;
    let gpu_bytes_from_tri_draws = filled_draws * (vertex_bytes_per_draw + index_bytes_per_draw);
    let gpu_bytes_from_overlay_draws = overlay_draws * 2 * vertex_bytes_per_draw;
    (gpu_verts_per_frame, gpu_tris_per_frame, gpu_bytes_from_tri_draws + gpu_bytes_from_overlay_draws)
}

} // verus!
