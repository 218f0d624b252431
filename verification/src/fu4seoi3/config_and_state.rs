use vstd::prelude::*;

verus! {

/// A cell placed on the room's floor grid at `(ix, iy, iz)`, with the mesh it
/// shows, the moment it was placed (of whatever clock the caller keeps) and
/// its flags.
#[derive(Clone, Copy, Debug)]
pub struct PlacedCell<T> {
    pub ix: i32,
    pub iy: i32,
    pub iz: i32,
    pub mesh_index: usize,
    pub placed_time: T,
    pub settled: bool,
    pub texture_enabled: bool,
    pub color_enabled: bool,
}

impl<T> PlacedCell<T> {
    /// A settled cell that shows a texture or a colour.
    pub fn is_filled(&self) -> (filled: bool)
        ensures
            filled == (self.settled && (self.color_enabled || self.texture_enabled)),
    {
        self.settled && (self.color_enabled || self.texture_enabled)
    }
}

/// One recorded edit of the placed cells, with the moment it was made.
#[derive(Clone, Copy, Debug)]
pub enum EditStack<T> {
    PlaceCell { cell: PlacedCell<T>, time: T },
    RemoveCell { cell: PlacedCell<T>, time: T },
    ToggleTexture { ix: i32, iy: i32, iz: i32, time: T },
    ToggleColor { ix: i32, iy: i32, iz: i32, time: T },
}

/// The place an edit applies to.
pub open spec fn edit_place<T>(edit: EditStack<T>) -> (i32, i32, i32) {
    match edit {
        EditStack::PlaceCell { cell, .. } => (cell.ix, cell.iy, cell.iz),
        EditStack::RemoveCell { cell, .. } => (cell.ix, cell.iy, cell.iz),
        EditStack::ToggleTexture { ix, iy, iz, .. } => (ix, iy, iz),
        EditStack::ToggleColor { ix, iy, iz, .. } => (ix, iy, iz),
    }
}

/// The moment an edit was made.
pub open spec fn edit_moment<T>(edit: EditStack<T>) -> T {
    match edit {
        EditStack::PlaceCell { time, .. } => time,
        EditStack::RemoveCell { time, .. } => time,
        EditStack::ToggleTexture { time, .. } => time,
        EditStack::ToggleColor { time, .. } => time,
    }
}

/// The name of an edit's kind.
pub open spec fn edit_kind_name<T>(edit: EditStack<T>) -> Seq<char> {
    match edit {
        EditStack::PlaceCell { .. } => "PlaceCell"@,
        EditStack::RemoveCell { .. } => "RemoveCell"@,
        EditStack::ToggleTexture { .. } => "ToggleTexture"@,
        EditStack::ToggleColor { .. } => "ToggleColor"@,
    }
}

/// When `edit` was made.
pub fn edit_time<T: Copy>(edit: &EditStack<T>) -> (time: T)
    ensures
        time == edit_moment(*edit),
{
    match edit {
        EditStack::PlaceCell { time, .. } => *time,
        EditStack::RemoveCell { time, .. } => *time,
        EditStack::ToggleTexture { time, .. } => *time,
        EditStack::ToggleColor { time, .. } => *time,
    }
}

/// The name of `edit`'s kind.
pub fn edit_name<T>(edit: &EditStack<T>) -> (name: &'static str)
    ensures
        name@ == edit_kind_name(*edit),
{
    match edit {
        EditStack::PlaceCell { .. } => "PlaceCell",
        EditStack::RemoveCell { .. } => "RemoveCell",
        EditStack::ToggleTexture { .. } => "ToggleTexture",
        EditStack::ToggleColor { .. } => "ToggleColor",
    }
}

/// The place `edit` applies to.
pub fn edit_coords<T>(edit: &EditStack<T>) -> (coords: (i32, i32, i32))
    ensures
        coords == edit_place(*edit),
{
    match edit {
        EditStack::PlaceCell { cell, .. } => (cell.ix, cell.iy, cell.iz),
        EditStack::RemoveCell { cell, .. } => (cell.ix, cell.iy, cell.iz),
        EditStack::ToggleTexture { ix, iy, iz, .. } => (*ix, *iy, *iz),
        EditStack::ToggleColor { ix, iy, iz, .. } => (*ix, *iy, *iz),
    }
}

/// The cell lies at `(ix, iy, iz)`.
pub open spec fn at_coords<T>(cell: PlacedCell<T>, ix: i32, iy: i32, iz: i32) -> bool {
    cell.ix == ix && cell.iy == iy && cell.iz == iz
}

/// The index of the first cell from `i` on that lies at `(ix, iy, iz)`, or
/// the length of `cells` when none does.
pub open spec fn position_from<T>(cells: Seq<PlacedCell<T>>, ix: i32, iy: i32, iz: i32, i: int) -> int
    decreases cells.len() - i,
{
    if i >= cells.len() {
        cells.len() as int
    } else if at_coords(cells[i], ix, iy, iz) {
        i
    } else {
        position_from(cells, ix, iy, iz, i + 1)
    }
}

/// The index of the first cell at `(ix, iy, iz)`, or the length of `cells`
/// when none lies there.
pub open spec fn first_at<T>(cells: Seq<PlacedCell<T>>, ix: i32, iy: i32, iz: i32) -> int {
    position_from(cells, ix, iy, iz, 0)
}

/// Some cell lies at `(ix, iy, iz)`.
pub open spec fn occupied<T>(cells: Seq<PlacedCell<T>>, ix: i32, iy: i32, iz: i32) -> bool {
    exists|i: int| 0 <= i < cells.len() && #[trigger] at_coords(cells[i], ix, iy, iz)
}

/// The cells with `cell` appended, unless its place is taken.
pub open spec fn place<T>(cells: Seq<PlacedCell<T>>, cell: PlacedCell<T>) -> Seq<PlacedCell<T>> {
    if first_at(cells, cell.ix, cell.iy, cell.iz) < cells.len() {
        cells
    } else {
        cells.push(cell)
    }
}

/// The cells without the first one at `(ix, iy, iz)`.
pub open spec fn remove_at<T>(cells: Seq<PlacedCell<T>>, ix: i32, iy: i32, iz: i32) -> Seq<PlacedCell<T>> {
    let p = first_at(cells, ix, iy, iz);
    if p < cells.len() {
        cells.remove(p)
    } else {
        cells
    }
}

/// The cells with the texture flag of the first one at `(ix, iy, iz)`
/// flipped.
pub open spec fn toggle_texture<T>(cells: Seq<PlacedCell<T>>, ix: i32, iy: i32, iz: i32) -> Seq<PlacedCell<T>> {
    let p = first_at(cells, ix, iy, iz);
    if p < cells.len() {
        cells.update(p, PlacedCell { texture_enabled: !cells[p].texture_enabled, ..cells[p] })
    } else {
        cells
    }
}

/// The cells with the colour flag of the first one at `(ix, iy, iz)`
/// flipped.
pub open spec fn toggle_color<T>(cells: Seq<PlacedCell<T>>, ix: i32, iy: i32, iz: i32) -> Seq<PlacedCell<T>> {
    let p = first_at(cells, ix, iy, iz);
    if p < cells.len() {
        cells.update(p, PlacedCell { color_enabled: !cells[p].color_enabled, ..cells[p] })
    } else {
        cells
    }
}

/// The cells after (re)applying `edit`.
pub open spec fn redone<T>(edit: EditStack<T>, cells: Seq<PlacedCell<T>>) -> Seq<PlacedCell<T>> {
    match edit {
        EditStack::PlaceCell { cell, .. } => place(cells, cell),
        EditStack::RemoveCell { cell, .. } => remove_at(cells, cell.ix, cell.iy, cell.iz),
        EditStack::ToggleTexture { ix, iy, iz, .. } => toggle_texture(cells, ix, iy, iz),
        EditStack::ToggleColor { ix, iy, iz, .. } => toggle_color(cells, ix, iy, iz),
    }
}

/// The cells after reverting `edit`.
pub open spec fn undone<T>(edit: EditStack<T>, cells: Seq<PlacedCell<T>>) -> Seq<PlacedCell<T>> {
    match edit {
        EditStack::PlaceCell { cell, .. } => remove_at(cells, cell.ix, cell.iy, cell.iz),
        EditStack::RemoveCell { cell, .. } => place(cells, cell),
        EditStack::ToggleTexture { ix, iy, iz, .. } => toggle_texture(cells, ix, iy, iz),
        EditStack::ToggleColor { ix, iy, iz, .. } => toggle_color(cells, ix, iy, iz),
    }
}

/// The first cell at `(ix, iy, iz)` is at index `first_at`, from `i` on.
proof fn lemma_position_from<T>(cells: Seq<PlacedCell<T>>, ix: i32, iy: i32, iz: i32, i: int)
    requires
        0 <= i <= cells.len(),
    ensures
        i <= position_from(cells, ix, iy, iz, i) <= cells.len(),
        position_from(cells, ix, iy, iz, i) < cells.len() ==> at_coords(
            cells[position_from(cells, ix, iy, iz, i)],
            ix,
            iy,
            iz,
        ),
        forall|j: int| i <= j < position_from(cells, ix, iy, iz, i) ==> !#[trigger] at_coords(cells[j], ix, iy, iz),
    decreases cells.len() - i,
{
    if i < cells.len() && !at_coords(cells[i], ix, iy, iz) {
        lemma_position_from(cells, ix, iy, iz, i + 1);
    }
}

/// The index of the first cell at `(ix, iy, iz)`, if any lies there.
pub fn cell_position<T: Copy>(placed_cells: &Vec<PlacedCell<T>>, ix: i32, iy: i32, iz: i32) -> (position: Option<usize>)
    ensures
        match position {
            Some(i) => i == first_at(placed_cells@, ix, iy, iz) && i < placed_cells@.len(),
            None => first_at(placed_cells@, ix, iy, iz) == placed_cells@.len(),
        },
{
    let n = placed_cells.len();
    let mut i: usize = 0;
    while i < n
        invariant
            n == placed_cells@.len(),
            i <= n,
            first_at(placed_cells@, ix, iy, iz) == position_from(placed_cells@, ix, iy, iz, i as int),
        decreases n - i,
    {
        let c = placed_cells[i];
        if c.ix == ix && c.iy == iy && c.iz == iz {
            return Some(i);
        }
        i += 1;
    }
    None
}

/// Removes the first cell at `(ix, iy, iz)`, if any.
fn remove_cell_at<T: Copy>(placed_cells: &mut Vec<PlacedCell<T>>, ix: i32, iy: i32, iz: i32)
    ensures
        final(placed_cells)@ == remove_at(old(placed_cells)@, ix, iy, iz),
{
    if let Some(cell_index) = cell_position(placed_cells, ix, iy, iz) {
        placed_cells.remove(cell_index);
    }
}

/// Appends `cell` unless its place is taken.
fn place_cell<T: Copy>(placed_cells: &mut Vec<PlacedCell<T>>, cell: PlacedCell<T>)
    ensures
        final(placed_cells)@ == place(old(placed_cells)@, cell),
{
    if cell_position(placed_cells, cell.ix, cell.iy, cell.iz).is_none() {
        placed_cells.push(cell);
    }
}

/// Flips the texture flag (or, with `color`, the colour flag) of the first
/// cell at `(ix, iy, iz)`, if any.
fn toggle_cell<T: Copy>(placed_cells: &mut Vec<PlacedCell<T>>, ix: i32, iy: i32, iz: i32, color: bool)
    ensures
        final(placed_cells)@ == if color {
            toggle_color(old(placed_cells)@, ix, iy, iz)
        } else {
            toggle_texture(old(placed_cells)@, ix, iy, iz)
        },
{
    if let Some(i) = cell_position(placed_cells, ix, iy, iz) {
        let mut c = placed_cells[i];
        if color {
            c.color_enabled = !c.color_enabled;
        } else {
            c.texture_enabled = !c.texture_enabled;
        }
        placed_cells.set(i, c);
    }
}

/// Applies `edit` (again) to the placed cells (see `redone`).
pub fn redo<T: Copy>(edit: &EditStack<T>, placed_cells: &mut Vec<PlacedCell<T>>)
    ensures
        final(placed_cells)@ == redone(*edit, old(placed_cells)@),
{
    match edit {
        EditStack::PlaceCell { cell, .. } => {
            place_cell(placed_cells, *cell);
        },
        EditStack::RemoveCell { cell, .. } => {
            remove_cell_at(placed_cells, cell.ix, cell.iy, cell.iz);
        },
        EditStack::ToggleTexture { ix, iy, iz, .. } => {
            toggle_cell(placed_cells, *ix, *iy, *iz, false);
        },
        EditStack::ToggleColor { ix, iy, iz, .. } => {
            toggle_cell(placed_cells, *ix, *iy, *iz, true);
        },
    }
}

/// Reverts `edit` on the placed cells (see `undone`).
pub fn undo<T: Copy>(edit: &EditStack<T>, placed_cells: &mut Vec<PlacedCell<T>>)
    ensures
        final(placed_cells)@ == undone(*edit, old(placed_cells)@),
{
    match edit {
        EditStack::PlaceCell { cell, .. } => {
            remove_cell_at(placed_cells, cell.ix, cell.iy, cell.iz);
        },
        EditStack::RemoveCell { cell, .. } => {
            place_cell(placed_cells, *cell);
        },
        EditStack::ToggleTexture { ix, iy, iz, .. } => {
            toggle_cell(placed_cells, *ix, *iy, *iz, false);
        },
        EditStack::ToggleColor { ix, iy, iz, .. } => {
            toggle_cell(placed_cells, *ix, *iy, *iz, true);
        },
    }
}

/// No two cells share a place.
pub open spec fn distinct_places<T>(cells: Seq<PlacedCell<T>>) -> bool {
    forall|i: int, j: int|
        0 <= i < j < cells.len() ==> !at_coords(#[trigger] cells[i], cells[j].ix, cells[j].iy, #[trigger] cells[j].iz)
}

/// Cell sequences whose cells lie at the same places, index by index, find
/// the same first cell at every place.
proof fn lemma_same_places<T>(a: Seq<PlacedCell<T>>, b: Seq<PlacedCell<T>>, ix: i32, iy: i32, iz: i32, i: int)
    requires
        a.len() == b.len(),
        0 <= i <= a.len(),
        forall|j: int| 0 <= j < a.len() ==> at_coords(#[trigger] a[j], ix, iy, iz) == at_coords(b[j], ix, iy, iz),
    ensures
        position_from(a, ix, iy, iz, i) == position_from(b, ix, iy, iz, i),
    decreases a.len() - i,
{
    if i < a.len() {
        lemma_same_places(a, b, ix, iy, iz, i + 1);
    }
}

/// With its place free, a cell is appended last and is the first one
/// found there.
proof fn lemma_free_place<T>(cells: Seq<PlacedCell<T>>, cell: PlacedCell<T>)
    requires
        !occupied(cells, cell.ix, cell.iy, cell.iz),
    ensures
        first_at(cells, cell.ix, cell.iy, cell.iz) == cells.len(),
        first_at(cells.push(cell), cell.ix, cell.iy, cell.iz) == cells.len(),
{
    let pushed = cells.push(cell);
    lemma_position_from(cells, cell.ix, cell.iy, cell.iz, 0);
    lemma_position_from(pushed, cell.ix, cell.iy, cell.iz, 0);
    let p = first_at(pushed, cell.ix, cell.iy, cell.iz);
    if p < cells.len() {
        assert(at_coords(cells[p], cell.ix, cell.iy, cell.iz));
    }
    if p > cells.len() {
        assert(!at_coords(pushed[cells.len() as int], cell.ix, cell.iy, cell.iz));
    }
    let q = first_at(cells, cell.ix, cell.iy, cell.iz);
    if q < cells.len() {
        assert(at_coords(cells[q], cell.ix, cell.iy, cell.iz));
    }
}

/// Flipping a flag keeps every cell's place, and flipping it twice gives
/// back the cells as they were.
proof fn lemma_toggle_twice<T>(cells: Seq<PlacedCell<T>>, ix: i32, iy: i32, iz: i32)
    ensures
        toggle_texture(cells, ix, iy, iz).len() == cells.len(),
        toggle_color(cells, ix, iy, iz).len() == cells.len(),
        forall|j: int|
            0 <= j < cells.len() ==> {
                let t = #[trigger] toggle_texture(cells, ix, iy, iz)[j];
                t.ix == cells[j].ix && t.iy == cells[j].iy && t.iz == cells[j].iz
            },
        forall|j: int|
            0 <= j < cells.len() ==> {
                let c = #[trigger] toggle_color(cells, ix, iy, iz)[j];
                c.ix == cells[j].ix && c.iy == cells[j].iy && c.iz == cells[j].iz
            },
        toggle_texture(toggle_texture(cells, ix, iy, iz), ix, iy, iz) == cells,
        toggle_color(toggle_color(cells, ix, iy, iz), ix, iy, iz) == cells,
{
    lemma_position_from(cells, ix, iy, iz, 0);
    let p = first_at(cells, ix, iy, iz);
    let t = toggle_texture(cells, ix, iy, iz);
    let c = toggle_color(cells, ix, iy, iz);
    lemma_same_places(cells, t, ix, iy, iz, 0);
    lemma_same_places(cells, c, ix, iy, iz, 0);
    if p < cells.len() {
        assert(toggle_texture(t, ix, iy, iz) =~= cells);
        assert(toggle_color(c, ix, iy, iz) =~= cells);
    }
}

/// Undoing a toggle that was just (re)done, or redoing one that was just
/// undone, gives back the cells as they were.
pub proof fn lemma_toggle_reverts<T>(edit: EditStack<T>, cells: Seq<PlacedCell<T>>)
    requires
        edit is ToggleTexture || edit is ToggleColor,
    ensures
        undone(edit, redone(edit, cells)) == cells,
        redone(edit, undone(edit, cells)) == cells,
{
    match edit {
        EditStack::ToggleTexture { ix, iy, iz, .. } => {
            lemma_toggle_twice(cells, ix, iy, iz);
        },
        EditStack::ToggleColor { ix, iy, iz, .. } => {
            lemma_toggle_twice(cells, ix, iy, iz);
        },
        _ => {},
    }
}

/// Placing a cell on a free place and then taking it away (undoing a
/// placement, or redoing a removal that was undone) gives back the cells as
/// they were.
pub proof fn lemma_place_reverts<T>(cell: PlacedCell<T>, time: T, cells: Seq<PlacedCell<T>>)
    requires
        !occupied(cells, cell.ix, cell.iy, cell.iz),
    ensures
        undone(EditStack::PlaceCell { cell, time }, redone(EditStack::PlaceCell { cell, time }, cells)) == cells,
        redone(EditStack::RemoveCell { cell, time }, undone(EditStack::RemoveCell { cell, time }, cells)) == cells,
{
    lemma_free_place(cells, cell);
    assert(cells.push(cell).remove(cells.len() as int) =~= cells);
}

/// A placed cell's place is taken afterwards; with no two cells sharing a
/// place, a removed cell's place is free afterwards.
pub proof fn lemma_place_and_remove<T>(cell: PlacedCell<T>, cells: Seq<PlacedCell<T>>)
    ensures
        occupied(place(cells, cell), cell.ix, cell.iy, cell.iz),
        distinct_places(cells) ==> !occupied(remove_at(cells, cell.ix, cell.iy, cell.iz), cell.ix, cell.iy, cell.iz),
{
    lemma_position_from(cells, cell.ix, cell.iy, cell.iz, 0);
    let p = first_at(cells, cell.ix, cell.iy, cell.iz);
    if p < cells.len() {
        assert(at_coords(place(cells, cell)[p], cell.ix, cell.iy, cell.iz));
    } else {
        let pushed = cells.push(cell);
        assert(at_coords(pushed[cells.len() as int], cell.ix, cell.iy, cell.iz));
    }
    if distinct_places(cells) && p < cells.len() {
        let rest = cells.remove(p);
        assert forall|i: int| 0 <= i < rest.len() implies !#[trigger] at_coords(rest[i], cell.ix, cell.iy, cell.iz) by {
            if i < p {
                assert(rest[i] == cells[i]);
            } else {
                assert(rest[i] == cells[i + 1]);
                assert(!at_coords(cells[p], cells[i + 1].ix, cells[i + 1].iy, cells[i + 1].iz));
            }
        }
    }
}

/// No edit, (re)done or undone, makes two cells share a place.
pub proof fn lemma_edits_keep_places_distinct<T>(edit: EditStack<T>, cells: Seq<PlacedCell<T>>)
    requires
        distinct_places(cells),
    ensures
        distinct_places(redone(edit, cells)),
        distinct_places(undone(edit, cells)),
{
    assert forall|cell: PlacedCell<T>| #[trigger] distinct_places(place(cells, cell)) by {
        lemma_position_from(cells, cell.ix, cell.iy, cell.iz, 0);
        let p = first_at(cells, cell.ix, cell.iy, cell.iz);
        if p >= cells.len() {
            let pushed = cells.push(cell);
            assert forall|i: int, j: int| 0 <= i < j < pushed.len() implies !at_coords(
                #[trigger] pushed[i],
                pushed[j].ix,
                pushed[j].iy,
                #[trigger] pushed[j].iz,
            ) by {
                if j == cells.len() {
                    assert(!at_coords(cells[i], cell.ix, cell.iy, cell.iz));
                } else {
                    assert(pushed[i] == cells[i] && pushed[j] == cells[j]);
                }
            }
        }
    }
    assert forall|ix: i32, iy: i32, iz: i32| #[trigger] distinct_places(remove_at(cells, ix, iy, iz)) by {
        lemma_position_from(cells, ix, iy, iz, 0);
        let p = first_at(cells, ix, iy, iz);
        if p < cells.len() {
            let rest = cells.remove(p);
            assert forall|i: int, j: int| 0 <= i < j < rest.len() implies !at_coords(
                #[trigger] rest[i],
                rest[j].ix,
                rest[j].iy,
                #[trigger] rest[j].iz,
            ) by {
                let a = if i < p {
                    i
                } else {
                    i + 1
                };
                let b = if j < p {
                    j
                } else {
                    j + 1
                };
                assert(rest[i] == cells[a] && rest[j] == cells[b]);
            }
        }
    }
    assert forall|ix: i32, iy: i32, iz: i32|
        #[trigger] distinct_places(toggle_texture(cells, ix, iy, iz)) && distinct_places(toggle_color(cells, ix, iy, iz)) by {
        lemma_toggle_twice(cells, ix, iy, iz);
        let t = toggle_texture(cells, ix, iy, iz);
        let c = toggle_color(cells, ix, iy, iz);
        assert forall|i: int, j: int| 0 <= i < j < t.len() implies !at_coords(#[trigger] t[i], t[j].ix, t[j].iy, #[trigger] t[j].iz) by {
            assert(at_coords(t[j], cells[j].ix, cells[j].iy, cells[j].iz));
            assert(!at_coords(cells[i], cells[j].ix, cells[j].iy, cells[j].iz));
        }
        assert forall|i: int, j: int| 0 <= i < j < c.len() implies !at_coords(#[trigger] c[i], c[j].ix, c[j].iy, #[trigger] c[j].iz) by {
            assert(at_coords(c[j], cells[j].ix, cells[j].iy, cells[j].iz));
            assert(!at_coords(cells[i], cells[j].ix, cells[j].iy, cells[j].iz));
        }
    }
    match edit {
        EditStack::PlaceCell { cell, .. } => {
            assert(distinct_places(place(cells, cell)));
            assert(distinct_places(remove_at(cells, cell.ix, cell.iy, cell.iz)));
        },
        EditStack::RemoveCell { cell, .. } => {
            assert(distinct_places(place(cells, cell)));
            assert(distinct_places(remove_at(cells, cell.ix, cell.iy, cell.iz)));
        },
        EditStack::ToggleTexture { ix, iy, iz, .. } => {
            assert(distinct_places(toggle_texture(cells, ix, iy, iz)));
        },
        EditStack::ToggleColor { ix, iy, iz, .. } => {
            assert(distinct_places(toggle_texture(cells, ix, iy, iz)));
            assert(distinct_places(toggle_color(cells, ix, iy, iz)));
        },
    }
}

/// Whether `c` has Unicode's White_Space property (what `char::is_whitespace`
/// answers).
pub uninterp spec fn white_space(c: char) -> bool;

/// `char::is_whitespace`. The contract only names its answer, the
/// character's White_Space property; the code points of that property are
/// left unstated.
#[verifier::external_body]
fn is_white_space(c: char) -> (ws: bool)
    ensures
        ws == white_space(c),
{
    c.is_whitespace()
}

/// The lines of `text`: the runs of characters between line feeds; the text
/// after the last line feed is the last line (empty when the text ends with
/// a line feed).
pub open spec fn text_lines(text: Seq<char>) -> Seq<Seq<char>>
    decreases text.len(),
{
    if text.len() == 0 {
        seq![Seq::empty()]
    } else {
        let lines = text_lines(text.drop_last());
        let c = text.last();
        if c == '\n' {
            lines.push(Seq::empty())
        } else {
            lines.update(lines.len() - 1, lines.last().push(c))
        }
    }
}

proof fn lemma_text_lines_nonempty(text: Seq<char>)
    ensures
        text_lines(text).len() >= 1,
    decreases text.len(),
{
    if text.len() > 0 {
        lemma_text_lines_nonempty(text.drop_last());
    }
}

/// The whitespace-separated fields of `line`: its maximal runs of characters
/// without the White_Space property, in order.
pub open spec fn line_fields(line: Seq<char>) -> Seq<Seq<char>>
    decreases line.len(),
{
    if line.len() == 0 {
        Seq::empty()
    } else {
        let fields = line_fields(line.drop_last());
        let c = line.last();
        if white_space(c) {
            fields
        } else if line.len() >= 2 && !white_space(line[line.len() - 2]) {
            fields.update(fields.len() - 1, fields.last().push(c))
        } else {
            fields.push(seq![c])
        }
    }
}

proof fn lemma_line_fields(line: Seq<char>)
    ensures
        line.len() > 0 && !white_space(line.last()) ==> line_fields(line).len() >= 1,
        forall|k: int| 0 <= k < line_fields(line).len() ==> (#[trigger] line_fields(line)[k]).len() >= 1,
    decreases line.len(),
{
    if line.len() > 0 {
        lemma_line_fields(line.drop_last());
        let fields = line_fields(line.drop_last());
        if !white_space(line.last()) && line.len() >= 2 && !white_space(line[line.len() - 2]) {
            assert(line.drop_last().last() == line[line.len() - 2]);
        }
    }
}

/// The setting a line holds, if any: a line of exactly two fields whose
/// first field does not start with `#` sets that key to the second field.
/// Blank lines, comment lines and lines of another number of fields hold
/// none.
pub open spec fn line_setting(line: Seq<char>) -> Option<(Seq<char>, Seq<char>)> {
    let fields = line_fields(line);
    if fields.len() == 2 && fields[0][0] != '#' {
        Some((fields[0], fields[1]))
    } else {
        None
    }
}

/// The settings of the lines, in order.
pub open spec fn settings_of(lines: Seq<Seq<char>>) -> Seq<(Seq<char>, Seq<char>)>
    decreases lines.len(),
{
    if lines.len() == 0 {
        Seq::empty()
    } else {
        let earlier = settings_of(lines.drop_last());
        match line_setting(lines.last()) {
            Some(setting) => earlier.push(setting),
            None => earlier,
        }
    }
}

/// The key and value texts of some settings.
pub open spec fn setting_views(settings: Seq<(Vec<char>, Vec<char>)>) -> Seq<(Seq<char>, Seq<char>)> {
    settings.map_values(|e: (Vec<char>, Vec<char>)| (e.0@, e.1@))
}

/// The setting of one line (see `line_setting`).
fn setting_of_line(line: &Vec<char>) -> (setting: Option<(Vec<char>, Vec<char>)>)
    ensures
        match line_setting(line@) {
            Some((key, value)) => setting is Some && setting.unwrap().0@ == key && setting.unwrap().1@ == value,
            None => setting is None,
        },
{
    let mut fields: Vec<Vec<char>> = Vec::new();
    let mut after_space = true;
    let mut j: usize = 0;
    while j < line.len()
        invariant
            j <= line@.len(),
            fields@.map_values(|f: Vec<char>| f@) == line_fields(line@.subrange(0, j as int)),
            after_space == (j == 0 || white_space(line@[j - 1])),
        decreases line@.len() - j,
    {
        let ghost before = line@.subrange(0, j as int);
        let ghost after = line@.subrange(0, j + 1);
        let ghost f0 = fields@.map_values(|f: Vec<char>| f@);
        proof {
            assert(after.drop_last() =~= before);
            assert(after.last() == line@[j as int]);
            if j >= 1 {
                assert(after[after.len() - 2] == line@[j - 1]);
            }
            lemma_line_fields(before);
        }
        let c = line[j];
        if is_white_space(c) {
            after_space = true;
        } else {
            if after_space {
                let mut field: Vec<char> = Vec::new();
                field.push(c);
                fields.push(field);
                proof {
                    assert(fields@.map_values(|f: Vec<char>| f@) =~= f0.push(seq![c]));
                }
            } else {
                let ghost rest = fields@.drop_last();
                let mut field = fields.pop().unwrap();
                field.push(c);
                fields.push(field);
                proof {
                    assert(fields@.map_values(|f: Vec<char>| f@) =~= f0.update(f0.len() - 1, f0.last().push(c)));
                }
            }
            after_space = false;
        }
        j += 1;
    }
    proof {
        assert(line@.subrange(0, line@.len() as int) =~= line@);
        lemma_line_fields(line@);
    }
    if fields.len() == 2 {
        proof {
            assert(fields@[0]@ == line_fields(line@)[0]);
            assert(line_fields(line@)[0].len() >= 1);
        }
        if fields[0][0] != '#' {
            let value = fields.pop().unwrap();
            let key = fields.pop().unwrap();
            return Some((key, value));
        }
    }
    None
}

/// The settings of a configuration text, line by line in order: each line
/// of exactly two whitespace-separated fields whose first does not start
/// with `#` sets that key to the second field (see `line_setting`).
pub fn config_entries(content: &[char]) -> (settings: Vec<(Vec<char>, Vec<char>)>)
    ensures
        setting_views(settings@) == settings_of(text_lines(content@)),
{
    let mut settings: Vec<(Vec<char>, Vec<char>)> = Vec::new();
    let mut line: Vec<char> = Vec::new();
    let ghost mut done: Seq<Seq<char>> = Seq::empty();
    let mut i: usize = 0;
    proof {
        assert(content@.subrange(0, 0) =~= Seq::<char>::empty());
        assert(done.push(line@) =~= seq![Seq::<char>::empty()]);
    }
    while i < content.len()
        invariant
            i <= content@.len(),
            text_lines(content@.subrange(0, i as int)) == done.push(line@),
            setting_views(settings@) == settings_of(done),
        decreases content@.len() - i,
    {
        let ghost before = content@.subrange(0, i as int);
        let ghost after = content@.subrange(0, i + 1);
        proof {
            assert(after.drop_last() =~= before);
            assert(after.last() == content@[i as int]);
        }
        let c = content[i];
        if c == '\n' {
            let found = setting_of_line(&line);
            let ghost s0 = settings@;
            let ghost finished = done.push(line@);
            match found {
                Some(setting) => {
                    settings.push(setting);
                    proof {
                        assert(setting_views(settings@) =~= setting_views(s0).push((setting.0@, setting.1@)));
                    }
                },
                None => {},
            }
            proof {
                assert(finished.drop_last() =~= done);
                done = finished;
            }
            line = Vec::new();
            proof {
                assert(done.push(line@) =~= text_lines(before).push(Seq::empty()));
            }
        } else {
            let ghost l0 = line@;
            line.push(c);
            proof {
                assert(done.push(line@) =~= done.push(l0).update(done.len() as int, l0.push(c)));
            }
        }
        i += 1;
    }
    let found = setting_of_line(&line);
    let ghost s0 = settings@;
    match found {
        Some(setting) => {
            settings.push(setting);
            proof {
                assert(setting_views(settings@) =~= setting_views(s0).push((setting.0@, setting.1@)));
            }
        },
        None => {},
    }
    proof {
        assert(content@.subrange(0, content@.len() as int) =~= content@);
        assert(done.push(line@).drop_last() =~= done);
    }
    settings
}

} // verus!
