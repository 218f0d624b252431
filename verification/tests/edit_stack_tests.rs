use bath::fu4seoi3::config_and_state::{cell_position, edit_coords, edit_name, edit_time, redo, undo, EditStack, PlacedCell};

fn cell(ix: i32, iy: i32, iz: i32, mesh_index: usize, placed_time: f32) -> PlacedCell<f32> {
    PlacedCell { ix, iy, iz, mesh_index, placed_time, settled: true, texture_enabled: false, color_enabled: false }
}

fn summary(cells: &[PlacedCell<f32>]) -> Vec<(i32, i32, i32, usize, bool, bool)> {
    cells.iter().map(|c| (c.ix, c.iy, c.iz, c.mesh_index, c.texture_enabled, c.color_enabled)).collect()
}

#[test]
fn placing_appends_and_undo_takes_it_back() {
    let mut cells = vec![cell(0, 0, 0, 1, 0.5)];
    let before = summary(&cells);
    let edit = EditStack::PlaceCell { cell: cell(1, 0, 2, 3, 1.5), time: 1.5 };
    redo(&edit, &mut cells);
    assert_eq!(summary(&cells), vec![(0, 0, 0, 1, false, false), (1, 0, 2, 3, false, false)]);
    assert_eq!(cells[1].placed_time, 1.5);
    undo(&edit, &mut cells);
    assert_eq!(summary(&cells), before);
}

#[test]
fn placing_on_a_taken_place_changes_nothing() {
    let mut cells = vec![cell(1, 0, 2, 1, 0.0)];
    let edit = EditStack::PlaceCell { cell: cell(1, 0, 2, 7, 2.0), time: 2.0 };
    redo(&edit, &mut cells);
    assert_eq!(summary(&cells), vec![(1, 0, 2, 1, false, false)]);
}

#[test]
fn removing_takes_the_first_cell_there_and_undo_appends_it() {
    let mut cells = vec![cell(0, 0, 0, 1, 0.0), cell(2, 0, 1, 2, 0.0), cell(3, 0, 3, 3, 0.0)];
    let edit = EditStack::RemoveCell { cell: cell(2, 0, 1, 2, 0.0), time: 4.0 };
    redo(&edit, &mut cells);
    assert_eq!(summary(&cells), vec![(0, 0, 0, 1, false, false), (3, 0, 3, 3, false, false)]);
    undo(&edit, &mut cells);
    assert_eq!(
        summary(&cells),
        vec![(0, 0, 0, 1, false, false), (3, 0, 3, 3, false, false), (2, 0, 1, 2, false, false)]
    );
}

#[test]
fn removing_from_a_free_place_changes_nothing() {
    let mut cells = vec![cell(0, 0, 0, 1, 0.0)];
    let edit = EditStack::RemoveCell { cell: cell(5, 0, 5, 1, 0.0), time: 1.0 };
    redo(&edit, &mut cells);
    assert_eq!(summary(&cells), vec![(0, 0, 0, 1, false, false)]);
}

#[test]
fn toggles_flip_the_flag_of_the_cell_there_and_undo_flips_it_back() {
    let mut cells = vec![cell(0, 0, 0, 1, 0.0), cell(1, 0, 1, 2, 0.0)];
    let texture = EditStack::ToggleTexture { ix: 1, iy: 0, iz: 1, time: 3.0 };
    let color = EditStack::ToggleColor { ix: 0, iy: 0, iz: 0, time: 3.5 };
    redo(&texture, &mut cells);
    redo(&color, &mut cells);
    assert_eq!(summary(&cells), vec![(0, 0, 0, 1, false, true), (1, 0, 1, 2, true, false)]);
    undo(&texture, &mut cells);
    assert_eq!(summary(&cells), vec![(0, 0, 0, 1, false, true), (1, 0, 1, 2, false, false)]);
    undo(&color, &mut cells);
    assert_eq!(summary(&cells), vec![(0, 0, 0, 1, false, false), (1, 0, 1, 2, false, false)]);
}

#[test]
fn toggling_a_free_place_changes_nothing() {
    let mut cells = vec![cell(0, 0, 0, 1, 0.0)];
    redo(&EditStack::ToggleColor { ix: 9, iy: 9, iz: 9, time: 0.0 }, &mut cells);
    assert_eq!(summary(&cells), vec![(0, 0, 0, 1, false, false)]);
}

#[test]
fn a_filled_cell_is_settled_and_shows_something() {
    let mut c = cell(0, 0, 0, 0, 0.0);
    assert!(!c.is_filled());
    c.color_enabled = true;
    assert!(c.is_filled());
    c.settled = false;
    assert!(!c.is_filled());
    c.settled = true;
    c.color_enabled = false;
    c.texture_enabled = true;
    assert!(c.is_filled());
}

#[test]
fn cell_position_finds_the_first_cell_at_a_place() {
    let cells = vec![cell(0, 0, 0, 1, 0.0), cell(2, 1, 2, 2, 0.0), cell(2, 1, 2, 3, 0.0)];
    assert_eq!(cell_position(&cells, 2, 1, 2), Some(1));
    assert_eq!(cell_position(&cells, 2, 2, 2), None);
    assert_eq!(cell_position(&Vec::<PlacedCell<f32>>::new(), 0, 0, 0), None);
}

#[test]
fn edits_report_their_kind_place_and_time() {
    let place = EditStack::PlaceCell { cell: cell(1, 2, 3, 0, 0.0), time: 0.25 };
    let remove = EditStack::RemoveCell { cell: cell(4, 5, 6, 0, 0.0), time: 0.5 };
    let texture = EditStack::ToggleTexture { ix: 7, iy: 8, iz: 9, time: 0.75 };
    let color = EditStack::ToggleColor { ix: -1, iy: 0, iz: 1, time: 1.0 };
    assert_eq!(edit_name(&place), "PlaceCell");
    assert_eq!(edit_name(&remove), "RemoveCell");
    assert_eq!(edit_name(&texture), "ToggleTexture");
    assert_eq!(edit_name(&color), "ToggleColor");
    assert_eq!(edit_coords(&place), (1, 2, 3));
    assert_eq!(edit_coords(&remove), (4, 5, 6));
    assert_eq!(edit_coords(&texture), (7, 8, 9));
    assert_eq!(edit_coords(&color), (-1, 0, 1));
    assert_eq!(edit_time(&place), 0.25);
    assert_eq!(edit_time(&color), 1.0);
}

#[test]
fn a_run_of_edits_never_puts_two_cells_on_one_place() {
    let mut cells: Vec<PlacedCell<f32>> = Vec::new();
    let edits = vec![
        EditStack::PlaceCell { cell: cell(0, 0, 0, 1, 0.0), time: 0.0 },
        EditStack::PlaceCell { cell: cell(0, 0, 0, 2, 1.0), time: 1.0 },
        EditStack::PlaceCell { cell: cell(1, 0, 0, 3, 2.0), time: 2.0 },
        EditStack::RemoveCell { cell: cell(0, 0, 0, 1, 0.0), time: 3.0 },
        EditStack::PlaceCell { cell: cell(0, 0, 0, 4, 4.0), time: 4.0 },
    ];
    for e in &edits {
        redo(e, &mut cells);
    }
    assert_eq!(summary(&cells), vec![(1, 0, 0, 3, false, false), (0, 0, 0, 4, false, false)]);
    for e in edits.iter().rev() {
        undo(e, &mut cells);
        let places: Vec<_> = cells.iter().map(|c| (c.ix, c.iy, c.iz)).collect();
        for (i, p) in places.iter().enumerate() {
            assert!(!places[i + 1..].contains(p));
        }
    }
}
