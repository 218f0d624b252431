use bath::fu4seoi3::config_and_state::{config_entries, PlacedCell};
use bath::fu4seoi3::hud::{
    edit_stack_rows, gpu_submission_estimate, mesh_draw_counts, EDIT_STACK_CURSOR_ROW, EDIT_STACK_VISIBLE_ROWS,
};

#[test]
fn edit_stack_rows_centre_the_last_applied_edit() {
    let (rows, has_above, has_below) = edit_stack_rows(10, 5, EDIT_STACK_VISIBLE_ROWS, EDIT_STACK_CURSOR_ROW);
    assert_eq!(rows, vec![Some(7), Some(6), Some(5), Some(4), Some(3), Some(2), Some(1)]);
    assert!(has_above);
    assert!(has_below);
}

#[test]
fn edit_stack_rows_with_nothing_applied_show_the_first_edit() {
    let (rows, has_above, has_below) = edit_stack_rows(2, 0, EDIT_STACK_VISIBLE_ROWS, EDIT_STACK_CURSOR_ROW);
    assert_eq!(rows, vec![None, None, Some(1), Some(0), None, None, None]);
    assert!(!has_above);
    assert!(!has_below);
}

#[test]
fn edit_stack_rows_clamp_the_cursor_to_the_edit_count() {
    let (rows, has_above, has_below) = edit_stack_rows(3, 20, EDIT_STACK_VISIBLE_ROWS, EDIT_STACK_CURSOR_ROW);
    assert_eq!(rows, vec![None, None, None, Some(2), Some(1), Some(0), None]);
    assert!(!has_above);
    assert!(!has_below);
}

fn cell(mesh_index: usize, settled: bool, texture_enabled: bool, color_enabled: bool) -> PlacedCell<u32> {
    PlacedCell { ix: 0, iy: 0, iz: 0, mesh_index, placed_time: 0, settled, texture_enabled, color_enabled }
}

#[test]
fn mesh_draw_counts_count_cells_and_the_target_mesh() {
    let cells = vec![cell(0, true, false, true), cell(0, false, true, true), cell(1, true, true, false), cell(5, true, true, true)];
    let (instances, filled, overlays) = mesh_draw_counts(&cells, 3, 1, true);
    assert_eq!(instances, vec![2, 1, 0]);
    assert_eq!(filled, vec![1, 2, 0]);
    assert_eq!(overlays, vec![2, 2, 0]);
    let (_, filled, overlays) = mesh_draw_counts(&cells, 3, 7, true);
    assert_eq!(filled, vec![1, 1, 0]);
    assert_eq!(overlays, vec![2, 1, 0]);
}

#[test]
fn gpu_submission_estimate_of_filled_and_overlay_draws() {
    assert_eq!(gpu_submission_estimate(2, 2, 4, 2, 6, 24), (24, 4, 600));
}

#[test]
fn config_entries_keep_lines_of_two_fields() {
    let text = "# comment\nJET_STRENGTH 1.5\n\n  FOVY  45 \r\nBAD LINE HERE\nKEY\n#X 1\n\u{3000}A\u{3000}B";
    let chars: Vec<char> = text.chars().collect();
    let entries: Vec<(String, String)> = config_entries(&chars)
        .into_iter()
        .map(|(k, v)| (k.into_iter().collect(), v.into_iter().collect()))
        .collect();
    assert_eq!(
        entries,
        vec![
            ("JET_STRENGTH".to_string(), "1.5".to_string()),
            ("FOVY".to_string(), "45".to_string()),
            ("A".to_string(), "B".to_string()),
        ]
    );
}
