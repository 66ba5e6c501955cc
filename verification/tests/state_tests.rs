use spektr::app_state::{AppState, FilterMode, SortMode, ViewMode};
use spektr::events::AppEvent;
use spektr::path::DirPath;
use spektr::scanner::CleanableProject;
use spektr::strategy::{RiskLevel, StrategyKind};

fn seg(name: &str) -> Vec<u8> {
    name.as_bytes().to_vec()
}

fn path(parts: &[&str]) -> DirPath {
    DirPath {
        segments: parts.iter().map(|p| seg(p)).collect(),
    }
}

fn project(parts: &[&str], kind: StrategyKind, size: u64) -> CleanableProject {
    CleanableProject {
        root_path: path(parts),
        kind,
        targets: vec![],
        total_size: size,
        risk_level: RiskLevel::Low,
    }
}

fn sample_state() -> AppState {
    let mut state = AppState::new(path(&["root"]));
    state.add_project(project(&["root", "small"], StrategyKind::Rust, 10));
    state.add_project(project(&["root", "big"], StrategyKind::NodeJs, 100));
    state.add_project(project(&["root", "mid"], StrategyKind::Flutter, 50));
    state.finish_scan();
    state
}

fn visible_sizes(state: &AppState) -> Vec<u64> {
    state
        .visible_projects()
        .iter()
        .map(|p| p.total_size)
        .collect()
}

#[test]
fn new_state_starts_scanning_with_defaults() {
    let state = AppState::new(path(&["root"]));
    assert!(state.scanning);
    assert!(!state.show_confirmation);
    assert!(!state.deletion_confirmed);
    assert_eq!(state.sort_mode, SortMode::SizeDesc);
    assert_eq!(state.filter_mode, FilterMode::All);
    assert_eq!(state.view_mode, ViewMode::List);
    assert_eq!(state.selected_index, 0);
    assert_eq!(state.visible_count(), 0);
}

#[test]
fn default_sort_is_size_descending() {
    let state = sample_state();
    assert_eq!(visible_sizes(&state), vec![100, 50, 10]);
    // Adjacent pairs never grow.
    let sizes = visible_sizes(&state);
    for w in sizes.windows(2) {
        assert!(w[0] >= w[1]);
    }
}

#[test]
fn toggle_sort_cycles_through_four_modes_and_returns() {
    let mut state = sample_state();
    let start = state.sort_mode;
    state.toggle_sort();
    assert_eq!(state.sort_mode, SortMode::SizeAsc);
    assert_eq!(visible_sizes(&state), vec![10, 50, 100]);
    state.toggle_sort();
    assert_eq!(state.sort_mode, SortMode::NameAsc);
    let names: Vec<Vec<u8>> = state
        .visible_projects()
        .iter()
        .map(|p| p.root_path.segments[1].clone())
        .collect();
    assert_eq!(names, vec![seg("big"), seg("mid"), seg("small")]);
    state.toggle_sort();
    assert_eq!(state.sort_mode, SortMode::NameDesc);
    state.toggle_sort();
    assert_eq!(state.sort_mode, start);
    assert_eq!(visible_sizes(&state), vec![100, 50, 10]);
}

#[test]
fn cycle_filter_narrows_to_one_strategy() {
    let mut state = sample_state();
    state.cycle_filter();
    assert_eq!(state.filter_mode, FilterMode::NodeJs);
    assert_eq!(visible_sizes(&state), vec![100]);
    state.cycle_filter();
    assert_eq!(state.filter_mode, FilterMode::Rust);
    assert_eq!(visible_sizes(&state), vec![10]);
    state.cycle_filter();
    state.cycle_filter();
    state.cycle_filter();
    assert_eq!(state.filter_mode, FilterMode::All);
    assert_eq!(state.visible_count(), 3);
}

#[test]
fn filter_labels_and_next_cycle() {
    assert_eq!(FilterMode::All.label(), "All");
    assert_eq!(FilterMode::NodeJs.label(), "Node.js");
    assert_eq!(FilterMode::Rust.label(), "Rust");
    assert_eq!(FilterMode::Flutter.label(), "Flutter");
    assert_eq!(FilterMode::Android.label(), "Android");
    let mut f = FilterMode::All;
    for _ in 0..5 {
        f = f.next();
    }
    assert_eq!(f, FilterMode::All);
}

#[test]
fn selection_toggle_flips_membership_and_sums() {
    let mut state = sample_state();
    assert_eq!(state.selected_count(), 0);
    state.toggle_selection();
    assert!(state.is_selected(0));
    assert_eq!(state.selected_count(), 1);
    assert_eq!(state.total_selected_size(), 100);
    state.move_down();
    state.toggle_selection();
    assert_eq!(state.selected_count(), 2);
    assert_eq!(state.total_selected_size(), 150);
    let selected = state.get_selected_projects();
    assert_eq!(selected.len(), 2);
    assert_eq!(selected[0].total_size, 100);
    assert_eq!(selected[1].total_size, 50);
    // Toggling again removes the position.
    state.toggle_selection();
    assert_eq!(state.selected_count(), 1);
    assert!(!state.is_selected(1));
}

#[test]
fn filter_change_clears_list_selection_and_cursor() {
    // Select the row at position 2, then change the filter: the
    // List-mode selection empties and the cursor returns to the top.
    let mut state = sample_state();
    state.move_down();
    state.move_down();
    assert_eq!(state.selected_index, 2);
    state.toggle_selection();
    assert_eq!(state.selected_count(), 1);
    state.cycle_filter();
    assert_eq!(state.selected_count(), 0);
    assert_eq!(state.selected_index, 0);
}

#[test]
fn cursor_stays_inside_the_projection() {
    let mut state = sample_state();
    state.move_up();
    assert_eq!(state.selected_index, 0);
    state.move_down();
    state.move_down();
    state.move_down();
    state.move_down();
    assert_eq!(state.selected_index, 2);
    // Narrowing the projection clamps the cursor.
    state.move_up();
    assert_eq!(state.selected_index, 1);
}

#[test]
fn current_project_follows_the_cursor() {
    let mut state = sample_state();
    let p = state.current_project().unwrap();
    assert_eq!(p.total_size, 100);
    state.move_down();
    let p = state.current_project().unwrap();
    assert_eq!(p.total_size, 50);
    let empty = AppState::new(path(&["root"]));
    assert!(empty.current_project().is_none());
}

#[test]
fn tree_mode_builds_checks_and_counts() {
    let mut state = AppState::new(path(&["root"]));
    state.add_project(project(&["root", "a", "x"], StrategyKind::Rust, 10));
    state.add_project(project(&["root", "b"], StrategyKind::NodeJs, 7));
    state.finish_scan();
    state.toggle_view_mode();
    assert_eq!(state.view_mode, ViewMode::Tree);
    assert_eq!(state.selected_index, 0);
    // Rows: a, a/x, b.
    assert_eq!(state.visible_count(), 3);
    let flat = state.get_flat_tree();
    assert_eq!(flat.len(), 3);
    assert_eq!(flat[0].subtree_size, 10);
    // Checking the folder checks everything beneath it.
    state.toggle_selection();
    assert!(state.is_selected(0));
    assert!(state.is_selected(1));
    assert_eq!(state.selected_count(), 1);
    assert_eq!(state.total_selected_size(), 10);
    let selected = state.get_selected_projects();
    assert_eq!(selected.len(), 1);
    assert_eq!(selected[0].total_size, 10);
}

#[test]
fn tree_mode_expand_toggle_hides_children() {
    let mut state = AppState::new(path(&["root"]));
    state.add_project(project(&["root", "a", "x"], StrategyKind::Rust, 10));
    state.finish_scan();
    state.toggle_view_mode();
    assert_eq!(state.visible_count(), 2);
    state.toggle_expand();
    assert_eq!(state.visible_count(), 1);
    state.toggle_expand();
    assert_eq!(state.visible_count(), 2);
}

#[test]
fn tree_rebuild_on_filter_change_drops_checks() {
    let mut state = AppState::new(path(&["root"]));
    state.add_project(project(&["root", "a"], StrategyKind::Rust, 10));
    state.add_project(project(&["root", "b"], StrategyKind::NodeJs, 7));
    state.finish_scan();
    state.toggle_view_mode();
    state.toggle_selection();
    assert_eq!(state.selected_count(), 1);
    state.cycle_filter();
    // The forest was rebuilt from the filtered set: checks are gone.
    assert_eq!(state.selected_count(), 0);
    assert_eq!(state.visible_count(), 1);
}

#[test]
fn handle_event_drives_the_modal_flow() {
    let mut state = sample_state();
    assert!(!state.handle_event(AppEvent::MoveDown));
    assert_eq!(state.selected_index, 1);
    // Confirming without a selection opens the modal, and confirming
    // again just closes it.
    assert!(!state.handle_event(AppEvent::ConfirmAction));
    assert!(state.show_confirmation);
    assert!(!state.handle_event(AppEvent::ConfirmAction));
    assert!(!state.show_confirmation);
    assert!(!state.deletion_confirmed);
    // With a selection, confirming twice freezes the state and quits.
    assert!(!state.handle_event(AppEvent::ToggleSelection));
    assert!(!state.handle_event(AppEvent::ConfirmAction));
    assert!(state.handle_event(AppEvent::ConfirmAction));
    assert!(state.deletion_confirmed);
}

#[test]
fn handle_event_quit_and_modal_close() {
    let mut state = sample_state();
    assert!(state.handle_event(AppEvent::Quit));
    assert!(!state.handle_event(AppEvent::ConfirmAction));
    assert!(state.show_confirmation);
    assert!(!state.handle_event(AppEvent::CloseModal));
    assert!(!state.show_confirmation);
}

#[test]
fn add_project_while_scanning_updates_view() {
    let mut state = AppState::new(path(&["root"]));
    assert!(state.scanning);
    state.add_project(project(&["root", "a"], StrategyKind::Rust, 1));
    assert_eq!(state.visible_count(), 1);
    state.finish_scan();
    assert!(!state.scanning);
    assert_eq!(state.visible_count(), 1);
}

#[test]
fn name_descending_reverses_name_ascending() {
    let mut state = sample_state();
    state.toggle_sort();
    state.toggle_sort();
    assert_eq!(state.sort_mode, SortMode::NameAsc);
    let asc: Vec<Vec<u8>> = state
        .visible_projects()
        .iter()
        .map(|p| p.root_path.segments[1].clone())
        .collect();
    state.toggle_sort();
    assert_eq!(state.sort_mode, SortMode::NameDesc);
    let desc: Vec<Vec<u8>> = state
        .visible_projects()
        .iter()
        .map(|p| p.root_path.segments[1].clone())
        .collect();
    let mut reversed = asc.clone();
    reversed.reverse();
    assert_eq!(desc, reversed);
}
