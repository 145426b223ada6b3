use std::sync::Arc;

use highlight_cache::incremental::IncrementalState;
use highlight_cache::types::HighlightRange;

fn make_tree(code: &str) -> Arc<tree_sitter::Tree> {
    let mut parser = tree_sitter::Parser::new();
    parser
        .set_language(&tree_sitter::Language::from(tree_sitter_cpp::LANGUAGE))
        .unwrap();
    Arc::new(parser.parse(code, None).unwrap())
}

fn range(start: usize, end: usize, highlight_type: usize) -> HighlightRange {
    HighlightRange { start, end, highlight_type }
}

#[test]
fn fresh_state_is_empty_at_version_zero() {
    let state = IncrementalState::new();
    assert_eq!(state.version, 0);
    assert!(state.tree.is_none());
    assert_eq!(state.ranges, Vec::<HighlightRange>::new());
    assert_eq!(state.input_length, 0);
}

#[test]
fn update_bumps_the_version_and_stores_the_outcome() {
    let mut state = IncrementalState::new();
    state.update(make_tree("int x;"), vec![range(0, 3, 1)], 6);
    assert_eq!(state.version, 1);
    assert!(state.tree.is_some());
    assert_eq!(state.ranges, vec![range(0, 3, 1)]);
    assert_eq!(state.input_length, 6);
    state.update(make_tree("int y;"), vec![range(0, 3, 2)], 6);
    assert_eq!(state.version, 2);
    assert_eq!(state.ranges, vec![range(0, 3, 2)]);
}

#[test]
fn equal_range_lists_have_no_changes() {
    let mut state = IncrementalState::new();
    state.update(make_tree("int x;"), vec![range(0, 3, 0), range(4, 5, 1)], 6);
    let changes = state.calculate_changes(&vec![range(0, 3, 0), range(4, 5, 1)]);
    assert_eq!(changes, Vec::<(usize, usize)>::new());
}

#[test]
fn one_grown_range_yields_its_covering_span() {
    let mut state = IncrementalState::new();
    state.update(make_tree("int x;"), vec![range(0, 5, 0), range(6, 10, 1)], 10);
    let changes = state.calculate_changes(&vec![range(0, 5, 0), range(6, 12, 1)]);
    assert_eq!(changes, vec![(6, 12)]);
}

#[test]
fn recategorized_neighbours_merge_into_one_span() {
    let mut state = IncrementalState::new();
    state.update(make_tree("int x;"), vec![range(0, 5, 0), range(5, 9, 1)], 9);
    let changes = state.calculate_changes(&vec![range(0, 5, 1), range(5, 9, 2)]);
    assert_eq!(changes, vec![(0, 9)]);
}

#[test]
fn leftover_old_ranges_count_as_changed() {
    let mut state = IncrementalState::new();
    state.update(make_tree("int x;"), vec![range(0, 5, 0), range(40, 45, 1)], 45);
    let changes = state.calculate_changes(&vec![range(0, 5, 0)]);
    assert_eq!(changes, vec![(40, 45)]);
}

#[test]
fn extra_new_ranges_count_as_changed() {
    let state = IncrementalState::new();
    let changes = state.calculate_changes(&vec![range(2, 4, 7)]);
    assert_eq!(changes, vec![(2, 4)]);
}
