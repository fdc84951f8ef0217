use fastlap::assignment::{assign_displacing, unassign_row};
use fastlap::augment::has_way_chain;
use fastlap::network::augment_network_path;

#[test]
fn network_augment_along_alternating_path() {
    // n = 2; source 0, rows 1..=2, columns 3..=4, sink 5.
    // Row 0 holds column 0. The path sink <- col 1 <- row 0 <- col 0 <- row 1 <- source
    // re-matches row 0 to column 1 and gives column 0 to the free row 1.
    let parent = vec![usize::MAX, 3, 0, 2, 1, 4];
    let mut matched_col = vec![Some(0), None];
    let mut matched_row = vec![Some(0), None];
    assert!(has_way_chain(&parent, 5));
    augment_network_path(&parent, 2, &mut matched_col, &mut matched_row);
    assert_eq!(matched_col, vec![Some(1), Some(0)]);
    assert_eq!(matched_row, vec![Some(1), Some(0)]);
}

#[test]
fn network_augment_first_pair() {
    // n = 3, nothing matched; sink 7 <- col 2 (node 6) <- row 1 (node 2) <- source.
    let parent = vec![usize::MAX, usize::MAX, 0, usize::MAX, usize::MAX, usize::MAX, 2, 6];
    let mut matched_col = vec![None, None, None];
    let mut matched_row = vec![None, None, None];
    assert!(has_way_chain(&parent, 7));
    augment_network_path(&parent, 3, &mut matched_col, &mut matched_row);
    assert_eq!(matched_col, vec![None, Some(2), None]);
    assert_eq!(matched_row, vec![None, None, Some(1)]);
}

#[test]
fn network_parent_cycle_has_no_chain() {
    let parent = vec![usize::MAX, 3, 0, 4, 3, 4];
    assert!(!has_way_chain(&parent, 5));
    let unset = vec![usize::MAX, usize::MAX, usize::MAX, usize::MAX, usize::MAX, usize::MAX];
    assert!(!has_way_chain(&unset, 5));
}

#[test]
fn assign_displacing_free_column() {
    let mut row = vec![None, Some(0), None];
    let mut col = vec![Some(1), None, None];
    let prev = assign_displacing(&mut row, &mut col, 0, 2);
    assert_eq!(prev, None);
    assert_eq!(row, vec![Some(2), Some(0), None]);
    assert_eq!(col, vec![Some(1), None, Some(0)]);
}

#[test]
fn assign_displacing_takes_column_from_holder() {
    let mut row = vec![None, Some(0), Some(2)];
    let mut col = vec![Some(1), None, Some(2)];
    let prev = assign_displacing(&mut row, &mut col, 0, 0);
    assert_eq!(prev, Some(1));
    assert_eq!(row, vec![Some(0), None, Some(2)]);
    assert_eq!(col, vec![Some(0), None, Some(2)]);
}

#[test]
fn unassign_row_releases_column() {
    let mut row = vec![Some(1), None];
    let mut col = vec![None, Some(0)];
    assert_eq!(unassign_row(&mut row, &mut col, 0), Some(1));
    assert_eq!(row, vec![None, None]);
    assert_eq!(col, vec![None, None]);
    // a free row is left as it is
    assert_eq!(unassign_row(&mut row, &mut col, 1), None);
    assert_eq!(row, vec![None, None]);
    assert_eq!(col, vec![None, None]);
}

#[test]
fn assign_displacing_with_sides_exchanged() {
    // column reduction: column 0 claims row 1, then column 1 takes row 1 over
    let mut row_assign: Vec<Option<usize>> = vec![None, None];
    let mut col_assign: Vec<Option<usize>> = vec![None, None];
    assert_eq!(assign_displacing(&mut col_assign, &mut row_assign, 0, 1), None);
    assert_eq!(row_assign, vec![None, Some(0)]);
    assert_eq!(col_assign, vec![Some(1), None]);
    assert_eq!(assign_displacing(&mut col_assign, &mut row_assign, 1, 1), Some(0));
    assert_eq!(row_assign, vec![None, Some(1)]);
    assert_eq!(col_assign, vec![None, Some(1)]);
}
