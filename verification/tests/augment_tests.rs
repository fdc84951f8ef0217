use fastlap::augment::{flip_path, has_way_chain, owners_to_assignment};

#[test]
fn flip_moves_each_row_one_column_along_the_path() {
    // slot 0 holds row 3; column 1 belongs to row 1, column 2 is free,
    // column 3 belongs to row 2; the search reached column 2 from column 1
    // and column 1 from slot 0.
    let mut owner = vec![3, 1, 0, 2];
    let way = vec![0, 0, 1, 0];
    assert!(has_way_chain(&way, 2));
    flip_path(&mut owner, &way, 2);
    assert_eq!(owner, vec![3, 3, 1, 2]);
}

#[test]
fn flip_from_slot_zero_changes_nothing() {
    let mut owner = vec![1, 2, 0];
    let way = vec![0, 0, 0];
    assert!(has_way_chain(&way, 0));
    flip_path(&mut owner, &way, 0);
    assert_eq!(owner, vec![1, 2, 0]);
}

#[test]
fn way_links_that_cycle_have_no_chain() {
    let way = vec![0, 2, 1];
    assert!(!has_way_chain(&way, 1));
}

#[test]
fn way_links_out_of_range_have_no_chain() {
    let way = vec![0, 7, 0];
    assert!(!has_way_chain(&way, 1));
    assert!(!has_way_chain(&way, 5));
}

#[test]
fn owners_give_both_sides_of_the_matching() {
    let owner = vec![3, 3, 1, 2];
    let (rows, cols) = owners_to_assignment(&owner, 3);
    assert_eq!(cols, vec![Some(2), Some(0), Some(1)]);
    assert_eq!(rows, vec![Some(1), Some(2), Some(0)]);
}

#[test]
fn free_columns_stay_unassigned() {
    let owner = vec![0, 0, 2, 0];
    let (rows, cols) = owners_to_assignment(&owner, 3);
    assert_eq!(cols, vec![None, Some(1), None]);
    assert_eq!(rows, vec![None, Some(1), None]);
}
