use fastlap::munkres::Munkres;

fn pattern(rows: &[&[bool]]) -> Vec<Vec<bool>> {
    rows.iter().map(|r| r.to_vec()).collect()
}

#[test]
fn munkres_empty_matrix_is_finished() {
    let m = Munkres::new(&Vec::new(), 0);
    assert!(m.is_finished());
    assert_eq!(m.dimension(), 0);
    let (rows, cols) = m.starred_assignment();
    assert!(rows.is_empty());
    assert!(cols.is_empty());
}

#[test]
fn munkres_diagonal_zeros_finish_at_once() {
    let zero = pattern(&[&[true, false, false], &[false, true, false], &[false, false, true]]);
    let m = Munkres::new(&zero, 3);
    assert!(m.is_finished());
    let (rows, cols) = m.starred_assignment();
    assert_eq!(rows, vec![Some(0), Some(1), Some(2)]);
    assert_eq!(cols, vec![Some(0), Some(1), Some(2)]);
}

#[test]
fn munkres_initial_stars_are_greedy_row_major() {
    let zero = pattern(&[&[false, true, true], &[true, true, false], &[true, false, false]]);
    let m = Munkres::new(&zero, 3);
    assert!(!m.is_finished());
    let (rows, cols) = m.starred_assignment();
    assert_eq!(rows, vec![Some(1), Some(0), None]);
    assert_eq!(cols, vec![Some(1), Some(0), None]);
    // starred columns are covered, rows are not
    assert!(m.col_is_covered(0));
    assert!(m.col_is_covered(1));
    assert!(!m.col_is_covered(2));
    for i in 0..3 {
        assert!(!m.row_is_covered(i));
    }
}

#[test]
fn munkres_step_primes_then_augments() {
    let zero = pattern(&[&[true, true], &[true, false]]);
    let mut m = Munkres::new(&zero, 2);
    assert!(!m.is_finished());
    assert_eq!(m.starred_assignment().0, vec![Some(0), None]);

    // (0, 1) is primed: its row holds a star, so row 0 is covered and the
    // star's column 0 is uncovered.
    assert!(!m.step(&zero));
    assert!(m.row_is_covered(0));
    assert!(!m.col_is_covered(0));
    assert!(!m.col_is_covered(1));
    assert!(!m.is_finished());

    // (1, 0) is primed in a row without a star: the path
    // (1,0) -> (0,0) -> (0,1) flips and both columns are starred.
    assert!(!m.step(&zero));
    assert!(m.is_finished());
    let (rows, cols) = m.starred_assignment();
    assert_eq!(rows, vec![Some(1), Some(0)]);
    assert_eq!(cols, vec![Some(1), Some(0)]);
    assert!(!m.row_is_covered(0));
    assert!(!m.row_is_covered(1));
}

#[test]
fn munkres_step_asks_for_shift_without_uncovered_zero() {
    let zero = pattern(&[&[true, false], &[true, false]]);
    let mut m = Munkres::new(&zero, 2);
    assert!(m.step(&zero));
    // nothing changed
    assert!(m.col_is_covered(0));
    assert!(!m.col_is_covered(1));
    assert!(!m.row_is_covered(0));
    assert!(!m.row_is_covered(1));
    assert_eq!(m.starred_assignment().0, vec![Some(0), None]);

    // after a shift that exposes (1, 1) the next step augments at once
    let shifted = pattern(&[&[true, false], &[true, true]]);
    assert!(!m.step(&shifted));
    assert!(m.is_finished());
    let (rows, cols) = m.starred_assignment();
    assert_eq!(rows, vec![Some(0), Some(1)]);
    assert_eq!(cols, vec![Some(0), Some(1)]);
}

#[test]
fn munkres_full_round_on_three_by_three() {
    // reduced costs of [[4,1,3],[2,0,5],[3,2,2]] after row and column
    // reduction: [[2,0,2],[1,0,5],[0,0,0]]
    let mut cost: Vec<Vec<i64>> = vec![vec![2, 0, 2], vec![1, 0, 5], vec![0, 0, 0]];
    let zeros = |c: &Vec<Vec<i64>>| -> Vec<Vec<bool>> {
        c.iter().map(|r| r.iter().map(|v| *v == 0).collect()).collect()
    };
    let mut m = Munkres::new(&zeros(&cost), 3);
    let mut rounds = 0;
    while !m.is_finished() {
        rounds += 1;
        assert!(rounds < 100);
        if m.step(&zeros(&cost)) {
            let mut min_val = i64::MAX;
            for i in 0..3 {
                for j in 0..3 {
                    if !m.row_is_covered(i) && !m.col_is_covered(j) && cost[i][j] < min_val {
                        min_val = cost[i][j];
                    }
                }
            }
            for i in 0..3 {
                for j in 0..3 {
                    if m.row_is_covered(i) {
                        cost[i][j] += min_val;
                    }
                    if !m.col_is_covered(j) {
                        cost[i][j] -= min_val;
                    }
                }
            }
        }
    }
    let (rows, cols) = m.starred_assignment();
    // the optimum of the original costs is 1 + 2 + 2 = 5: rows 0,1,2 to 1,0,2
    assert_eq!(rows, vec![Some(1), Some(0), Some(2)]);
    assert_eq!(cols, vec![Some(1), Some(0), Some(2)]);
}
