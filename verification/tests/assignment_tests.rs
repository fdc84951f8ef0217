use fastlap::algorithms::{
    check_thread_count, dual_supported_algorithms, is_sparse_aware, parse_algorithm,
    supported_algorithms, supports_duals, Algorithm, ThreadCountError,
};
use fastlap::assignment::{
    aligned_indices, apply_cost_limit_dense, apply_cost_limit_sparse, assignment_pair_rows,
    finalize_sparse_assignment, invert, signed_assignment, trim_assignment,
};
use fastlap::types::SparseCost;

#[test]
fn supported_algorithms_in_documented_order() {
    assert_eq!(
        supported_algorithms(),
        vec![
            "lapjv",
            "hungarian",
            "lapmod",
            "lapjvsp",
            "subgradient",
            "auction",
            "dantzig",
            "sinkhorn",
            "ssp",
            "cost_scaling",
            "greedy"
        ]
    );
}

#[test]
fn dual_algorithms_listed() {
    assert_eq!(
        dual_supported_algorithms(),
        vec!["lapjv", "subgradient", "sinkhorn", "dantzig"]
    );
    assert!(supports_duals(Algorithm::Lapjv));
    assert!(supports_duals(Algorithm::Dantzig));
    assert!(!supports_duals(Algorithm::Hungarian));
    assert!(!supports_duals(Algorithm::Greedy));
}

#[test]
fn parse_every_supported_name() {
    for name in supported_algorithms() {
        assert!(parse_algorithm(name).is_some(), "{name}");
    }
    assert_eq!(parse_algorithm("lapjv"), Some(Algorithm::Lapjv));
    assert_eq!(parse_algorithm("cost_scaling"), Some(Algorithm::CostScaling));
    assert_eq!(parse_algorithm("greedy"), Some(Algorithm::Greedy));
}

#[test]
fn parse_unknown_name() {
    assert_eq!(parse_algorithm("simplex"), None);
    assert_eq!(parse_algorithm(""), None);
    assert_eq!(parse_algorithm("LAPJV"), None);
}

#[test]
fn sparse_aware_algorithms() {
    assert!(is_sparse_aware(Algorithm::Lapmod));
    assert!(is_sparse_aware(Algorithm::Lapjvsp));
    assert!(!is_sparse_aware(Algorithm::Lapjv));
}

#[test]
fn thread_count_zero_refused() {
    assert_eq!(check_thread_count(Some(0)), Err(ThreadCountError::Zero));
    assert_eq!(check_thread_count(Some(4)), Ok(Some(4)));
    assert_eq!(check_thread_count(None), Ok(None));
}

#[test]
fn invert_row_assignment() {
    let cols = invert(&[Some(2), None, Some(0)], 3);
    assert_eq!(cols, vec![Some(2), None, Some(0)]);
}

#[test]
fn trim_drops_padding() {
    // A 3x3 padded solution of a 2x3 problem: row 2 is padding.
    let row = vec![Some(1), Some(0), Some(2)];
    let col = vec![Some(1), Some(0), Some(2)];
    let (r, c) = trim_assignment(&row, &col, 2, 3);
    assert_eq!(r, vec![Some(1), Some(0)]);
    assert_eq!(c, vec![Some(1), Some(0), None]);
    // A 3x2 problem: column 2 is padding.
    let (r, c) = trim_assignment(&row, &col, 3, 2);
    assert_eq!(r, vec![Some(1), Some(0), None]);
    assert_eq!(c, vec![Some(1), Some(0)]);
}

#[test]
fn cost_limit_dense_rejects_flagged_pairs() {
    // costs [[1, 20], [30, 2]], limit 10: (0,0) and (1,1) kept.
    let over = vec![vec![false, true], vec![true, false]];
    let (r, c) = apply_cost_limit_dense(&over, vec![Some(0), Some(1)], vec![Some(0), Some(1)]);
    assert_eq!(r, vec![Some(0), Some(1)]);
    assert_eq!(c, vec![Some(0), Some(1)]);
    // The crossed assignment is rejected completely.
    let (r, c) = apply_cost_limit_dense(&over, vec![Some(1), Some(0)], vec![Some(1), Some(0)]);
    assert_eq!(r, vec![None, None]);
    assert_eq!(c, vec![None, None]);
}

#[test]
fn cost_limit_dense_ignores_padding_columns() {
    let over = vec![vec![true]];
    let (r, c) = apply_cost_limit_dense(&over, vec![Some(3)], vec![None]);
    assert_eq!(r, vec![Some(3)]);
    assert_eq!(c, vec![None]);
}

#[test]
fn cost_limit_sparse_uses_first_listed_entry() {
    let over = SparseCost {
        nrows: 2,
        ncols: 2,
        rows: vec![vec![(1, true), (0, false)], vec![(1, false), (1, true)]],
    };
    let (r, c) = apply_cost_limit_sparse(&over, vec![Some(1), Some(0)], vec![Some(1), Some(0)]);
    assert_eq!(r, vec![None, Some(0)]);
    assert_eq!(c, vec![Some(1), None]);
    let (r, c) = apply_cost_limit_sparse(&over, vec![Some(0), Some(1)], vec![Some(0), Some(1)]);
    assert_eq!(r, vec![Some(0), Some(1)]);
    assert_eq!(c, vec![Some(0), Some(1)]);
}

#[test]
fn finalize_cuts_virtual_columns() {
    let full = vec![Some(2), Some(0), Some(1)];
    let (r, c) = finalize_sparse_assignment(&full, 2, 2);
    assert_eq!(r, vec![None, Some(0)]);
    assert_eq!(c, vec![Some(1), None]);
}

#[test]
fn aligned_index_output() {
    let (rows, cols) = aligned_indices(&vec![Some(2), None, Some(0)]);
    assert_eq!(rows, vec![0i64, 2]);
    assert_eq!(cols, vec![2i64, 0]);
}

#[test]
fn pair_rows_output() {
    let pairs = assignment_pair_rows(&vec![None, Some(1), Some(0)]);
    assert_eq!(pairs, vec![vec![1i64, 1], vec![2i64, 0]]);
}

#[test]
fn lapjv_style_signed_output() {
    assert_eq!(signed_assignment(&vec![Some(0), Some(1), None]), vec![0, 1, -1]);
    assert_eq!(signed_assignment(&vec![]), Vec::<i32>::new());
}
