use fastlap::matrix::{
    csr_adjacency, pad_to_square, square_adjacency, validate_matrix, EntryKind, MatrixError,
};
use fastlap::types::SparseCost;

fn kinds_of(matrix: &[Vec<f64>]) -> Vec<Vec<EntryKind>> {
    matrix
        .iter()
        .map(|row| {
            row.iter()
                .map(|v| {
                    if v.is_nan() {
                        EntryKind::Nan
                    } else if v.is_infinite() {
                        EntryKind::Infinite
                    } else {
                        EntryKind::Finite
                    }
                })
                .collect()
        })
        .collect()
}

#[test]
fn validate_accepts_finite_rectangle() {
    let m = vec![vec![1.0, 2.0, 3.0], vec![4.0, 5.0, 6.0]];
    assert_eq!(validate_matrix(&kinds_of(&m)), Ok(()));
}

#[test]
fn validate_reports_each_error() {
    assert_eq!(validate_matrix(&vec![]), Err(MatrixError::Empty));
    assert_eq!(validate_matrix(&vec![vec![]]), Err(MatrixError::EmptyRows));
    let ragged = vec![vec![1.0, 2.0], vec![3.0]];
    assert_eq!(
        validate_matrix(&kinds_of(&ragged)),
        Err(MatrixError::Ragged { row: 1, expected: 2, found: 1 })
    );
    let nan = vec![vec![1.0, 2.0], vec![3.0, f64::NAN]];
    assert_eq!(validate_matrix(&kinds_of(&nan)), Err(MatrixError::Nan { row: 1, col: 1 }));
    let inf = vec![vec![1.0, f64::INFINITY], vec![3.0, f64::NAN]];
    assert_eq!(
        validate_matrix(&kinds_of(&inf)),
        Err(MatrixError::Infinite { row: 0, col: 1 })
    );
}

#[test]
fn validate_reports_errors_in_row_order() {
    // A NaN in row 0 comes before the ragged row 1.
    let m = vec![vec![f64::NAN, 1.0], vec![1.0]];
    assert_eq!(validate_matrix(&kinds_of(&m)), Err(MatrixError::Nan { row: 0, col: 0 }));
    // A ragged row 1 comes before a NaN in row 2.
    let m = vec![vec![1.0, 1.0], vec![1.0], vec![f64::NAN, 1.0]];
    assert_eq!(
        validate_matrix(&kinds_of(&m)),
        Err(MatrixError::Ragged { row: 1, expected: 2, found: 1 })
    );
}

#[test]
fn pad_wide_matrix() {
    let m = vec![vec![1, 2, 3], vec![4, 5, 6]];
    let p = pad_to_square(&m, 7);
    assert_eq!(p, vec![vec![1, 2, 3], vec![4, 5, 6], vec![7, 7, 7]]);
}

#[test]
fn pad_tall_matrix() {
    let m = vec![vec![1.5], vec![2.5]];
    let p = pad_to_square(&m, 9.0);
    assert_eq!(p, vec![vec![1.5, 9.0], vec![2.5, 9.0]]);
}

#[test]
fn pad_square_matrix_unchanged() {
    let m = vec![vec![1, 2], vec![3, 4]];
    assert_eq!(pad_to_square(&m, 0), m);
}

#[test]
fn csr_rows_read_without_densifying() {
    // [[1, 0, 2], [0, 0, 3]] with explicit entries only.
    let indptr = vec![0usize, 2, 3];
    let indices = vec![0usize, 2, 2];
    let data = vec![1.0f64, 2.0, 3.0];
    let kinds = vec![EntryKind::Finite; 3];
    let sc = csr_adjacency(2, 3, &indptr, &indices, &data, &kinds).unwrap();
    assert_eq!(sc.nrows, 2);
    assert_eq!(sc.ncols, 3);
    assert_eq!(sc.rows, vec![vec![(0, 1.0), (2, 2.0)], vec![(2, 3.0)]]);
}

#[test]
fn csr_errors() {
    let kinds = vec![EntryKind::Finite];
    assert!(matches!(
        csr_adjacency(0, 3, &vec![0usize], &vec![], &Vec::<f64>::new(), &vec![]),
        Err(MatrixError::Empty)
    ));
    assert!(matches!(
        csr_adjacency(1, 0, &vec![0usize, 0], &vec![], &Vec::<f64>::new(), &vec![]),
        Err(MatrixError::Empty)
    ));
    let _ = kinds;
    let indptr = vec![0usize, 1, 2];
    let indices = vec![1usize, 0];
    let data = vec![f64::INFINITY, f64::NAN];
    let kinds = vec![EntryKind::Infinite, EntryKind::Nan];
    assert!(matches!(
        csr_adjacency(2, 2, &indptr, &indices, &data, &kinds),
        Err(MatrixError::Infinite { row: 0, col: 1 })
    ));
}

#[test]
fn find_first_listed_entry() {
    let sc = SparseCost { nrows: 1, ncols: 3, rows: vec![vec![(2, 5), (0, 7), (2, 9)]] };
    assert_eq!(sc.find_entry(0, 2), Some(5));
    assert_eq!(sc.find_entry(0, 0), Some(7));
    assert_eq!(sc.find_entry(0, 1), None);
}

#[test]
fn square_adjacency_for_tall_matrix() {
    // 1 row, 2 columns: one virtual row that reaches both real columns.
    let sc = SparseCost { nrows: 1, ncols: 2, rows: vec![vec![(1, 4)]] };
    let rows = square_adjacency(&sc, 10);
    assert_eq!(rows, vec![vec![(1, 4)], vec![(0, 10), (1, 10)]]);
}

#[test]
fn square_adjacency_for_wide_matrix() {
    // 2 rows, 1 column: every row reaches the virtual column.
    let sc = SparseCost { nrows: 2, ncols: 1, rows: vec![vec![(0, 3)], vec![]] };
    let rows = square_adjacency(&sc, 10);
    assert_eq!(rows, vec![vec![(0, 3), (1, 10)], vec![(1, 10)]]);
}
