use fastlap::basis::{cheapest_free_columns, initial_basis, Basis};
use fastlap::simplex::spanning_order;

fn basic_count(b: &Basis) -> usize {
    b.basic.iter().map(|row| row.iter().filter(|&&x| x).count()).sum()
}

fn is_permutation(assign: &[usize], n: usize) -> bool {
    let mut seen = vec![false; n];
    for &c in assign {
        if c >= n || seen[c] {
            return false;
        }
        seen[c] = true;
    }
    assign.len() == n
}

/// Every basic cell appears in both adjacency lists, and nothing else does.
fn adjacency_matches(b: &Basis) -> bool {
    let n = b.n;
    for r in 0..n {
        for c in 0..n {
            let in_row = b.tree_adj[r].contains(&(n + c));
            let in_col = b.tree_adj[n + c].contains(&r);
            if in_row != b.basic[r][c] || in_col != b.basic[r][c] {
                return false;
            }
        }
    }
    true
}

#[test]
fn cheapest_free_columns_takes_least_free_rank() {
    let ranks = vec![vec![3, 1, 2], vec![0, 5, 5], vec![1, 1, 1]];
    assert_eq!(cheapest_free_columns(&ranks, 3), vec![1, 0, 2]);
}

#[test]
fn cheapest_free_columns_breaks_ties_by_column() {
    let ranks = vec![vec![1, 1], vec![0, 0]];
    assert_eq!(cheapest_free_columns(&ranks, 2), vec![0, 1]);
}

#[test]
fn initial_basis_is_a_star_through_the_first_row() {
    let b = initial_basis(3, &vec![2, 0, 1]);
    assert_eq!(
        b.basic,
        vec![vec![true, true, true], vec![true, false, false], vec![false, true, false]]
    );
    assert_eq!(b.assign, vec![2, 0, 1]);
    assert_eq!(basic_count(&b), 5);
    assert!(adjacency_matches(&b));
}

#[test]
fn initial_basis_of_one_cell() {
    let b = initial_basis(1, &vec![0]);
    assert_eq!(b.basic, vec![vec![true]]);
    assert_eq!(b.tree_adj, vec![vec![1], vec![0]]);
}

#[test]
fn pivot_moves_the_flow_around_the_cycle() {
    let mut b = initial_basis(2, &vec![0, 1]);
    let (lr, lc, degenerate) = b.pivot(1, 0);
    assert_eq!((lr, lc, degenerate), (0, 0, false));
    assert_eq!(b.assign, vec![1, 0]);
    assert_eq!(b.basic, vec![vec![false, true], vec![true, true]]);
    assert!(adjacency_matches(&b));
    assert_eq!(b.assignment(), vec![Some(1), Some(0)]);
}

#[test]
fn pivot_with_an_empty_losing_cell_is_degenerate() {
    let mut b = initial_basis(3, &vec![0, 1, 2]);
    let (lr, lc, degenerate) = b.pivot(2, 1);
    assert_eq!((lr, lc, degenerate), (0, 1, true));
    assert_eq!(b.assign, vec![0, 1, 2]);
    assert!(b.basic[2][1]);
    assert!(!b.basic[0][1]);
    assert_eq!(basic_count(&b), 5);
    assert!(adjacency_matches(&b));
}

#[test]
fn pivot_sequence_keeps_a_spanning_tree_and_a_permutation() {
    let n = 4;
    let mut b = initial_basis(n, &vec![3, 1, 0, 2]);
    let entering = [(1, 0), (2, 3), (3, 1), (1, 2), (2, 2)];
    for &(i, j) in entering.iter() {
        if b.basic[i][j] {
            continue;
        }
        b.pivot(i, j);
        assert_eq!(basic_count(&b), 2 * n - 1);
        assert!(is_permutation(&b.assign, n));
        assert!(adjacency_matches(&b));
        for r in 0..n {
            assert!(b.basic[r][b.assign[r]]);
        }
    }
    let rows = b.assignment();
    for r in 0..n {
        assert_eq!(rows[r], Some(b.assign[r]));
    }
}

#[test]
fn pivot_example_with_three_rows() {
    let mut b = initial_basis(3, &vec![0, 1, 2]);
    let (lr, lc, degenerate) = b.pivot(1, 0);
    assert_eq!((lr, lc, degenerate), (0, 0, false));
    assert_eq!(b.assign, vec![1, 0, 2]);
}

#[test]
fn spanning_order_reaches_every_node_from_the_root() {
    // rows 0, 1; columns 2, 3; tree edges 0-2, 0-3, 1-3
    let adj: Vec<Vec<usize>> = vec![vec![2, 3], vec![3], vec![0], vec![0, 1]];
    let order = spanning_order(&adj, 0, 4);
    assert_eq!(order, vec![(0, 2), (0, 3), (3, 1)]);
}

#[test]
fn spanning_order_skips_unreachable_nodes() {
    let adj: Vec<Vec<usize>> = vec![vec![2], vec![], vec![0], vec![]];
    assert_eq!(spanning_order(&adj, 0, 4), vec![(0, 2)]);
    assert_eq!(spanning_order(&adj, 1, 4), vec![]);
}

#[test]
fn spanning_order_of_initial_basis_covers_the_tree() {
    let basis = initial_basis(3, &vec![2, 0, 1]);
    let order = spanning_order(&basis.tree_adj, 0, 6);
    assert_eq!(order.len(), 5);
    let mut seen = vec![false; 6];
    seen[0] = true;
    for (from, to) in order {
        assert!(seen[from]);
        assert!(!seen[to]);
        seen[to] = true;
    }
    assert!(seen.iter().all(|&s| s));
}

#[test]
fn spanning_order_is_breadth_first() {
    // rows 0, 1, 2; columns 3, 4, 5; edges 0-3, 0-4, 3-1, 4-2, 1-5.
    // Both neighbours of 0 come before any node two steps away.
    let adj: Vec<Vec<usize>> = vec![vec![3, 4], vec![3, 5], vec![4], vec![0, 1], vec![0, 2], vec![1]];
    assert_eq!(spanning_order(&adj, 0, 6), vec![(0, 3), (0, 4), (3, 1), (4, 2), (1, 5)]);
}
