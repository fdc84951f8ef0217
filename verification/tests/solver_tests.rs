use fastlap::bottleneck::solve_levels_rect;
use fastlap::greedy::solve_ranked;
use fastlap::matching::hopcroft_karp;
use fastlap::murty::{blocked_cells, branch, check_subproblem, Subproblem};
use fastlap::simplex::{spanning_order, tree_path};

/// Levels of a cost matrix as the bottleneck search reads them: the index
/// of the first distinct cost (merged within 1e-12) that a cell does not
/// exceed by more than 1e-12.
fn levels_of(padded: &[Vec<f64>]) -> (Vec<Vec<usize>>, Vec<f64>) {
    let mut costs: Vec<f64> = padded.iter().flatten().copied().filter(|v| v.is_finite()).collect();
    costs.sort_by(|a, b| a.partial_cmp(b).unwrap());
    costs.dedup_by(|a, b| (*a - *b).abs() < 1e-12);
    let levels = padded
        .iter()
        .map(|row| {
            row.iter()
                .map(|&c| costs.iter().position(|&t| c <= t + 1e-12).unwrap_or(costs.len()))
                .collect()
        })
        .collect();
    (levels, costs)
}

/// Ranks of finite costs: position among the distinct values.
fn ranks_of(matrix: &[Vec<f64>]) -> Vec<Vec<Option<u64>>> {
    let mut distinct: Vec<f64> = matrix.iter().flatten().copied().filter(|v| v.is_finite()).collect();
    distinct.sort_by(|a, b| a.partial_cmp(b).unwrap());
    distinct.dedup();
    matrix
        .iter()
        .map(|row| {
            row.iter()
                .map(|&c| {
                    if c.is_finite() {
                        Some(distinct.iter().position(|&d| d == c).unwrap() as u64)
                    } else {
                        None
                    }
                })
                .collect()
        })
        .collect()
}

fn bottleneck(matrix: Vec<Vec<f64>>) -> (f64, Vec<Option<usize>>, Vec<Option<usize>>) {
    let nrows = matrix.len();
    let ncols = matrix[0].len();
    let (levels, costs) = levels_of(&matrix);
    let (_, r, c) = solve_levels_rect(&levels, nrows, ncols, costs.len());
    let cost = (0..nrows)
        .filter_map(|i| r[i].map(|j| matrix[i][j]))
        .fold(f64::NEG_INFINITY, f64::max);
    (cost, r, c)
}

#[test]
fn test_bottleneck_simple() {
    let matrix = vec![
        vec![1.0, 2.0, 10.0],
        vec![2.0, 1.0, 10.0],
        vec![10.0, 10.0, 5.0],
    ];
    let (cost, rows, cols) = bottleneck(matrix);
    assert!(cost <= 5.0);
    assert_eq!(rows.len(), 3);
    assert_eq!(cols.len(), 3);
}

#[test]
fn test_bottleneck_rectangular() {
    let matrix = vec![vec![1.0, 9.0, 3.0, 8.0], vec![7.0, 2.0, 6.0, 4.0]];
    let (cost, rows, cols) = bottleneck(matrix);
    assert_eq!(cost, 2.0);
    assert_eq!(rows, vec![Some(0), Some(1)]);
    assert_eq!(cols, vec![Some(0), Some(1), None, None]);
}

#[test]
fn bottleneck_single_row_takes_least_cost() {
    let (cost, rows, cols) = bottleneck(vec![vec![5.0, 1.0]]);
    assert_eq!(cost, 1.0);
    assert_eq!(rows, vec![Some(1)]);
    assert_eq!(cols, vec![None, Some(0)]);
}

#[test]
fn bottleneck_tall_matrix_uses_every_column() {
    // three rows, two columns: the least threshold matching both columns is
    // 3.0 (rows 2 and 0), below the 4.0 that row 1 would need
    let (cost, rows, cols) = bottleneck(vec![vec![3.0, 9.0], vec![4.0, 8.0], vec![9.0, 1.0]]);
    assert_eq!(cost, 3.0);
    assert_eq!(rows, vec![Some(0), None, Some(1)]);
    assert_eq!(cols, vec![Some(0), Some(2)]);
}

#[test]
fn bottleneck_threshold_is_least_perfect_level() {
    // Levels: a perfect matching needs level 2 (the diagonal 0,2 blocks it below).
    let levels = vec![vec![0, 2], vec![1, 3]];
    let (t, r, c) = solve_levels_rect(&levels, 2, 2, 4);
    assert_eq!(t, 2);
    assert_eq!(r, vec![Some(1), Some(0)]);
    assert_eq!(c, vec![Some(1), Some(0)]);
}

#[test]
fn bottleneck_without_perfect_matching_stays_on_top_level() {
    // Column 1 is never usable below level 5, and only 2 levels exist.
    let levels = vec![vec![0, 5], vec![1, 5]];
    let (t, r, _) = solve_levels_rect(&levels, 2, 2, 2);
    assert_eq!(t, 1);
    assert_eq!(r.iter().filter(|x| x.is_some()).count(), 1);
}

#[test]
fn hopcroft_karp_finds_maximum_matching() {
    // Threshold 0 graph: row0-{0,1}, row1-{0}, row2-{1}: maximum matching 2.
    let levels = vec![vec![0, 0, 1], vec![0, 1, 1], vec![1, 0, 1]];
    let (size, r, c) = hopcroft_karp(&levels, 3, 0);
    assert_eq!(size, 2);
    assert_eq!(r.iter().filter(|x| x.is_some()).count(), 2);
    for (i, x) in r.iter().enumerate() {
        if let Some(j) = x {
            assert_eq!(c[*j], Some(i));
            assert!(levels[i][*j] <= 0);
        }
    }
    let (size, _, _) = hopcroft_karp(&levels, 3, 1);
    assert_eq!(size, 3);
}

#[test]
fn test_greedy_simple() {
    let matrix = vec![
        vec![1.0, 5.0, 9.0],
        vec![8.0, 2.0, 6.0],
        vec![4.0, 7.0, 3.0],
    ];
    let (rows, cols) = solve_ranked(&ranks_of(&matrix));
    let cost: f64 = (0..3).filter_map(|i| rows[i].map(|j| matrix[i][j])).sum();
    assert!((cost - 6.0).abs() < 1e-6);
    assert_eq!(rows, vec![Some(0), Some(1), Some(2)]);
    assert_eq!(cols, vec![Some(0), Some(1), Some(2)]);
}

#[test]
fn greedy_breaks_ties_by_row_then_column() {
    let ranks = vec![vec![Some(0), Some(0)], vec![Some(0), Some(1)]];
    let (rows, cols) = solve_ranked(&ranks);
    assert_eq!(rows, vec![Some(0), Some(1)]);
    assert_eq!(cols, vec![Some(0), Some(1)]);
}

#[test]
fn greedy_is_not_optimal_but_maximal() {
    // Greedy takes the cheapest cell (0,0) and is then forced into (1,1).
    let matrix = vec![vec![1.0, 2.0], vec![2.0, 100.0]];
    let (rows, _) = solve_ranked(&ranks_of(&matrix));
    assert_eq!(rows, vec![Some(0), Some(1)]);
}

#[test]
fn greedy_skips_non_finite_and_leaves_rows_free() {
    let matrix = vec![vec![f64::INFINITY, 1.0], vec![f64::INFINITY, 2.0], vec![0.5, 3.0]];
    let (rows, cols) = solve_ranked(&ranks_of(&matrix));
    assert_eq!(rows, vec![Some(1), None, Some(0)]);
    assert_eq!(cols, vec![Some(2), Some(0)]);
}

#[test]
fn murty_branch_children() {
    let root = Subproblem { fixed: vec![], forbidden: vec![], fixed_count: 0 };
    let best = vec![Some(1), Some(0), Some(2)];
    let children = branch(&root, &best);
    assert_eq!(children.len(), 3);
    assert_eq!(children[0].fixed, vec![]);
    assert_eq!(children[0].forbidden, vec![(0, 1)]);
    assert_eq!(children[1].fixed, vec![(0, 1)]);
    assert_eq!(children[1].forbidden, vec![(1, 0)]);
    assert_eq!(children[2].fixed, vec![(0, 1), (1, 0)]);
    assert_eq!(children[2].forbidden, vec![(2, 2)]);
    assert_eq!(children[2].fixed_count, 2);
    // The split candidate is admitted by none of them.
    for child in &children {
        assert!(!check_subproblem(child, &best));
    }
    // Another assignment is admitted by exactly one child.
    let other = vec![Some(1), Some(2), Some(0)];
    assert_eq!(children.iter().filter(|c| check_subproblem(c, &other)).count(), 1);
}

#[test]
fn murty_blocked_cells_mask() {
    let sub = Subproblem { fixed: vec![(0, 1)], forbidden: vec![(2, 2)], fixed_count: 1 };
    let mask = blocked_cells(&sub, 3);
    assert_eq!(
        mask,
        vec![
            vec![true, false, true],
            vec![false, true, false],
            vec![false, true, true],
        ]
    );
}

#[test]
fn tree_path_in_spanning_tree() {
    // Rows 0,1 and columns 2,3; tree edges 0-2, 2-1, 1-3.
    let adj = vec![vec![2], vec![2, 3], vec![0, 1], vec![1]];
    assert_eq!(tree_path(&adj, 0, 3, 4), vec![0, 2, 1, 3]);
    assert_eq!(tree_path(&adj, 3, 3, 4), vec![3]);
}

#[test]
fn tree_path_reads_only_the_first_total_lists() {
    // nodes 0..4 form the tree; the fifth list lies past `total` and is ignored
    let adj = vec![vec![2], vec![2, 3], vec![0, 1], vec![1], vec![0, 1, 2, 3]];
    assert_eq!(tree_path(&adj, 0, 3, 4), vec![0, 2, 1, 3]);
    assert_eq!(spanning_order(&adj, 0, 4), vec![(0, 2), (2, 1), (1, 3)]);
}
