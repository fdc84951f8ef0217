//! The mathematical model of an assignment and the bookkeeping on
//! assignment vectors: inversion, trimming, cost-limit gating and the
//! index forms handed to callers.
use vstd::prelude::*;
use crate::types::{first_entry, SparseCost};

verus! {

/// `m` assigns to each of `nrows` rows at most one column below `ncols`,
/// and no column to two rows.
pub open spec fn is_assignment(m: Seq<Option<usize>>, nrows: int, ncols: int) -> bool {
    &&& m.len() == nrows
    &&& forall|i: int| 0 <= i < nrows && #[trigger] m[i] is Some ==> m[i]->0 < ncols
    &&& forall|i: int, k: int|
        0 <= i < nrows && 0 <= k < nrows && i != k && #[trigger] m[i] is Some
            && #[trigger] m[k] is Some ==> m[i] != m[k]
}

/// Every row of `m` is assigned.
pub open spec fn is_full(m: Seq<Option<usize>>) -> bool {
    forall|i: int| 0 <= i < m.len() ==> #[trigger] m[i] is Some
}

/// The set of rows that `m` assigns.
pub open spec fn assigned_rows(m: Seq<Option<usize>>) -> Set<int> {
    Set::new(|i: int| 0 <= i < m.len() && m[i] is Some)
}

/// `row` and `col` describe the same matching from both sides:
/// `row[i] == Some(j)` exactly when `col[j] == Some(i)`.
pub open spec fn is_matching(row: Seq<Option<usize>>, col: Seq<Option<usize>>) -> bool {
    &&& forall|i: int|
        0 <= i < row.len() && #[trigger] row[i] is Some ==> row[i]->0 < col.len()
            && col[row[i]->0 as int] is Some && col[row[i]->0 as int]->0 == i
    &&& forall|j: int|
        0 <= j < col.len() && #[trigger] col[j] is Some ==> col[j]->0 < row.len()
            && row[col[j]->0 as int] is Some && row[col[j]->0 as int]->0 == j
}

/// A matching seen from its rows is an assignment.
pub proof fn lemma_matching_is_assignment(row: Seq<Option<usize>>, col: Seq<Option<usize>>)
    requires
        is_matching(row, col),
    ensures
        is_assignment(row, row.len() as int, col.len() as int),
{
    assert forall|i: int, k: int|
        0 <= i < row.len() && 0 <= k < row.len() && i != k && #[trigger] row[i] is Some
            && #[trigger] row[k] is Some implies row[i] != row[k] by {
        if row[i] == row[k] {
            assert(col[row[i]->0 as int]->0 == i);
            assert(col[row[k]->0 as int]->0 == k);
        }
    }
}

/// The rows an assignment uses form a finite set of at most `m.len()` rows.
pub proof fn lemma_assigned_rows_bounded(m: Seq<Option<usize>>)
    ensures
        assigned_rows(m).finite(),
        assigned_rows(m).len() <= m.len(),
        is_full(m) <==> assigned_rows(m).len() == m.len(),
{
    let r = vstd::set_lib::set_int_range(0, m.len() as int);
    vstd::set_lib::lemma_int_range(0, m.len() as int);
    assert(assigned_rows(m).subset_of(r));
    vstd::set_lib::lemma_len_subset(assigned_rows(m), r);
    if is_full(m) {
        assert(assigned_rows(m) =~= r);
    }
    if assigned_rows(m).len() == m.len() {
        vstd::set_lib::lemma_subset_equality(assigned_rows(m), r);
        assert forall|i: int| 0 <= i < m.len() implies #[trigger] m[i] is Some by {
            assert(r.contains(i));
        }
    }
}

/// The assigned cells of `row` among its first `upto` rows, in row order.
pub open spec fn active_pairs(row: Seq<Option<usize>>, upto: int) -> Seq<(usize, usize)>
    decreases upto,
{
    if upto <= 0 {
        Seq::empty()
    } else {
        let prev = active_pairs(row, upto - 1);
        if row[upto - 1] is Some {
            prev.push(((upto - 1) as usize, row[upto - 1]->0))
        } else {
            prev
        }
    }
}

/// Each listed cell is a cell of the assignment.
pub proof fn lemma_active_pairs_assigned(row: Seq<Option<usize>>, upto: int)
    requires
        0 <= upto <= row.len(),
        row.len() <= usize::MAX,
    ensures
        forall|k: int|
            0 <= k < active_pairs(row, upto).len() ==> (#[trigger] active_pairs(row, upto)[k]).0 < upto
                && row[active_pairs(row, upto)[k].0 as int] == Some(active_pairs(row, upto)[k].1),
    decreases upto,
{
    if upto > 0 {
        lemma_active_pairs_assigned(row, upto - 1);
        let prev = active_pairs(row, upto - 1);
        assert forall|k: int|
            0 <= k < active_pairs(row, upto).len() implies (#[trigger] active_pairs(row, upto)[k]).0 < upto
                && row[active_pairs(row, upto)[k].0 as int] == Some(active_pairs(row, upto)[k].1) by {
            if k < prev.len() {
                assert(active_pairs(row, upto)[k] == prev[k]);
            }
        }
    }
}

/// For a full assignment the listed cells are `(t, row[t])` for every row.
pub proof fn lemma_active_pairs_full(row: Seq<Option<usize>>, upto: int)
    requires
        0 <= upto <= row.len(),
        row.len() <= usize::MAX,
        is_full(row),
    ensures
        active_pairs(row, upto).len() == upto,
        forall|t: int| 0 <= t < upto ==> #[trigger] active_pairs(row, upto)[t] == (t as usize, row[t]->0),
    decreases upto,
{
    if upto > 0 {
        lemma_active_pairs_full(row, upto - 1);
        assert(row[upto - 1] is Some);
        let prev = active_pairs(row, upto - 1);
        assert forall|t: int| 0 <= t < upto implies #[trigger] active_pairs(row, upto)[t] == (t as usize, row[t]->0) by {
            if t < upto - 1 {
                assert(active_pairs(row, upto)[t] == prev[t]);
            }
        }
    }
}


/// Inverts a row assignment into an `n`-entry column assignment.
pub fn invert(row_assign: &[Option<usize>], n: usize) -> (col_assign: Vec<Option<usize>>)
    requires
        forall|i: int| 0 <= i < row_assign@.len() && #[trigger] row_assign@[i] is Some ==> row_assign@[i]->0 < n,
    ensures
        col_assign@.len() == n,
        forall|j: int| 0 <= j < n ==> {
            &&& (#[trigger] col_assign@[j] is Some <==> exists|i: int| 0 <= i < row_assign@.len() && row_assign@[i] == Some(j as usize))
            &&& col_assign@[j] is Some ==> {
                let i = col_assign@[j]->0 as int;
                &&& 0 <= i < row_assign@.len()
                &&& row_assign@[i] == Some(j as usize)
                &&& forall|i2: int| i < i2 < row_assign@.len() ==> row_assign@[i2] != Some(j as usize)
            }
        },
{
    let mut col_assign: Vec<Option<usize>> = Vec::new();
    let mut j: usize = 0;
    while j < n
        invariant
            j <= n,
            col_assign@.len() == j,
            forall|x: int| 0 <= x < j ==> #[trigger] col_assign@[x] == None::<usize>,
        decreases n - j,
    {
        col_assign.push(None);
        j += 1;
    }
    let mut i: usize = 0;
    while i < row_assign.len()
        invariant
            i <= row_assign@.len(),
            col_assign@.len() == n,
            forall|x: int| 0 <= x < row_assign@.len() && #[trigger] row_assign@[x] is Some ==> row_assign@[x]->0 < n,
            forall|j: int| 0 <= j < n ==> {
                &&& (#[trigger] col_assign@[j] is Some <==> exists|x: int| 0 <= x < i && row_assign@[x] == Some(j as usize))
                &&& col_assign@[j] is Some ==> {
                    let x = col_assign@[j]->0 as int;
                    &&& 0 <= x < i
                    &&& row_assign@[x] == Some(j as usize)
                    &&& forall|x2: int| x < x2 < i ==> row_assign@[x2] != Some(j as usize)
                }
            },
        decreases row_assign@.len() - i,
    {
        if let Some(j) = row_assign[i] {
            col_assign.set(j, Some(i));
        }
        proof {
            assert forall|jj: int| 0 <= jj < n implies (#[trigger] col_assign@[jj] is Some <==> exists|x: int| 0 <= x < i + 1 && row_assign@[x] == Some(jj as usize)) by {
                if row_assign@[i as int] == Some(jj as usize) {
                    assert(col_assign@[jj] is Some);
                }
            }
        }
        i += 1;
    }
    col_assign
}


/// The solution of the padded square sparse problem cut back to
/// `nrows x ncols`: row assignments to padding columns become `None`, and
/// the column side is rebuilt from the rows.
pub fn finalize_sparse_assignment(full: &Vec<Option<usize>>, nrows: usize, ncols: usize) -> (res: (
    Vec<Option<usize>>,
    Vec<Option<usize>>,
))
    requires
        nrows <= full@.len(),
    ensures
        res.0@.len() == nrows,
        res.1@.len() == ncols,
        forall|i: int|
            0 <= i < nrows ==> #[trigger] res.0@[i] == (if full@[i] is Some && full@[i]->0 < ncols {
                full@[i]
            } else {
                None
            }),
        forall|j: int| 0 <= j < ncols ==> {
            &&& (#[trigger] res.1@[j] is Some <==> exists|i: int| 0 <= i < nrows && res.0@[i] == Some(j as usize))
            &&& res.1@[j] is Some ==> {
                let i = res.1@[j]->0 as int;
                &&& 0 <= i < nrows
                &&& res.0@[i] == Some(j as usize)
                &&& forall|i2: int| i < i2 < nrows ==> res.0@[i2] != Some(j as usize)
            }
        },
        is_assignment(full@.subrange(0, nrows as int), nrows as int, full@.len() as int) ==> is_matching(res.0@, res.1@),
{
    let mut row_assign: Vec<Option<usize>> = Vec::new();
    let mut i: usize = 0;
    while i < nrows
        invariant
            i <= nrows <= full@.len(),
            row_assign@.len() == i,
            forall|x: int|
                0 <= x < i ==> #[trigger] row_assign@[x] == (if full@[x] is Some && full@[x]->0 < ncols {
                    full@[x]
                } else {
                    None
                }),
        decreases nrows - i,
    {
        let entry = match full[i] {
            Some(j) => if j < ncols {
                Some(j)
            } else {
                None
            },
            None => None,
        };
        row_assign.push(entry);
        i += 1;
    }
    let col_assign = invert(row_assign.as_slice(), ncols);
    proof {
        let r = row_assign@;
        let c = col_assign@;
        let f = full@.subrange(0, nrows as int);
        if is_assignment(f, nrows as int, full@.len() as int) {
            assert forall|x: int| 0 <= x < r.len() && #[trigger] r[x] is Some implies r[x]->0 < c.len()
                && c[r[x]->0 as int] is Some && c[r[x]->0 as int]->0 == x by {
                let j = r[x]->0 as int;
                assert(c[j] is Some);
                let y = c[j]->0 as int;
                assert(r[y] == Some(j as usize));
                if y != x {
                    assert(f[x] == r[x]);
                    assert(f[y] == r[y]);
                }
            }
        }
    }
    (row_assign, col_assign)
}

/// Cuts a solution of the padded square problem back to `nrows x ncols`:
/// assignments to padding rows or columns become `None`.
pub fn trim_assignment(
    row_assign: &Vec<Option<usize>>,
    col_assign: &Vec<Option<usize>>,
    nrows: usize,
    ncols: usize,
) -> (res: (Vec<Option<usize>>, Vec<Option<usize>>))
    requires
        nrows <= row_assign@.len(),
        ncols <= col_assign@.len(),
    ensures
        res.0@.len() == nrows,
        res.1@.len() == ncols,
        forall|i: int|
            0 <= i < nrows ==> #[trigger] res.0@[i] == (if row_assign@[i] is Some && row_assign@[i]->0
                < ncols {
                row_assign@[i]
            } else {
                None
            }),
        forall|j: int|
            0 <= j < ncols ==> #[trigger] res.1@[j] == (if col_assign@[j] is Some && col_assign@[j]->0
                < nrows {
                col_assign@[j]
            } else {
                None
            }),
        is_matching(row_assign@, col_assign@) ==> is_matching(res.0@, res.1@),
{
    let mut trimmed_row: Vec<Option<usize>> = Vec::new();
    let mut i: usize = 0;
    while i < nrows
        invariant
            i <= nrows <= row_assign@.len(),
            trimmed_row@.len() == i,
            forall|x: int|
                0 <= x < i ==> #[trigger] trimmed_row@[x] == (if row_assign@[x] is Some
                    && row_assign@[x]->0 < ncols {
                    row_assign@[x]
                } else {
                    None
                }),
        decreases nrows - i,
    {
        let entry = match row_assign[i] {
            Some(j) => if j < ncols {
                Some(j)
            } else {
                None
            },
            None => None,
        };
        trimmed_row.push(entry);
        i += 1;
    }
    let mut trimmed_col: Vec<Option<usize>> = Vec::new();
    let mut j: usize = 0;
    while j < ncols
        invariant
            j <= ncols <= col_assign@.len(),
            trimmed_col@.len() == j,
            forall|x: int|
                0 <= x < j ==> #[trigger] trimmed_col@[x] == (if col_assign@[x] is Some
                    && col_assign@[x]->0 < nrows {
                    col_assign@[x]
                } else {
                    None
                }),
        decreases ncols - j,
    {
        let entry = match col_assign[j] {
            Some(r) => if r < nrows {
                Some(r)
            } else {
                None
            },
            None => None,
        };
        trimmed_col.push(entry);
        j += 1;
    }
    (trimmed_row, trimmed_col)
}

/// Row `i`'s assigned cell is beyond the limit and is dropped.
pub open spec fn gate_rejects(over: Seq<Vec<bool>>, row: Seq<Option<usize>>, i: int) -> bool {
    let ncols = if over.len() > 0 { over[0]@.len() as int } else { 0 };
    0 <= i < over.len() && row[i] is Some && row[i]->0 < ncols && over[i]@[row[i]->0 as int]
}

/// Cost-limit gating on a dense matrix. `over[i][j]` tells whether cell
/// `(i, j)` is beyond the limit (above it when minimising, below it when
/// maximising). Every assigned cell beyond the limit is dropped from both
/// sides of the assignment.
pub fn apply_cost_limit_dense(
    over: &Vec<Vec<bool>>,
    row_assign: Vec<Option<usize>>,
    col_assign: Vec<Option<usize>>,
) -> (res: (Vec<Option<usize>>, Vec<Option<usize>>))
    requires
        over@.len() <= row_assign@.len(),
        over@.len() > 0 ==> over@[0]@.len() <= col_assign@.len(),
        forall|i: int| 0 <= i < over@.len() ==> #[trigger] over@[i]@.len() >= over@[0]@.len(),
    ensures
        ({
            let ncols = if over@.len() > 0 { over@[0]@.len() as int } else { 0 };
            &&& res.0@.len() == row_assign@.len()
            &&& res.1@.len() == col_assign@.len()
            &&& forall|i: int|
                0 <= i < row_assign@.len() ==> #[trigger] res.0@[i] == (if gate_rejects(over@, row_assign@, i) {
                    None
                } else {
                    row_assign@[i]
                })
            &&& forall|j: int|
                0 <= j < col_assign@.len() ==> #[trigger] res.1@[j] == (if exists|i: int|
                    gate_rejects(over@, row_assign@, i) && row_assign@[i] == Some(j as usize) {
                    None
                } else {
                    col_assign@[j]
                })
            &&& is_matching(row_assign@, col_assign@) ==> is_matching(res.0@, res.1@)
            &&& forall|i: int|
                0 <= i < over@.len() && #[trigger] res.0@[i] is Some && res.0@[i]->0 < ncols
                    ==> !over@[i]@[res.0@[i]->0 as int]
        }),
{
    let ghost r0 = row_assign@;
    let ghost c0 = col_assign@;
    let mut row_assign = row_assign;
    let mut col_assign = col_assign;
    let nrows = over.len();
    let clen = col_assign.len();
    let ncols = if nrows > 0 {
        over[0].len()
    } else {
        0
    };
    let mut i: usize = 0;
    while i < nrows
        invariant
            nrows == over@.len(),
            ncols == (if over@.len() > 0 { over@[0]@.len() as int } else { 0 }),
            nrows <= r0.len(),
            nrows > 0 ==> ncols <= c0.len(),
            clen == c0.len(),
            forall|x: int| 0 <= x < over@.len() ==> #[trigger] over@[x]@.len() >= ncols,
            i <= nrows,
            row_assign@.len() == r0.len(),
            col_assign@.len() == c0.len(),
            forall|x: int|
                0 <= x < r0.len() ==> #[trigger] row_assign@[x] == (if x < i && gate_rejects(over@, r0, x) {
                    None
                } else {
                    r0[x]
                }),
            forall|j: int|
                0 <= j < c0.len() ==> #[trigger] col_assign@[j] == (if exists|x: int|
                    0 <= x < i && gate_rejects(over@, r0, x) && r0[x] == Some(j as usize) {
                    None
                } else {
                    c0[j]
                }),
        decreases nrows - i,
    {
        if let Some(j) = row_assign[i] {
            if j < ncols {
                if over[i][j] {
                    row_assign.set(i, None);
                    col_assign.set(j, None);
                }
            }
        }
        proof {
            assert forall|jj: int|
                0 <= jj < c0.len() implies #[trigger] col_assign@[jj] == (if exists|x: int|
                    0 <= x < i + 1 && gate_rejects(over@, r0, x) && r0[x] == Some(jj as usize) {
                    None
                } else {
                    c0[jj]
                }) by {
                if gate_rejects(over@, r0, i as int) && r0[i as int] == Some(jj as usize) {
                    assert(r0[i as int]->0 == jj);
                    assert(jj < ncols);
                    assert(over@[i as int]@[jj]);
                    assert(col_assign@[jj] is None);
                }
            }
        }
        i += 1;
    }
    proof {
        if is_matching(r0, c0) {
            assert forall|x: int|
                0 <= x < row_assign@.len() && #[trigger] row_assign@[x] is Some implies row_assign@[x]->0
                    < col_assign@.len() && col_assign@[row_assign@[x]->0 as int] is Some
                    && col_assign@[row_assign@[x]->0 as int]->0 == x by {
                let j = r0[x]->0 as int;
                if exists|y: int| 0 <= y < nrows && gate_rejects(over@, r0, y) && r0[y] == Some(j as usize) {
                    let y = choose|y: int| 0 <= y < nrows && gate_rejects(over@, r0, y) && r0[y] == Some(j as usize);
                    assert(c0[j]->0 == y);
                    assert(c0[j]->0 == x);
                }
            }
            assert forall|jj: int|
                0 <= jj < col_assign@.len() && #[trigger] col_assign@[jj] is Some implies col_assign@[jj]->0
                    < row_assign@.len() && row_assign@[col_assign@[jj]->0 as int] is Some
                    && row_assign@[col_assign@[jj]->0 as int]->0 == jj by {
                let x = c0[jj]->0 as int;
                assert(r0[x] == Some(jj as usize));
                if gate_rejects(over@, r0, x) {
                    assert(exists|y: int| 0 <= y < nrows && gate_rejects(over@, r0, y) && r0[y] == Some(jj as usize));
                }
            }
        }
    }
    (row_assign, col_assign)
}

/// Row `i`'s assigned cell is listed with its flag set and is dropped.
pub open spec fn sparse_gate_rejects(over: SparseCost<bool>, row: Seq<Option<usize>>, i: int) -> bool {
    0 <= i < over.nrows && row[i] is Some && first_entry(over.rows@[i]@, row[i]->0 as int) == Some(true)
}

/// Cost-limit gating on a sparse matrix. The flag of an entry tells
/// whether it is beyond the limit; an assigned cell whose first listed
/// entry is flagged is dropped from both sides of the assignment.
pub fn apply_cost_limit_sparse(
    over: &SparseCost<bool>,
    row_assign: Vec<Option<usize>>,
    col_assign: Vec<Option<usize>>,
) -> (res: (Vec<Option<usize>>, Vec<Option<usize>>))
    requires
        over.nrows <= row_assign@.len(),
        over.nrows <= over.rows@.len(),
    ensures
        res.0@.len() == row_assign@.len(),
        res.1@.len() == col_assign@.len(),
        forall|i: int|
            0 <= i < row_assign@.len() ==> #[trigger] res.0@[i] == (if sparse_gate_rejects(*over, row_assign@, i) {
                None
            } else {
                row_assign@[i]
            }),
        forall|j: int|
            0 <= j < col_assign@.len() ==> #[trigger] res.1@[j] == (if exists|i: int|
                sparse_gate_rejects(*over, row_assign@, i) && row_assign@[i] == Some(j as usize) {
                None
            } else {
                col_assign@[j]
            }),
        is_matching(row_assign@, col_assign@) ==> is_matching(res.0@, res.1@),
        forall|i: int|
            0 <= i < over.nrows && #[trigger] res.0@[i] is Some ==> first_entry(
                over.rows@[i]@,
                res.0@[i]->0 as int,
            ) != Some(true),
{
    let ghost r0 = row_assign@;
    let ghost c0 = col_assign@;
    let mut row_assign = row_assign;
    let mut col_assign = col_assign;
    let clen = col_assign.len();
    let mut i: usize = 0;
    while i < over.nrows
        invariant
            over.nrows <= r0.len(),
            over.nrows <= over.rows@.len(),
            clen == c0.len(),
            i <= over.nrows,
            row_assign@.len() == r0.len(),
            col_assign@.len() == c0.len(),
            forall|x: int|
                0 <= x < r0.len() ==> #[trigger] row_assign@[x] == (if x < i && sparse_gate_rejects(*over, r0, x) {
                    None
                } else {
                    r0[x]
                }),
            forall|j: int|
                0 <= j < c0.len() ==> #[trigger] col_assign@[j] == (if exists|x: int|
                    0 <= x < i && sparse_gate_rejects(*over, r0, x) && r0[x] == Some(j as usize) {
                    None
                } else {
                    c0[j]
                }),
        decreases over.nrows - i,
    {
        if let Some(j) = row_assign[i] {
            if let Some(flag) = over.find_entry(i, j) {
                if flag {
                    row_assign.set(i, None);
                    if j < col_assign.len() {
                        col_assign.set(j, None);
                    }
                }
            }
        }
        proof {
            assert forall|jj: int|
                0 <= jj < c0.len() implies #[trigger] col_assign@[jj] == (if exists|x: int|
                    0 <= x < i + 1 && sparse_gate_rejects(*over, r0, x) && r0[x] == Some(jj as usize) {
                    None
                } else {
                    c0[jj]
                }) by {
                if sparse_gate_rejects(*over, r0, i as int) && r0[i as int] == Some(jj as usize) {
                    assert(r0[i as int]->0 == jj);
                    assert(col_assign@[jj] is None);
                }
            }
        }
        i += 1;
    }
    proof {
        if is_matching(r0, c0) {
            assert forall|x: int|
                0 <= x < row_assign@.len() && #[trigger] row_assign@[x] is Some implies row_assign@[x]->0
                    < col_assign@.len() && col_assign@[row_assign@[x]->0 as int] is Some
                    && col_assign@[row_assign@[x]->0 as int]->0 == x by {
                let j = r0[x]->0 as int;
                if exists|y: int| 0 <= y < over.nrows && sparse_gate_rejects(*over, r0, y) && r0[y] == Some(j as usize) {
                    let y = choose|y: int| 0 <= y < over.nrows && sparse_gate_rejects(*over, r0, y) && r0[y] == Some(j as usize);
                    assert(c0[j]->0 == y);
                    assert(c0[j]->0 == x);
                }
            }
            assert forall|jj: int|
                0 <= jj < col_assign@.len() && #[trigger] col_assign@[jj] is Some implies col_assign@[jj]->0
                    < row_assign@.len() && row_assign@[col_assign@[jj]->0 as int] is Some
                    && row_assign@[col_assign@[jj]->0 as int]->0 == jj by {
                let x = c0[jj]->0 as int;
                assert(r0[x] == Some(jj as usize));
                if sparse_gate_rejects(*over, r0, x) {
                    assert(exists|y: int| 0 <= y < over.nrows && sparse_gate_rejects(*over, r0, y) && r0[y] == Some(jj as usize));
                }
            }
        }
    }
    (row_assign, col_assign)
}

/// The assigned cells as two aligned index lists, in row order.
pub fn aligned_indices(row_assign: &Vec<Option<usize>>) -> (res: (Vec<i64>, Vec<i64>))
    ensures
        res.0@.len() == active_pairs(row_assign@, row_assign@.len() as int).len(),
        res.1@.len() == res.0@.len(),
        forall|k: int|
            0 <= k < res.0@.len() ==> #[trigger] res.0@[k] == active_pairs(
                row_assign@,
                row_assign@.len() as int,
            )[k].0 as i64 && res.1@[k] == active_pairs(row_assign@, row_assign@.len() as int)[k].1 as i64,
{
    let mut rows: Vec<i64> = Vec::new();
    let mut cols: Vec<i64> = Vec::new();
    let mut i: usize = 0;
    while i < row_assign.len()
        invariant
            i <= row_assign@.len(),
            rows@.len() == active_pairs(row_assign@, i as int).len(),
            cols@.len() == rows@.len(),
            forall|k: int|
                0 <= k < rows@.len() ==> #[trigger] rows@[k] == active_pairs(row_assign@, i as int)[k].0 as i64
                    && cols@[k] == active_pairs(row_assign@, i as int)[k].1 as i64,
        decreases row_assign@.len() - i,
    {
        let ghost before = active_pairs(row_assign@, i as int);
        if let Some(j) = row_assign[i] {
            rows.push(i as i64);
            cols.push(j as i64);
            proof {
                assert(active_pairs(row_assign@, i + 1) == before.push((i, j)));
            }
        } else {
            proof {
                assert(active_pairs(row_assign@, i + 1) == before);
            }
        }
        i += 1;
    }
    (rows, cols)
}

/// The assigned cells as `[row, col]` pairs, in row order.
pub fn assignment_pair_rows(row_assign: &Vec<Option<usize>>) -> (pairs: Vec<Vec<i64>>)
    ensures
        pairs@.len() == active_pairs(row_assign@, row_assign@.len() as int).len(),
        forall|k: int|
            0 <= k < pairs@.len() ==> #[trigger] pairs@[k]@ == seq![
                active_pairs(row_assign@, row_assign@.len() as int)[k].0 as i64,
                active_pairs(row_assign@, row_assign@.len() as int)[k].1 as i64,
            ],
{
    let mut pairs: Vec<Vec<i64>> = Vec::new();
    let mut i: usize = 0;
    while i < row_assign.len()
        invariant
            i <= row_assign@.len(),
            pairs@.len() == active_pairs(row_assign@, i as int).len(),
            forall|k: int|
                0 <= k < pairs@.len() ==> #[trigger] pairs@[k]@ == seq![
                    active_pairs(row_assign@, i as int)[k].0 as i64,
                    active_pairs(row_assign@, i as int)[k].1 as i64,
                ],
        decreases row_assign@.len() - i,
    {
        let ghost before = active_pairs(row_assign@, i as int);
        if let Some(j) = row_assign[i] {
            let mut pair: Vec<i64> = Vec::new();
            pair.push(i as i64);
            pair.push(j as i64);
            pairs.push(pair);
            proof {
                assert(active_pairs(row_assign@, i + 1) == before.push((i, j)));
                assert(pairs@[pairs@.len() - 1]@ =~= seq![i as i64, j as i64]);
            }
        } else {
            proof {
                assert(active_pairs(row_assign@, i + 1) == before);
            }
        }
        i += 1;
    }
    pairs
}

/// An assignment in the `lap.lapjv` form: the partner index as `i32`, or
/// `-1` where there is none.
pub fn signed_assignment(assign: &Vec<Option<usize>>) -> (res: Vec<i32>)
    ensures
        res@.len() == assign@.len(),
        forall|i: int|
            0 <= i < assign@.len() ==> #[trigger] res@[i] == (match assign@[i] {
                Some(j) => j as i32,
                None => -1i32,
            }),
{
    let mut res: Vec<i32> = Vec::new();
    let mut i: usize = 0;
    while i < assign.len()
        invariant
            i <= assign@.len(),
            res@.len() == i,
            forall|x: int|
                0 <= x < i ==> #[trigger] res@[x] == (match assign@[x] {
                    Some(j) => j as i32,
                    None => -1i32,
                }),
        decreases assign@.len() - i,
    {
        let v: i32 = match assign[i] {
            Some(j) => j as i32,
            None => -1,
        };
        res.push(v);
        i += 1;
    }
    res
}

/// Gives column `c` to the unassigned row `r`, taking it from the row that
/// held it, which is returned: a bid of the auction method and a push of
/// the cost-scaling method. With the two sides exchanged (a free column
/// taking a row from the column that held it) it is a claim of the column
/// reduction of the Jonker-Volgenant method.
pub fn assign_displacing(row: &mut Vec<Option<usize>>, col: &mut Vec<Option<usize>>, r: usize, c: usize) -> (prev: Option<
    usize,
>)
    requires
        is_matching(old(row)@, old(col)@),
        r < old(row)@.len(),
        c < old(col)@.len(),
        old(row)@[r as int] is None,
    ensures
        prev == old(col)@[c as int],
        final(col)@ == old(col)@.update(c as int, Some(r)),
        final(row)@ == (match prev {
            Some(p) => old(row)@.update(p as int, None),
            None => old(row)@,
        }).update(r as int, Some(c)),
        is_matching(final(row)@, final(col)@),
        assigned_rows(final(row)@) == (match prev {
            Some(p) => assigned_rows(old(row)@).remove(p as int),
            None => assigned_rows(old(row)@),
        }).insert(r as int),
{
    let prev = col[c];
    if let Some(p) = prev {
        row.set(p, None);
    }
    row.set(r, Some(c));
    col.set(c, Some(r));
    proof {
        let r0 = old(row)@;
        let c0 = old(col)@;
        let r1 = row@;
        let c1 = col@;
        if let Some(p) = prev {
            assert(r0[p as int] == Some(c));
            assert(p != r);
        }
        assert forall|i: int| 0 <= i < r1.len() && #[trigger] r1[i] is Some implies r1[i]->0 < c1.len() && c1[r1[i]->0 as int] is Some
            && c1[r1[i]->0 as int]->0 == i by {
            if i != r {
                let j = r0[i]->0 as int;
                assert(r1[i] == r0[i]);
                assert(c0[j] == Some(i as usize));
            }
        }
        assert forall|j: int| 0 <= j < c1.len() && #[trigger] c1[j] is Some implies c1[j]->0 < r1.len() && r1[c1[j]->0 as int] is Some
            && r1[c1[j]->0 as int]->0 == j by {
            if j != c {
                let i = c0[j]->0 as int;
                assert(r0[i] == Some(j as usize));
                assert(i != r);
            }
        }
        let expected = (match prev {
            Some(p) => assigned_rows(r0).remove(p as int),
            None => assigned_rows(r0),
        }).insert(r as int);
        assert forall|i: int| #[trigger] assigned_rows(r1).contains(i) == expected.contains(i) by {
        }
        assert(assigned_rows(r1) =~= expected);
    }
    prev
}

/// Releases the column of row `r`, if it has one, which is returned.
pub fn unassign_row(row: &mut Vec<Option<usize>>, col: &mut Vec<Option<usize>>, r: usize) -> (released: Option<usize>)
    requires
        is_matching(old(row)@, old(col)@),
        r < old(row)@.len(),
    ensures
        released == old(row)@[r as int],
        final(row)@ == old(row)@.update(r as int, None),
        final(col)@ == (match released {
            Some(c) => old(col)@.update(c as int, None),
            None => old(col)@,
        }),
        is_matching(final(row)@, final(col)@),
        assigned_rows(final(row)@) == assigned_rows(old(row)@).remove(r as int),
{
    let released = row[r];
    if let Some(c) = released {
        row.set(r, None);
        col.set(c, None);
    }
    proof {
        let r0 = old(row)@;
        let c0 = old(col)@;
        let r1 = row@;
        let c1 = col@;
        assert(r1 =~= r0.update(r as int, None));
        assert forall|i: int| 0 <= i < r1.len() && #[trigger] r1[i] is Some implies r1[i]->0 < c1.len() && c1[r1[i]->0 as int] is Some
            && c1[r1[i]->0 as int]->0 == i by {
            assert(r1[i] == r0[i]);
            let j = r0[i]->0 as int;
            assert(c0[j] == Some(i as usize));
        }
        assert forall|j: int| 0 <= j < c1.len() && #[trigger] c1[j] is Some implies c1[j]->0 < r1.len() && r1[c1[j]->0 as int] is Some
            && r1[c1[j]->0 as int]->0 == j by {
            assert(c1[j] == c0[j]);
            let i = c0[j]->0 as int;
            assert(r0[i] == Some(j as usize));
        }
        assert(assigned_rows(r1) =~= assigned_rows(r0).remove(r as int));
    }
    released
}

} // verus!
