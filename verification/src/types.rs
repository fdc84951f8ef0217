//! The sparse row-adjacency form of a cost matrix.
use vstd::prelude::*;

verus! {

/// A sparse cost matrix in row-adjacency form: `rows[i]` lists the
/// explicit `(col, cost)` entries of row `i`. A pair that is not listed is
/// forbidden (infinitely costly). The cost type is left open: the solvers
/// use floating-point costs, gating uses per-entry flags.
#[derive(Clone)]
pub struct SparseCost<T> {
    pub nrows: usize,
    pub ncols: usize,
    pub rows: Vec<Vec<(usize, T)>>,
}

/// The first entry of `row` naming column `j`, if any.
pub open spec fn first_entry<T>(row: Seq<(usize, T)>, j: int) -> Option<T> {
    if exists|k: int| 0 <= k < row.len() && row[k].0 == j {
        let k = choose|k: int|
            0 <= k < row.len() && row[k].0 == j && forall|k2: int| 0 <= k2 < k ==> row[k2].0 != j;
        Some(row[k].1)
    } else {
        None
    }
}

proof fn lemma_first_entry<T>(row: Seq<(usize, T)>, j: int, k: int)
    requires
        0 <= k < row.len(),
        row[k].0 == j,
        forall|k2: int| 0 <= k2 < k ==> row[k2].0 != j,
    ensures
        first_entry(row, j) == Some(row[k].1),
{
    let c = choose|c: int|
        0 <= c < row.len() && row[c].0 == j && forall|k2: int| 0 <= k2 < c ==> row[k2].0 != j;
    if c < k {
        assert(row[c].0 != j);
    }
    if c > k {
        assert(row[k].0 != j);
    }
}

impl<T: Copy> SparseCost<T> {
    /// The value of the first listed entry at `(i, j)`, if any.
    pub fn find_entry(&self, i: usize, j: usize) -> (res: Option<T>)
        requires
            i < self.rows@.len(),
        ensures
            res == first_entry(self.rows@[i as int]@, j as int),
    {
        let row = &self.rows[i];
        let mut k: usize = 0;
        while k < row.len()
            invariant
                row == &self.rows@[i as int],
                k <= row@.len(),
                forall|k2: int| 0 <= k2 < k ==> row@[k2].0 != j,
            decreases row@.len() - k,
        {
            let (jj, v) = row[k];
            if jj == j {
                proof {
                    lemma_first_entry(row@, j as int, k as int);
                }
                return Some(v);
            }
            k += 1;
        }
        None
    }
}

} // verus!
