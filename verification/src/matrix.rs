//! Cost matrices: shape and value validation, padding to a square, and
//! the sparse row-adjacency form.
//!
//! Cost values are floating point and never enter this library; where the
//! logic reads a value only to classify it (finite, NaN, infinite) the
//! caller hands over the classification, and where it only moves values
//! around the functions are generic over the value type.
use vstd::prelude::*;
use crate::types::SparseCost;

verus! {

/// How a cost value is classified by validation.
#[derive(Clone, Copy, Debug, PartialEq, Eq, Structural)]
pub enum EntryKind {
    Finite,
    Nan,
    Infinite,
}

/// Why a cost matrix was refused.
#[derive(Clone, Copy, Debug, PartialEq, Eq, Structural)]
pub enum MatrixError {
    /// The matrix has no rows (or, for sparse input, no rows or no columns).
    Empty,
    /// The first row has no entries.
    EmptyRows,
    /// Row `row` has `found` entries where the first row has `expected`.
    Ragged { row: usize, expected: usize, found: usize },
    /// The entry at `(row, col)` is NaN.
    Nan { row: usize, col: usize },
    /// The entry at `(row, col)` is infinite.
    Infinite { row: usize, col: usize },
}

/// The first NaN or infinite entry of row `i` at or after column `j`.
pub open spec fn first_bad_entry(row: Seq<EntryKind>, i: int, j: int) -> Option<MatrixError>
    decreases row.len() - j,
{
    if j < 0 || j >= row.len() {
        None
    } else {
        match row[j] {
            EntryKind::Nan => Some(MatrixError::Nan { row: i as usize, col: j as usize }),
            EntryKind::Infinite => Some(MatrixError::Infinite { row: i as usize, col: j as usize }),
            EntryKind::Finite => first_bad_entry(row, i, j + 1),
        }
    }
}

/// The first ragged row or bad entry at or after row `i`, rows in order
/// and, within a row, the length before the entries.
pub open spec fn first_bad_row(kinds: Seq<Vec<EntryKind>>, ncols: int, i: int) -> Option<MatrixError>
    decreases kinds.len() - i,
{
    if i < 0 || i >= kinds.len() {
        None
    } else if kinds[i]@.len() != ncols {
        Some(MatrixError::Ragged { row: i as usize, expected: ncols as usize, found: kinds[i]@.len() as usize })
    } else {
        match first_bad_entry(kinds[i]@, i, 0) {
            Some(e) => Some(e),
            None => first_bad_row(kinds, ncols, i + 1),
        }
    }
}

/// What validation reports for a matrix of classified entries.
pub open spec fn matrix_error(kinds: Seq<Vec<EntryKind>>) -> Option<MatrixError> {
    if kinds.len() == 0 {
        Some(MatrixError::Empty)
    } else if kinds[0]@.len() == 0 {
        Some(MatrixError::EmptyRows)
    } else {
        first_bad_row(kinds, kinds[0]@.len() as int, 0)
    }
}

/// Row `i` is as long as the first row and holds only finite entries.
pub open spec fn row_clean(kinds: Seq<Vec<EntryKind>>, i: int) -> bool {
    &&& kinds[i]@.len() == kinds[0]@.len()
    &&& forall|j: int| 0 <= j < kinds[i]@.len() ==> #[trigger] kinds[i]@[j] == EntryKind::Finite
}

/// A matrix that solving accepts: it has a row, the first row has an entry,
/// and every row is as long as the first and holds only finite entries.
pub open spec fn acceptable(kinds: Seq<Vec<EntryKind>>) -> bool {
    &&& kinds.len() > 0
    &&& kinds[0]@.len() > 0
    &&& forall|i: int| 0 <= i < kinds.len() ==> #[trigger] row_clean(kinds, i)
}

/// Checks that a matrix is non-empty, rectangular and holds only finite
/// values, reporting the first problem found.
pub fn validate_matrix(kinds: &Vec<Vec<EntryKind>>) -> (res: Result<(), MatrixError>)
    ensures
        res == (match matrix_error(kinds@) {
            Some(e) => Err(e),
            None => Ok(()),
        }),
        res is Ok <==> acceptable(kinds@),
        res == Err::<(), MatrixError>(MatrixError::Empty) <==> kinds@.len() == 0,
        res == Err::<(), MatrixError>(MatrixError::EmptyRows) <==> kinds@.len() > 0 && kinds@[0]@.len() == 0,
        res matches Err(MatrixError::Ragged { row, expected, found }) ==> {
            &&& row < kinds@.len()
            &&& expected == kinds@[0]@.len()
            &&& found == kinds@[row as int]@.len()
            &&& found != expected
            &&& forall|i: int| 0 <= i < row ==> #[trigger] row_clean(kinds@, i)
        },
        res matches Err(MatrixError::Nan { row, col }) ==> {
            &&& row < kinds@.len()
            &&& kinds@[row as int]@.len() == kinds@[0]@.len()
            &&& col < kinds@[row as int]@.len()
            &&& kinds@[row as int]@[col as int] == EntryKind::Nan
            &&& forall|i: int| 0 <= i < row ==> #[trigger] row_clean(kinds@, i)
            &&& forall|j: int| 0 <= j < col ==> #[trigger] kinds@[row as int]@[j] == EntryKind::Finite
        },
        res matches Err(MatrixError::Infinite { row, col }) ==> {
            &&& row < kinds@.len()
            &&& kinds@[row as int]@.len() == kinds@[0]@.len()
            &&& col < kinds@[row as int]@.len()
            &&& kinds@[row as int]@[col as int] == EntryKind::Infinite
            &&& forall|i: int| 0 <= i < row ==> #[trigger] row_clean(kinds@, i)
            &&& forall|j: int| 0 <= j < col ==> #[trigger] kinds@[row as int]@[j] == EntryKind::Finite
        },
{
    if kinds.len() == 0 {
        return Err(MatrixError::Empty);
    }
    let ncols = kinds[0].len();
    if ncols == 0 {
        return Err(MatrixError::EmptyRows);
    }
    let mut i: usize = 0;
    while i < kinds.len()
        invariant
            i <= kinds@.len(),
            ncols == kinds@[0]@.len(),
            ncols > 0,
            first_bad_row(kinds@, ncols as int, 0) == first_bad_row(kinds@, ncols as int, i as int),
            forall|x: int| 0 <= x < i ==> #[trigger] row_clean(kinds@, x),
        decreases kinds@.len() - i,
    {
        let row = &kinds[i];
        if row.len() != ncols {
            proof {
                assert(!row_clean(kinds@, i as int));
            }
            return Err(MatrixError::Ragged { row: i, expected: ncols, found: row.len() });
        }
        let mut j: usize = 0;
        while j < row.len()
            invariant
                row == &kinds@[i as int],
                i < kinds@.len(),
                ncols == kinds@[0]@.len(),
                row@.len() == ncols,
                first_bad_row(kinds@, ncols as int, 0) == first_bad_row(kinds@, ncols as int, i as int),
                j <= row@.len(),
                first_bad_entry(row@, i as int, 0) == first_bad_entry(row@, i as int, j as int),
                forall|x: int| 0 <= x < i ==> #[trigger] row_clean(kinds@, x),
                forall|y: int| 0 <= y < j ==> #[trigger] row@[y] == EntryKind::Finite,
            decreases row@.len() - j,
        {
            match row[j] {
                EntryKind::Nan => {
                    proof {
                        assert(!row_clean(kinds@, i as int));
                    }
                    return Err(MatrixError::Nan { row: i, col: j });
                },
                EntryKind::Infinite => {
                    proof {
                        assert(!row_clean(kinds@, i as int));
                    }
                    return Err(MatrixError::Infinite { row: i, col: j });
                },
                EntryKind::Finite => {},
            }
            j += 1;
        }
        proof {
            assert(row_clean(kinds@, i as int));
        }
        i += 1;
    }
    Ok(())
}

/// Pads a matrix to `dim x dim` with `dim = max(nrows, ncols)`, filling
/// the added cells with `fill`; a square matrix comes back unchanged.
pub fn pad_to_square<T: Copy>(matrix: &Vec<Vec<T>>, fill: T) -> (padded: Vec<Vec<T>>)
    requires
        ({
            let nrows = matrix@.len();
            let ncols = if nrows > 0 { matrix@[0]@.len() } else { 0 };
            nrows != ncols ==> forall|i: int|
                0 <= i < nrows ==> #[trigger] matrix@[i]@.len() <= (if nrows >= ncols { nrows } else { ncols })
        }),
    ensures
        ({
            let nrows = matrix@.len();
            let ncols = if nrows > 0 { matrix@[0]@.len() } else { 0 };
            let dim = if nrows >= ncols { nrows } else { ncols };
            &&& nrows == ncols ==> padded@.len() == nrows && forall|i: int|
                0 <= i < nrows ==> #[trigger] padded@[i]@ == matrix@[i]@
            &&& nrows != ncols ==> {
                &&& padded@.len() == dim
                &&& forall|i: int| 0 <= i < dim ==> #[trigger] padded@[i]@.len() == dim
                &&& forall|i: int, j: int|
                    0 <= i < dim && 0 <= j < dim ==> #[trigger] padded@[i]@[j] == (if i < nrows && j
                        < matrix@[i]@.len() {
                        matrix@[i]@[j]
                    } else {
                        fill
                    })
            }
        }),
{
    let nrows = matrix.len();
    let ncols = if nrows > 0 {
        matrix[0].len()
    } else {
        0
    };
    let dim = if nrows >= ncols {
        nrows
    } else {
        ncols
    };
    let mut padded: Vec<Vec<T>> = Vec::new();
    let mut i: usize = 0;
    if nrows == ncols {
        while i < nrows
            invariant
                nrows == matrix@.len(),
                i <= nrows,
                padded@.len() == i,
                forall|x: int| 0 <= x < i ==> #[trigger] padded@[x]@ == matrix@[x]@,
            decreases nrows - i,
        {
            let src = &matrix[i];
            let mut row: Vec<T> = Vec::new();
            let mut j: usize = 0;
            while j < src.len()
                invariant
                    j <= src@.len(),
                    row@ == src@.subrange(0, j as int),
                decreases src@.len() - j,
            {
                row.push(src[j]);
                j += 1;
            }
            proof {
                assert(src@.subrange(0, src@.len() as int) =~= src@);
            }
            padded.push(row);
            i += 1;
        }
        return padded;
    }
    while i < dim
        invariant
            nrows == matrix@.len(),
            ncols == (if nrows > 0 { matrix@[0]@.len() } else { 0 }),
            dim == (if nrows >= ncols { nrows } else { ncols }),
            forall|x: int| 0 <= x < nrows ==> #[trigger] matrix@[x]@.len() <= dim,
            i <= dim,
            padded@.len() == i,
            forall|x: int| 0 <= x < i ==> #[trigger] padded@[x]@.len() == dim,
            forall|x: int, y: int|
                0 <= x < i && 0 <= y < dim ==> #[trigger] padded@[x]@[y] == (if x < nrows && y
                    < matrix@[x]@.len() {
                    matrix@[x]@[y]
                } else {
                    fill
                }),
        decreases dim - i,
    {
        let mut row: Vec<T> = Vec::new();
        let mut j: usize = 0;
        while j < dim
            invariant
                nrows == matrix@.len(),
                forall|x: int| 0 <= x < nrows ==> #[trigger] matrix@[x]@.len() <= dim,
                i < dim,
                j <= dim,
                row@.len() == j,
                forall|y: int|
                    0 <= y < j ==> #[trigger] row@[y] == (if i < nrows && y < matrix@[i as int]@.len() {
                        matrix@[i as int]@[y]
                    } else {
                        fill
                    }),
            decreases dim - j,
        {
            if i < nrows && j < matrix[i].len() {
                row.push(matrix[i][j]);
            } else {
                row.push(fill);
            }
            j += 1;
        }
        padded.push(row);
        i += 1;
    }
    padded
}


/// The explicit entries of row `i` of a CSR matrix, positions
/// `indptr[i]..indptr[i + 1]` in order.
pub open spec fn csr_row<T>(indptr: Seq<usize>, indices: Seq<usize>, data: Seq<T>, i: int) -> Seq<(usize, T)> {
    let lo = indptr[i] as int;
    let hi = indptr[i + 1] as int;
    Seq::new(if hi > lo { (hi - lo) as nat } else { 0 }, |t: int| (indices[lo + t], data[lo + t]))
}

/// The first NaN or infinite stored value of row `i` at positions `k..hi`.
pub open spec fn first_bad_stored(indices: Seq<usize>, kinds: Seq<EntryKind>, i: int, k: int, hi: int) -> Option<MatrixError>
    decreases hi - k,
{
    if k >= hi {
        None
    } else {
        match kinds[k] {
            EntryKind::Nan => Some(MatrixError::Nan { row: i as usize, col: indices[k] }),
            EntryKind::Infinite => Some(MatrixError::Infinite { row: i as usize, col: indices[k] }),
            EntryKind::Finite => first_bad_stored(indices, kinds, i, k + 1, hi),
        }
    }
}

/// The first NaN or infinite stored value in rows `i..nrows`.
pub open spec fn first_bad_stored_row(indptr: Seq<usize>, indices: Seq<usize>, kinds: Seq<EntryKind>, i: int, nrows: int) -> Option<MatrixError>
    decreases nrows - i,
{
    if i < 0 || i >= nrows {
        None
    } else {
        match first_bad_stored(indices, kinds, i, indptr[i] as int, indptr[i + 1] as int) {
            Some(e) => Some(e),
            None => first_bad_stored_row(indptr, indices, kinds, i + 1, nrows),
        }
    }
}

/// What reading a CSR matrix reports: an empty shape, or the first
/// non-finite stored value.
pub open spec fn csr_error(nrows: int, ncols: int, indptr: Seq<usize>, indices: Seq<usize>, kinds: Seq<EntryKind>) -> Option<MatrixError> {
    if nrows == 0 || ncols == 0 {
        Some(MatrixError::Empty)
    } else {
        first_bad_stored_row(indptr, indices, kinds, 0, nrows)
    }
}

/// Every value stored for row `i` of a CSR matrix is finite.
pub open spec fn stored_row_clean(indptr: Seq<usize>, kinds: Seq<EntryKind>, i: int) -> bool {
    forall|k: int| indptr[i] <= k < indptr[i + 1] ==> #[trigger] kinds[k] == EntryKind::Finite
}

/// Builds the row adjacency of a CSR matrix without densifying it,
/// refusing an empty shape and non-finite stored values.
pub fn csr_adjacency<T: Copy>(
    nrows: usize,
    ncols: usize,
    indptr: &Vec<usize>,
    indices: &Vec<usize>,
    data: &Vec<T>,
    kinds: &Vec<EntryKind>,
) -> (res: Result<SparseCost<T>, MatrixError>)
    requires
        indptr@.len() > nrows,
        kinds@.len() == data@.len(),
        forall|i: int|
            0 <= i < nrows && #[trigger] indptr@[i] < indptr@[i + 1] ==> indptr@[i + 1] <= data@.len()
                && indptr@[i + 1] <= indices@.len(),
    ensures
        match csr_error(nrows as int, ncols as int, indptr@, indices@, kinds@) {
            Some(e) => res == Err::<SparseCost<T>, MatrixError>(e),
            None => res matches Ok(sc) && sc.nrows == nrows && sc.ncols == ncols && sc.rows@.len() == nrows
                && forall|i: int| 0 <= i < nrows ==> #[trigger] sc.rows@[i]@ == csr_row(indptr@, indices@, data@, i),
        },
        res is Ok <==> nrows > 0 && ncols > 0 && forall|i: int| 0 <= i < nrows ==> #[trigger] stored_row_clean(indptr@, kinds@, i),
        res matches Err(MatrixError::Empty) <==> nrows == 0 || ncols == 0,
        res matches Err(MatrixError::Nan { row, col }) ==> {
            &&& row < nrows
            &&& forall|i: int| 0 <= i < row ==> #[trigger] stored_row_clean(indptr@, kinds@, i)
            &&& exists|k: int|
                indptr@[row as int] <= k < indptr@[row + 1] && #[trigger] kinds@[k] == EntryKind::Nan && indices@[k] == col
                    && forall|k2: int| indptr@[row as int] <= k2 < k ==> #[trigger] kinds@[k2] == EntryKind::Finite
        },
        res matches Err(MatrixError::Infinite { row, col }) ==> {
            &&& row < nrows
            &&& forall|i: int| 0 <= i < row ==> #[trigger] stored_row_clean(indptr@, kinds@, i)
            &&& exists|k: int|
                indptr@[row as int] <= k < indptr@[row + 1] && #[trigger] kinds@[k] == EntryKind::Infinite && indices@[k] == col
                    && forall|k2: int| indptr@[row as int] <= k2 < k ==> #[trigger] kinds@[k2] == EntryKind::Finite
        },
        !(res matches Err(MatrixError::EmptyRows)),
        !(res matches Err(MatrixError::Ragged { .. })),
{
    if nrows == 0 || ncols == 0 {
        return Err(MatrixError::Empty);
    }
    let mut rows: Vec<Vec<(usize, T)>> = Vec::new();
    let mut i: usize = 0;
    while i < nrows
        invariant
            nrows > 0,
            ncols > 0,
            indptr@.len() > nrows,
            kinds@.len() == data@.len(),
            forall|x: int|
                0 <= x < nrows && #[trigger] indptr@[x] < indptr@[x + 1] ==> indptr@[x + 1] <= data@.len()
                    && indptr@[x + 1] <= indices@.len(),
            i <= nrows,
            rows@.len() == i,
            forall|x: int| 0 <= x < i ==> #[trigger] rows@[x]@ == csr_row(indptr@, indices@, data@, x),
            first_bad_stored_row(indptr@, indices@, kinds@, 0, nrows as int) == first_bad_stored_row(indptr@, indices@, kinds@, i as int, nrows as int),
            forall|x: int| 0 <= x < i ==> #[trigger] stored_row_clean(indptr@, kinds@, x),
        decreases nrows - i,
    {
        let lo = indptr[i];
        let hi = indptr[i + 1];
        let mut row: Vec<(usize, T)> = Vec::new();
        let mut k: usize = lo;
        proof {
            assert(indptr@[i as int] < indptr@[i + 1] ==> indptr@[i + 1] <= data@.len());
        }
        while k < hi
            invariant
                nrows > 0,
                ncols > 0,
                i < nrows,
                indptr@.len() > nrows,
                first_bad_stored_row(indptr@, indices@, kinds@, 0, nrows as int) == first_bad_stored_row(indptr@, indices@, kinds@, i as int, nrows as int),
                lo == indptr@[i as int],
                hi == indptr@[i + 1],
                lo < hi ==> hi <= data@.len() && hi <= indices@.len(),
                kinds@.len() == data@.len(),
                lo <= k,
                k <= hi || k == lo,
                row@.len() == k - lo,
                forall|t: int| 0 <= t < row@.len() ==> #[trigger] row@[t] == (indices@[lo + t], data@[lo + t]),
                first_bad_stored(indices@, kinds@, i as int, lo as int, hi as int) == first_bad_stored(indices@, kinds@, i as int, k as int, hi as int),
                forall|x: int| 0 <= x < i ==> #[trigger] stored_row_clean(indptr@, kinds@, x),
                forall|k2: int| lo <= k2 < k ==> #[trigger] kinds@[k2] == EntryKind::Finite,
            decreases hi - k,
        {
            let j = indices[k];
            match kinds[k] {
                EntryKind::Nan => {
                    proof {
                        assert(first_bad_stored_row(indptr@, indices@, kinds@, i as int, nrows as int) == Some(MatrixError::Nan { row: i, col: j }));
                        assert(!stored_row_clean(indptr@, kinds@, i as int));
                        assert(kinds@[k as int] == EntryKind::Nan);
                    }
                    return Err(MatrixError::Nan { row: i, col: j });
                },
                EntryKind::Infinite => {
                    proof {
                        assert(first_bad_stored_row(indptr@, indices@, kinds@, i as int, nrows as int) == Some(MatrixError::Infinite { row: i, col: j }));
                        assert(!stored_row_clean(indptr@, kinds@, i as int));
                        assert(kinds@[k as int] == EntryKind::Infinite);
                    }
                    return Err(MatrixError::Infinite { row: i, col: j });
                },
                EntryKind::Finite => {},
            }
            row.push((j, data[k]));
            k += 1;
        }
        proof {
            assert(row@ =~= csr_row(indptr@, indices@, data@, i as int));
            assert(first_bad_stored(indices@, kinds@, i as int, k as int, hi as int) == None::<MatrixError>);
            assert(stored_row_clean(indptr@, kinds@, i as int));
        }
        rows.push(row);
        i += 1;
    }
    Ok(SparseCost { nrows, ncols, rows })
}

/// The square adjacency used by the sparse augmenting-path solvers: every
/// row, real or added, may also take each added column at cost `fill`, and
/// each added row may take every real column at cost `fill`.
pub fn square_adjacency<T: Copy>(sc: &SparseCost<T>, fill: T) -> (rows: Vec<Vec<(usize, T)>>)
    requires
        sc.nrows <= sc.rows@.len(),
    ensures
        ({
            let dim = if sc.nrows >= sc.ncols { sc.nrows } else { sc.ncols };
            &&& rows@.len() == dim
            &&& forall|i: int|
                0 <= i < dim ==> #[trigger] rows@[i]@ == (if i < sc.nrows {
                    sc.rows@[i]@
                } else {
                    Seq::empty()
                }) + Seq::new((dim - sc.ncols) as nat, |t: int| ((sc.ncols + t) as usize, fill)) + (if i
                    < sc.nrows {
                    Seq::empty()
                } else {
                    Seq::new(sc.ncols as nat, |t: int| (t as usize, fill))
                })
        }),
{
    let nrows = sc.nrows;
    let ncols = sc.ncols;
    let dim = if nrows >= ncols {
        nrows
    } else {
        ncols
    };
    let mut rows: Vec<Vec<(usize, T)>> = Vec::new();
    let mut i: usize = 0;
    while i < dim
        invariant
            nrows == sc.nrows,
            ncols == sc.ncols,
            nrows <= sc.rows@.len(),
            dim == (if nrows >= ncols { nrows } else { ncols }),
            i <= dim,
            rows@.len() == i,
            forall|x: int|
                0 <= x < i ==> #[trigger] rows@[x]@ == (if x < nrows {
                    sc.rows@[x]@
                } else {
                    Seq::empty()
                }) + Seq::new((dim - ncols) as nat, |t: int| ((ncols + t) as usize, fill)) + (if x
                    < nrows {
                    Seq::empty()
                } else {
                    Seq::new(ncols as nat, |t: int| (t as usize, fill))
                }),
        decreases dim - i,
    {
        let mut adj: Vec<(usize, T)> = Vec::new();
        if i < nrows {
            let src = &sc.rows[i];
            let mut k: usize = 0;
            while k < src.len()
                invariant
                    k <= src@.len(),
                    adj@ == src@.subrange(0, k as int),
                decreases src@.len() - k,
            {
                adj.push(src[k]);
                k += 1;
            }
            proof {
                assert(src@.subrange(0, src@.len() as int) =~= src@);
            }
        }
        let ghost base = adj@;
        let mut j: usize = ncols;
        while j < dim
            invariant
                ncols <= j <= dim,
                adj@ == base + Seq::new((j - ncols) as nat, |t: int| ((ncols + t) as usize, fill)),
            decreases dim - j,
        {
            adj.push((j, fill));
            proof {
                assert(adj@ =~= base + Seq::new((j + 1 - ncols) as nat, |t: int| ((ncols + t) as usize, fill)));
            }
            j += 1;
        }
        if i >= nrows {
            let ghost mid = adj@;
            let mut j: usize = 0;
            while j < ncols
                invariant
                    j <= ncols,
                    adj@ == mid + Seq::new(j as nat, |t: int| (t as usize, fill)),
                decreases ncols - j,
            {
                adj.push((j, fill));
                proof {
                    assert(adj@ =~= mid + Seq::new((j + 1) as nat, |t: int| (t as usize, fill)));
                }
                j += 1;
            }
        }
        proof {
            if i < nrows {
                assert(adj@ =~= sc.rows@[i as int]@ + Seq::new((dim - ncols) as nat, |t: int| ((ncols + t) as usize, fill)) + Seq::empty());
            } else {
                assert(base =~= Seq::<(usize, T)>::empty());
                assert(adj@ =~= Seq::empty() + Seq::new((dim - ncols) as nat, |t: int| ((ncols + t) as usize, fill)) + Seq::new(ncols as nat, |t: int| (t as usize, fill)));
            }
        }
        rows.push(adj);
        i += 1;
    }
    rows
}

} // verus!
