//! Linear bottleneck assignment: the smallest threshold at which the
//! threshold graph of an `nrows x ncols` level matrix has a matching of
//! `min(nrows, ncols)` rows.
//!
//! Levels stand for costs: the caller ranks the distinct costs and gives
//! each cell the index of the first ranked cost it does not exceed, so the
//! cells usable at threshold index `t` are exactly those with level `<= t`.
use vstd::prelude::*;
use crate::assignment::{
    assigned_rows, is_assignment, is_matching, lemma_assigned_rows_bounded, lemma_matching_is_assignment,
    trim_assignment,
};
use crate::matching::{hopcroft_karp, is_square, within};

verus! {

/// The number of rows a complete matching of an `nrows x ncols` matrix has.
pub open spec fn min_side(nrows: int, ncols: int) -> int {
    if nrows <= ncols {
        nrows
    } else {
        ncols
    }
}

/// An `nrows x ncols` level matrix.
pub open spec fn is_shape(levels: Seq<Vec<usize>>, nrows: int, ncols: int) -> bool {
    &&& levels.len() == nrows
    &&& forall|i: int| 0 <= i < nrows ==> #[trigger] levels[i]@.len() == ncols
}

/// Some matching of `k` rows uses only cells of level at most `t`.
pub open spec fn sized_within(levels: Seq<Vec<usize>>, nrows: int, ncols: int, t: int, k: int) -> bool {
    exists|m: Seq<Option<usize>>|
        #[trigger] is_assignment(m, nrows, ncols) && within(levels, t, m) && assigned_rows(m).len() == k
}

/// The cell `(i, j)` of the square padding: the level of a real cell, and
/// `top` (above every threshold searched) for an added one.
spec fn pad_level(levels: Seq<Vec<usize>>, nrows: int, ncols: int, top: int, i: int, j: int) -> int {
    if i < nrows && j < ncols {
        levels[i]@[j] as int
    } else {
        top
    }
}

/// `padded` is the `n x n` padding of `levels` with the level `top`.
spec fn is_padding(levels: Seq<Vec<usize>>, nrows: int, ncols: int, top: int, n: int, padded: Seq<Vec<usize>>) -> bool {
    &&& is_square(padded, n)
    &&& forall|i: int, j: int|
        0 <= i < n && 0 <= j < n ==> #[trigger] padded[i]@[j] == pad_level(levels, nrows, ncols, top, i, j)
}

/// An assignment uses at most as many rows as there are columns.
proof fn lemma_assignment_within_columns(m: Seq<Option<usize>>, nrows: int, ncols: int)
    requires
        is_assignment(m, nrows, ncols),
        ncols >= 0,
    ensures
        assigned_rows(m).len() <= ncols,
        assigned_rows(m).len() <= nrows,
{
    lemma_assigned_rows_bounded(m);
    let x = assigned_rows(m);
    let f = |i: int| m[i]->0 as int;
    let cols = vstd::set_lib::set_int_range(0, ncols);
    vstd::set_lib::lemma_int_range(0, ncols);
    assert(vstd::relations::injective_on(f, x));
    assert(x.map(f).subset_of(cols)) by {
        assert forall|j: int| #[trigger] x.map(f).contains(j) implies cols.contains(j) by {
            let i = choose|i: int| x.contains(i) && f(i) == j;
        }
    }
    vstd::set_lib::lemma_map_size(x, x.map(f), f);
    vstd::set_lib::lemma_len_subset(x.map(f), cols);
}

/// A real assignment within `t` stays one, with the same rows, on the
/// padding, when `t` is below the padding level.
proof fn lemma_assignment_on_padding(
    levels: Seq<Vec<usize>>,
    nrows: int,
    ncols: int,
    top: int,
    n: int,
    padded: Seq<Vec<usize>>,
    t: int,
    m: Seq<Option<usize>>,
) -> (m2: Seq<Option<usize>>)
    requires
        is_padding(levels, nrows, ncols, top, n, padded),
        nrows <= n,
        ncols <= n,
        is_assignment(m, nrows, ncols),
        within(levels, t, m),
    ensures
        is_assignment(m2, n, n),
        within(padded, t, m2),
        assigned_rows(m2) == assigned_rows(m),
{
    let m2 = m + Seq::new((n - nrows) as nat, |i: int| None::<usize>);
    assert forall|i: int| 0 <= i < n && #[trigger] m2[i] is Some implies i < nrows && m2[i] == m[i] by {}
    assert forall|i: int| 0 <= i < m2.len() && #[trigger] m2[i] is Some implies padded[i]@[m2[i]->0 as int] <= t by {
        assert(padded[i]@[m2[i]->0 as int] == pad_level(levels, nrows, ncols, top, i, m2[i]->0 as int));
    }
    assert forall|i: int, k: int|
        0 <= i < n && 0 <= k < n && i != k && #[trigger] m2[i] is Some && #[trigger] m2[k] is Some implies m2[i] != m2[k] by {
        assert(m[i] is Some && m[k] is Some);
    }
    assert(assigned_rows(m2) =~= assigned_rows(m));
    m2
}

/// A matching of the padding within a threshold below the padding level
/// uses only real cells, so trimming it back keeps all of its rows.
proof fn lemma_trimmed_keeps_rows(
    levels: Seq<Vec<usize>>,
    nrows: int,
    ncols: int,
    top: int,
    n: int,
    padded: Seq<Vec<usize>>,
    t: int,
    r: Seq<Option<usize>>,
    c: Seq<Option<usize>>,
    r2: Seq<Option<usize>>,
)
    requires
        is_padding(levels, nrows, ncols, top, n, padded),
        0 <= nrows <= n,
        0 <= ncols <= n,
        t < top,
        r.len() == n,
        c.len() == n,
        is_matching(r, c),
        within(padded, t, r),
        r2.len() == nrows,
        forall|i: int| 0 <= i < nrows ==> #[trigger] r2[i] == (if r[i] is Some && r[i]->0 < ncols { r[i] } else { None }),
    ensures
        assigned_rows(r2) == assigned_rows(r),
        forall|i: int| 0 <= i < nrows ==> #[trigger] r2[i] == r[i],
        within(levels, t, r2),
{
    assert forall|i: int| 0 <= i < n && #[trigger] r[i] is Some implies i < nrows && r[i]->0 < ncols by {
        assert(padded[i]@[r[i]->0 as int] == pad_level(levels, nrows, ncols, top, i, r[i]->0 as int));
    }
    assert forall|i: int| 0 <= i < nrows implies #[trigger] r2[i] == r[i] by {}
    assert(assigned_rows(r2) =~= assigned_rows(r));
    assert forall|i: int| 0 <= i < r2.len() && #[trigger] r2[i] is Some implies levels[i]@[r2[i]->0 as int] <= t by {
        assert(padded[i]@[r[i]->0 as int] == pad_level(levels, nrows, ncols, top, i, r[i]->0 as int));
    }
}

/// The found matching of the search, if any.
spec fn found_rows(b: Option<(Vec<Option<usize>>, Vec<Option<usize>>)>) -> Seq<Option<usize>> {
    match b {
        Some((r, _)) => r@,
        None => Seq::empty(),
    }
}

spec fn found_cols(b: Option<(Vec<Option<usize>>, Vec<Option<usize>>)>) -> Seq<Option<usize>> {
    match b {
        Some((_, c)) => c@,
        None => Seq::empty(),
    }
}

/// Binary search for the least threshold index at which the `nrows x ncols`
/// level matrix has a matching of `min(nrows, ncols)` rows, then that
/// matching. Returns the threshold index and the row and column
/// assignments. Where no such matching exists even at the top threshold,
/// the result is a maximum matching at the top threshold.
pub fn solve_levels_rect(levels: &Vec<Vec<usize>>, nrows: usize, ncols: usize, nlevels: usize) -> (res: (
    usize,
    Vec<Option<usize>>,
    Vec<Option<usize>>,
))
    requires
        is_shape(levels@, nrows as int, ncols as int),
        nrows + 2 <= usize::MAX,
        ncols + 2 <= usize::MAX,
        nlevels >= 1,
    ensures
        res.0 < nlevels,
        res.1@.len() == nrows,
        res.2@.len() == ncols,
        is_matching(res.1@, res.2@),
        within(levels@, res.0 as int, res.1@),
        forall|t: int|
            0 <= t < res.0 ==> !#[trigger] sized_within(levels@, nrows as int, ncols as int, t, min_side(nrows as int, ncols as int)),
        sized_within(levels@, nrows as int, ncols as int, (nlevels - 1) as int, min_side(nrows as int, ncols as int))
            ==> assigned_rows(res.1@).len() == min_side(nrows as int, ncols as int),
        assigned_rows(res.1@).len() != min_side(nrows as int, ncols as int) ==> res.0 == nlevels - 1,
        forall|m: Seq<Option<usize>>|
            is_assignment(m, nrows as int, ncols as int) && within(levels@, res.0 as int, m)
                ==> #[trigger] assigned_rows(m).len() <= assigned_rows(res.1@).len(),
{
    let n: usize = if nrows >= ncols { nrows } else { ncols };
    let k: usize = if nrows <= ncols { nrows } else { ncols };
    let ghost kk = min_side(nrows as int, ncols as int);
    let mut padded: Vec<Vec<usize>> = Vec::new();
    let mut i: usize = 0;
    while i < n
        invariant
            is_shape(levels@, nrows as int, ncols as int),
            i <= n,
            padded@.len() == i,
            forall|x: int| 0 <= x < i ==> (#[trigger] padded@[x])@.len() == n,
            forall|x: int, y: int|
                0 <= x < i && 0 <= y < n ==> #[trigger] padded@[x]@[y] == pad_level(levels@, nrows as int, ncols as int, nlevels as int, x, y),
        decreases n - i,
    {
        let mut row: Vec<usize> = Vec::new();
        let mut j: usize = 0;
        while j < n
            invariant
                is_shape(levels@, nrows as int, ncols as int),
                i < n,
                j <= n,
                row@.len() == j,
                forall|y: int| 0 <= y < j ==> #[trigger] row@[y] == pad_level(levels@, nrows as int, ncols as int, nlevels as int, i as int, y),
            decreases n - j,
        {
            let v = if i < nrows && j < ncols {
                levels[i][j]
            } else {
                nlevels
            };
            row.push(v);
            j += 1;
        }
        padded.push(row);
        i += 1;
    }
    let ghost pl = padded@;
    assert(is_padding(levels@, nrows as int, ncols as int, nlevels as int, n as int, pl));
    let mut low: usize = 0;
    let mut high: usize = nlevels - 1;
    let mut best_idx: usize = high;
    let mut best_matching: Option<(Vec<Option<usize>>, Vec<Option<usize>>)> = None;
    loop
        invariant_except_break
            best_matching is Some ==> {
                &&& best_idx == high + 1
                &&& best_idx < nlevels
                &&& found_rows(best_matching).len() == n
                &&& found_cols(best_matching).len() == n
                &&& is_matching(found_rows(best_matching), found_cols(best_matching))
                &&& assigned_rows(found_rows(best_matching)).len() == kk
                &&& within(pl, best_idx as int, found_rows(best_matching))
            },
        invariant
            padded@ == pl,
            is_shape(levels@, nrows as int, ncols as int),
            is_padding(levels@, nrows as int, ncols as int, nlevels as int, n as int, pl),
            n == nrows || n == ncols,
            nrows <= n,
            ncols <= n,
            k == kk,
            kk == min_side(nrows as int, ncols as int),
            n + 2 <= usize::MAX,
            nlevels >= 1,
            high < nlevels,
            low <= high + 1,
            forall|t: int| 0 <= t < low ==> !#[trigger] sized_within(levels@, nrows as int, ncols as int, t, kk),
            best_matching is None ==> high == nlevels - 1 && best_idx == nlevels - 1,
        ensures
            best_idx < nlevels,
            forall|t: int| 0 <= t < best_idx ==> !#[trigger] sized_within(levels@, nrows as int, ncols as int, t, kk),
            best_matching is Some ==> {
                &&& found_rows(best_matching).len() == n
                &&& found_cols(best_matching).len() == n
                &&& is_matching(found_rows(best_matching), found_cols(best_matching))
                &&& assigned_rows(found_rows(best_matching)).len() == kk
                &&& within(pl, best_idx as int, found_rows(best_matching))
            },
            best_matching is None ==> best_idx == nlevels - 1 && !sized_within(
                levels@,
                nrows as int,
                ncols as int,
                (nlevels - 1) as int,
                kk,
            ),
        decreases high + 1 - low,
    {
        if !(low <= high) {
            break;
        }
        let mid = low + (high - low) / 2;
        let (size, r_match, c_match) = hopcroft_karp(&padded, n, mid);
        if size == k {
            best_idx = mid;
            best_matching = Some((r_match, c_match));
            if mid == 0 {
                break;
            }
            high = mid - 1;
        } else {
            proof {
                let r2 = Seq::new(nrows as nat, |x: int| if r_match@[x] is Some && r_match@[x]->0 < ncols { r_match@[x] } else { None });
                lemma_trimmed_keeps_rows(levels@, nrows as int, ncols as int, nlevels as int, n as int, pl, mid as int, r_match@, c_match@, r2);
                lemma_matching_is_assignment(r_match@, c_match@);
                assert(is_assignment(r2, nrows as int, ncols as int)) by {
                    assert forall|x: int, y: int|
                        0 <= x < nrows && 0 <= y < nrows && x != y && #[trigger] r2[x] is Some && #[trigger] r2[y] is Some implies r2[x] != r2[y] by {
                        assert(r2[x] == r_match@[x]);
                        assert(r2[y] == r_match@[y]);
                    }
                }
                lemma_assignment_within_columns(r2, nrows as int, ncols as int);
                assert forall|t: int| 0 <= t < mid + 1 implies !#[trigger] sized_within(levels@, nrows as int, ncols as int, t, kk) by {
                    if t >= low && sized_within(levels@, nrows as int, ncols as int, t, kk) {
                        let m = choose|m: Seq<Option<usize>>|
                            #[trigger] is_assignment(m, nrows as int, ncols as int) && within(levels@, t, m) && assigned_rows(m).len() == kk;
                        assert(within(levels@, mid as int, m));
                        let m2 = lemma_assignment_on_padding(levels@, nrows as int, ncols as int, nlevels as int, n as int, pl, mid as int, m);
                        assert(assigned_rows(m2).len() <= size);
                    }
                }
            }
            low = mid + 1;
        }
    }
    let (r_pad, c_pad) = match best_matching {
        Some(m) => m,
        None => {
            let (_, r, c) = hopcroft_karp(&padded, n, best_idx);
            (r, c)
        },
    };
    let (r_assign, c_assign) = trim_assignment(&r_pad, &c_pad, nrows, ncols);
    proof {
        lemma_trimmed_keeps_rows(levels@, nrows as int, ncols as int, nlevels as int, n as int, pl, best_idx as int, r_pad@, c_pad@, r_assign@);
        lemma_matching_is_assignment(r_assign@, c_assign@);
        lemma_assignment_within_columns(r_assign@, nrows as int, ncols as int);
        assert forall|m: Seq<Option<usize>>|
            is_assignment(m, nrows as int, ncols as int) && within(levels@, best_idx as int, m)
                implies #[trigger] assigned_rows(m).len() <= assigned_rows(r_assign@).len() by {
            let m2 = lemma_assignment_on_padding(levels@, nrows as int, ncols as int, nlevels as int, n as int, pl, best_idx as int, m);
            lemma_assignment_within_columns(m, nrows as int, ncols as int);
        }
        if sized_within(levels@, nrows as int, ncols as int, (nlevels - 1) as int, kk) {
            let m = choose|m: Seq<Option<usize>>|
                #[trigger] is_assignment(m, nrows as int, ncols as int) && within(levels@, (nlevels - 1) as int, m) && assigned_rows(m).len() == kk;
            assert(assigned_rows(m).len() <= assigned_rows(r_assign@).len());
        }
    }
    (best_idx, r_assign, c_assign)
}

} // verus!
