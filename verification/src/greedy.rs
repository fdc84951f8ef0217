//! Greedy assignment: take the cells in increasing cost order and keep each
//! one whose row and column are both still free.
//!
//! Costs enter as ranks: the caller replaces each finite cost by its
//! position among the distinct finite costs (equal costs, equal ranks) and
//! each non-finite cost by `None`. Ties are broken by row, then column,
//! exactly as a stable sort of the row-major cell list by cost breaks them.
use vstd::prelude::*;
use crate::assignment::is_matching;
use vstd::seq_lib::group_to_multiset_ensures;

verus! {

/// The ordering key of a candidate cell: rank, then row, then column.
pub type EdgeKey = (u64, usize, usize);

/// Lexicographic `<=` on keys, the order `Ord` gives tuples.
pub open spec fn key_le(a: EdgeKey, b: EdgeKey) -> bool {
    a.0 < b.0 || (a.0 == b.0 && (a.1 < b.1 || (a.1 == b.1 && a.2 <= b.2)))
}

/// Lexicographic `<` on keys.
pub open spec fn key_lt(a: EdgeKey, b: EdgeKey) -> bool {
    key_le(a, b) && a != b
}

/// Cell `(i, j)` exists and has a finite cost.
pub open spec fn is_edge(ranks: Seq<Vec<Option<u64>>>, i: int, j: int) -> bool {
    &&& 0 <= i < ranks.len()
    &&& 0 <= j < ranks[i]@.len()
    &&& ranks[i]@[j] is Some
}

/// The key of cell `(i, j)`.
pub open spec fn key_of(ranks: Seq<Vec<Option<u64>>>, i: int, j: int) -> EdgeKey {
    (ranks[i]@[j]->0, i as usize, j as usize)
}

/// The greedy rule: a cell is taken exactly when no cell earlier in key
/// order that shares its row or column was taken.
pub open spec fn greedy_choice(ranks: Seq<Vec<Option<u64>>>, row: Seq<Option<usize>>) -> bool {
    forall|i: int, j: int|
        #[trigger] is_edge(ranks, i, j) ==> (row[i] == Some(j as usize) <==> forall|i2: int, j2: int|
            #[trigger] is_edge(ranks, i2, j2) && key_lt(key_of(ranks, i2, j2), key_of(ranks, i, j))
                && (i2 == i || j2 == j) ==> row[i2] != Some(j2 as usize))
}

/// `slice::sort_unstable` on keys. The standard library documents that it
/// sorts the slice in ascending order; for tuples `Ord` is lexicographic.
/// Sorting rearranges the elements, so the multiset of keys is kept.
#[verifier::external_body]
fn sort_keys(keys: &mut Vec<EdgeKey>)
    ensures
        final(keys)@.to_multiset() == old(keys)@.to_multiset(),
        forall|a: int, b: int|
            0 <= a < b < final(keys)@.len() ==> key_le(#[trigger] final(keys)@[a], #[trigger] final(keys)@[b]),
{
    keys.sort_unstable();
}

/// `e` is the key of an existing cell.
pub open spec fn is_key(ranks: Seq<Vec<Option<u64>>>, e: EdgeKey) -> bool {
    is_edge(ranks, e.1 as int, e.2 as int) && e == key_of(ranks, e.1 as int, e.2 as int)
}

/// Row-major order of cells.
spec fn cell_lt(a: EdgeKey, b: EdgeKey) -> bool {
    a.1 < b.1 || (a.1 == b.1 && a.2 < b.2)
}

/// The keys of all cells with a finite cost, in row-major order.
fn collect_keys(ranks: &Vec<Vec<Option<u64>>>) -> (keys: Vec<EdgeKey>)
    ensures
        forall|k: int| 0 <= k < keys@.len() ==> is_key(ranks@, #[trigger] keys@[k]),
        forall|i: int, j: int| #[trigger] is_edge(ranks@, i, j) ==> keys@.contains(key_of(ranks@, i, j)),
        keys@.no_duplicates(),
{
    let nrows = ranks.len();
    let mut keys: Vec<EdgeKey> = Vec::new();
    let mut i: usize = 0;
    while i < nrows
        invariant
            nrows == ranks@.len(),
            0 <= i <= nrows,
            forall|k: int| 0 <= k < keys@.len() ==> is_key(ranks@, #[trigger] keys@[k]) && keys@[k].1 < i,
            forall|a: int, b: int| 0 <= a < b < keys@.len() ==> cell_lt(#[trigger] keys@[a], #[trigger] keys@[b]),
            forall|i2: int, j2: int|
                0 <= i2 < i && #[trigger] is_edge(ranks@, i2, j2) ==> keys@.contains(key_of(ranks@, i2, j2)),
        decreases nrows - i,
    {
        let row = &ranks[i];
        let mut j: usize = 0;
        while j < row.len()
            invariant
                nrows == ranks@.len(),
                0 <= i < nrows,
                row == &ranks@[i as int],
                0 <= j <= row@.len(),
                forall|k: int|
                    0 <= k < keys@.len() ==> is_key(ranks@, #[trigger] keys@[k]) && (keys@[k].1 < i || (
                    keys@[k].1 == i && keys@[k].2 < j)),
                forall|a: int, b: int| 0 <= a < b < keys@.len() ==> cell_lt(#[trigger] keys@[a], #[trigger] keys@[b]),
                forall|i2: int, j2: int|
                    (0 <= i2 < i || (i2 == i && 0 <= j2 < j)) && #[trigger] is_edge(ranks@, i2, j2)
                        ==> keys@.contains(key_of(ranks@, i2, j2)),
            decreases row@.len() - j,
        {
            if let Some(r) = row[j] {
                let ghost old_keys = keys@;
                keys.push((r, i, j));
                proof {
                    assert(is_key(ranks@, keys@[keys@.len() - 1]));
                    assert forall|k: int| 0 <= k < old_keys.len() implies keys@[k] == old_keys[k] by {}
                    assert forall|a: int, b: int| 0 <= a < b < keys@.len() implies cell_lt(#[trigger] keys@[a], #[trigger] keys@[b]) by {
                        assert(keys@[a] == old_keys[a]);
                        if b < old_keys.len() {
                            assert(keys@[b] == old_keys[b]);
                        }
                    }
                    assert forall|i2: int, j2: int|
                        (0 <= i2 < i || (i2 == i && 0 <= j2 < j + 1)) && #[trigger] is_edge(ranks@, i2, j2)
                            implies keys@.contains(key_of(ranks@, i2, j2)) by {
                        if i2 == i && j2 == j {
                            assert(keys@[keys@.len() - 1] == key_of(ranks@, i2, j2));
                        } else {
                            let k = choose|k: int| 0 <= k < old_keys.len() && old_keys[k] == key_of(ranks@, i2, j2);
                            assert(keys@[k] == key_of(ranks@, i2, j2));
                        }
                    }
                }
            }
            j += 1;
        }
        i += 1;
    }
    proof {
        assert forall|a: int, b: int| 0 <= a < keys@.len() && 0 <= b < keys@.len() && a != b implies keys@[a] != keys@[b] by {
            if a < b {
                assert(cell_lt(keys@[a], keys@[b]));
            } else {
                assert(cell_lt(keys@[b], keys@[a]));
            }
        }
    }
    keys
}


/// Two cells share a row or a column.
spec fn conflicts(a: EdgeKey, b: EdgeKey) -> bool {
    a.1 == b.1 || a.2 == b.2
}

/// The cell of `e` is in the assignment.
spec fn taken(row: Seq<Option<usize>>, e: EdgeKey) -> bool {
    row[e.1 as int] == Some(e.2)
}

/// The loop state after the first `k` keys: the assignment is a matching
/// on processed cells, and a processed cell is taken exactly when no
/// conflicting cell before it was taken.
spec fn scan_inv(
    ranks: Seq<Vec<Option<u64>>>,
    keys: Seq<EdgeKey>,
    k: int,
    row: Seq<Option<usize>>,
    col: Seq<Option<usize>>,
    row_used: Seq<bool>,
    col_used: Seq<bool>,
) -> bool {
    &&& row.len() == ranks.len()
    &&& row_used.len() == ranks.len()
    &&& col.len() == col_used.len()
    &&& forall|i: int| 0 <= i < row.len() ==> (#[trigger] row_used[i] <==> row[i] is Some)
    &&& forall|j: int| 0 <= j < col.len() ==> (#[trigger] col_used[j] <==> col[j] is Some)
    &&& is_matching(row, col)
    &&& forall|i: int|
        0 <= i < row.len() && #[trigger] row[i] is Some ==> keys.subrange(0, k).contains(
            key_of(ranks, i, row[i]->0 as int),
        ) && is_edge(ranks, i, row[i]->0 as int)
    &&& forall|p: int|
        0 <= p < k ==> (taken(row, #[trigger] keys[p]) <==> forall|q: int|
            0 <= q < p && conflicts(#[trigger] keys[q], keys[p]) ==> !taken(row, keys[q]))
}

/// Processing key `k`: take its cell when its row and column are free.
proof fn lemma_scan_step(
    ranks: Seq<Vec<Option<u64>>>,
    keys: Seq<EdgeKey>,
    k: int,
    row: Seq<Option<usize>>,
    col: Seq<Option<usize>>,
    row_used: Seq<bool>,
    col_used: Seq<bool>,
)
    requires
        scan_inv(ranks, keys, k, row, col, row_used, col_used),
        0 <= k < keys.len(),
        forall|p: int| 0 <= p < keys.len() ==> is_key(ranks, #[trigger] keys[p]),
        keys.no_duplicates(),
        keys[k].1 < row.len(),
        keys[k].2 < col.len(),
    ensures
        ({
            let r = keys[k].1 as int;
            let c = keys[k].2 as int;
            if !row_used[r] && !col_used[c] {
                scan_inv(
                    ranks,
                    keys,
                    k + 1,
                    row.update(r, Some(c as usize)),
                    col.update(c, Some(r as usize)),
                    row_used.update(r, true),
                    col_used.update(c, true),
                )
            } else {
                scan_inv(ranks, keys, k + 1, row, col, row_used, col_used)
            }
        }),
{
    let e = keys[k];
    let r = e.1 as int;
    let c = e.2 as int;
    assert(is_key(ranks, e));
    assert(keys.subrange(0, k + 1) =~= keys.subrange(0, k).push(e));
    // Two keys at different positions name different cells.
    assert forall|q: int| 0 <= q < keys.len() && q != k && (#[trigger] keys[q]).1 == e.1 implies keys[q].2 != e.2 by {
        assert(is_key(ranks, keys[q]));
        if keys[q].2 == e.2 {
            assert(keys[q] == keys[k]);
        }
    }
    // A taken cell was processed before `k`.
    assert forall|i: int| 0 <= i < row.len() && #[trigger] row[i] is Some implies exists|q: int|
        0 <= q < k && keys[q] == key_of(ranks, i, row[i]->0 as int) by {
        let sub = keys.subrange(0, k);
        assert(sub.contains(key_of(ranks, i, row[i]->0 as int)));
        let q = choose|q: int| 0 <= q < sub.len() && sub[q] == key_of(ranks, i, row[i]->0 as int);
        assert(keys[q] == sub[q]);
    }
    if !row_used[r] && !col_used[c] {
        let row2 = row.update(r, Some(c as usize));
        let col2 = col.update(c, Some(r as usize));
        assert(!taken(row, e));
        assert forall|q: int| 0 <= q < k && conflicts(#[trigger] keys[q], e) implies !taken(row, keys[q]) by {
            if taken(row, keys[q]) {
                if keys[q].1 == e.1 {
                    assert(row[r] is Some);
                } else {
                    assert(col[c] is Some);
                }
            }
        }
        assert forall|q: int| 0 <= q < k + 1 && q != k implies (taken(row2, #[trigger] keys[q]) <==> taken(row, keys[q])) by {
            if keys[q].1 as int == r {
                assert(keys[q].2 != e.2);
            }
        }
        assert(is_matching(row2, col2)) by {
            assert forall|i: int| 0 <= i < row2.len() && #[trigger] row2[i] is Some implies row2[i]->0 < col2.len()
                && col2[row2[i]->0 as int] is Some && col2[row2[i]->0 as int]->0 == i by {
                if i != r {
                    assert(row[i] is Some);
                    if row[i]->0 as int == c {
                        assert(col[c] is Some);
                    }
                }
            }
            assert forall|j: int| 0 <= j < col2.len() && #[trigger] col2[j] is Some implies col2[j]->0 < row2.len()
                && row2[col2[j]->0 as int] is Some && row2[col2[j]->0 as int]->0 == j by {
                if j != c {
                    assert(col[j] is Some);
                    if col[j]->0 as int == r {
                        assert(row[r] is Some);
                    }
                }
            }
        }
        assert forall|i: int|
            0 <= i < row2.len() && #[trigger] row2[i] is Some implies keys.subrange(0, k + 1).contains(
                key_of(ranks, i, row2[i]->0 as int),
            ) && is_edge(ranks, i, row2[i]->0 as int) by {
            if i == r {
                assert(keys.subrange(0, k + 1)[k] == e);
            } else {
                let q = choose|q: int| 0 <= q < k && keys[q] == key_of(ranks, i, row[i]->0 as int);
                assert(keys.subrange(0, k + 1)[q] == keys[q]);
            }
        }
        assert forall|p: int|
            0 <= p < k + 1 implies (taken(row2, #[trigger] keys[p]) <==> forall|q: int|
                0 <= q < p && conflicts(#[trigger] keys[q], keys[p]) ==> !taken(row2, keys[q])) by {
            if p < k {
                assert forall|q: int| 0 <= q < p && conflicts(#[trigger] keys[q], keys[p]) implies (
                    taken(row2, keys[q]) <==> taken(row, keys[q])) by {}
            } else {
                assert(taken(row2, e));
            }
        }
    } else {
        assert(!taken(row, e)) by {
            if taken(row, e) {
                let q = choose|q: int| 0 <= q < k && keys[q] == key_of(ranks, r, row[r]->0 as int);
                assert(keys[q] == e);
            }
        }
        assert(exists|q: int| 0 <= q < k && conflicts(#[trigger] keys[q], e) && taken(row, keys[q])) by {
            if row_used[r] {
                let q = choose|q: int| 0 <= q < k && keys[q] == key_of(ranks, r, row[r]->0 as int);
                assert(conflicts(keys[q], e) && taken(row, keys[q]));
            } else {
                assert(col[c] is Some);
                let i = col[c]->0 as int;
                assert(row[i] == Some(c as usize));
                let q = choose|q: int| 0 <= q < k && keys[q] == key_of(ranks, i, row[i]->0 as int);
                assert(conflicts(keys[q], e) && taken(row, keys[q]));
            }
        }
        assert forall|i: int|
            0 <= i < row.len() && #[trigger] row[i] is Some implies keys.subrange(0, k + 1).contains(
                key_of(ranks, i, row[i]->0 as int),
            ) && is_edge(ranks, i, row[i]->0 as int) by {
            let q = choose|q: int| 0 <= q < k && keys[q] == key_of(ranks, i, row[i]->0 as int);
            assert(keys.subrange(0, k + 1)[q] == keys[q]);
        }
    }
}

/// Greedy assignment on ranked costs. Returns the row and column
/// assignments.
pub fn solve_ranked(ranks: &Vec<Vec<Option<u64>>>) -> (res: (Vec<Option<usize>>, Vec<Option<usize>>))
    requires
        forall|i: int| 0 <= i < ranks@.len() ==> #[trigger] ranks@[i]@.len() <= ranks@[0]@.len(),
    ensures
        res.0@.len() == ranks@.len(),
        res.1@.len() == (if ranks@.len() == 0 { 0 } else { ranks@[0]@.len() }),
        is_matching(res.0@, res.1@),
        forall|i: int| 0 <= i < res.0@.len() && #[trigger] res.0@[i] is Some ==> is_edge(ranks@, i, res.0@[i]->0 as int),
        greedy_choice(ranks@, res.0@),
        forall|i: int, j: int| #[trigger] is_edge(ranks@, i, j) ==> res.0@[i] is Some || res.1@[j] is Some,
{
    let nrows = ranks.len();
    if nrows == 0 {
        return (Vec::new(), Vec::new());
    }
    let ncols = ranks[0].len();
    let mut keys = collect_keys(ranks);
    let ghost unsorted = keys@;
    sort_keys(&mut keys);
    proof {
        broadcast use group_to_multiset_ensures;
        assert forall|k: int| 0 <= k < keys@.len() implies is_key(ranks@, #[trigger] keys@[k]) by {
            assert(keys@.contains(keys@[k]));
            assert(keys@.to_multiset().count(keys@[k]) > 0);
            assert(unsorted.contains(keys@[k]));
        }
        assert forall|i: int, j: int| #[trigger] is_edge(ranks@, i, j) implies keys@.contains(key_of(ranks@, i, j)) by {
            assert(unsorted.contains(key_of(ranks@, i, j)));
            assert(unsorted.to_multiset().count(key_of(ranks@, i, j)) > 0);
        }
        unsorted.lemma_multiset_has_no_duplicates();
        assert forall|x: EdgeKey| keys@.to_multiset().contains(x) implies keys@.to_multiset().count(x) == 1 by {
            assert(unsorted.to_multiset().contains(x));
        }
        keys@.lemma_multiset_has_no_duplicates_conv();
    }
    let mut row_assign: Vec<Option<usize>> = Vec::new();
    let mut row_used: Vec<bool> = Vec::new();
    let mut i: usize = 0;
    while i < nrows
        invariant
            i <= nrows,
            row_assign@.len() == i,
            row_used@.len() == i,
            forall|x: int| 0 <= x < i ==> #[trigger] row_assign@[x] == None::<usize> && !row_used@[x],
        decreases nrows - i,
    {
        row_assign.push(None);
        row_used.push(false);
        i += 1;
    }
    let mut col_assign: Vec<Option<usize>> = Vec::new();
    let mut col_used: Vec<bool> = Vec::new();
    let mut j: usize = 0;
    while j < ncols
        invariant
            j <= ncols,
            col_assign@.len() == j,
            col_used@.len() == j,
            forall|x: int| 0 <= x < j ==> #[trigger] col_assign@[x] == None::<usize> && !col_used@[x],
        decreases ncols - j,
    {
        col_assign.push(None);
        col_used.push(false);
        j += 1;
    }
    let mut k: usize = 0;
    while k < keys.len()
        invariant
            nrows == ranks@.len(),
            ncols == ranks@[0]@.len(),
            forall|x: int| 0 <= x < ranks@.len() ==> #[trigger] ranks@[x]@.len() <= ncols,
            col_assign@.len() == ncols,
            0 <= k <= keys@.len(),
            forall|p: int| 0 <= p < keys@.len() ==> is_key(ranks@, #[trigger] keys@[p]),
            keys@.no_duplicates(),
            scan_inv(ranks@, keys@, k as int, row_assign@, col_assign@, row_used@, col_used@),
        decreases keys@.len() - k,
    {
        let (_, r, c) = keys[k];
        proof {
            assert(is_key(ranks@, keys@[k as int]));
        }
        proof {
            lemma_scan_step(ranks@, keys@, k as int, row_assign@, col_assign@, row_used@, col_used@);
        }
        if !row_used[r] && !col_used[c] {
            row_used.set(r, true);
            col_used.set(c, true);
            row_assign.set(r, Some(c));
            col_assign.set(c, Some(r));
        }
        k += 1;
    }
    proof {
        assert forall|i: int, j: int| #[trigger] is_edge(ranks@, i, j) implies row_assign@[i] is Some
            || col_assign@[j] is Some by {
            if row_assign@[i] is None && col_assign@[j] is None {
                assert forall|i2: int, j2: int|
                    #[trigger] is_edge(ranks@, i2, j2) && key_lt(key_of(ranks@, i2, j2), key_of(ranks@, i, j))
                        && (i2 == i || j2 == j) implies row_assign@[i2] != Some(j2 as usize) by {
                    if j2 == j && row_assign@[i2] == Some(j2 as usize) {
                        assert(col_assign@[j] is Some);
                    }
                }
            }
        }
    }
    (row_assign, col_assign)
}

} // verus!
