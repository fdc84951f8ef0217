//! Murty's partition of the assignment space for ranked (k-best)
//! assignments: a subproblem fixes some cells and forbids others; after the
//! best assignment of a subproblem is found, the subproblem is split into
//! children that together hold every other assignment of the parent, each
//! exactly once.
use vstd::prelude::*;
use crate::assignment::{active_pairs, is_assignment, is_full, lemma_active_pairs_assigned, lemma_active_pairs_full};

verus! {

/// A subproblem of the partition: cells that must be used and cells that
/// must not be used. `fixed_count` tells how many of the candidate's
/// assigned cells, in row order, are already fixed.
#[derive(Clone)]
pub struct Subproblem {
    pub fixed: Vec<(usize, usize)>,
    pub forbidden: Vec<(usize, usize)>,
    pub fixed_count: usize,
}

/// Assignment `y` uses every fixed cell and no forbidden cell.
pub open spec fn respects(fixed: Seq<(usize, usize)>, forbidden: Seq<(usize, usize)>, y: Seq<Option<usize>>) -> bool {
    &&& forall|k: int| 0 <= k < fixed.len() ==> y[(#[trigger] fixed[k]).0 as int] == Some(fixed[k].1)
    &&& forall|k: int| 0 <= k < forbidden.len() ==> y[(#[trigger] forbidden[k]).0 as int] != Some(forbidden[k].1)
}

/// The `k`-th child of a subproblem split on `pairs`: it keeps the first
/// `k` not-yet-fixed cells of the candidate and forbids the next one.
pub open spec fn child(
    fixed: Seq<(usize, usize)>,
    forbidden: Seq<(usize, usize)>,
    fixed_count: int,
    pairs: Seq<(usize, usize)>,
    k: int,
) -> (Seq<(usize, usize)>, Seq<(usize, usize)>) {
    (fixed + pairs.subrange(fixed_count, fixed_count + k), forbidden.push(pairs[fixed_count + k]))
}

fn copy_pairs(v: &Vec<(usize, usize)>) -> (res: Vec<(usize, usize)>)
    ensures
        res@ == v@,
{
    let mut res: Vec<(usize, usize)> = Vec::new();
    let mut k: usize = 0;
    while k < v.len()
        invariant
            k <= v@.len(),
            res@ == v@.subrange(0, k as int),
        decreases v@.len() - k,
    {
        res.push(v[k]);
        k += 1;
    }
    res
}


/// Cell `(i, j)` of a `dim x dim` subproblem is closed off: it is forbidden,
/// or it shares a row or a column with a fixed cell other than itself.
pub open spec fn is_blocked(fixed: Seq<(usize, usize)>, forbidden: Seq<(usize, usize)>, dim: int, i: int, j: int) -> bool {
    ||| exists|k: int| 0 <= k < forbidden.len() && #[trigger] forbidden[k] == (i as usize, j as usize)
    ||| exists|k: int|
        0 <= k < fixed.len() && (#[trigger] fixed[k]).0 < dim && fixed[k].1 < dim && ((fixed[k].0 == i
            && fixed[k].1 != j) || (fixed[k].1 == j && fixed[k].0 != i))
}

/// Cell `(i, j)` shares a row or a column with the fixed cell `e`.
pub open spec fn blocked_by_fixed(e: (usize, usize), dim: int, i: int, j: int) -> bool {
    e.0 < dim && e.1 < dim && ((e.0 == i && e.1 != j) || (e.1 == j && e.0 != i))
}

proof fn lemma_blocked_push_fixed(
    fixed: Seq<(usize, usize)>,
    forbidden: Seq<(usize, usize)>,
    e: (usize, usize),
    dim: int,
    i: int,
    j: int,
)
    ensures
        is_blocked(fixed.push(e), forbidden, dim, i, j) == (is_blocked(fixed, forbidden, dim, i, j)
            || blocked_by_fixed(e, dim, i, j)),
{
    let f1 = fixed.push(e);
    if is_blocked(fixed, forbidden, dim, i, j) && !(exists|k: int| 0 <= k < forbidden.len() && #[trigger] forbidden[k] == (i as usize, j as usize)) {
        let q = choose|q: int|
            0 <= q < fixed.len() && (#[trigger] fixed[q]).0 < dim && fixed[q].1 < dim && ((fixed[q].0 == i
                && fixed[q].1 != j) || (fixed[q].1 == j && fixed[q].0 != i));
        assert(f1[q] == fixed[q]);
    }
    if blocked_by_fixed(e, dim, i, j) {
        assert(f1[fixed.len() as int] == e);
    }
    if is_blocked(f1, forbidden, dim, i, j) && !(exists|k: int| 0 <= k < forbidden.len() && #[trigger] forbidden[k] == (i as usize, j as usize)) {
        let q = choose|q: int|
            0 <= q < f1.len() && (#[trigger] f1[q]).0 < dim && f1[q].1 < dim && ((f1[q].0 == i
                && f1[q].1 != j) || (f1[q].1 == j && f1[q].0 != i));
        if q < fixed.len() {
            assert(fixed[q] == f1[q]);
        }
    }
}

/// Every cell of `cells` lies in a `dim x dim` matrix.
pub open spec fn cells_within(cells: Seq<(usize, usize)>, dim: int) -> bool {
    forall|k: int| 0 <= k < cells.len() ==> (#[trigger] cells[k]).0 < dim && cells[k].1 < dim
}

/// `y` assigns every one of `dim` rows a column that `mask` leaves open.
pub open spec fn avoids(mask: Seq<Vec<bool>>, dim: int, y: Seq<Option<usize>>) -> bool {
    &&& y.len() == dim
    &&& forall|i: int| 0 <= i < dim ==> #[trigger] y[i] is Some && y[i]->0 < dim && !mask[i]@[y[i]->0 as int]
}

/// A mask of closed-off cells is exact for a subproblem: a full assignment
/// that keeps to the open cells uses every fixed cell and no forbidden one,
/// and an assignment that uses every fixed cell and no forbidden one keeps
/// to the open cells.
proof fn lemma_mask_exact(
    fixed: Seq<(usize, usize)>,
    forbidden: Seq<(usize, usize)>,
    dim: int,
    mask: Seq<Vec<bool>>,
)
    requires
        0 <= dim <= usize::MAX,
        mask.len() == dim,
        forall|i: int| 0 <= i < dim ==> #[trigger] mask[i]@.len() == dim,
        forall|i: int, j: int| 0 <= i < dim && 0 <= j < dim ==> #[trigger] mask[i]@[j] == is_blocked(fixed, forbidden, dim, i, j),
    ensures
        cells_within(fixed, dim) && cells_within(forbidden, dim) ==> forall|y: Seq<Option<usize>>|
            #[trigger] avoids(mask, dim, y) ==> respects(fixed, forbidden, y),
        forall|y: Seq<Option<usize>>|
            is_assignment(y, dim, dim) && #[trigger] respects(fixed, forbidden, y) ==> forall|i: int|
                0 <= i < dim && #[trigger] y[i] is Some ==> !mask[i]@[y[i]->0 as int],
{
    if cells_within(fixed, dim) && cells_within(forbidden, dim) {
        assert forall|y: Seq<Option<usize>>| #[trigger] avoids(mask, dim, y) implies respects(fixed, forbidden, y) by {
            assert forall|k: int| 0 <= k < fixed.len() implies y[(#[trigger] fixed[k]).0 as int] == Some(fixed[k].1) by {
                let r = fixed[k].0 as int;
                assert(y[r] is Some);
                let c2 = y[r]->0 as int;
                if c2 != fixed[k].1 {
                    assert(is_blocked(fixed, forbidden, dim, r, c2));
                }
            }
            assert forall|k: int| 0 <= k < forbidden.len() implies y[(#[trigger] forbidden[k]).0 as int] != Some(forbidden[k].1) by {
                let r = forbidden[k].0 as int;
                let c = forbidden[k].1 as int;
                if y[r] == Some(forbidden[k].1) {
                    assert(is_blocked(fixed, forbidden, dim, r, c));
                    assert(mask[r]@[c]);
                }
            }
        }
    }
    assert forall|y: Seq<Option<usize>>|
        is_assignment(y, dim, dim) && #[trigger] respects(fixed, forbidden, y) implies forall|i: int|
            0 <= i < dim && #[trigger] y[i] is Some ==> !mask[i]@[y[i]->0 as int] by {
        assert forall|i: int| 0 <= i < dim && #[trigger] y[i] is Some implies !mask[i]@[y[i]->0 as int] by {
            let j = y[i]->0 as int;
            if is_blocked(fixed, forbidden, dim, i, j) {
                if exists|k: int| 0 <= k < forbidden.len() && #[trigger] forbidden[k] == (i as usize, j as usize) {
                    let k = choose|k: int| 0 <= k < forbidden.len() && #[trigger] forbidden[k] == (i as usize, j as usize);
                    assert(forbidden[k].0 as int == i && forbidden[k].1 as int == j);
                    assert(y[forbidden[k].0 as int] != Some(forbidden[k].1));
                } else {
                    let k = choose|k: int|
                        0 <= k < fixed.len() && (#[trigger] fixed[k]).0 < dim && fixed[k].1 < dim && ((fixed[k].0 == i
                            && fixed[k].1 != j) || (fixed[k].1 == j && fixed[k].0 != i));
                    assert(y[fixed[k].0 as int] == Some(fixed[k].1));
                    if fixed[k].1 == j && fixed[k].0 != i {
                        assert(y[fixed[k].0 as int] is Some);
                    }
                }
            }
        }
    }
}

/// The cells that solving the subproblem must avoid, as a `dim x dim` mask:
/// a full assignment keeps to the open cells exactly when it uses every
/// fixed cell and no forbidden one.
pub fn blocked_cells(sub: &Subproblem, dim: usize) -> (mask: Vec<Vec<bool>>)
    ensures
        mask@.len() == dim,
        forall|i: int| 0 <= i < dim ==> #[trigger] mask@[i]@.len() == dim,
        forall|i: int, j: int|
            0 <= i < dim && 0 <= j < dim ==> #[trigger] mask@[i]@[j] == is_blocked(
                sub.fixed@,
                sub.forbidden@,
                dim as int,
                i,
                j,
            ),
        cells_within(sub.fixed@, dim as int) && cells_within(sub.forbidden@, dim as int) ==> forall|y: Seq<Option<usize>>|
            #[trigger] avoids(mask@, dim as int, y) ==> respects(sub.fixed@, sub.forbidden@, y),
        forall|y: Seq<Option<usize>>|
            is_assignment(y, dim as int, dim as int) && #[trigger] respects(sub.fixed@, sub.forbidden@, y) ==> forall|i: int|
                0 <= i < dim && #[trigger] y[i] is Some ==> !mask@[i]@[y[i]->0 as int],
{
    let mut mask: Vec<Vec<bool>> = Vec::new();
    let mut i: usize = 0;
    while i < dim
        invariant
            i <= dim,
            mask@.len() == i,
            forall|x: int, y: int| 0 <= x < i && 0 <= y < dim ==> #[trigger] mask@[x]@[y] == false,
            forall|x: int| 0 <= x < i ==> #[trigger] mask@[x]@.len() == dim,
        decreases dim - i,
    {
        let mut row: Vec<bool> = Vec::new();
        let mut j: usize = 0;
        while j < dim
            invariant
                j <= dim,
                row@.len() == j,
                forall|y: int| 0 <= y < j ==> #[trigger] row@[y] == false,
            decreases dim - j,
        {
            row.push(false);
            j += 1;
        }
        mask.push(row);
        i += 1;
    }
    let mut k: usize = 0;
    while k < sub.forbidden.len()
        invariant
            k <= sub.forbidden@.len(),
            mask@.len() == dim,
            forall|x: int| 0 <= x < dim ==> #[trigger] mask@[x]@.len() == dim,
            forall|x: int, y: int|
                0 <= x < dim && 0 <= y < dim ==> #[trigger] mask@[x]@[y] == is_blocked(
                    Seq::empty(),
                    sub.forbidden@.subrange(0, k as int),
                    dim as int,
                    x,
                    y,
                ),
        decreases sub.forbidden@.len() - k,
    {
        let (r, c) = sub.forbidden[k];
        let ghost before = mask@;
        if r < dim && c < dim {
            mask[r].set(c, true);
        }
        proof {
            let f0 = sub.forbidden@.subrange(0, k as int);
            let f1 = sub.forbidden@.subrange(0, k + 1);
            assert forall|x: int, y: int| 0 <= x < dim && 0 <= y < dim implies #[trigger] mask@[x]@[y]
                == is_blocked(Seq::empty(), f1, dim as int, x, y) by {
                if is_blocked(Seq::empty(), f0, dim as int, x, y) {
                    let q = choose|q: int| 0 <= q < f0.len() && #[trigger] f0[q] == (x as usize, y as usize);
                    assert(f1[q] == f0[q]);
                }
                if x == r && y == c {
                    assert(f1[k as int] == (x as usize, y as usize));
                }
                if is_blocked(Seq::empty(), f1, dim as int, x, y) {
                    let q = choose|q: int| 0 <= q < f1.len() && #[trigger] f1[q] == (x as usize, y as usize);
                    if q < k {
                        assert(f0[q] == f1[q]);
                    }
                }
            }
        }
        k += 1;
    }
    proof {
        assert(sub.forbidden@.subrange(0, sub.forbidden@.len() as int) =~= sub.forbidden@);
    }
    let mut k: usize = 0;
    while k < sub.fixed.len()
        invariant
            k <= sub.fixed@.len(),
            mask@.len() == dim,
            forall|x: int| 0 <= x < dim ==> #[trigger] mask@[x]@.len() == dim,
            forall|x: int, y: int|
                0 <= x < dim && 0 <= y < dim ==> #[trigger] mask@[x]@[y] == is_blocked(
                    sub.fixed@.subrange(0, k as int),
                    sub.forbidden@,
                    dim as int,
                    x,
                    y,
                ),
        decreases sub.fixed@.len() - k,
    {
        let (r, c) = sub.fixed[k];
        let ghost f0 = sub.fixed@.subrange(0, k as int);
        let ghost e = sub.fixed@[k as int];
        if r < dim && c < dim {
            let mut j: usize = 0;
            while j < dim
                invariant
                    r < dim,
                    c < dim,
                    j <= dim,
                    mask@.len() == dim,
                    forall|x: int| 0 <= x < dim ==> #[trigger] mask@[x]@.len() == dim,
                    forall|x: int, y: int|
                        0 <= x < dim && 0 <= y < dim ==> #[trigger] mask@[x]@[y] == (is_blocked(
                            f0,
                            sub.forbidden@,
                            dim as int,
                            x,
                            y,
                        ) || (x == r && y < j && y != c)),
                decreases dim - j,
            {
                if j != c {
                    mask[r].set(j, true);
                }
                j += 1;
            }
            let mut i: usize = 0;
            while i < dim
                invariant
                    r < dim,
                    c < dim,
                    i <= dim,
                    mask@.len() == dim,
                    forall|x: int| 0 <= x < dim ==> #[trigger] mask@[x]@.len() == dim,
                    forall|x: int, y: int|
                        0 <= x < dim && 0 <= y < dim ==> #[trigger] mask@[x]@[y] == (is_blocked(
                            f0,
                            sub.forbidden@,
                            dim as int,
                            x,
                            y,
                        ) || (x == r && y != c) || (y == c && x < i && x != r)),
                decreases dim - i,
            {
                if i != r {
                    mask[i].set(c, true);
                }
                i += 1;
            }
        }
        proof {
            assert(sub.fixed@.subrange(0, k + 1) =~= f0.push(e));
            assert forall|x: int, y: int| 0 <= x < dim && 0 <= y < dim implies #[trigger] mask@[x]@[y]
                == is_blocked(sub.fixed@.subrange(0, k + 1), sub.forbidden@, dim as int, x, y) by {
                lemma_blocked_push_fixed(f0, sub.forbidden@, e, dim as int, x, y);
            }
        }
        k += 1;
    }
    proof {
        assert(sub.fixed@.subrange(0, sub.fixed@.len() as int) =~= sub.fixed@);
        lemma_mask_exact(sub.fixed@, sub.forbidden@, dim as int, mask@);
    }
    mask
}


/// Whether an assignment found for the subproblem really uses every fixed
/// cell and no forbidden one.
pub fn check_subproblem(sub: &Subproblem, row_assign: &Vec<Option<usize>>) -> (ok: bool)
    requires
        forall|k: int| 0 <= k < sub.fixed@.len() ==> (#[trigger] sub.fixed@[k]).0 < row_assign@.len(),
        forall|k: int| 0 <= k < sub.forbidden@.len() ==> (#[trigger] sub.forbidden@[k]).0 < row_assign@.len(),
    ensures
        ok == respects(sub.fixed@, sub.forbidden@, row_assign@),
{
    let mut k: usize = 0;
    while k < sub.fixed.len()
        invariant
            k <= sub.fixed@.len(),
            forall|q: int| 0 <= q < sub.fixed@.len() ==> (#[trigger] sub.fixed@[q]).0 < row_assign@.len(),
            forall|q: int| 0 <= q < k ==> row_assign@[(#[trigger] sub.fixed@[q]).0 as int] == Some(sub.fixed@[q].1),
        decreases sub.fixed@.len() - k,
    {
        let (r, c) = sub.fixed[k];
        match row_assign[r] {
            Some(j) => {
                if j != c {
                    return false;
                }
            },
            None => {
                return false;
            },
        }
        k += 1;
    }
    let mut k: usize = 0;
    while k < sub.forbidden.len()
        invariant
            k <= sub.forbidden@.len(),
            forall|q: int| 0 <= q < sub.forbidden@.len() ==> (#[trigger] sub.forbidden@[q]).0 < row_assign@.len(),
            forall|q: int| 0 <= q < sub.fixed@.len() ==> row_assign@[(#[trigger] sub.fixed@[q]).0 as int] == Some(sub.fixed@[q].1),
            forall|q: int| 0 <= q < k ==> row_assign@[(#[trigger] sub.forbidden@[q]).0 as int] != Some(sub.forbidden@[q].1),
        decreases sub.forbidden@.len() - k,
    {
        let (r, c) = sub.forbidden[k];
        match row_assign[r] {
            Some(j) => {
                if j == c {
                    return false;
                }
            },
            None => {},
        }
        k += 1;
    }
    true
}

/// Splits a subproblem around its best assignment `row_assign`: one child
/// per assigned cell beyond the first `fixed_count`, the `k`-th keeping the
/// earlier of those cells fixed and forbidding the `k`-th.
pub fn branch(sub: &Subproblem, row_assign: &Vec<Option<usize>>) -> (children: Vec<Subproblem>)
    ensures
        ({
            let pairs = active_pairs(row_assign@, row_assign@.len() as int);
            &&& children@.len() == (if sub.fixed_count < pairs.len() {
                pairs.len() - sub.fixed_count
            } else {
                0
            })
            &&& forall|k: int|
                0 <= k < children@.len() ==> (#[trigger] children@[k]).fixed@ == child(
                    sub.fixed@,
                    sub.forbidden@,
                    sub.fixed_count as int,
                    pairs,
                    k,
                ).0 && children@[k].forbidden@ == child(
                    sub.fixed@,
                    sub.forbidden@,
                    sub.fixed_count as int,
                    pairs,
                    k,
                ).1 && children@[k].fixed_count == sub.fixed@.len() + k
        }),
{
    let mut active: Vec<(usize, usize)> = Vec::new();
    let mut r: usize = 0;
    while r < row_assign.len()
        invariant
            r <= row_assign@.len(),
            active@ == active_pairs(row_assign@, r as int),
        decreases row_assign@.len() - r,
    {
        if let Some(c) = row_assign[r] {
            active.push((r, c));
        }
        r += 1;
    }
    let ghost pairs = active@;
    let mut children: Vec<Subproblem> = Vec::new();
    let mut current_fixed = copy_pairs(&sub.fixed);
    let mut k: usize = sub.fixed_count;
    proof {
        if k <= pairs.len() {
            assert(pairs.subrange(sub.fixed_count as int, k as int) =~= Seq::empty());
            assert(current_fixed@ =~= sub.fixed@ + pairs.subrange(sub.fixed_count as int, k as int));
        }
    }
    while k < active.len()
        invariant
            active@ == pairs,
            sub.fixed_count <= k,
            k > pairs.len() ==> k == sub.fixed_count,
            k <= pairs.len() ==> current_fixed@ == sub.fixed@ + pairs.subrange(sub.fixed_count as int, k as int),
            children@.len() == k - sub.fixed_count,
            forall|q: int|
                0 <= q < children@.len() ==> (#[trigger] children@[q]).fixed@ == child(
                    sub.fixed@,
                    sub.forbidden@,
                    sub.fixed_count as int,
                    pairs,
                    q,
                ).0 && children@[q].forbidden@ == child(
                    sub.fixed@,
                    sub.forbidden@,
                    sub.fixed_count as int,
                    pairs,
                    q,
                ).1 && children@[q].fixed_count == sub.fixed@.len() + q,
        decreases pairs.len() - k,
    {
        let (r, c) = active[k];
        let mut new_forbidden = copy_pairs(&sub.forbidden);
        new_forbidden.push((r, c));
        let fixed_len = current_fixed.len();
        let new_sub = Subproblem { fixed: copy_pairs(&current_fixed), forbidden: new_forbidden, fixed_count: fixed_len };
        children.push(new_sub);
        current_fixed.push((r, c));
        proof {
            let q0 = (k - sub.fixed_count) as int;
            assert(children@[q0].fixed@ == child(sub.fixed@, sub.forbidden@, sub.fixed_count as int, pairs, q0).0);
            assert(pairs.subrange(sub.fixed_count as int, k + 1) =~= pairs.subrange(sub.fixed_count as int, k as int).push((r, c)));
            assert(current_fixed@ =~= sub.fixed@ + pairs.subrange(sub.fixed_count as int, k + 1));
        }
        k += 1;
    }
    children
}


/// No child of a split admits the assignment the split was made around:
/// each child forbids one of its cells.
pub proof fn lemma_children_exclude_candidate(
    fixed: Seq<(usize, usize)>,
    forbidden: Seq<(usize, usize)>,
    fixed_count: int,
    x: Seq<Option<usize>>,
    k: int,
)
    requires
        x.len() <= usize::MAX,
        0 <= fixed_count,
        0 <= k,
        fixed_count + k < active_pairs(x, x.len() as int).len(),
    ensures
        !respects(
            child(fixed, forbidden, fixed_count, active_pairs(x, x.len() as int), k).0,
            child(fixed, forbidden, fixed_count, active_pairs(x, x.len() as int), k).1,
            x,
        ),
{
    let pairs = active_pairs(x, x.len() as int);
    lemma_active_pairs_assigned(x, x.len() as int);
    let fb = child(fixed, forbidden, fixed_count, pairs, k).1;
    assert(fb[forbidden.len() as int] == pairs[fixed_count + k]);
    assert(x[pairs[fixed_count + k].0 as int] == Some(pairs[fixed_count + k].1));
}

/// Murty's partition: when a subproblem's fixed cells are the first
/// `fixed_count` cells of its best full assignment `x`, every other full
/// assignment `y` that the subproblem admits is admitted by exactly one of
/// the children of the split around `x`.
pub proof fn lemma_children_partition(
    fixed: Seq<(usize, usize)>,
    forbidden: Seq<(usize, usize)>,
    fixed_count: int,
    x: Seq<Option<usize>>,
    y: Seq<Option<usize>>,
)
    requires
        x.len() <= usize::MAX,
        y.len() == x.len(),
        is_full(x),
        is_full(y),
        0 <= fixed_count <= x.len(),
        fixed == active_pairs(x, x.len() as int).subrange(0, fixed_count),
        respects(fixed, forbidden, y),
        y != x,
    ensures
        exists|k: int|
            0 <= k < x.len() - fixed_count && #[trigger] respects(
                child(fixed, forbidden, fixed_count, active_pairs(x, x.len() as int), k).0,
                child(fixed, forbidden, fixed_count, active_pairs(x, x.len() as int), k).1,
                y,
            ),
        forall|k1: int, k2: int|
            0 <= k1 < x.len() - fixed_count && 0 <= k2 < x.len() - fixed_count && #[trigger] respects(
                child(fixed, forbidden, fixed_count, active_pairs(x, x.len() as int), k1).0,
                child(fixed, forbidden, fixed_count, active_pairs(x, x.len() as int), k1).1,
                y,
            ) && #[trigger] respects(
                child(fixed, forbidden, fixed_count, active_pairs(x, x.len() as int), k2).0,
                child(fixed, forbidden, fixed_count, active_pairs(x, x.len() as int), k2).1,
                y,
            ) ==> k1 == k2,
{
    let n = x.len() as int;
    let pairs = active_pairs(x, n);
    lemma_active_pairs_full(x, n);
    // `y` agrees with `x` on the fixed rows.
    assert forall|t: int| 0 <= t < fixed_count implies y[t] == x[t] by {
        assert(fixed[t] == pairs[t]);
        assert(y[fixed[t].0 as int] == Some(fixed[t].1));
    }
    // The first row where they differ.
    assert(exists|t: int| 0 <= t < n && y[t] != x[t]) by {
        if forall|t: int| 0 <= t < n ==> y[t] == x[t] {
            assert(y =~= x);
        }
    }
    let d = choose|t: int| 0 <= t < n && y[t] != x[t] && forall|u: int| 0 <= u < t ==> y[u] == x[u];
    assert(exists|t: int| 0 <= t < n && y[t] != x[t] && forall|u: int| 0 <= u < t ==> y[u] == x[u]) by {
        let t0 = choose|t: int| 0 <= t < n && y[t] != x[t];
        lemma_least_difference(x, y, t0);
    }
    assert(d >= fixed_count);
    // Child `d - fixed_count` admits `y`, and no other does.
    assert forall|k: int| 0 <= k < n - fixed_count implies (#[trigger] respects(
        child(fixed, forbidden, fixed_count, pairs, k).0,
        child(fixed, forbidden, fixed_count, pairs, k).1,
        y,
    ) <==> k == d - fixed_count) by {
        let (cf, cb) = child(fixed, forbidden, fixed_count, pairs, k);
        assert(cf.len() == fixed_count + k);
        assert forall|t: int| 0 <= t < cf.len() implies #[trigger] cf[t] == pairs[t] by {
            if t >= fixed_count {
                assert(cf[t] == pairs.subrange(fixed_count, fixed_count + k)[t - fixed_count]);
            }
        }
        assert(cb[forbidden.len() as int] == pairs[fixed_count + k]);
        if k == d - fixed_count {
            assert forall|q: int| 0 <= q < cf.len() implies y[(#[trigger] cf[q]).0 as int] == Some(cf[q].1) by {
                assert(cf[q] == pairs[q]);
                assert(y[q] == x[q]);
            }
            assert forall|q: int| 0 <= q < cb.len() implies y[(#[trigger] cb[q]).0 as int] != Some(cb[q].1) by {
                if q < forbidden.len() {
                    assert(cb[q] == forbidden[q]);
                }
            }
        } else if k < d - fixed_count {
            let t = fixed_count + k;
            assert(y[t] == x[t]);
            assert(y[cb[forbidden.len() as int].0 as int] == Some(cb[forbidden.len() as int].1));
        } else {
            assert(cf[d] == pairs[d]);
            assert(y[cf[d].0 as int] != Some(cf[d].1));
        }
    }
    assert(respects(
        child(fixed, forbidden, fixed_count, pairs, d - fixed_count).0,
        child(fixed, forbidden, fixed_count, pairs, d - fixed_count).1,
        y,
    ));
}

proof fn lemma_least_difference(x: Seq<Option<usize>>, y: Seq<Option<usize>>, t0: int)
    requires
        0 <= t0 < x.len(),
        y[t0] != x[t0],
    ensures
        exists|t: int| 0 <= t < x.len() && y[t] != x[t] && forall|u: int| 0 <= u < t ==> y[u] == x[u],
    decreases t0,
{
    if exists|u: int| 0 <= u < t0 && y[u] != x[u] {
        let u = choose|u: int| 0 <= u < t0 && y[u] != x[u];
        lemma_least_difference(x, y, u);
    } else {
        assert(forall|u: int| 0 <= u < t0 ==> y[u] == x[u]);
    }
}

/// A child's fixed cells are again the leading cells of every full
/// assignment it admits, so the partition can be applied to it in turn.
pub proof fn lemma_child_fixed_is_prefix(
    fixed: Seq<(usize, usize)>,
    forbidden: Seq<(usize, usize)>,
    fixed_count: int,
    x: Seq<Option<usize>>,
    k: int,
    z: Seq<Option<usize>>,
)
    requires
        x.len() <= usize::MAX,
        z.len() == x.len(),
        is_full(x),
        is_full(z),
        0 <= fixed_count,
        0 <= k,
        fixed_count + k < x.len(),
        fixed == active_pairs(x, x.len() as int).subrange(0, fixed_count),
        respects(
            child(fixed, forbidden, fixed_count, active_pairs(x, x.len() as int), k).0,
            child(fixed, forbidden, fixed_count, active_pairs(x, x.len() as int), k).1,
            z,
        ),
    ensures
        child(fixed, forbidden, fixed_count, active_pairs(x, x.len() as int), k).0 == active_pairs(
            z,
            z.len() as int,
        ).subrange(0, fixed_count + k),
{
    let n = x.len() as int;
    let pairs = active_pairs(x, n);
    lemma_active_pairs_full(x, n);
    lemma_active_pairs_full(z, n);
    let cf = child(fixed, forbidden, fixed_count, pairs, k).0;
    let zp = active_pairs(z, n);
    assert forall|t: int| 0 <= t < fixed_count + k implies #[trigger] cf[t] == zp.subrange(0, fixed_count + k)[t] by {
        if t >= fixed_count {
            assert(cf[t] == pairs.subrange(fixed_count, fixed_count + k)[t - fixed_count]);
        }
        assert(cf[t] == pairs[t]);
        assert(z[cf[t].0 as int] == Some(cf[t].1));
    }
    assert(cf =~= zp.subrange(0, fixed_count + k));
}

} // verus!
