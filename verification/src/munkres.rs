//! The marking machine of the Kuhn-Munkres (Hungarian) method: starred
//! and primed zeros of the reduced cost matrix and the row and column
//! covers. Which cells are zeros changes as the costs are shifted, so each
//! round is handed the current zero pattern; the machine decides what gets
//! primed, covered and starred.
use vstd::prelude::*;
use crate::assignment::is_matching;
use crate::basis::row_count;

verus! {

/// The mark on a cell.
#[derive(Clone, Copy, Debug, PartialEq, Eq, Structural)]
pub enum Mark {
    Unmarked,
    Star,
    Prime,
}

pub open spec fn is_star(g: Seq<Vec<Mark>>, i: int, j: int) -> bool {
    g[i]@[j] == Mark::Star
}

pub open spec fn is_prime(g: Seq<Vec<Mark>>, i: int, j: int) -> bool {
    g[i]@[j] == Mark::Prime
}

/// Row `i` has a starred zero.
pub open spec fn row_star(g: Seq<Vec<Mark>>, n: int, i: int) -> bool {
    exists|j: int| 0 <= j < n && #[trigger] is_star(g, i, j)
}

/// Row `i` has a primed zero.
pub open spec fn row_prime(g: Seq<Vec<Mark>>, n: int, i: int) -> bool {
    exists|j: int| 0 <= j < n && #[trigger] is_prime(g, i, j)
}

/// Column `j` has a starred zero.
pub open spec fn col_star(g: Seq<Vec<Mark>>, n: int, j: int) -> bool {
    exists|i: int| 0 <= i < n && #[trigger] is_star(g, i, j)
}

/// An `n x n` marking whose stars are independent (at most one per row
/// and per column) and with at most one prime per row.
pub open spec fn grid_ok(g: Seq<Vec<Mark>>, n: int) -> bool {
    &&& g.len() == n
    &&& forall|i: int| 0 <= i < n ==> (#[trigger] g[i])@.len() == n
    &&& forall|i: int, j1: int, j2: int|
        0 <= i < n && 0 <= j1 < n && 0 <= j2 < n && #[trigger] is_star(g, i, j1) && #[trigger] is_star(g, i, j2) ==> j1 == j2
    &&& forall|j: int, i1: int, i2: int|
        0 <= j < n && 0 <= i1 < n && 0 <= i2 < n && #[trigger] is_star(g, i1, j) && #[trigger] is_star(g, i2, j) ==> i1 == i2
    &&& forall|i: int, j1: int, j2: int|
        0 <= i < n && 0 <= j1 < n && 0 <= j2 < n && #[trigger] is_prime(g, i, j1) && #[trigger] is_prime(g, i, j2) ==> j1 == j2
}

/// No primes.
pub open spec fn no_primes(g: Seq<Vec<Mark>>, n: int) -> bool {
    forall|i: int, j: int| 0 <= i < n && 0 <= j < n ==> !#[trigger] is_prime(g, i, j)
}

/// The stars of `zero` taken greedily in row-major order: a zero is starred
/// exactly when no earlier zero of its row or column was.
pub open spec fn greedy_stars(zero: Seq<Vec<bool>>, g: Seq<Vec<Mark>>, n: int) -> bool {
    forall|i: int, j: int|
        0 <= i < n && 0 <= j < n ==> (#[trigger] is_star(g, i, j) <==> (zero[i]@[j] && (forall|j2: int|
            0 <= j2 < j ==> !#[trigger] is_star(g, i, j2)) && (forall|i2: int| 0 <= i2 < i ==> !#[trigger] is_star(g, i2, j))))
}

/// The state between the steps of a round: rows are covered exactly when
/// they hold both a star and a prime, primed rows (but `except`) hold a
/// star, a star's column is covered exactly when its row is not, primes
/// sit in uncovered columns, covered columns hold a star, and a prime in
/// the column of a covered row's star is younger than that row's prime.
pub open spec fn phase(
    g: Seq<Vec<Mark>>,
    rc: Seq<bool>,
    cc: Seq<bool>,
    n: int,
    stamp: Seq<Seq<int>>,
    clock: int,
    except: int,
) -> bool {
    &&& grid_ok(g, n)
    &&& rc.len() == n
    &&& cc.len() == n
    &&& clock >= 0
    &&& stamp.len() == n
    &&& forall|i: int| 0 <= i < n ==> (#[trigger] stamp[i]).len() == n
    &&& forall|i: int| 0 <= i < n ==> #[trigger] rc[i] == (row_star(g, n, i) && row_prime(g, n, i))
    &&& forall|i: int| 0 <= i < n && i != except && #[trigger] row_prime(g, n, i) ==> row_star(g, n, i)
    &&& forall|i: int, j: int| 0 <= i < n && 0 <= j < n && #[trigger] is_star(g, i, j) ==> cc[j] == !rc[i]
    &&& forall|i: int, j: int| 0 <= i < n && 0 <= j < n && #[trigger] is_prime(g, i, j) ==> !cc[j]
    &&& forall|j: int| 0 <= j < n && #[trigger] cc[j] ==> col_star(g, n, j)
    &&& forall|i: int, j: int, j2: int, i2: int|
        0 <= i < n && 0 <= j < n && 0 <= j2 < n && 0 <= i2 < n && #[trigger] is_star(g, i, j) && rc[i]
            && #[trigger] is_prime(g, i, j2) && #[trigger] is_prime(g, i2, j) ==> stamp[i2][j] > stamp[i][j2]
    &&& forall|i: int, j: int| 0 <= i < n && 0 <= j < n && #[trigger] is_prime(g, i, j) ==> 0 <= stamp[i][j] < clock
}

proof fn lemma_count_full(row: Seq<bool>, c: int)
    requires
        0 <= c <= row.len(),
    ensures
        row_count(row, c) <= c,
        row_count(row, c) == c <==> forall|k: int| 0 <= k < c ==> #[trigger] row[k],
    decreases c,
{
    if c > 0 {
        lemma_count_full(row, c - 1);
        if row_count(row, c) == c {
            assert forall|k: int| 0 <= k < c implies #[trigger] row[k] by {
                if k < c - 1 {
                } else {
                }
            }
        }
    }
}

/// Covers exactly the columns that hold a star and tells whether that is
/// every column (the starred zeros then form a complete assignment).
fn cover_star_columns(mask: &Vec<Vec<Mark>>, n: usize, col_cover: &mut Vec<bool>) -> (all: bool)
    requires
        grid_ok(mask@, n as int),
        old(col_cover)@.len() == n,
        forall|j: int| 0 <= j < n ==> !#[trigger] old(col_cover)@[j],
    ensures
        final(col_cover)@.len() == n,
        forall|j: int| 0 <= j < n ==> #[trigger] final(col_cover)@[j] == col_star(mask@, n as int, j),
        all == forall|j: int| 0 <= j < n ==> #[trigger] col_star(mask@, n as int, j),
{
    let mut j: usize = 0;
    while j < n
        invariant
            grid_ok(mask@, n as int),
            j <= n,
            col_cover@.len() == n,
            forall|x: int| 0 <= x < j ==> #[trigger] col_cover@[x] == col_star(mask@, n as int, x),
            forall|x: int| j <= x < n ==> !#[trigger] col_cover@[x],
        decreases n - j,
    {
        let mut i: usize = 0;
        let mut any = false;
        while i < n
            invariant
                grid_ok(mask@, n as int),
                j < n,
                i <= n,
                any == exists|x: int| 0 <= x < i && #[trigger] is_star(mask@, x, j as int),
            decreases n - i,
        {
            let starred = mask[i][j] == Mark::Star;
            let ghost any0 = any;
            if starred {
                any = true;
            }
            proof {
                assert(starred == is_star(mask@, i as int, j as int));
                if any0 {
                    let x = choose|x: int| 0 <= x < i && #[trigger] is_star(mask@, x, j as int);
                    assert(0 <= x < i + 1 && is_star(mask@, x, j as int));
                }
                if starred {
                    assert(0 <= i < i + 1 && is_star(mask@, i as int, j as int));
                }
                if !any {
                    assert forall|x: int| 0 <= x < i + 1 implies !#[trigger] is_star(mask@, x, j as int) by {
                        if x < i {
                            if is_star(mask@, x, j as int) {
                                assert(exists|y: int| 0 <= y < i && #[trigger] is_star(mask@, y, j as int));
                            }
                        }
                    }
                }
            }
            i += 1;
        }
        if any {
            col_cover.set(j, true);
        }
        j += 1;
    }
    let mut count: usize = 0;
    let mut k: usize = 0;
    while k < n
        invariant
            k <= n,
            col_cover@.len() == n,
            count == row_count(col_cover@, k as int),
            count <= k,
        decreases n - k,
    {
        if col_cover[k] {
            count += 1;
        }
        k += 1;
    }
    proof {
        lemma_count_full(col_cover@, n as int);
        if count >= n {
            assert forall|x: int| 0 <= x < n implies #[trigger] col_star(mask@, n as int, x) by {
                assert(col_cover@[x]);
            }
        } else {
            let x = choose|x: int| 0 <= x < n && !#[trigger] col_cover@[x];
            assert(!col_star(mask@, n as int, x));
        }
    }
    count >= n
}

fn set_mark(mask: &mut Vec<Vec<Mark>>, i: usize, j: usize, m: Mark)
    requires
        i < old(mask)@.len(),
        j < old(mask)@[i as int]@.len(),
    ensures
        final(mask)@.len() == old(mask)@.len(),
        final(mask)@[i as int]@ == old(mask)@[i as int]@.update(j as int, m),
        forall|x: int| 0 <= x < old(mask)@.len() && x != i ==> #[trigger] final(mask)@[x] == old(mask)@[x],
{
    let mut row: Vec<Mark> = Vec::new();
    std::mem::swap(&mut row, &mut mask[i]);
    row.set(j, m);
    mask.set(i, row);
}

/// Cells `(x, y)` at or after `(i, j)` in row-major order.
spec fn not_before(x: int, y: int, i: int, j: int) -> bool {
    x > i || (x == i && y >= j)
}

proof fn lemma_same_prefixes(a: Seq<Vec<Mark>>, b: Seq<Vec<Mark>>, x: int, y: int)
    requires
        forall|y2: int| 0 <= y2 < y ==> #[trigger] is_star(a, x, y2) == is_star(b, x, y2),
        forall|x2: int| 0 <= x2 < x ==> #[trigger] is_star(a, x2, y) == is_star(b, x2, y),
    ensures
        (forall|y2: int| 0 <= y2 < y ==> !#[trigger] is_star(a, x, y2)) == (forall|y2: int| 0 <= y2 < y ==> !#[trigger] is_star(b, x, y2)),
        (forall|x2: int| 0 <= x2 < x ==> !#[trigger] is_star(a, x2, y)) == (forall|x2: int| 0 <= x2 < x ==> !#[trigger] is_star(b, x2, y)),
{
    if forall|y2: int| 0 <= y2 < y ==> !#[trigger] is_star(a, x, y2) {
        assert forall|y2: int| 0 <= y2 < y implies !#[trigger] is_star(b, x, y2) by {
            assert(!is_star(a, x, y2));
        }
    }
    if forall|y2: int| 0 <= y2 < y ==> !#[trigger] is_star(b, x, y2) {
        assert forall|y2: int| 0 <= y2 < y implies !#[trigger] is_star(a, x, y2) by {
            assert(!is_star(b, x, y2));
        }
    }
    if forall|x2: int| 0 <= x2 < x ==> !#[trigger] is_star(a, x2, y) {
        assert forall|x2: int| 0 <= x2 < x implies !#[trigger] is_star(b, x2, y) by {
            assert(!is_star(a, x2, y));
        }
    }
    if forall|x2: int| 0 <= x2 < x ==> !#[trigger] is_star(b, x2, y) {
        assert forall|x2: int| 0 <= x2 < x implies !#[trigger] is_star(a, x2, y) by {
            assert(!is_star(b, x2, y));
        }
    }
}

/// Cell `(i, j)` is a zero in an uncovered row and an uncovered column.
pub open spec fn uncovered_zero(zero: Seq<Vec<bool>>, rc: Seq<bool>, cc: Seq<bool>, i: int, j: int) -> bool {
    !rc[i] && !cc[j] && zero[i]@[j]
}

/// The first uncovered zero in row-major order.
fn first_uncovered_zero(zero: &Vec<Vec<bool>>, rc: &Vec<bool>, cc: &Vec<bool>, n: usize) -> (found: Option<(usize, usize)>)
    requires
        zero@.len() == n,
        forall|i: int| 0 <= i < n ==> (#[trigger] zero@[i])@.len() == n,
        rc@.len() == n,
        cc@.len() == n,
    ensures
        found matches Some((i, j)) ==> i < n && j < n && uncovered_zero(zero@, rc@, cc@, i as int, j as int)
            && forall|x: int, y: int|
            0 <= x < n && 0 <= y < n && (x < i || (x == i && y < j)) ==> !#[trigger] uncovered_zero(zero@, rc@, cc@, x, y),
        found is None ==> forall|x: int, y: int| 0 <= x < n && 0 <= y < n ==> !#[trigger] uncovered_zero(zero@, rc@, cc@, x, y),
{
    let mut i: usize = 0;
    while i < n
        invariant
            i <= n,
            zero@.len() == n,
            forall|x: int| 0 <= x < n ==> (#[trigger] zero@[x])@.len() == n,
            rc@.len() == n,
            cc@.len() == n,
            forall|x: int, y: int| 0 <= x < i && 0 <= y < n ==> !#[trigger] uncovered_zero(zero@, rc@, cc@, x, y),
        decreases n - i,
    {
        if !rc[i] {
            let mut j: usize = 0;
            while j < n
                invariant
                    i < n,
                    j <= n,
                    !rc@[i as int],
                    zero@.len() == n,
                    forall|x: int| 0 <= x < n ==> (#[trigger] zero@[x])@.len() == n,
                    rc@.len() == n,
                    cc@.len() == n,
                    forall|x: int, y: int| 0 <= x < i && 0 <= y < n ==> !#[trigger] uncovered_zero(zero@, rc@, cc@, x, y),
                    forall|y: int| 0 <= y < j ==> !#[trigger] uncovered_zero(zero@, rc@, cc@, i as int, y),
                decreases n - j,
            {
                if !cc[j] && zero[i][j] {
                    return Some((i, j));
                }
                j += 1;
            }
        }
        i += 1;
    }
    None
}

/// The first row holding a star in column `c`.
fn star_in_column(mask: &Vec<Vec<Mark>>, n: usize, c: usize) -> (r: Option<usize>)
    requires
        grid_ok(mask@, n as int),
        c < n,
    ensures
        r matches Some(x) ==> x < n && is_star(mask@, x as int, c as int),
        r is None ==> !col_star(mask@, n as int, c as int),
{
    let mut x: usize = 0;
    while x < n
        invariant
            grid_ok(mask@, n as int),
            c < n,
            x <= n,
            forall|y: int| 0 <= y < x ==> !#[trigger] is_star(mask@, y, c as int),
        decreases n - x,
    {
        if mask[x][c] == Mark::Star {
            return Some(x);
        }
        x += 1;
    }
    None
}

/// The first column of row `r` holding the mark `m`.
fn mark_in_row(mask: &Vec<Vec<Mark>>, n: usize, r: usize, m: Mark) -> (c: Option<usize>)
    requires
        grid_ok(mask@, n as int),
        r < n,
    ensures
        c matches Some(y) ==> y < n && mask@[r as int]@[y as int] == m,
        c is None ==> forall|y: int| 0 <= y < n ==> #[trigger] mask@[r as int]@[y] != m,
{
    let mut y: usize = 0;
    while y < n
        invariant
            grid_ok(mask@, n as int),
            r < n,
            y <= n,
            forall|z: int| 0 <= z < y ==> #[trigger] mask@[r as int]@[z] != m,
        decreases n - y,
    {
        if mask[r][y] == m {
            return Some(y);
        }
        y += 1;
    }
    None
}

/// The `k`-th cell of `p` is primed.
pub open spec fn prime_at(g: Seq<Vec<Mark>>, p: Seq<(usize, usize)>, k: int) -> bool {
    is_prime(g, p[k].0 as int, p[k].1 as int)
}

/// The `k`-th cell of `p` is starred.
pub open spec fn star_at(g: Seq<Vec<Mark>>, p: Seq<(usize, usize)>, k: int) -> bool {
    is_star(g, p[k].0 as int, p[k].1 as int)
}

/// The `k`-th cell of `p` shares its column with the cell before it and
/// its row with the cell after it.
pub open spec fn linked(p: Seq<(usize, usize)>, k: int) -> bool {
    p[k].1 == p[k - 1].1 && p[k + 1].0 == p[k].0
}

/// The `(k + 2)`-th cell of `p` was primed before the `k`-th.
pub open spec fn older(stamp: Seq<Seq<int>>, p: Seq<(usize, usize)>, k: int) -> bool {
    stamp[p[k + 2].0 as int][p[k + 2].1 as int] < stamp[p[k].0 as int][p[k].1 as int]
}

/// The alternation of marks, the links between consecutive cells and the
/// order of the primes along `p`.
pub open spec fn path_shape(g: Seq<Vec<Mark>>, n: int, stamp: Seq<Seq<int>>, p: Seq<(usize, usize)>) -> bool {
    &&& forall|k: int| 0 <= k < p.len() ==> (#[trigger] p[k]).0 < n && p[k].1 < n
    &&& forall|k: int| 0 <= k < p.len() && k % 2 == 0 ==> #[trigger] prime_at(g, p, k)
    &&& forall|k: int| 0 <= k < p.len() && k % 2 == 1 ==> #[trigger] star_at(g, p, k) && linked(p, k)
    &&& forall|k: int| 0 <= k < p.len() - 2 && k % 2 == 0 ==> #[trigger] older(stamp, p, k)
}

/// `p` is the alternating path of the method from the primed zero
/// `(r0, c0)`: primes at even positions, stars at odd ones, each star in
/// the column of the prime before it and each prime in the row of the star
/// before it, ending at a prime whose column holds no star; the primes are
/// met from the youngest to older ones.
pub open spec fn alt_path(g: Seq<Vec<Mark>>, n: int, stamp: Seq<Seq<int>>, r0: int, c0: int, p: Seq<(usize, usize)>) -> bool {
    &&& p.len() % 2 == 1
    &&& p[0] == (r0 as usize, c0 as usize)
    &&& path_shape(g, n, stamp, p)
    &&& !col_star(g, n, p[p.len() - 1].1 as int)
}

/// Builds the alternating path from the primed zero `(r0, c0)`.
fn alternating_path(
    mask: &Vec<Vec<Mark>>,
    n: usize,
    r0: usize,
    c0: usize,
    Ghost(rc): Ghost<Seq<bool>>,
    Ghost(cc): Ghost<Seq<bool>>,
    Ghost(stamp): Ghost<Seq<Seq<int>>>,
    Ghost(clock): Ghost<int>,
) -> (path: Vec<(usize, usize)>)
    requires
        phase(mask@, rc, cc, n as int, stamp, clock, r0 as int),
        r0 < n,
        c0 < n,
        is_prime(mask@, r0 as int, c0 as int),
    ensures
        alt_path(mask@, n as int, stamp, r0 as int, c0 as int, path@),
{
    let mut path: Vec<(usize, usize)> = Vec::new();
    path.push((r0, c0));
    loop
        invariant
            phase(mask@, rc, cc, n as int, stamp, clock, r0 as int),
            path@.len() % 2 == 1,
            path@[0] == (r0, c0),
            path_shape(mask@, n as int, stamp, path@),
        ensures
            alt_path(mask@, n as int, stamp, r0 as int, c0 as int, path@),
        decreases stamp[path@[path@.len() - 1].0 as int][path@[path@.len() - 1].1 as int],
    {
        let last = path[path.len() - 1];
        let ghost lk = path@.len() - 1;
        proof {
            assert(path@[lk] == last);
            assert(prime_at(mask@, path@, lk));
            assert(is_prime(mask@, last.0 as int, last.1 as int));
            assert(0 <= stamp[last.0 as int][last.1 as int]);
        }
        let c = last.1;
        match star_in_column(mask, n, c) {
            None => {
                break;
            },
            Some(r) => {
                proof {
                    assert(!cc[c as int]);
                    assert(cc[c as int] == !rc[r as int]);
                    assert(rc[r as int]);
                    assert(row_prime(mask@, n as int, r as int));
                }
                let found = mark_in_row(mask, n, r, Mark::Prime);
                proof {
                    if found is None {
                        let y = choose|y: int| 0 <= y < n && #[trigger] is_prime(mask@, r as int, y);
                        assert(mask@[r as int]@[y] == Mark::Prime);
                    }
                }
                let pc = found.unwrap();
                proof {
                    assert(is_prime(mask@, r as int, pc as int));
                    assert(stamp[last.0 as int][c as int] > stamp[r as int][pc as int]);
                }
                let ghost p0 = path@;
                path.push((r, c));
                path.push((r, pc));
                proof {
                    let np = path@;
                    assert(np[lk + 1] == (r, c));
                    assert(np[lk + 2] == (r, pc));
                    assert forall|k: int| 0 <= k <= lk implies #[trigger] np[k] == p0[k] by {}
                    assert forall|k: int| 0 <= k < np.len() && k % 2 == 0 implies #[trigger] prime_at(mask@, np, k) by {
                        if k <= lk {
                            assert(prime_at(mask@, p0, k));
                        }
                    }
                    assert forall|k: int| 0 <= k < np.len() && k % 2 == 1 implies #[trigger] star_at(mask@, np, k) && linked(np, k) by {
                        if k < lk {
                            assert(star_at(mask@, p0, k));
                            assert(linked(p0, k));
                            assert(np[k + 1] == p0[k + 1]);
                            assert(np[k - 1] == p0[k - 1]);
                            assert(np[k] == p0[k]);
                        } else {
                            assert(k == lk + 1);
                            assert(np[k - 1] == p0[lk]);
                        }
                        assert(star_at(mask@, np, k));
                        assert(linked(np, k));
                    }
                    assert forall|k: int| 0 <= k < np.len() implies (#[trigger] np[k]).0 < n && np[k].1 < n by {
                        if k <= lk {
                            assert(p0[k].0 < n && p0[k].1 < n);
                        }
                    }
                    assert forall|k: int| 0 <= k < np.len() - 2 && k % 2 == 0 implies #[trigger] older(stamp, np, k) by {
                        if k < lk {
                            assert(older(stamp, p0, k));
                            assert(np[k + 2] == p0[k + 2]);
                            assert(np[k] == p0[k]);
                        } else {
                            assert(np[k] == last);
                        }
                    }
                    assert(path_shape(mask@, n as int, stamp, np));
                }
            },
        }
    }
    path
}

proof fn lemma_stamps_decrease(stamp: Seq<Seq<int>>, g: Seq<Vec<Mark>>, n: int, r0: int, c0: int, p: Seq<(usize, usize)>, k1: int, k2: int)
    requires
        alt_path(g, n, stamp, r0, c0, p),
        0 <= k1 < k2 < p.len(),
        k1 % 2 == 0,
        k2 % 2 == 0,
    ensures
        stamp[p[k2].0 as int][p[k2].1 as int] < stamp[p[k1].0 as int][p[k1].1 as int],
    decreases k2 - k1,
{
    let k = k2 - 2;
    assert(older(stamp, p, k));
    if k > k1 {
        lemma_stamps_decrease(stamp, g, n, r0, c0, p, k1, k);
    }
}

/// On the alternating path the primes are distinct and lie in distinct rows
/// and distinct columns, and so are the stars.
proof fn lemma_path_distinct(g: Seq<Vec<Mark>>, n: int, stamp: Seq<Seq<int>>, r0: int, c0: int, p: Seq<(usize, usize)>)
    requires
        grid_ok(g, n),
        alt_path(g, n, stamp, r0, c0, p),
        !row_star(g, n, r0),
        0 <= r0 < n <= usize::MAX,
    ensures
        forall|k1: int, k2: int|
            0 <= k1 < p.len() && 0 <= k2 < p.len() && k1 != k2 && k1 % 2 == k2 % 2 ==> (#[trigger] p[k1]).0 != (#[trigger] p[k2]).0
                && p[k1].1 != p[k2].1,
{
    assert forall|k1: int, k2: int|
        0 <= k1 < p.len() && 0 <= k2 < p.len() && k1 != k2 && k1 % 2 == k2 % 2 implies (#[trigger] p[k1]).0 != (#[trigger] p[k2]).0
            && p[k1].1 != p[k2].1 by {
        let (a, b) = if k1 < k2 { (k1, k2) } else { (k2, k1) };
        lemma_distinct_pair(g, n, stamp, r0, c0, p, a, b);
    }
}

proof fn lemma_distinct_pair(g: Seq<Vec<Mark>>, n: int, stamp: Seq<Seq<int>>, r0: int, c0: int, p: Seq<(usize, usize)>, a: int, b: int)
    requires
        grid_ok(g, n),
        alt_path(g, n, stamp, r0, c0, p),
        !row_star(g, n, r0),
        0 <= r0 < n <= usize::MAX,
        0 <= a < b < p.len(),
        a % 2 == b % 2,
    ensures
        p[a].0 != p[b].0 && p[a].1 != p[b].1,
    decreases (if a % 2 == 0 { 1int } else { 0int }),
{
    let len = p.len() as int;
    assert(p[a].0 < n && p[a].1 < n && p[b].0 < n && p[b].1 < n);
    if a % 2 == 1 {
        // stars: a shared row or column means the same star, whose row's
        // prime would then follow both, against the decreasing stamps
        assert(star_at(g, p, a));
        assert(linked(p, a));
        assert(star_at(g, p, b));
        assert(linked(p, b));
        if p[a].0 == p[b].0 || p[a].1 == p[b].1 {
            assert(p[a] == p[b]);
            assert(prime_at(g, p, a + 1));
            assert(prime_at(g, p, b + 1));
            assert(p[a + 1].0 < n && p[a + 1].1 < n && p[b + 1].1 < n);
            assert(p[a + 1].1 == p[b + 1].1);
            lemma_stamps_decrease(stamp, g, n, r0, c0, p, a + 1, b + 1);
        }
    } else {
        // primes: stamps decrease strictly
        lemma_stamps_decrease(stamp, g, n, r0, c0, p, a, b);
        assert(p[a] != p[b]);
        // rows: the row of a later prime is the row of the star before it
        if p[a].0 == p[b].0 {
            assert((b - 1) % 2 == 1);
            assert(star_at(g, p, b - 1));
            assert(linked(p, b - 1));
            assert(p[b - 1].0 < n && p[b - 1].1 < n);
            if a == 0 {
                assert(is_star(g, r0, p[b - 1].1 as int));
            } else {
                assert((a - 1) % 2 == 1);
                assert(star_at(g, p, a - 1));
                assert(linked(p, a - 1));
                assert(p[a - 1].0 < n && p[a - 1].1 < n);
                assert(p[a - 1].1 == p[b - 1].1);
                lemma_distinct_pair(g, n, stamp, r0, c0, p, a - 1, b - 1);
            }
        }
        // columns: a prime that is not last has the star of its column next
        if p[a].1 == p[b].1 {
            assert((a + 1) % 2 == 1);
            assert(star_at(g, p, a + 1));
            assert(linked(p, a + 1));
            assert(p[a + 1].0 < n && p[a + 1].1 < n);
            if b == len - 1 {
                assert(col_star(g, n, p[b].1 as int));
            } else {
                assert((b + 1) % 2 == 1);
                assert(star_at(g, p, b + 1));
                assert(linked(p, b + 1));
                assert(p[b + 1].0 < n && p[b + 1].1 < n);
                assert(p[a + 1].0 == p[b + 1].0);
                lemma_distinct_pair(g, n, stamp, r0, c0, p, a + 1, b + 1);
            }
        }
    }
}

/// Cell `(i, j)` is the `k`-th cell of `p` for some `k` of the given parity.
pub open spec fn on_path(p: Seq<(usize, usize)>, i: int, j: int, parity: int) -> bool {
    exists|k: int| 0 <= k < p.len() && k % 2 == parity && #[trigger] p[k] == (i as usize, j as usize)
}

/// `g2` is `g` after augmenting along `p`: the primes of the path become
/// stars, the stars of the path are unmarked, and every other prime is
/// erased.
pub open spec fn flipped(g: Seq<Vec<Mark>>, g2: Seq<Vec<Mark>>, n: int, p: Seq<(usize, usize)>) -> bool {
    &&& g2.len() == n
    &&& forall|i: int| 0 <= i < n ==> (#[trigger] g2[i])@.len() == n
    &&& forall|i: int, j: int|
        0 <= i < n && 0 <= j < n ==> #[trigger] g2[i]@[j] == (if on_path(p, i, j, 0) {
            Mark::Star
        } else if on_path(p, i, j, 1) {
            Mark::Unmarked
        } else if g[i]@[j] == Mark::Prime {
            Mark::Unmarked
        } else {
            g[i]@[j]
        })
}

/// Augmenting along the alternating path keeps the stars independent, leaves
/// no prime, and stars one more row: the row of the path's first prime.
pub proof fn lemma_augment_adds_star(
    g: Seq<Vec<Mark>>,
    g2: Seq<Vec<Mark>>,
    n: int,
    stamp: Seq<Seq<int>>,
    r0: int,
    c0: int,
    p: Seq<(usize, usize)>,
)
    requires
        grid_ok(g, n),
        alt_path(g, n, stamp, r0, c0, p),
        !row_star(g, n, r0),
        0 <= r0 < n <= usize::MAX,
        flipped(g, g2, n, p),
    ensures
        grid_ok(g2, n),
        no_primes(g2, n),
        forall|i: int| 0 <= i < n ==> #[trigger] row_star(g2, n, i) == (row_star(g, n, i) || i == r0),
{
    lemma_path_distinct(g, n, stamp, r0, c0, p);
    let len = p.len() as int;
    // the cell of each path position, and its old mark
    assert forall|k: int| 0 <= k < len implies (#[trigger] p[k]).0 < n && p[k].1 < n && (if k % 2 == 0 {
        is_prime(g, p[k].0 as int, p[k].1 as int)
    } else {
        is_star(g, p[k].0 as int, p[k].1 as int) && linked(p, k)
    }) by {
        if k % 2 == 0 {
            assert(prime_at(g, p, k));
        } else {
            assert(star_at(g, p, k));
        }
    }
    // new stars: path primes, and old stars off the path
    assert forall|i: int, j: int| 0 <= i < n && 0 <= j < n implies #[trigger] is_star(g2, i, j) == (on_path(p, i, j, 0) || (
        is_star(g, i, j) && !on_path(p, i, j, 1))) by {
        if on_path(p, i, j, 0) {
            let k = choose|k: int| 0 <= k < len && k % 2 == 0 && #[trigger] p[k] == (i as usize, j as usize);
            assert(p[k].0 < n);
        }
    }
    assert forall|i: int, j: int| 0 <= i < n && 0 <= j < n implies !#[trigger] is_prime(g2, i, j) by {
        if on_path(p, i, j, 1) && !on_path(p, i, j, 0) {
        }
    }
    // the old star of a path prime's row lies on the path (it is the star before it)
    assert forall|k: int, j: int| 0 <= k < len && k % 2 == 0 && 0 <= j < n && #[trigger] is_star(g, p[k].0 as int, j) implies
        k > 0 && p[k - 1] == (p[k].0, j as usize) by {
        if k == 0 {
            assert(is_star(g, r0, j));
        } else {
            assert(p[k - 1].0 == p[k].0);
            assert(is_star(g, p[k - 1].0 as int, p[k - 1].1 as int));
        }
    }
    // the old star of a path prime's column lies on the path (the star after it)
    assert forall|k: int, i: int| 0 <= k < len && k % 2 == 0 && 0 <= i < n && #[trigger] is_star(g, i, p[k].1 as int) implies
        k < len - 1 && p[k + 1] == (i as usize, p[k].1) by {
        if k == len - 1 {
            assert(col_star(g, n, p[k].1 as int));
        } else {
            assert(p[k + 1].1 == p[k].1);
            assert(is_star(g, p[k + 1].0 as int, p[k + 1].1 as int));
        }
    }
    // independence by rows
    assert forall|i: int, j1: int, j2: int|
        0 <= i < n && 0 <= j1 < n && 0 <= j2 < n && #[trigger] is_star(g2, i, j1) && #[trigger] is_star(g2, i, j2) implies j1 == j2 by {
        let a = on_path(p, i, j1, 0);
        let b = on_path(p, i, j2, 0);
        if a && b {
            let k1 = choose|k: int| 0 <= k < len && k % 2 == 0 && #[trigger] p[k] == (i as usize, j1 as usize);
            let k2 = choose|k: int| 0 <= k < len && k % 2 == 0 && #[trigger] p[k] == (i as usize, j2 as usize);
            if k1 != k2 {
                assert(p[k1].0 != p[k2].0);
            }
        } else if a {
            let k1 = choose|k: int| 0 <= k < len && k % 2 == 0 && #[trigger] p[k] == (i as usize, j1 as usize);
            assert(is_star(g, i, j2) && !on_path(p, i, j2, 1));
            assert(is_star(g, p[k1].0 as int, j2));
            assert(p[k1 - 1] == (p[k1].0, j2 as usize));
            assert((k1 - 1) % 2 == 1);
        } else if b {
            let k2 = choose|k: int| 0 <= k < len && k % 2 == 0 && #[trigger] p[k] == (i as usize, j2 as usize);
            assert(is_star(g, i, j1) && !on_path(p, i, j1, 1));
            assert(is_star(g, p[k2].0 as int, j1));
            assert(p[k2 - 1] == (p[k2].0, j1 as usize));
            assert((k2 - 1) % 2 == 1);
        } else {
            assert(is_star(g, i, j1) && is_star(g, i, j2));
        }
    }
    // independence by columns
    assert forall|j: int, i1: int, i2: int|
        0 <= j < n && 0 <= i1 < n && 0 <= i2 < n && #[trigger] is_star(g2, i1, j) && #[trigger] is_star(g2, i2, j) implies i1 == i2 by {
        let a = on_path(p, i1, j, 0);
        let b = on_path(p, i2, j, 0);
        if a && b {
            let k1 = choose|k: int| 0 <= k < len && k % 2 == 0 && #[trigger] p[k] == (i1 as usize, j as usize);
            let k2 = choose|k: int| 0 <= k < len && k % 2 == 0 && #[trigger] p[k] == (i2 as usize, j as usize);
            if k1 != k2 {
                assert(p[k1].1 != p[k2].1);
            }
        } else if a {
            let k1 = choose|k: int| 0 <= k < len && k % 2 == 0 && #[trigger] p[k] == (i1 as usize, j as usize);
            assert(is_star(g, i2, j) && !on_path(p, i2, j, 1));
            assert(is_star(g, i2, p[k1].1 as int));
            assert(p[k1 + 1] == (i2 as usize, p[k1].1));
            assert((k1 + 1) % 2 == 1);
        } else if b {
            let k2 = choose|k: int| 0 <= k < len && k % 2 == 0 && #[trigger] p[k] == (i2 as usize, j as usize);
            assert(is_star(g, i1, j) && !on_path(p, i1, j, 1));
            assert(is_star(g, i1, p[k2].1 as int));
            assert(p[k2 + 1] == (i1 as usize, p[k2].1));
            assert((k2 + 1) % 2 == 1);
        } else {
            assert(is_star(g, i1, j) && is_star(g, i2, j));
        }
    }
    // primes: at most one per row, vacuously
    assert forall|i: int, j1: int, j2: int|
        0 <= i < n && 0 <= j1 < n && 0 <= j2 < n && #[trigger] is_prime(g2, i, j1) && #[trigger] is_prime(g2, i, j2) implies j1 == j2 by {}
    // starred rows
    assert forall|i: int| 0 <= i < n implies #[trigger] row_star(g2, n, i) == (row_star(g, n, i) || i == r0) by {
        if row_star(g2, n, i) {
            let j = choose|j: int| 0 <= j < n && #[trigger] is_star(g2, i, j);
            if on_path(p, i, j, 0) {
                let k = choose|k: int| 0 <= k < len && k % 2 == 0 && #[trigger] p[k] == (i as usize, j as usize);
                if k > 0 {
                    assert(p[k - 1].0 == p[k].0);
                    assert(is_star(g, p[k - 1].0 as int, p[k - 1].1 as int));
                    assert(p[k - 1].1 < n);
                    assert(row_star(g, n, i));
                }
            } else {
                assert(is_star(g, i, j));
            }
        }
        if i == r0 {
            assert(p[0].0 < n && p[0].1 < n);
            assert(on_path(p, i, p[0].1 as int, 0));
            assert(is_star(g2, i, p[0].1 as int));
        } else if row_star(g, n, i) {
            let j = choose|j: int| 0 <= j < n && #[trigger] is_star(g, i, j);
            if on_path(p, i, j, 1) {
                let k = choose|k: int| 0 <= k < len && k % 2 == 1 && #[trigger] p[k] == (i as usize, j as usize);
                assert(linked(p, k));
                assert(p[k + 1].0 == i as usize);
                assert(p[k + 1].1 < n);
                assert(on_path(p, i, p[k + 1].1 as int, 0)) by {
                    assert((k + 1) % 2 == 0);
                }
                assert(is_star(g2, i, p[k + 1].1 as int));
            } else {
                assert(is_star(g2, i, j));
            }
        }
    }
}

spec fn toggled(m: Mark) -> Mark {
    if m == Mark::Star {
        Mark::Unmarked
    } else {
        Mark::Star
    }
}

spec fn among_first(p: Seq<(usize, usize)>, i: int, j: int, k: int) -> bool {
    exists|t: int| 0 <= t < k && #[trigger] p[t] == (i as usize, j as usize)
}

/// Augments along the alternating path: toggles the marks of its cells,
/// then erases the primes left.
fn augment_marks(
    mask: &mut Vec<Vec<Mark>>,
    n: usize,
    path: &Vec<(usize, usize)>,
    Ghost(stamp): Ghost<Seq<Seq<int>>>,
    Ghost(r0): Ghost<int>,
    Ghost(c0): Ghost<int>,
)
    requires
        grid_ok(old(mask)@, n as int),
        alt_path(old(mask)@, n as int, stamp, r0, c0, path@),
        !row_star(old(mask)@, n as int, r0),
        0 <= r0 < n,
    ensures
        flipped(old(mask)@, final(mask)@, n as int, path@),
{
    let ghost g = mask@;
    let ghost p = path@;
    proof {
        lemma_path_distinct(g, n as int, stamp, r0, c0, p);
        assert forall|k: int| 0 <= k < p.len() implies (#[trigger] p[k]).0 < n && p[k].1 < n && (if k % 2 == 0 {
            is_prime(g, p[k].0 as int, p[k].1 as int)
        } else {
            is_star(g, p[k].0 as int, p[k].1 as int)
        }) by {
            if k % 2 == 0 {
                assert(prime_at(g, p, k));
            } else {
                assert(star_at(g, p, k));
            }
        }
        assert forall|k1: int, k2: int| 0 <= k1 < p.len() && 0 <= k2 < p.len() && k1 != k2 implies #[trigger] p[k1] != #[trigger] p[k2] by {
            if k1 % 2 != k2 % 2 {
                if p[k1] == p[k2] {
                    assert(g[p[k1].0 as int]@[p[k1].1 as int] == g[p[k2].0 as int]@[p[k2].1 as int]);
                }
            }
        }
    }
    let mut k: usize = 0;
    while k < path.len()
        invariant
            p == path@,
            k <= p.len(),
            mask@.len() == n,
            forall|i: int| 0 <= i < n ==> (#[trigger] mask@[i])@.len() == n,
            forall|t: int| 0 <= t < p.len() ==> (#[trigger] p[t]).0 < n && p[t].1 < n,
            forall|k1: int, k2: int| 0 <= k1 < p.len() && 0 <= k2 < p.len() && k1 != k2 ==> #[trigger] p[k1] != #[trigger] p[k2],
            forall|i: int, j: int|
                0 <= i < n && 0 <= j < n ==> #[trigger] mask@[i]@[j] == (if among_first(p, i, j, k as int) {
                    toggled(g[i]@[j])
                } else {
                    g[i]@[j]
                }),
        decreases p.len() - k,
    {
        let (r, c) = path[k];
        proof {
            assert(p[k as int] == (r, c));
            assert(!among_first(p, r as int, c as int, k as int)) by {
                if among_first(p, r as int, c as int, k as int) {
                    let t = choose|t: int| 0 <= t < k && #[trigger] p[t] == (r as usize, c as usize);
                    assert(p[t] == p[k as int]);
                }
            }
        }
        let cur = mask[r][c];
        let next = if cur == Mark::Star {
            Mark::Unmarked
        } else {
            Mark::Star
        };
        let ghost m0 = mask@;
        set_mark(mask, r, c, next);
        proof {
            assert forall|i: int, j: int| 0 <= i < n && 0 <= j < n implies #[trigger] mask@[i]@[j] == (if among_first(p, i, j, k + 1) {
                toggled(g[i]@[j])
            } else {
                g[i]@[j]
            }) by {
                if i == r && j == c {
                    assert(among_first(p, i, j, k + 1)) by {
                        assert(p[k as int] == (i as usize, j as usize));
                    }
                } else {
                    if i != r {
                        assert(mask@[i] == m0[i]);
                    }
                    assert(mask@[i]@[j] == m0[i]@[j]);
                    if among_first(p, i, j, k + 1) {
                        let t = choose|t: int| 0 <= t < k + 1 && #[trigger] p[t] == (i as usize, j as usize);
                        assert(t != k);
                        assert(among_first(p, i, j, k as int));
                    }
                    if among_first(p, i, j, k as int) {
                        let t = choose|t: int| 0 <= t < k && #[trigger] p[t] == (i as usize, j as usize);
                        assert(among_first(p, i, j, k + 1));
                    }
                }
            }
        }
        k += 1;
    }
    let ghost g1 = mask@;
    let mut i: usize = 0;
    while i < n
        invariant
            i <= n,
            mask@.len() == n,
            forall|x: int| 0 <= x < n ==> (#[trigger] mask@[x])@.len() == n,
            forall|x: int, y: int|
                0 <= x < n && 0 <= y < n ==> #[trigger] mask@[x]@[y] == (if x < i && g1[x]@[y] == Mark::Prime {
                    Mark::Unmarked
                } else {
                    g1[x]@[y]
                }),
        decreases n - i,
    {
        let mut j: usize = 0;
        while j < n
            invariant
                i < n,
                j <= n,
                mask@.len() == n,
                forall|x: int| 0 <= x < n ==> (#[trigger] mask@[x])@.len() == n,
                forall|x: int, y: int|
                    0 <= x < n && 0 <= y < n ==> #[trigger] mask@[x]@[y] == (if (x < i || (x == i && y < j)) && g1[x]@[y]
                        == Mark::Prime {
                        Mark::Unmarked
                    } else {
                        g1[x]@[y]
                    }),
            decreases n - j,
        {
            if mask[i][j] == Mark::Prime {
                let ghost m0 = mask@;
                set_mark(mask, i, j, Mark::Unmarked);
                proof {
                    assert forall|x: int, y: int| 0 <= x < n && 0 <= y < n implies #[trigger] mask@[x]@[y] == (if (x < i || (x == i
                        && y < j + 1)) && g1[x]@[y] == Mark::Prime {
                        Mark::Unmarked
                    } else {
                        g1[x]@[y]
                    }) by {
                        if x != i {
                            assert(mask@[x] == m0[x]);
                        }
                    }
                }
            }
            j += 1;
        }
        i += 1;
    }
    proof {
        assert forall|i: int, j: int| 0 <= i < n && 0 <= j < n implies #[trigger] mask@[i]@[j] == (if on_path(p, i, j, 0) {
            Mark::Star
        } else if on_path(p, i, j, 1) {
            Mark::Unmarked
        } else if g[i]@[j] == Mark::Prime {
            Mark::Unmarked
        } else {
            g[i]@[j]
        }) by {
            if among_first(p, i, j, p.len() as int) {
                let t = choose|t: int| 0 <= t < p.len() && #[trigger] p[t] == (i as usize, j as usize);
                if t % 2 == 0 {
                    assert(on_path(p, i, j, 0));
                    assert(is_prime(g, p[t].0 as int, p[t].1 as int));
                } else {
                    assert(on_path(p, i, j, 1));
                    assert(is_star(g, p[t].0 as int, p[t].1 as int));
                    assert(!on_path(p, i, j, 0)) by {
                        if on_path(p, i, j, 0) {
                            let t2 = choose|t2: int| 0 <= t2 < p.len() && t2 % 2 == 0 && #[trigger] p[t2] == (i as usize, j as usize);
                            assert(p[t2] == p[t]);
                        }
                    }
                }
            } else {
                assert(!on_path(p, i, j, 0)) by {
                    if on_path(p, i, j, 0) {
                        let t2 = choose|t2: int| 0 <= t2 < p.len() && t2 % 2 == 0 && #[trigger] p[t2] == (i as usize, j as usize);
                        assert(among_first(p, i, j, p.len() as int));
                    }
                }
                assert(!on_path(p, i, j, 1)) by {
                    if on_path(p, i, j, 1) {
                        let t2 = choose|t2: int| 0 <= t2 < p.len() && t2 % 2 == 1 && #[trigger] p[t2] == (i as usize, j as usize);
                        assert(among_first(p, i, j, p.len() as int));
                    }
                }
            }
        }
    }
}

/// `(i, j)` is the first uncovered zero in row-major order.
pub open spec fn first_uncovered(zero: Seq<Vec<bool>>, rc: Seq<bool>, cc: Seq<bool>, n: int, i: int, j: int) -> bool {
    &&& 0 <= i < n
    &&& 0 <= j < n
    &&& uncovered_zero(zero, rc, cc, i, j)
    &&& forall|x: int, y: int|
        0 <= x < n && 0 <= y < n && (x < i || (x == i && y < j)) ==> !#[trigger] uncovered_zero(zero, rc, cc, x, y)
}

/// `p` alternates from the newly primed zero `(r0, c0)` of `g`: primes of
/// `g` at its later even positions, stars at odd ones, each star in the
/// column of the cell before it and each prime in the row of the star
/// before it, ending in a column without a star.
pub open spec fn alternating_from(g: Seq<Vec<Mark>>, n: int, r0: int, c0: int, p: Seq<(usize, usize)>) -> bool {
    &&& p.len() % 2 == 1
    &&& p[0] == (r0 as usize, c0 as usize)
    &&& forall|k: int| 0 <= k < p.len() ==> (#[trigger] p[k]).0 < n && p[k].1 < n
    &&& forall|k: int| 1 <= k < p.len() && k % 2 == 0 ==> #[trigger] prime_at(g, p, k)
    &&& forall|k: int| 0 <= k < p.len() && k % 2 == 1 ==> #[trigger] star_at(g, p, k) && linked(p, k)
    &&& !col_star(g, n, p[p.len() - 1].1 as int)
}

/// The Kuhn-Munkres marking machine on an `n x n` matrix.
pub struct Munkres {
    n: usize,
    mask: Vec<Vec<Mark>>,
    row_cover: Vec<bool>,
    col_cover: Vec<bool>,
    done: bool,
    stamp: Ghost<Seq<Seq<int>>>,
    clock: Ghost<int>,
}

impl Munkres {
    /// The dimension.
    pub closed spec fn size(&self) -> int {
        self.n as int
    }

    /// The marks.
    pub closed spec fn marks(&self) -> Seq<Vec<Mark>> {
        self.mask@
    }

    /// The row covers.
    pub closed spec fn rows_covered(&self) -> Seq<bool> {
        self.row_cover@
    }

    /// The column covers.
    pub closed spec fn cols_covered(&self) -> Seq<bool> {
        self.col_cover@
    }

    /// Every column holds a star: the method has finished.
    pub closed spec fn finished(&self) -> bool {
        self.done
    }

    /// The machine's invariant: independent stars, and either every column
    /// starred or the state between the steps of a round.
    pub closed spec fn wf(&self) -> bool {
        &&& grid_ok(self.mask@, self.n as int)
        &&& self.row_cover@.len() == self.n
        &&& self.col_cover@.len() == self.n
        &&& self.done == forall|j: int| 0 <= j < self.n ==> #[trigger] col_star(self.mask@, self.n as int, j)
        &&& !self.done ==> phase(
            self.mask@,
            self.row_cover@,
            self.col_cover@,
            self.n as int,
            self.stamp@,
            self.clock@,
            -1,
        )
    }
}

impl Munkres {
    /// Starts the method on the zero pattern of the reduced costs: stars
    /// the zeros greedily in row-major order (a zero whose row and column
    /// hold no star yet), then covers the columns that hold a star.
    pub fn new(zero: &Vec<Vec<bool>>, n: usize) -> (res: Self)
        requires
            zero@.len() == n,
            forall|i: int| 0 <= i < n ==> (#[trigger] zero@[i])@.len() == n,
        ensures
            res.wf(),
            res.size() == n,
            greedy_stars(zero@, res.marks(), n as int),
            no_primes(res.marks(), n as int),
            forall|i: int| 0 <= i < n ==> !#[trigger] res.rows_covered()[i],
            forall|j: int| 0 <= j < n ==> #[trigger] res.cols_covered()[j] == col_star(res.marks(), n as int, j),
    {
        let mut mask: Vec<Vec<Mark>> = Vec::new();
        let mut row_cover: Vec<bool> = Vec::new();
        let mut col_cover: Vec<bool> = Vec::new();
        let mut i: usize = 0;
        while i < n
            invariant
                i <= n,
                mask@.len() == i,
                row_cover@.len() == i,
                col_cover@.len() == i,
                forall|x: int| 0 <= x < i ==> (#[trigger] mask@[x])@.len() == n,
                forall|x: int, y: int| 0 <= x < i && 0 <= y < n ==> mask@[x]@[y] == Mark::Unmarked,
                forall|x: int| 0 <= x < i ==> !#[trigger] row_cover@[x],
                forall|x: int| 0 <= x < i ==> !#[trigger] col_cover@[x],
            decreases n - i,
        {
            let mut row: Vec<Mark> = Vec::new();
            let mut j: usize = 0;
            while j < n
                invariant
                    j <= n,
                    row@.len() == j,
                    forall|y: int| 0 <= y < j ==> #[trigger] row@[y] == Mark::Unmarked,
                decreases n - j,
            {
                row.push(Mark::Unmarked);
                j += 1;
            }
            mask.push(row);
            row_cover.push(false);
            col_cover.push(false);
            i += 1;
        }
        // star an independent zero in each row and column where possible
        proof {
            assert forall|x: int| 0 <= x < n implies #[trigger] row_cover@[x] == row_star(mask@, n as int, x) by {
                if row_star(mask@, n as int, x) {
                    let y = choose|y: int| 0 <= y < n && #[trigger] is_star(mask@, x, y);
                    assert(mask@[x]@[y] == Mark::Unmarked);
                }
            }
            assert forall|y: int| 0 <= y < n implies #[trigger] col_cover@[y] == col_star(mask@, n as int, y) by {
                if col_star(mask@, n as int, y) {
                    let x = choose|x: int| 0 <= x < n && #[trigger] is_star(mask@, x, y);
                    assert(mask@[x]@[y] == Mark::Unmarked);
                }
            }
        }
        let mut i: usize = 0;
        while i < n
            invariant
                i <= n,
                zero@.len() == n,
                forall|x: int| 0 <= x < n ==> (#[trigger] zero@[x])@.len() == n,
                mask@.len() == n,
                forall|x: int| 0 <= x < n ==> (#[trigger] mask@[x])@.len() == n,
                row_cover@.len() == n,
                col_cover@.len() == n,
                forall|x: int, y: int| 0 <= x < n && 0 <= y < n && x >= i ==> #[trigger] mask@[x]@[y] == Mark::Unmarked,
                forall|x: int, y: int| 0 <= x < n && 0 <= y < n ==> mask@[x]@[y] != Mark::Prime,
                forall|x: int, y: int|
                    0 <= x < i && 0 <= y < n ==> (#[trigger] is_star(mask@, x, y) <==> (zero@[x]@[y] && (forall|y2: int|
                        0 <= y2 < y ==> !#[trigger] is_star(mask@, x, y2)) && (forall|x2: int|
                        0 <= x2 < x ==> !#[trigger] is_star(mask@, x2, y)))),
                forall|x: int| 0 <= x < n ==> #[trigger] row_cover@[x] == row_star(mask@, n as int, x),
                forall|y: int| 0 <= y < n ==> #[trigger] col_cover@[y] == col_star(mask@, n as int, y),
                forall|x: int, y1: int, y2: int|
                    0 <= x < n && 0 <= y1 < n && 0 <= y2 < n && #[trigger] is_star(mask@, x, y1) && #[trigger] is_star(mask@, x, y2) ==> y1 == y2,
                forall|y: int, x1: int, x2: int|
                    0 <= y < n && 0 <= x1 < n && 0 <= x2 < n && #[trigger] is_star(mask@, x1, y) && #[trigger] is_star(mask@, x2, y) ==> x1 == x2,
            decreases n - i,
        {
            let mut j: usize = 0;
            while j < n
                invariant
                    i < n,
                    j <= n,
                    zero@.len() == n,
                    forall|x: int| 0 <= x < n ==> (#[trigger] zero@[x])@.len() == n,
                    mask@.len() == n,
                    forall|x: int| 0 <= x < n ==> (#[trigger] mask@[x])@.len() == n,
                    row_cover@.len() == n,
                    col_cover@.len() == n,
                    forall|x: int, y: int| 0 <= x < n && 0 <= y < n && not_before(x, y, i as int, j as int) ==> #[trigger] mask@[x]@[y] == Mark::Unmarked,
                    forall|x: int, y: int| 0 <= x < n && 0 <= y < n ==> #[trigger] mask@[x]@[y] != Mark::Prime,
                    forall|x: int, y: int|
                        0 <= x < n && 0 <= y < n && !not_before(x, y, i as int, j as int) ==> (#[trigger] is_star(mask@, x, y) <==> (zero@[x]@[y] && (forall|y2: int|
                            0 <= y2 < y ==> !#[trigger] is_star(mask@, x, y2)) && (forall|x2: int|
                            0 <= x2 < x ==> !#[trigger] is_star(mask@, x2, y)))),
                    forall|x: int| 0 <= x < n ==> #[trigger] row_cover@[x] == row_star(mask@, n as int, x),
                    forall|y: int| 0 <= y < n ==> #[trigger] col_cover@[y] == col_star(mask@, n as int, y),
                    forall|x: int, y1: int, y2: int|
                        0 <= x < n && 0 <= y1 < n && 0 <= y2 < n && #[trigger] is_star(mask@, x, y1) && #[trigger] is_star(mask@, x, y2) ==> y1 == y2,
                    forall|y: int, x1: int, x2: int|
                        0 <= y < n && 0 <= x1 < n && 0 <= x2 < n && #[trigger] is_star(mask@, x1, y) && #[trigger] is_star(mask@, x2, y) ==> x1 == x2,
                decreases n - j,
            {
                if zero[i][j] && !row_cover[i] && !col_cover[j] {
                    let ghost m0 = mask@;
                    set_mark(&mut mask, i, j, Mark::Star);
                    row_cover.set(i, true);
                    col_cover.set(j, true);
                    proof {
                        assert(is_star(mask@, i as int, j as int));
                        assert forall|x: int, y: int| 0 <= x < n && 0 <= y < n && !(x == i && y == j) implies #[trigger] mask@[x]@[y] == m0[x]@[y] by {
                            if x != i {
                                assert(mask@[x] == m0[x]);
                            }
                        }
                        assert forall|x: int| 0 <= x < n implies #[trigger] row_cover@[x] == row_star(mask@, n as int, x) by {
                            if x == i {
                                assert(is_star(mask@, x, j as int));
                            } else {
                                if row_star(mask@, n as int, x) {
                                    let y = choose|y: int| 0 <= y < n && #[trigger] is_star(mask@, x, y);
                                    assert(is_star(m0, x, y));
                                }
                                if row_star(m0, n as int, x) {
                                    let y = choose|y: int| 0 <= y < n && #[trigger] is_star(m0, x, y);
                                    assert(is_star(mask@, x, y));
                                }
                            }
                        }
                        assert forall|y: int| 0 <= y < n implies #[trigger] col_cover@[y] == col_star(mask@, n as int, y) by {
                            if y == j {
                                assert(is_star(mask@, i as int, y));
                            } else {
                                if col_star(mask@, n as int, y) {
                                    let x = choose|x: int| 0 <= x < n && #[trigger] is_star(mask@, x, y);
                                    assert(is_star(m0, x, y));
                                }
                                if col_star(m0, n as int, y) {
                                    let x = choose|x: int| 0 <= x < n && #[trigger] is_star(m0, x, y);
                                    assert(is_star(mask@, x, y));
                                }
                            }
                        }
                        assert(!row_star(m0, n as int, i as int));
                        assert(!col_star(m0, n as int, j as int));
                        assert forall|x: int, y: int|
                            0 <= x < n && 0 <= y < n && !not_before(x, y, i as int, j as int + 1) implies (#[trigger] is_star(mask@, x, y) <==> (zero@[x]@[y] && (forall|y2: int|
                                0 <= y2 < y ==> !#[trigger] is_star(mask@, x, y2)) && (forall|x2: int|
                                0 <= x2 < x ==> !#[trigger] is_star(mask@, x2, y)))) by {
                            if x == i && y == j {
                                assert forall|y2: int| 0 <= y2 < y implies !#[trigger] is_star(mask@, x, y2) by {
                                    assert(!is_star(m0, x, y2));
                                }
                                assert forall|x2: int| 0 <= x2 < x implies !#[trigger] is_star(mask@, x2, y) by {
                                    assert(!is_star(m0, x2, y));
                                }
                            } else {
                                assert(mask@[x]@[y] == m0[x]@[y]);
                                assert(is_star(mask@, x, y) == is_star(m0, x, y));
                                assert forall|y2: int| 0 <= y2 < y implies #[trigger] is_star(mask@, x, y2) == is_star(m0, x, y2) by {
                                    if !(x == i && y2 == j) {
                                        assert(mask@[x]@[y2] == m0[x]@[y2]);
                                    }
                                }
                                assert forall|x2: int| 0 <= x2 < x implies #[trigger] is_star(mask@, x2, y) == is_star(m0, x2, y) by {
                                    assert(mask@[x2]@[y] == m0[x2]@[y]);
                                }
                                lemma_same_prefixes(mask@, m0, x, y);
                            }
                        }
                        assert forall|x: int, y1: int, y2: int|
                            0 <= x < n && 0 <= y1 < n && 0 <= y2 < n && #[trigger] is_star(mask@, x, y1) && #[trigger] is_star(mask@, x, y2) implies y1 == y2 by {
                            if x == i {
                                if y1 != j {
                                    assert(is_star(m0, x, y1));
                                }
                                if y2 != j {
                                    assert(is_star(m0, x, y2));
                                }
                            } else {
                                assert(is_star(m0, x, y1) && is_star(m0, x, y2));
                            }
                        }
                        assert forall|y: int, x1: int, x2: int|
                            0 <= y < n && 0 <= x1 < n && 0 <= x2 < n && #[trigger] is_star(mask@, x1, y) && #[trigger] is_star(mask@, x2, y) implies x1 == x2 by {
                            if y == j {
                                if x1 != i {
                                    assert(is_star(m0, x1, y));
                                }
                                if x2 != i {
                                    assert(is_star(m0, x2, y));
                                }
                            } else {
                                assert(is_star(m0, x1, y) && is_star(m0, x2, y));
                            }
                        }
                    }
                } else {
                    proof {
                        assert forall|x: int, y: int|
                            0 <= x < n && 0 <= y < n && !not_before(x, y, i as int, j as int + 1) implies (#[trigger] is_star(mask@, x, y) <==> (zero@[x]@[y] && (forall|y2: int|
                                0 <= y2 < y ==> !#[trigger] is_star(mask@, x, y2)) && (forall|x2: int|
                                0 <= x2 < x ==> !#[trigger] is_star(mask@, x2, y)))) by {
                            if x == i && y == j {
                                assert(mask@[x]@[y] == Mark::Unmarked);
                                if zero@[x]@[y] {
                                    if row_cover@[x] {
                                        let y2 = choose|y2: int| 0 <= y2 < n && #[trigger] is_star(mask@, x, y2);
                                        assert(!not_before(x, y2, i as int, j as int));
                                    } else {
                                        assert(col_cover@[y]);
                                        let x2 = choose|x2: int| 0 <= x2 < n && #[trigger] is_star(mask@, x2, y);
                                        assert(!not_before(x2, y, i as int, j as int));
                                    }
                                }
                            }
                        }
                    }
                }
                j += 1;
            }
            i += 1;
        }
        proof {
            assert(greedy_stars(zero@, mask@, n as int)) by {
                assert forall|x: int, y: int| 0 <= x < n && 0 <= y < n implies (#[trigger] is_star(mask@, x, y) <==> (zero@[x]@[y] && (forall|y2: int|
                    0 <= y2 < y ==> !#[trigger] is_star(mask@, x, y2)) && (forall|x2: int| 0 <= x2 < x ==> !#[trigger] is_star(mask@, x2, y)))) by {
                }
            }
        }
        // clear the covers
        let mut k: usize = 0;
        while k < n
            invariant
                k <= n,
                row_cover@.len() == n,
                col_cover@.len() == n,
                forall|x: int| 0 <= x < k ==> !#[trigger] row_cover@[x],
                forall|x: int| 0 <= x < k ==> !#[trigger] col_cover@[x],
            decreases n - k,
        {
            row_cover.set(k, false);
            col_cover.set(k, false);
            k += 1;
        }
        let ghost g = mask@;
        let done = cover_star_columns(&mask, n, &mut col_cover);
        let res = Munkres {
            n,
            mask,
            row_cover,
            col_cover,
            done,
            stamp: Ghost(Seq::new(n as nat, |x: int| Seq::new(n as nat, |y: int| 0int))),
            clock: Ghost(0int),
        };
        proof {
            assert(no_primes(g, n as int));
            assert forall|x: int| 0 <= x < n implies #[trigger] res.row_cover@[x] == (row_star(g, n as int, x) && row_prime(g, n as int, x)) by {
                if row_prime(g, n as int, x) {
                    let y = choose|y: int| 0 <= y < n && #[trigger] is_prime(g, x, y);
                }
            }
        }
        res
    }
}

/// Priming the uncovered unmarked zero `(i, j)`: the stars stay, the prime
/// joins with the newest stamp, and a row without a star is then ready for
/// augmenting.
proof fn lemma_prime_added(
    g: Seq<Vec<Mark>>,
    gp: Seq<Vec<Mark>>,
    rc: Seq<bool>,
    cc: Seq<bool>,
    n: int,
    stamp: Seq<Seq<int>>,
    stamp2: Seq<Seq<int>>,
    clock: int,
    i: int,
    j: int,
)
    requires
        phase(g, rc, cc, n, stamp, clock, -1),
        0 <= i < n,
        0 <= j < n,
        !rc[i],
        !cc[j],
        g[i]@[j] == Mark::Unmarked,
        !row_prime(g, n, i),
        gp.len() == n,
        gp[i]@ == g[i]@.update(j, Mark::Prime),
        forall|x: int| 0 <= x < n && x != i ==> #[trigger] gp[x] == g[x],
        stamp2 == stamp.update(i, stamp[i].update(j, clock)),
    ensures
        grid_ok(gp, n),
        forall|x: int, y: int| 0 <= x < n && 0 <= y < n ==> #[trigger] gp[x]@[y] == (if x == i && y == j {
            Mark::Prime
        } else {
            g[x]@[y]
        }),
        forall|x: int, y: int| 0 <= x < n && 0 <= y < n ==> #[trigger] is_star(gp, x, y) == is_star(g, x, y),
        forall|x: int| 0 <= x < n ==> #[trigger] row_star(gp, n, x) == row_star(g, n, x),
        forall|y: int| 0 <= y < n ==> #[trigger] col_star(gp, n, y) == col_star(g, n, y),
        is_prime(gp, i, j),
        !row_star(g, n, i) ==> phase(gp, rc, cc, n, stamp2, clock + 1, i),
{
    assert forall|x: int, y: int| 0 <= x < n && 0 <= y < n implies #[trigger] gp[x]@[y] == (if x == i && y == j {
        Mark::Prime
    } else {
        g[x]@[y]
    }) by {
        if x != i {
            assert(gp[x] == g[x]);
        }
    }
    assert forall|x: int, y: int| 0 <= x < n && 0 <= y < n implies #[trigger] is_star(gp, x, y) == is_star(g, x, y) by {
        assert(gp[x]@[y] == (if x == i && y == j { Mark::Prime } else { g[x]@[y] }));
    }
    assert forall|x: int| 0 <= x < n implies #[trigger] row_star(gp, n, x) == row_star(g, n, x) by {
        if row_star(gp, n, x) {
            let y = choose|y: int| 0 <= y < n && #[trigger] is_star(gp, x, y);
            assert(is_star(g, x, y));
        }
        if row_star(g, n, x) {
            let y = choose|y: int| 0 <= y < n && #[trigger] is_star(g, x, y);
            assert(is_star(gp, x, y));
        }
    }
    assert forall|y: int| 0 <= y < n implies #[trigger] col_star(gp, n, y) == col_star(g, n, y) by {
        if col_star(gp, n, y) {
            let x = choose|x: int| 0 <= x < n && #[trigger] is_star(gp, x, y);
            assert(is_star(g, x, y));
        }
        if col_star(g, n, y) {
            let x = choose|x: int| 0 <= x < n && #[trigger] is_star(g, x, y);
            assert(is_star(gp, x, y));
        }
    }
    assert forall|x: int, y: int| 0 <= x < n && 0 <= y < n implies #[trigger] is_prime(gp, x, y) == (is_prime(g, x, y) || (x == i && y == j)) by {
        assert(gp[x]@[y] == (if x == i && y == j { Mark::Prime } else { g[x]@[y] }));
    }
    assert forall|x: int| 0 <= x < n implies (#[trigger] gp[x])@.len() == n by {
        if x != i {
            assert(gp[x] == g[x]);
        }
    }
    assert forall|x: int, y1: int, y2: int|
        0 <= x < n && 0 <= y1 < n && 0 <= y2 < n && #[trigger] is_prime(gp, x, y1) && #[trigger] is_prime(gp, x, y2) implies y1 == y2 by {
        if x == i {
            if y1 != j {
                assert(is_prime(g, x, y1));
            }
            if y2 != j {
                assert(is_prime(g, x, y2));
            }
        } else {
            assert(is_prime(g, x, y1) && is_prime(g, x, y2));
        }
    }
    assert forall|x: int| 0 <= x < n implies #[trigger] row_prime(gp, n, x) == (row_prime(g, n, x) || x == i) by {
        if row_prime(gp, n, x) {
            let y = choose|y: int| 0 <= y < n && #[trigger] is_prime(gp, x, y);
            if !(x == i && y == j) {
                assert(is_prime(g, x, y));
            }
        }
        if row_prime(g, n, x) {
            let y = choose|y: int| 0 <= y < n && #[trigger] is_prime(g, x, y);
            assert(is_prime(gp, x, y));
        }
        if x == i {
            assert(is_prime(gp, i, j));
        }
    }
    assert forall|x: int, y: int| 0 <= x < n && 0 <= y < n && #[trigger] is_prime(gp, x, y) implies 0 <= stamp2[x][y] < clock + 1 by {
        if !(x == i && y == j) {
            assert(is_prime(g, x, y));
        }
    }
    if !row_star(g, n, i) {
        assert forall|x: int, y: int, y2: int, x2: int|
            0 <= x < n && 0 <= y < n && 0 <= y2 < n && 0 <= x2 < n && #[trigger] is_star(gp, x, y) && rc[x]
                && #[trigger] is_prime(gp, x, y2) && #[trigger] is_prime(gp, x2, y) implies stamp2[x2][y] > stamp2[x][y2] by {
            assert(is_star(g, x, y));
            assert(x != i);
            assert(is_prime(g, x, y2));
            if x2 == i && y == j {
                assert(0 <= stamp[x][y2] < clock);
            } else {
                assert(is_prime(g, x2, y));
            }
        }
        assert forall|x: int| 0 <= x < n implies #[trigger] rc[x] == (row_star(gp, n, x) && row_prime(gp, n, x)) by {
            assert(rc[x] == (row_star(g, n, x) && row_prime(g, n, x)));
        }
        assert forall|x: int| 0 <= x < n && x != i && #[trigger] row_prime(gp, n, x) implies row_star(gp, n, x) by {
            assert(row_prime(g, n, x));
        }
        assert forall|x: int, y: int| 0 <= x < n && 0 <= y < n && #[trigger] is_star(gp, x, y) implies cc[y] == !rc[x] by {
            assert(is_star(g, x, y));
        }
        assert forall|x: int, y: int| 0 <= x < n && 0 <= y < n && #[trigger] is_prime(gp, x, y) implies !cc[y] by {
            if !(x == i && y == j) {
                assert(is_prime(g, x, y));
            }
        }
        assert forall|y: int| 0 <= y < n && #[trigger] cc[y] implies col_star(gp, n, y) by {
            assert(col_star(g, n, y));
        }
        assert forall|x: int| 0 <= x < n implies (#[trigger] stamp2[x]).len() == n by {}
    }
}

/// Priming a zero in a row with a star at `js`, then covering the row and
/// uncovering `js`, returns to the state between steps.
proof fn lemma_row_covered(
    g: Seq<Vec<Mark>>,
    gp: Seq<Vec<Mark>>,
    rc: Seq<bool>,
    cc: Seq<bool>,
    rc2: Seq<bool>,
    cc2: Seq<bool>,
    n: int,
    stamp: Seq<Seq<int>>,
    stamp2: Seq<Seq<int>>,
    clock: int,
    i: int,
    j: int,
    js: int,
)
    requires
        phase(g, rc, cc, n, stamp, clock, -1),
        0 <= i < n,
        0 <= j < n,
        0 <= js < n,
        !rc[i],
        !cc[j],
        g[i]@[j] == Mark::Unmarked,
        !row_prime(g, n, i),
        is_star(g, i, js),
        grid_ok(gp, n),
        forall|x: int, y: int| 0 <= x < n && 0 <= y < n ==> #[trigger] gp[x]@[y] == (if x == i && y == j {
            Mark::Prime
        } else {
            g[x]@[y]
        }),
        forall|x: int, y: int| 0 <= x < n && 0 <= y < n ==> #[trigger] is_star(gp, x, y) == is_star(g, x, y),
        forall|x: int| 0 <= x < n ==> #[trigger] row_star(gp, n, x) == row_star(g, n, x),
        forall|y: int| 0 <= y < n ==> #[trigger] col_star(gp, n, y) == col_star(g, n, y),
        is_prime(gp, i, j),
        stamp2 == stamp.update(i, stamp[i].update(j, clock)),
        rc2 == rc.update(i, true),
        cc2 == cc.update(js, false),
    ensures
        phase(gp, rc2, cc2, n, stamp2, clock + 1, -1),
{
    assert(cc[js] == !rc[i]);
    assert(j != js);
    assert forall|x: int, y: int| 0 <= x < n && 0 <= y < n implies #[trigger] is_prime(gp, x, y) == (is_prime(g, x, y) || (x == i && y == j)) by {}
    assert forall|x: int| 0 <= x < n implies #[trigger] row_prime(gp, n, x) == (row_prime(g, n, x) || x == i) by {
        if row_prime(gp, n, x) {
            let y = choose|y: int| 0 <= y < n && #[trigger] is_prime(gp, x, y);
            if !(x == i && y == j) {
                assert(is_prime(g, x, y));
            }
        }
        if row_prime(g, n, x) {
            let y = choose|y: int| 0 <= y < n && #[trigger] is_prime(g, x, y);
            assert(is_prime(gp, x, y));
        }
        if x == i {
            assert(is_prime(gp, i, j));
        }
    }
    assert(row_star(g, n, i));
    assert forall|x: int| 0 <= x < n implies #[trigger] rc2[x] == (row_star(gp, n, x) && row_prime(gp, n, x)) by {
        if x != i {
            assert(rc[x] == (row_star(g, n, x) && row_prime(g, n, x)));
        }
    }
    assert forall|x: int| 0 <= x < n && #[trigger] row_prime(gp, n, x) implies row_star(gp, n, x) by {
        if x != i {
            assert(row_prime(g, n, x));
        }
    }
    assert forall|x: int, y: int| 0 <= x < n && 0 <= y < n && #[trigger] is_star(gp, x, y) implies cc2[y] == !rc2[x] by {
        assert(is_star(g, x, y));
        if y == js {
            assert(x == i);
        } else if x == i {
            assert(y == js);
        }
    }
    assert forall|x: int, y: int| 0 <= x < n && 0 <= y < n && #[trigger] is_prime(gp, x, y) implies !cc2[y] by {
        if !(x == i && y == j) {
            assert(is_prime(g, x, y));
        }
    }
    assert forall|y: int| 0 <= y < n && #[trigger] cc2[y] implies col_star(gp, n, y) by {
        assert(cc[y]);
        assert(col_star(g, n, y));
    }
    assert forall|x: int, y: int, y2: int, x2: int|
        0 <= x < n && 0 <= y < n && 0 <= y2 < n && 0 <= x2 < n && #[trigger] is_star(gp, x, y) && rc2[x]
            && #[trigger] is_prime(gp, x, y2) && #[trigger] is_prime(gp, x2, y) implies stamp2[x2][y] > stamp2[x][y2] by {
        assert(is_star(g, x, y));
        if x == i {
            // the star's column was covered, so it held no prime
            assert(y == js);
            assert(cc[js]);
            if !(x2 == i && y == j) {
                assert(is_prime(g, x2, y));
            }
        } else {
            assert(rc[x]);
            assert(is_prime(g, x, y2));
            if x2 == i && y == j {
                assert(0 <= stamp[x][y2] < clock);
            } else {
                assert(is_prime(g, x2, y));
            }
        }
    }
    assert forall|x: int, y: int| 0 <= x < n && 0 <= y < n && #[trigger] is_prime(gp, x, y) implies 0 <= stamp2[x][y] < clock + 1 by {
        if !(x == i && y == j) {
            assert(is_prime(g, x, y));
        }
    }
    assert forall|x: int| 0 <= x < n implies (#[trigger] stamp2[x]).len() == n by {}
}

/// The path built after priming `(i, j)` alternates from it in the marks
/// before priming.
proof fn lemma_alternating_from(
    g: Seq<Vec<Mark>>,
    gp: Seq<Vec<Mark>>,
    n: int,
    stamp: Seq<Seq<int>>,
    i: int,
    j: int,
    p: Seq<(usize, usize)>,
)
    requires
        grid_ok(gp, n),
        alt_path(gp, n, stamp, i, j, p),
        !row_star(gp, n, i),
        0 <= i < n <= usize::MAX,
        0 <= j < n,
        g[i]@[j] == Mark::Unmarked,
        forall|x: int, y: int| 0 <= x < n && 0 <= y < n ==> #[trigger] gp[x]@[y] == (if x == i && y == j {
            Mark::Prime
        } else {
            g[x]@[y]
        }),
    ensures
        alternating_from(g, n, i, j, p),
{
    lemma_path_distinct(gp, n, stamp, i, j, p);
    assert forall|k: int| 0 <= k < p.len() implies (#[trigger] p[k]).0 < n && p[k].1 < n by {}
    assert forall|k: int| 1 <= k < p.len() && k % 2 == 0 implies #[trigger] prime_at(g, p, k) by {
        assert(prime_at(gp, p, k));
        assert(p[k].0 < n && p[k].1 < n);
        assert(p[k].0 != p[0].0);
    }
    assert forall|k: int| 0 <= k < p.len() && k % 2 == 1 implies #[trigger] star_at(g, p, k) && linked(p, k) by {
        assert(star_at(gp, p, k));
        assert(p[k].0 < n && p[k].1 < n);
    }
    let c = p[p.len() - 1].1 as int;
    assert(p[p.len() - 1].1 < n);
    assert(!col_star(g, n, c)) by {
        if col_star(g, n, c) {
            let x = choose|x: int| 0 <= x < n && #[trigger] is_star(g, x, c);
            assert(is_star(gp, x, c));
        }
    }
}

impl Munkres {
    /// One round of the method on the current zero pattern: the first
    /// uncovered zero is primed; if its row holds a star, the row is covered
    /// and the star's column uncovered; otherwise the stars are augmented
    /// along the alternating path from it, the primes erased, the covers
    /// cleared and the columns with a star covered again. When no zero is
    /// uncovered nothing changes and the costs must be shifted: the result
    /// tells so.
    pub fn step(&mut self, zero: &Vec<Vec<bool>>) -> (shift: bool)
        requires
            old(self).wf(),
            !old(self).finished(),
            zero@.len() == old(self).size(),
            forall|i: int| 0 <= i < old(self).size() ==> (#[trigger] zero@[i])@.len() == old(self).size(),
        ensures
            final(self).wf(),
            final(self).size() == old(self).size(),
            shift == forall|i: int, j: int|
                0 <= i < old(self).size() && 0 <= j < old(self).size() ==> !#[trigger] uncovered_zero(
                    zero@,
                    old(self).rows_covered(),
                    old(self).cols_covered(),
                    i,
                    j,
                ),
            shift ==> *final(self) == *old(self),
            !shift ==> exists|i: int, j: int|
                #[trigger] first_uncovered(zero@, old(self).rows_covered(), old(self).cols_covered(), old(self).size(), i, j) && {
                    let g = old(self).marks();
                    let n = old(self).size();
                    &&& g[i]@[j] == Mark::Unmarked
                    &&& row_star(g, n, i) ==> {
                        &&& forall|x: int, y: int|
                            0 <= x < n && 0 <= y < n ==> #[trigger] final(self).marks()[x]@[y] == (if x == i && y == j {
                                Mark::Prime
                            } else {
                                g[x]@[y]
                            })
                        &&& exists|js: int|
                            0 <= js < n && #[trigger] is_star(g, i, js) && final(self).rows_covered()
                                == old(self).rows_covered().update(i, true) && final(self).cols_covered()
                                == old(self).cols_covered().update(js, false)
                        &&& !final(self).finished()
                    }
                    &&& !row_star(g, n, i) ==> {
                        &&& exists|p: Seq<(usize, usize)>|
                            #[trigger] alternating_from(g, n, i, j, p) && flipped(g, final(self).marks(), n, p)
                        &&& forall|r: int| 0 <= r < n ==> #[trigger] row_star(final(self).marks(), n, r) == (row_star(g, n, r) || r == i)
                        &&& forall|r: int| 0 <= r < n ==> !#[trigger] final(self).rows_covered()[r]
                        &&& forall|c: int|
                            0 <= c < n ==> #[trigger] final(self).cols_covered()[c] == col_star(final(self).marks(), n, c)
                    }
                },
    {
        let n = self.n;
        let found = first_uncovered_zero(zero, &self.row_cover, &self.col_cover, n);
        match found {
            None => {
                return true;
            },
            Some((i, j)) => {
                let ghost g = self.mask@;
                let ghost rc = self.row_cover@;
                let ghost cc = self.col_cover@;
                let ghost stamp = self.stamp@;
                let ghost clock = self.clock@;
                proof {
                    assert(first_uncovered(zero@, rc, cc, n as int, i as int, j as int));
                    // the uncovered zero carries no mark
                    assert(!is_star(g, i as int, j as int));
                    assert(!row_prime(g, n as int, i as int)) by {
                        if row_prime(g, n as int, i as int) {
                            assert(row_star(g, n as int, i as int));
                        }
                    }
                    assert(g[i as int]@[j as int] == Mark::Unmarked) by {
                        if g[i as int]@[j as int] == Mark::Prime {
                            assert(is_prime(g, i as int, j as int));
                        }
                    }
                }
                set_mark(&mut self.mask, i, j, Mark::Prime);
                proof {
                    self.stamp@ = stamp.update(i as int, stamp[i as int].update(j as int, clock));
                    self.clock@ = clock + 1;
                }
                let ghost gp = self.mask@;
                let ghost stamp2 = self.stamp@;
                proof {
                    lemma_prime_added(g, gp, rc, cc, n as int, stamp, stamp2, clock, i as int, j as int);
                }
                match mark_in_row(&self.mask, n, i, Mark::Star) {
                    Some(js) => {
                        self.row_cover.set(i, true);
                        self.col_cover.set(js, false);
                        proof {
                            assert(is_star(gp, i as int, js as int));
                            assert(is_star(g, i as int, js as int));
                            lemma_row_covered(g, gp, rc, cc, self.row_cover@, self.col_cover@, n as int, stamp, stamp2, clock, i as int, j as int, js as int);
                            assert(self.row_cover@ == rc.update(i as int, true));
                            assert(self.col_cover@ == cc.update(js as int, false));
                            assert(first_uncovered(zero@, rc, cc, n as int, i as int, j as int));
                            assert(uncovered_zero(zero@, rc, cc, i as int, j as int));
                            let c0 = choose|c0: int| !(0 <= c0 < n ==> #[trigger] col_star(g, n as int, c0));
                            assert(!col_star(gp, n as int, c0));
                            assert(old(self).rows_covered() == rc);
                            assert(old(self).cols_covered() == cc);
                            assert(old(self).marks() == g);
                            assert(uncovered_zero(zero@, old(self).rows_covered(), old(self).cols_covered(), i as int, j as int));
                            assert(first_uncovered(zero@, old(self).rows_covered(), old(self).cols_covered(), old(self).size(), i as int, j as int));
                            assert(self.marks() == gp);
                            assert(self.rows_covered() == rc.update(i as int, true));
                            assert(self.cols_covered() == cc.update(js as int, false));
                            assert(row_star(g, n as int, i as int));
                        }
                        return false;
                    },
                    None => {
                        proof {
                            assert(!row_star(gp, n as int, i as int)) by {
                                if row_star(gp, n as int, i as int) {
                                    let y = choose|y: int| 0 <= y < n && #[trigger] is_star(gp, i as int, y);
                                    assert(gp[i as int]@[y] == Mark::Star);
                                }
                            }
                            assert(!row_star(g, n as int, i as int)) by {
                                if row_star(g, n as int, i as int) {
                                    let y = choose|y: int| 0 <= y < n && #[trigger] is_star(g, i as int, y);
                                    assert(is_star(gp, i as int, y));
                                }
                            }
                        }
                        let path = alternating_path(&self.mask, n, i, j, Ghost(rc), Ghost(cc), Ghost(stamp2), Ghost(clock + 1));
                        augment_marks(&mut self.mask, n, &path, Ghost(stamp2), Ghost(i as int), Ghost(j as int));
                        proof {
                            lemma_augment_adds_star(gp, self.mask@, n as int, stamp2, i as int, j as int, path@);
                            lemma_alternating_from(g, gp, n as int, stamp2, i as int, j as int, path@);
                            assert(flipped(g, self.mask@, n as int, path@)) by {
                                assert forall|x: int, y: int| 0 <= x < n && 0 <= y < n implies #[trigger] self.mask@[x]@[y] == (if on_path(path@, x, y, 0) {
                                    Mark::Star
                                } else if on_path(path@, x, y, 1) {
                                    Mark::Unmarked
                                } else if g[x]@[y] == Mark::Prime {
                                    Mark::Unmarked
                                } else {
                                    g[x]@[y]
                                }) by {
                                    if x == i && y == j {
                                        assert(path@[0] == (i, j));
                                        assert(on_path(path@, x, y, 0));
                                    } else {
                                        assert(gp[x]@[y] == g[x]@[y]);
                                    }
                                }
                            }
                        }
                        let ghost g2 = self.mask@;
                        let mut k: usize = 0;
                        while k < n
                            invariant
                                k <= n,
                                self.n == n,
                                self.mask@ == g2,
                                self.stamp@ == stamp2,
                                self.clock@ == clock + 1,
                                self.row_cover@.len() == n,
                                self.col_cover@.len() == n,
                                forall|x: int| 0 <= x < k ==> !#[trigger] self.row_cover@[x],
                                forall|x: int| 0 <= x < k ==> !#[trigger] self.col_cover@[x],
                            decreases n - k,
                        {
                            self.row_cover.set(k, false);
                            self.col_cover.set(k, false);
                            k += 1;
                        }
                        let all = cover_star_columns(&self.mask, n, &mut self.col_cover);
                        self.done = all;
                        proof {
                            assert(no_primes(g2, n as int));
                            assert forall|x: int| 0 <= x < n implies #[trigger] self.row_cover@[x] == (row_star(g2, n as int, x) && row_prime(g2, n as int, x)) by {
                                if row_prime(g2, n as int, x) {
                                    let y = choose|y: int| 0 <= y < n && #[trigger] is_prime(g2, x, y);
                                }
                            }
                            assert(first_uncovered(zero@, rc, cc, n as int, i as int, j as int));
                            assert(uncovered_zero(zero@, rc, cc, i as int, j as int));
                            assert(alternating_from(g, n as int, i as int, j as int, path@));
                            assert(old(self).rows_covered() == rc);
                            assert(old(self).cols_covered() == cc);
                            assert(old(self).marks() == g);
                            assert(uncovered_zero(zero@, old(self).rows_covered(), old(self).cols_covered(), i as int, j as int));
                            assert(first_uncovered(zero@, old(self).rows_covered(), old(self).cols_covered(), old(self).size(), i as int, j as int));
                            assert(self.marks() == g2);
                            assert forall|x: int| 0 <= x < n implies !#[trigger] row_prime(g2, n as int, x) by {
                                if row_prime(g2, n as int, x) {
                                    let y = choose|y: int| 0 <= y < n && #[trigger] is_prime(g2, x, y);
                                }
                            }
                            assert forall|x: int, y: int| 0 <= x < n && 0 <= y < n && #[trigger] is_star(g2, x, y) implies self.col_cover@[y] == !self.row_cover@[x] by {
                                assert(col_star(g2, n as int, y));
                            }
                            assert forall|x: int| 0 <= x < n implies (#[trigger] stamp2[x]).len() == n by {}
                            assert(self.stamp@ == stamp2);
                            assert(self.clock@ == clock + 1);
                        }
                        return false;
                    },
                }
            },
        }
    }
}

impl Munkres {
    /// The dimension.
    pub fn dimension(&self) -> (n: usize)
        ensures
            n == self.size(),
    {
        self.n
    }

    /// Whether every column holds a star.
    pub fn is_finished(&self) -> (b: bool)
        ensures
            b == self.finished(),
    {
        self.done
    }

    /// Whether row `i` is covered.
    pub fn row_is_covered(&self, i: usize) -> (b: bool)
        requires
            self.wf(),
            i < self.size(),
        ensures
            b == self.rows_covered()[i as int],
    {
        self.row_cover[i]
    }

    /// Whether column `j` is covered.
    pub fn col_is_covered(&self, j: usize) -> (b: bool)
        requires
            self.wf(),
            j < self.size(),
        ensures
            b == self.cols_covered()[j as int],
    {
        self.col_cover[j]
    }

    /// The assignment of the starred zeros: each row to the column of its
    /// star, each column to the row of its star.
    pub fn starred_assignment(&self) -> (res: (Vec<Option<usize>>, Vec<Option<usize>>))
        requires
            self.wf(),
        ensures
            res.0@.len() == self.size(),
            res.1@.len() == self.size(),
            forall|i: int, j: int|
                0 <= i < self.size() && 0 <= j < self.size() ==> (#[trigger] is_star(self.marks(), i, j) <==> res.0@[i]
                    == Some(j as usize)),
            forall|i: int| 0 <= i < self.size() ==> (#[trigger] res.0@[i] is Some <==> row_star(self.marks(), self.size(), i)),
            forall|i: int, j: int|
                0 <= i < self.size() && 0 <= j < self.size() ==> (#[trigger] is_star(self.marks(), i, j) <==> res.1@[j]
                    == Some(i as usize)),
            forall|j: int| 0 <= j < self.size() ==> (#[trigger] res.1@[j] is Some <==> col_star(self.marks(), self.size(), j)),
            is_matching(res.0@, res.1@),
            self.finished() ==> forall|j: int| 0 <= j < self.size() ==> #[trigger] res.1@[j] is Some,
    {
        let n = self.n;
        let ghost g = self.mask@;
        let mut row_assign: Vec<Option<usize>> = Vec::new();
        let mut i: usize = 0;
        while i < n
            invariant
                self.wf(),
                n == self.n,
                g == self.mask@,
                i <= n,
                row_assign@.len() == i,
                forall|x: int, y: int|
                    0 <= x < i && 0 <= y < n ==> (#[trigger] is_star(g, x, y) <==> row_assign@[x] == Some(y as usize)),
                forall|x: int| 0 <= x < i ==> (#[trigger] row_assign@[x] is Some <==> row_star(g, n as int, x)),
            decreases n - i,
        {
            let found = mark_in_row(&self.mask, n, i, Mark::Star);
            proof {
                assert forall|y: int| 0 <= y < n implies (#[trigger] is_star(g, i as int, y) <==> found == Some(y as usize)) by {
                    if let Some(c) = found {
                        if is_star(g, i as int, y) {
                            assert(is_star(g, i as int, c as int));
                        }
                    }
                }
                if found is None {
                    assert(!row_star(g, n as int, i as int));
                } else {
                    assert(is_star(g, i as int, found->0 as int));
                }
            }
            row_assign.push(found);
            i += 1;
        }
        let mut col_assign: Vec<Option<usize>> = Vec::new();
        let mut j: usize = 0;
        while j < n
            invariant
                self.wf(),
                n == self.n,
                g == self.mask@,
                j <= n,
                col_assign@.len() == j,
                forall|x: int, y: int|
                    0 <= x < n && 0 <= y < j ==> (#[trigger] is_star(g, x, y) <==> col_assign@[y] == Some(x as usize)),
                forall|y: int| 0 <= y < j ==> (#[trigger] col_assign@[y] is Some <==> col_star(g, n as int, y)),
            decreases n - j,
        {
            let found = star_in_column(&self.mask, n, j);
            proof {
                assert forall|x: int| 0 <= x < n implies (#[trigger] is_star(g, x, j as int) <==> found == Some(x as usize)) by {
                    if let Some(r) = found {
                        if is_star(g, x, j as int) {
                            assert(is_star(g, r as int, j as int));
                        }
                    } else {
                        if is_star(g, x, j as int) {
                            assert(col_star(g, n as int, j as int));
                        }
                    }
                }
            }
            col_assign.push(found);
            j += 1;
        }
        proof {
            let r = row_assign@;
            let c = col_assign@;
            assert forall|x: int| 0 <= x < n && #[trigger] r[x] is Some implies r[x]->0 < c.len() && c[r[x]->0 as int] is Some
                && c[r[x]->0 as int]->0 == x by {
                let y = r[x]->0 as int;
                if y >= n {
                    let y2 = choose|y2: int| 0 <= y2 < n && #[trigger] is_star(g, x, y2);
                    assert(r[x] == Some(y2 as usize));
                }
                assert(is_star(g, x, y));
            }
            assert forall|y: int| 0 <= y < n && #[trigger] c[y] is Some implies c[y]->0 < r.len() && r[c[y]->0 as int] is Some
                && r[c[y]->0 as int]->0 == y by {
                let x = c[y]->0 as int;
                if x >= n {
                    let x2 = choose|x2: int| 0 <= x2 < n && #[trigger] is_star(g, x2, y);
                    assert(c[y] == Some(x2 as usize));
                }
                assert(is_star(g, x, y));
            }
        }
        (row_assign, col_assign)
    }
}

} // verus!
