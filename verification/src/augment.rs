//! The bookkeeping of the shortest-augmenting-path solvers, which keep the
//! matching by column: `owner[j]` is the (1-based) row matched to the
//! (1-based) column `j`, `0` when the column is free, and slot `0` holds
//! the row being inserted. A search leaves `way[j]`, the column it reached
//! `j` from; augmenting flips the matching along those links.
use vstd::prelude::*;
use crate::assignment::{invert, is_matching};
use crate::basis::{lemma_row_count_bounded, lemma_row_count_change, row_count};

verus! {

/// `c` is the chain of `way` links from column `j0` back to slot `0`: it
/// starts at `j0`, follows `way`, reaches `0` only at its end and never
/// repeats a column.
pub open spec fn way_chain(way: Seq<usize>, j0: int, c: Seq<usize>) -> bool {
    &&& c.len() >= 1
    &&& c[0] == j0
    &&& c.last() == 0
    &&& c.no_duplicates()
    &&& forall|k: int| 0 <= k < c.len() ==> (#[trigger] c[k]) < way.len()
    &&& forall|k: int| 0 <= k < c.len() - 1 ==> c[k] != 0 && c[k + 1] == way[#[trigger] c[k] as int]
}

/// No row owns two columns.
pub open spec fn owners_ok(owner: Seq<usize>) -> bool {
    forall|j1: int, j2: int|
        1 <= j1 < owner.len() && 1 <= j2 < owner.len() && j1 != j2 && #[trigger] owner[j1] != 0 ==> owner[j1]
            != #[trigger] owner[j2]
}

/// The rows that own a column.
pub open spec fn owning_rows(owner: Seq<usize>) -> Set<int> {
    Set::new(|r: int| r != 0 && exists|j: int| 1 <= j < owner.len() && #[trigger] owner[j] == r)
}

/// The chain of `way` links from a column is unique.
pub(crate) proof fn lemma_chain_unique(way: Seq<usize>, j0: int, c1: Seq<usize>, c2: Seq<usize>)
    requires
        way_chain(way, j0, c1),
        way_chain(way, j0, c2),
    ensures
        c1 == c2,
{
    assert forall|k: int| 0 <= k < c1.len() && k < c2.len() implies c1[k] == c2[k] by {
        lemma_chain_prefix(way, j0, c1, c2, k);
    }
    if c1.len() < c2.len() {
        let k = c1.len() - 1;
        lemma_chain_prefix(way, j0, c1, c2, k);
        assert(c2[k] != 0);
    } else if c2.len() < c1.len() {
        let k = c2.len() - 1;
        lemma_chain_prefix(way, j0, c1, c2, k);
        assert(c1[k] != 0);
    }
    assert(c1 =~= c2);
}

proof fn lemma_chain_prefix(way: Seq<usize>, j0: int, c1: Seq<usize>, c2: Seq<usize>, k: int)
    requires
        way_chain(way, j0, c1),
        way_chain(way, j0, c2),
        0 <= k < c1.len(),
        k < c2.len(),
    ensures
        c1[k] == c2[k],
    decreases k,
{
    if k > 0 {
        lemma_chain_prefix(way, j0, c1, c2, k - 1);
        assert(c1[k] == way[c1[k - 1] as int]);
        assert(c2[k] == way[c2[k - 1] as int]);
    }
}

/// Flips the matching along the `way` links from the free column `j0`:
/// every column on the chain takes the row of the column after it, the
/// last one taking the inserted row in slot `0`.
pub fn flip_path(owner: &mut Vec<usize>, way: &Vec<usize>, j0: usize)
    requires
        old(owner)@.len() == way@.len(),
        exists|c: Seq<usize>| #[trigger] way_chain(way@, j0 as int, c),
    ensures
        final(owner)@.len() == old(owner)@.len(),
        forall|c: Seq<usize>|
            #[trigger] way_chain(way@, j0 as int, c) ==> {
                &&& forall|t: int| 0 <= t < c.len() - 1 ==> final(owner)@[#[trigger] c[t] as int] == old(owner)@[c[t + 1] as int]
                &&& forall|j: int|
                    0 <= j < old(owner)@.len() && !c.subrange(0, c.len() - 1).contains(j as usize)
                        ==> #[trigger] final(owner)@[j] == old(owner)@[j]
            },
{
    let ghost c = choose|c: Seq<usize>| #[trigger] way_chain(way@, j0 as int, c);
    if j0 == 0 {
        proof {
            assert(c.len() == 1) by {
                if c.len() > 1 {
                    assert(c[0] != 0);
                }
            }
            assert forall|c2: Seq<usize>| #[trigger] way_chain(way@, j0 as int, c2) implies {
                &&& forall|t: int| 0 <= t < c2.len() - 1 ==> owner@[#[trigger] c2[t] as int] == old(owner)@[c2[t + 1] as int]
                &&& forall|j: int|
                    0 <= j < old(owner)@.len() && !c2.subrange(0, c2.len() - 1).contains(j as usize)
                        ==> #[trigger] owner@[j] == old(owner)@[j]
            } by {
                lemma_chain_unique(way@, j0 as int, c, c2);
            }
        }
        return;
    }
    let mut j0 = j0;
    let ghost mut k: int = 0;
    loop
        invariant_except_break
            k < c.len() - 1,
            c[k] == j0,
        invariant
            way_chain(way@, c[0] as int, c),
            0 <= k < c.len(),
            owner@.len() == old(owner)@.len(),
            owner@.len() == way@.len(),
            forall|t: int| 0 <= t < k ==> owner@[#[trigger] c[t] as int] == old(owner)@[c[t + 1] as int],
            forall|j: int|
                0 <= j < owner@.len() && !c.subrange(0, k).contains(j as usize) ==> #[trigger] owner@[j] == old(owner)@[j],
        ensures
            forall|t: int| 0 <= t < c.len() - 1 ==> owner@[#[trigger] c[t] as int] == old(owner)@[c[t + 1] as int],
            forall|j: int|
                0 <= j < owner@.len() && !c.subrange(0, c.len() - 1).contains(j as usize) ==> #[trigger] owner@[j]
                    == old(owner)@[j],
            owner@.len() == old(owner)@.len(),
        decreases c.len() - k,
    {
        let ghost before = owner@;
        let j1 = way[j0];
        proof {
            assert(c[k + 1] == way@[c[k] as int]);
            // the next column has not been written yet
            assert(!c.subrange(0, k).contains(j1)) by {
                if c.subrange(0, k).contains(j1) {
                    let t = choose|t: int| 0 <= t < k && c.subrange(0, k)[t] == j1;
                    assert(c[t] == c[k + 1]);
                }
            }
        }
        let o = owner[j1];
        owner.set(j0, o);
        proof {
            assert forall|t: int| 0 <= t < k + 1 implies owner@[#[trigger] c[t] as int] == old(owner)@[c[t + 1] as int] by {
                if t < k {
                    assert(c[t] != c[k]);
                }
            }
            assert forall|j: int|
                0 <= j < owner@.len() && !c.subrange(0, k + 1).contains(j as usize) implies #[trigger] owner@[j] == old(owner)@[j] by {
                assert(c.subrange(0, k + 1)[k] == c[k]);
                assert(j != c[k]);
                if c.subrange(0, k).contains(j as usize) {
                    let t = choose|t: int| 0 <= t < k && c.subrange(0, k)[t] == j as usize;
                    assert(c.subrange(0, k + 1)[t] == j as usize);
                }
            }
        }
        j0 = j1;
        proof {
            k = k + 1;
        }
        if j0 == 0 {
            proof {
                assert(k == c.len() - 1) by {
                    if k < c.len() - 1 {
                        assert(c[k] != 0);
                    }
                }
            }
            break;
        }
        proof {
            assert(k < c.len() - 1) by {
                if k == c.len() - 1 {
                    assert(c[k] == 0);
                }
            }
        }
    }
    proof {
        assert forall|c2: Seq<usize>| #[trigger] way_chain(way@, c[0] as int, c2) implies {
            &&& forall|t: int| 0 <= t < c2.len() - 1 ==> owner@[#[trigger] c2[t] as int] == old(owner)@[c2[t + 1] as int]
            &&& forall|j: int|
                0 <= j < old(owner)@.len() && !c2.subrange(0, c2.len() - 1).contains(j as usize)
                    ==> #[trigger] owner@[j] == old(owner)@[j]
        } by {
            lemma_chain_unique(way@, c[0] as int, c, c2);
        }
    }
}

/// Augmenting along the chain of a free column keeps every row on at most
/// one column, leaves the inserted row in slot `0`, and adds it to the rows
/// that own a column: the matching grows by exactly that row.
pub proof fn lemma_flip_extends_matching(
    owner: Seq<usize>,
    flipped: Seq<usize>,
    way: Seq<usize>,
    j0: int,
    c: Seq<usize>,
)
    requires
        way_chain(way, j0, c),
        owner.len() == way.len(),
        owner.len() <= usize::MAX,
        flipped.len() == owner.len(),
        forall|t: int| 0 <= t < c.len() - 1 ==> flipped[#[trigger] c[t] as int] == owner[c[t + 1] as int],
        forall|j: int|
            0 <= j < owner.len() && !c.subrange(0, c.len() - 1).contains(j as usize) ==> #[trigger] flipped[j]
                == owner[j],
        owners_ok(owner),
        j0 != 0,
        owner[j0] == 0,
        owner[0] != 0,
        !owning_rows(owner).contains(owner[0] as int),
    ensures
        owners_ok(flipped),
        flipped[0] == owner[0],
        owning_rows(flipped) == owning_rows(owner).insert(owner[0] as int),
{
    let len = c.len() as int;
    let head = c.subrange(0, len - 1);
    let i = owner[0];
    assert(len >= 2) by {
        if len == 1 {
            assert(c[0] == 0);
        }
    }
    // slot 0 is only at the end of the chain
    assert(!head.contains(0usize)) by {
        if head.contains(0usize) {
            let t = choose|t: int| 0 <= t < head.len() && head[t] == 0usize;
            assert(c[t] != 0);
        }
    }
    // where a column sits on the chain
    assert forall|j: int| 0 <= j < owner.len() && #[trigger] head.contains(j as usize) implies exists|t: int|
        0 <= t < len - 1 && #[trigger] c[t] == j as usize by {
        let t = choose|t: int| 0 <= t < head.len() && head[t] == j as usize;
        assert(c[t] == j as usize);
    }
    // the value a chain column receives
    assert forall|t: int| 0 <= t < len - 1 implies #[trigger] flipped[c[t] as int] == (if t == len - 2 {
        i
    } else {
        owner[c[t + 1] as int]
    }) && (t < len - 2 ==> 1 <= c[t + 1] < owner.len() && head.contains(c[t + 1])) by {
        if t < len - 2 {
            assert(head[t + 1] == c[t + 1]);
        }
    }
    assert forall|j1: int, j2: int|
        1 <= j1 < flipped.len() && 1 <= j2 < flipped.len() && j1 != j2 && #[trigger] flipped[j1] != 0 implies flipped[j1]
            != #[trigger] flipped[j2] by {
        let on1 = head.contains(j1 as usize);
        let on2 = head.contains(j2 as usize);
        if on1 && on2 {
            let t1 = choose|t: int| 0 <= t < len - 1 && #[trigger] c[t] == j1 as usize;
            let t2 = choose|t: int| 0 <= t < len - 1 && #[trigger] c[t] == j2 as usize;
            assert(t1 != t2);
            if t1 == len - 2 {
                assert(head.contains(c[t2 + 1]));
                assert(owning_rows(owner).contains(owner[c[t2 + 1] as int] as int) || owner[c[t2 + 1] as int] == 0);
            } else if t2 == len - 2 {
                assert(head.contains(c[t1 + 1]));
                assert(owner[c[t1 + 1] as int] != 0);
                assert(owning_rows(owner).contains(owner[c[t1 + 1] as int] as int));
            } else {
                assert(c[t1 + 1] != c[t2 + 1]);
            }
        } else if on1 {
            let t1 = choose|t: int| 0 <= t < len - 1 && #[trigger] c[t] == j1 as usize;
            assert(flipped[j2] == owner[j2]);
            if t1 == len - 2 {
                if owner[j2] == i {
                    assert(owning_rows(owner).contains(i as int));
                }
            } else {
                assert(c[t1 + 1] != j2 as usize);
            }
        } else if on2 {
            let t2 = choose|t: int| 0 <= t < len - 1 && #[trigger] c[t] == j2 as usize;
            assert(flipped[j1] == owner[j1]);
            if t2 == len - 2 {
                if owner[j1] == i {
                    assert(owning_rows(owner).contains(i as int));
                }
            } else {
                assert(c[t2 + 1] != j1 as usize);
            }
        } else {
            assert(flipped[j1] == owner[j1]);
            assert(flipped[j2] == owner[j2]);
        }
    }
    assert(flipped[0] == owner[0]);
    assert forall|r: int| #[trigger] owning_rows(flipped).contains(r) == owning_rows(owner).insert(i as int).contains(r) by {
        if owning_rows(flipped).contains(r) {
            let j = choose|j: int| 1 <= j < flipped.len() && #[trigger] flipped[j] == r;
            if head.contains(j as usize) {
                let t = choose|t: int| 0 <= t < len - 1 && #[trigger] c[t] == j as usize;
                if t < len - 2 {
                    assert(owner[c[t + 1] as int] == r);
                    assert(owning_rows(owner).contains(r));
                }
            } else {
                assert(owner[j] == r);
                assert(owning_rows(owner).contains(r));
            }
        }
        if r == i as int {
            let j = c[len - 2] as int;
            assert(head[len - 2] == c[len - 2]);
            assert(c[len - 2] != 0);
            assert(flipped[j] == i);
            assert(owning_rows(flipped).contains(r));
        } else if owning_rows(owner).contains(r) {
            let j = choose|j: int| 1 <= j < owner.len() && #[trigger] owner[j] == r;
            if head.contains(j as usize) {
                let t = choose|t: int| 0 <= t < len - 1 && #[trigger] c[t] == j as usize;
                assert(t != 0);
                assert(head[t - 1] == c[t - 1]);
                assert(c[t - 1] != 0);
                assert(flipped[c[t - 1] as int] == owner[c[(t - 1) + 1] as int]);
                assert(owning_rows(flipped).contains(r));
            } else {
                assert(flipped[j] == r);
            }
        }
    }
    assert(owning_rows(flipped) =~= owning_rows(owner).insert(i as int));
}

/// The assignment read off column owners: 0-based column `j` takes row
/// `owner[j + 1] - 1` (none when free), and each row takes the last column
/// that names it.
pub fn owners_to_assignment(owner: &Vec<usize>, n: usize) -> (res: (Vec<Option<usize>>, Vec<Option<usize>>))
    requires
        owner@.len() == n + 1,
        forall|j: int| 1 <= j <= n ==> #[trigger] owner@[j] <= n,
    ensures
        res.1@.len() == n,
        forall|j: int|
            0 <= j < n ==> #[trigger] res.1@[j] == (if owner@[j + 1] != 0 {
                Some((owner@[j + 1] - 1) as usize)
            } else {
                None
            }),
        res.0@.len() == n,
        forall|i: int| 0 <= i < n ==> {
            &&& (#[trigger] res.0@[i] is Some <==> exists|j: int| 0 <= j < n && res.1@[j] == Some(i as usize))
            &&& res.0@[i] is Some ==> {
                let j = res.0@[i]->0 as int;
                &&& 0 <= j < n
                &&& res.1@[j] == Some(i as usize)
                &&& forall|j2: int| j < j2 < n ==> res.1@[j2] != Some(i as usize)
            }
        },
        owners_ok(owner@) ==> is_matching(res.0@, res.1@),
{
    let mut col_assign: Vec<Option<usize>> = Vec::new();
    let mut j: usize = 0;
    while j < n
        invariant
            owner@.len() == n + 1,
            forall|x: int| 1 <= x <= n ==> #[trigger] owner@[x] <= n,
            j <= n,
            col_assign@.len() == j,
            forall|x: int|
                0 <= x < j ==> #[trigger] col_assign@[x] == (if owner@[x + 1] != 0 {
                    Some((owner@[x + 1] - 1) as usize)
                } else {
                    None
                }),
        decreases n - j,
    {
        let o = owner[j + 1];
        if o != 0 {
            col_assign.push(Some(o - 1));
        } else {
            col_assign.push(None);
        }
        j += 1;
    }
    proof {
        assert forall|x: int| 0 <= x < col_assign@.len() && #[trigger] col_assign@[x] is Some implies col_assign@[x]->0 < n by {
            assert(owner@[x + 1] <= n);
        }
    }
    let row_assign = invert(col_assign.as_slice(), n);
    proof {
        let r = row_assign@;
        let cl = col_assign@;
        if owners_ok(owner@) {
            assert forall|x: int| 0 <= x < cl.len() && #[trigger] cl[x] is Some implies cl[x]->0 < r.len()
                && r[cl[x]->0 as int] is Some && r[cl[x]->0 as int]->0 == x by {
                let i = cl[x]->0 as int;
                assert(r[i] is Some);
                let y = r[i]->0 as int;
                assert(cl[y] == Some(i as usize));
                if y != x {
                    assert(owner@[x + 1] == owner@[y + 1]);
                }
            }
        }
    }
    (row_assign, col_assign)
}

/// Whether the `way` links lead from column `j0` back to slot `0` without
/// repeating a column, that is, whether `j0` has a chain to flip.
pub fn has_way_chain(way: &Vec<usize>, j0: usize) -> (ok: bool)
    ensures
        ok == exists|c: Seq<usize>| #[trigger] way_chain(way@, j0 as int, c),
{
    let n = way.len();
    if j0 >= n {
        proof {
            assert forall|c: Seq<usize>| !#[trigger] way_chain(way@, j0 as int, c) by {
                if way_chain(way@, j0 as int, c) {
                    assert(c[0] < way@.len());
                }
            }
        }
        return false;
    }
    let mut visited: Vec<bool> = Vec::new();
    let mut x: usize = 0;
    while x < n
        invariant
            x <= n,
            visited@.len() == x,
            forall|y: int| 0 <= y < x ==> !#[trigger] visited@[y],
        decreases n - x,
    {
        visited.push(false);
        x += 1;
    }
    proof {
        assert(row_count(visited@, n as int) == 0) by {
            lemma_zero_count(visited@, n as int);
        }
    }
    let mut cur = j0;
    let ghost mut w: Seq<usize> = seq![j0];
    loop
        invariant
            n == way@.len(),
            cur < n,
            w.len() >= 1,
            w[0] == j0,
            w.last() == cur,
            w.no_duplicates(),
            forall|k: int| 0 <= k < w.len() ==> (#[trigger] w[k]) < n,
            forall|k: int| 0 <= k < w.len() - 1 ==> w[k] != 0 && w[k + 1] == way@[#[trigger] w[k] as int],
            visited@.len() == n,
            forall|y: int| 0 <= y < n ==> #[trigger] visited@[y] == w.subrange(0, w.len() - 1).contains(y as usize),
            row_count(visited@, n as int) == w.len() - 1,
            forall|c: Seq<usize>|
                #[trigger] way_chain(way@, j0 as int, c) ==> c.len() >= w.len() && forall|k: int|
                    0 <= k < w.len() ==> c[k] == w[k],
        decreases n - (w.len() - 1),
    {
        if cur == 0 {
            proof {
                assert(way_chain(way@, j0 as int, w));
            }
            return true;
        }
        let next = way[cur];
        proof {
            assert(w[w.len() - 1] == cur);
        }
        if next >= n {
            proof {
                assert forall|c: Seq<usize>| !#[trigger] way_chain(way@, j0 as int, c) by {
                    if way_chain(way@, j0 as int, c) {
                        let k = w.len() - 1;
                        assert(c[k] == cur);
                        assert(k < c.len() - 1);
                        assert(c[k + 1] == way@[c[k] as int]);
                    }
                }
            }
            return false;
        }
        if next == cur || visited[next] {
            proof {
                let m = if next == cur {
                    w.len() - 1
                } else {
                    let hd = w.subrange(0, w.len() - 1);
                    let t = choose|t: int| 0 <= t < hd.len() && #[trigger] hd[t] == next;
                    t
                };
                assert(w[m] == next);
                assert forall|c: Seq<usize>| !#[trigger] way_chain(way@, j0 as int, c) by {
                    if way_chain(way@, j0 as int, c) {
                        let k = w.len() - 1;
                        assert(c[k] == cur);
                        assert(k < c.len() - 1);
                        assert(c[k + 1] == way@[c[k] as int]);
                        assert(c[m] == w[m]);
                    }
                }
            }
            return false;
        }
        let ghost v0 = visited@;
        visited.set(cur, true);
        proof {
            lemma_row_count_change(v0, visited@, n as int, cur as int);
            let w2 = w.push(next);
            assert(!w.subrange(0, w.len() - 1).contains(cur)) by {
                if w.subrange(0, w.len() - 1).contains(cur) {
                    let hd = w.subrange(0, w.len() - 1);
                    let t = choose|t: int| 0 <= t < hd.len() && #[trigger] hd[t] == cur;
                    assert(w[t] == w[w.len() - 1]);
                }
            }
            assert(!w.contains(next)) by {
                if w.contains(next) {
                    let t = choose|t: int| 0 <= t < w.len() && #[trigger] w[t] == next;
                    if t < w.len() - 1 {
                        assert(w.subrange(0, w.len() - 1)[t] == next);
                        assert(visited@[next as int] == v0[next as int]);
                    }
                }
            }
            assert forall|y: int| 0 <= y < n implies #[trigger] visited@[y] == w2.subrange(0, w2.len() - 1).contains(y as usize) by {
                assert(w2.subrange(0, w2.len() - 1) =~= w);
                if y != cur as int {
                    if w.contains(y as usize) {
                        let t = choose|t: int| 0 <= t < w.len() && #[trigger] w[t] == y as usize;
                        assert(t != w.len() - 1);
                        assert(w.subrange(0, w.len() - 1)[t] == y as usize);
                    }
                    if w.subrange(0, w.len() - 1).contains(y as usize) {
                        let hd = w.subrange(0, w.len() - 1);
                        let t = choose|t: int| 0 <= t < hd.len() && #[trigger] hd[t] == y as usize;
                        assert(w[t] == y as usize);
                    }
                } else {
                    assert(w[w.len() - 1] == cur);
                }
            }
            assert forall|c: Seq<usize>| #[trigger] way_chain(way@, j0 as int, c) implies c.len() >= w2.len() && forall|k: int|
                0 <= k < w2.len() ==> c[k] == w2[k] by {
                let k = w.len() - 1;
                assert(c[k] == cur);
                assert(k < c.len() - 1) by {
                    if k == c.len() - 1 {
                        assert(c[k] == 0);
                    }
                }
                assert(c[k + 1] == way@[c[k] as int]);
            }
            lemma_row_count_bounded(visited@, n as int);
            w = w2;
        }
        cur = next;
    }
}

proof fn lemma_zero_count(row: Seq<bool>, c: int)
    requires
        0 <= c <= row.len(),
        forall|y: int| 0 <= y < c ==> !#[trigger] row[y],
    ensures
        row_count(row, c) == 0,
    decreases c,
{
    if c > 0 {
        lemma_zero_count(row, c - 1);
    }
}

} // verus!
