//! The spanning-tree basis of the primal simplex on the assignment LP.
//!
//! Node `r` (for `r < n`) is row `r`; node `n + c` is column `c`. A basic
//! cell `(r, c)` is a tree edge between the two nodes. The flow of a basic
//! solution is a permutation, held as the column that each row sends its
//! unit of flow to.
use vstd::prelude::*;
use crate::simplex::{is_walk, reachable, tree_path};

verus! {

/// Basic cells, tree adjacency and flow of a basic solution of an `n x n`
/// assignment LP: row `r` sends its unit of flow to column `assign[r]`.
pub struct Basis {
    pub n: usize,
    pub basic: Vec<Vec<bool>>,
    pub assign: Vec<usize>,
    pub tree_adj: Vec<Vec<usize>>,
}

/// The adjacency lists hold exactly the basic cells, each as an edge
/// between its row node and its column node.
pub open spec fn consistent(basic: Seq<Vec<bool>>, adj: Seq<Vec<usize>>, n: int) -> bool {
    &&& basic.len() == n
    &&& forall|r: int| 0 <= r < n ==> (#[trigger] basic[r])@.len() == n
    &&& adj.len() == 2 * n
    &&& 2 * n <= usize::MAX
    &&& forall|x: int, k: int|
        0 <= x < n && 0 <= k < adj[x]@.len() ==> n <= #[trigger] adj[x]@[k] < 2 * n
            && basic[x]@[adj[x]@[k] - n]
    &&& forall|x: int, k: int|
        n <= x < 2 * n && 0 <= k < adj[x]@.len() ==> #[trigger] adj[x]@[k] < n
            && basic[adj[x]@[k] as int]@[x - n]
    &&& forall|r: int, c: int|
        0 <= r < n && 0 <= c < n && #[trigger] basic[r]@[c] ==> adj[r]@.contains((n + c) as usize)
            && adj[n + c]@.contains(r as usize)
}

/// Every node can be reached from node `0`.
pub open spec fn connected(adj: Seq<Vec<usize>>) -> bool {
    forall|x: int| 0 <= x < adj.len() ==> #[trigger] reachable(adj, 0, x)
}

/// The flow is a permutation carried by basic cells.
pub open spec fn flow_ok(basic: Seq<Vec<bool>>, assign: Seq<usize>, n: int) -> bool {
    &&& assign.len() == n
    &&& forall|r: int| 0 <= r < n ==> #[trigger] assign[r] < n && basic[r]@[assign[r] as int]
    &&& forall|r1: int, r2: int|
        0 <= r1 < n && 0 <= r2 < n && r1 != r2 ==> #[trigger] assign[r1] != #[trigger] assign[r2]
}

/// The number of `true` entries among the first `c` of `row`.
pub open spec fn row_count(row: Seq<bool>, c: int) -> int
    decreases c,
{
    if c <= 0 {
        0
    } else {
        row_count(row, c - 1) + if row[c - 1] {
            1int
        } else {
            0int
        }
    }
}

/// The number of basic cells among the first `r` rows.
pub open spec fn cell_count(basic: Seq<Vec<bool>>, r: int, n: int) -> int
    decreases r,
{
    if r <= 0 {
        0
    } else {
        cell_count(basic, r - 1, n) + row_count(basic[r - 1]@, n)
    }
}

/// Changing one entry changes the count by the difference at that entry.
pub proof fn lemma_row_count_change(a: Seq<bool>, b: Seq<bool>, c: int, j: int)
    requires
        0 <= c,
        forall|k: int| 0 <= k < c && k != j ==> a[k] == b[k],
    ensures
        row_count(b, c) == row_count(a, c) + if 0 <= j < c {
            (if b[j] { 1int } else { 0int }) - (if a[j] { 1int } else { 0int })
        } else {
            0int
        },
    decreases c,
{
    if c > 0 {
        lemma_row_count_change(a, b, c - 1, j);
    }
}

/// A count of `c` entries lies between `0` and `c`.
pub proof fn lemma_row_count_bounded(row: Seq<bool>, c: int)
    requires
        0 <= c,
    ensures
        0 <= row_count(row, c) <= c,
    decreases c,
{
    if c > 0 {
        lemma_row_count_bounded(row, c - 1);
    }
}

proof fn lemma_cell_count_change(a: Seq<Vec<bool>>, b: Seq<Vec<bool>>, r: int, n: int, x: int, y: int)
    requires
        0 <= r <= a.len(),
        b.len() == a.len(),
        0 <= n,
        0 <= y < n,
        forall|i: int, j: int| 0 <= i < r && 0 <= j < n && !(i == x && j == y) ==> a[i]@[j] == b[i]@[j],
    ensures
        cell_count(b, r, n) == cell_count(a, r, n) + if 0 <= x < r {
            (if b[x]@[y] { 1int } else { 0int }) - (if a[x]@[y] { 1int } else { 0int })
        } else {
            0int
        },
    decreases r,
{
    if r > 0 {
        lemma_cell_count_change(a, b, r - 1, n, x, y);
        let i = r - 1;
        if i == x {
            lemma_row_count_change(a[i]@, b[i]@, n, y);
        } else {
            lemma_row_count_change(a[i]@, b[i]@, n, -1);
        }
    }
}

/// A row whose first `c` entries are `true` exactly at `j` (or everywhere).
proof fn lemma_row_count_shape(row: Seq<bool>, c: int, j: int, all: bool)
    requires
        0 <= c,
        forall|k: int| 0 <= k < c ==> row[k] == (all || k == j),
    ensures
        row_count(row, c) == if all { c } else if 0 <= j < c { 1 } else { 0 },
    decreases c,
{
    if c > 0 {
        lemma_row_count_shape(row, c - 1, j, all);
    }
}

/// The first-row star: row `0` is all basic, every other row has one
/// basic cell.
proof fn lemma_star_count(basic: Seq<Vec<bool>>, r: int, n: int, choice: Seq<usize>)
    requires
        1 <= r <= n,
        basic.len() == n,
        is_permutation(choice, n),
        forall|x: int| 0 <= x < n ==> (#[trigger] basic[x])@.len() == n,
        forall|x: int, c: int| 0 <= x < n && 0 <= c < n ==> #[trigger] basic[x]@[c] == (c == choice[x] || x == 0),
    ensures
        cell_count(basic, r, n) == n + r - 1,
    decreases r,
{
    if r == 1 {
        lemma_row_count_shape(basic[0]@, n, 0, true);
        assert(cell_count(basic, 0, n) == 0);
    } else {
        lemma_star_count(basic, r - 1, n, choice);
        let x = r - 1;
        assert(choice[x] < n);
        lemma_row_count_shape(basic[x]@, n, choice[x] as int, false);
    }
}

/// `choice` sends every row to its own column.
pub open spec fn is_permutation(choice: Seq<usize>, n: int) -> bool {
    &&& choice.len() == n
    &&& forall|r: int| 0 <= r < n ==> #[trigger] choice[r] < n
    &&& forall|r1: int, r2: int|
        0 <= r1 < n && 0 <= r2 < n && r1 != r2 ==> #[trigger] choice[r1] != #[trigger] choice[r2]
}

impl Basis {
    /// A basic feasible solution: a spanning tree of `2n - 1` basic cells
    /// that matches its adjacency lists and carries a permutation flow.
    pub open spec fn wf(&self) -> bool {
        &&& self.n >= 1
        &&& consistent(self.basic@, self.tree_adj@, self.n as int)
        &&& connected(self.tree_adj@)
        &&& cell_count(self.basic@, self.n as int, self.n as int) == 2 * self.n - 1
        &&& flow_ok(self.basic@, self.assign@, self.n as int)
    }
}

fn set_cell(m: &mut Vec<Vec<bool>>, r: usize, c: usize, v: bool)
    requires
        r < old(m)@.len(),
        c < old(m)@[r as int]@.len(),
    ensures
        final(m)@.len() == old(m)@.len(),
        final(m)@[r as int]@ == old(m)@[r as int]@.update(c as int, v),
        forall|x: int| 0 <= x < old(m)@.len() && x != r ==> #[trigger] final(m)@[x] == old(m)@[x],
{
    let mut row: Vec<bool> = Vec::new();
    std::mem::swap(&mut row, &mut m[r]);
    row.set(c, v);
    m.set(r, row);
}

fn push_neighbour(adj: &mut Vec<Vec<usize>>, u: usize, v: usize)
    requires
        u < old(adj)@.len(),
    ensures
        final(adj)@.len() == old(adj)@.len(),
        final(adj)@[u as int]@ == old(adj)@[u as int]@.push(v),
        forall|x: int| 0 <= x < old(adj)@.len() && x != u ==> #[trigger] final(adj)@[x] == old(adj)@[x],
{
    let mut list: Vec<usize> = Vec::new();
    std::mem::swap(&mut list, &mut adj[u]);
    list.push(v);
    adj.set(u, list);
}

/// Makes `(r, c)` basic, with its edge in both adjacency lists.
fn add_basic(basic: &mut Vec<Vec<bool>>, adj: &mut Vec<Vec<usize>>, n: usize, r: usize, c: usize)
    requires
        consistent(old(basic)@, old(adj)@, n as int),
        r < n,
        c < n,
    ensures
        consistent(final(basic)@, final(adj)@, n as int),
        forall|x: int, y: int|
            0 <= x < n && 0 <= y < n ==> #[trigger] final(basic)@[x]@[y] == (old(basic)@[x]@[y] || (x == r
                && y == c)),
        final(adj)@.len() == old(adj)@.len(),
        final(adj)@[r as int]@ == old(adj)@[r as int]@.push((n + c) as usize),
        final(adj)@[n + c]@ == old(adj)@[n + c]@.push(r),
        forall|x: int| 0 <= x < 2 * n && x != r && x != n + c ==> #[trigger] final(adj)@[x] == old(adj)@[x],
{
    let ghost b0 = basic@;
    let ghost a0 = adj@;
    set_cell(basic, r, c, true);
    push_neighbour(adj, r, n + c);
    push_neighbour(adj, n + c, r);
    proof {
        let b = basic@;
        let a = adj@;
        assert forall|x: int, y: int| 0 <= x < n && 0 <= y < n implies #[trigger] b[x]@[y] == (b0[x]@[y] || (x == r
            && y == c)) by {
            if x != r {
                assert(b[x] == b0[x]);
            }
        }
        assert forall|x: int| 0 <= x < n implies (#[trigger] b[x])@.len() == n by {
            if x != r {
                assert(b[x] == b0[x]);
            }
        }
        assert forall|x: int, k: int| 0 <= x < n && 0 <= k < a[x]@.len() implies n <= #[trigger] a[x]@[k] < 2 * n
            && b[x]@[a[x]@[k] - n] by {
            if x == r {
                if k < a0[x]@.len() {
                    assert(a[x]@[k] == a0[x]@[k]);
                }
            } else {
                assert(a[x] == a0[x]);
            }
        }
        assert forall|x: int, k: int| n <= x < 2 * n && 0 <= k < a[x]@.len() implies #[trigger] a[x]@[k] < n
            && b[a[x]@[k] as int]@[x - n] by {
            if x == n + c {
                if k < a0[x]@.len() {
                    assert(a[x]@[k] == a0[x]@[k]);
                }
            } else {
                assert(a[x] == a0[x]);
            }
        }
        assert forall|x: int, y: int| 0 <= x < n && 0 <= y < n && #[trigger] b[x]@[y] implies a[x]@.contains(
            (n + y) as usize) && a[n + y]@.contains(x as usize) by {
            if x == r && y == c {
                assert(a[x]@[a[x]@.len() - 1] == (n + y) as usize);
                assert(a[n + y]@[a[n + y]@.len() - 1] == x as usize);
            } else {
                assert(b0[x]@[y]);
                assert(a0[x]@.contains((n + y) as usize));
                assert(a0[n + y]@.contains(x as usize));
                let ny = n + y;
                let k1 = choose|k1: int| 0 <= k1 < a0[x]@.len() && #[trigger] a0[x]@[k1] == (n + y) as usize;
                let k2 = choose|k2: int| 0 <= k2 < a0[ny]@.len() && #[trigger] a0[ny]@[k2] == x as usize;
                if x == r {
                    assert(a[x]@[k1] == a0[x]@[k1]);
                } else {
                    assert(a[x] == a0[x]);
                }
                if ny == n + c {
                    assert(a[ny]@[k2] == a0[ny]@[k2]);
                } else {
                    assert(a[ny] == a0[ny]);
                }
            }
        }
    }
}

/// Makes `(r, c)` non-basic, dropping its edge from both adjacency lists.
fn remove_basic(basic: &mut Vec<Vec<bool>>, adj: &mut Vec<Vec<usize>>, n: usize, r: usize, c: usize)
    requires
        consistent(old(basic)@, old(adj)@, n as int),
        r < n,
        c < n,
    ensures
        consistent(final(basic)@, final(adj)@, n as int),
        forall|x: int, y: int|
            0 <= x < n && 0 <= y < n ==> #[trigger] final(basic)@[x]@[y] == (old(basic)@[x]@[y] && !(x == r
                && y == c)),
        final(adj)@.len() == old(adj)@.len(),
        forall|x: int, v: usize|
            0 <= x < 2 * n ==> (#[trigger] final(adj)@[x]@.contains(v) <==> (old(adj)@[x]@.contains(v) && !((x
                == r && v == n + c) || (x == n + c && v == r)))),
{
    let ghost b0 = basic@;
    let ghost a0 = adj@;
    set_cell(basic, r, c, false);
    drop_neighbour(adj, r, n + c);
    drop_neighbour(adj, n + c, r);
    proof {
        let b = basic@;
        let a = adj@;
        assert forall|x: int, y: int| 0 <= x < n && 0 <= y < n implies #[trigger] b[x]@[y] == (b0[x]@[y] && !(x == r
            && y == c)) by {
            if x != r {
                assert(b[x] == b0[x]);
            }
        }
        assert forall|x: int| 0 <= x < n implies (#[trigger] b[x])@.len() == n by {
            if x != r {
                assert(b[x] == b0[x]);
            }
        }
        assert forall|x: int, v: usize| 0 <= x < 2 * n implies (#[trigger] a[x]@.contains(v) <==> (a0[x]@.contains(v)
            && !((x == r && v == n + c) || (x == n + c && v == r)))) by {
            if x != r && x != n + c {
                assert(a[x] == a0[x]);
            }
        }
        assert forall|x: int, k: int| 0 <= x < n && 0 <= k < a[x]@.len() implies n <= #[trigger] a[x]@[k] < 2 * n
            && b[x]@[a[x]@[k] - n] by {
            assert(a[x]@.contains(a[x]@[k]));
            assert(a0[x]@.contains(a[x]@[k]));
            let k0 = choose|k0: int| 0 <= k0 < a0[x]@.len() && #[trigger] a0[x]@[k0] == a[x]@[k];
            assert(a0[x]@[k0] == a[x]@[k]);
        }
        assert forall|x: int, k: int| n <= x < 2 * n && 0 <= k < a[x]@.len() implies #[trigger] a[x]@[k] < n
            && b[a[x]@[k] as int]@[x - n] by {
            assert(a[x]@.contains(a[x]@[k]));
            assert(a0[x]@.contains(a[x]@[k]));
            let k0 = choose|k0: int| 0 <= k0 < a0[x]@.len() && #[trigger] a0[x]@[k0] == a[x]@[k];
            assert(a0[x]@[k0] == a[x]@[k]);
        }
        assert forall|x: int, y: int| 0 <= x < n && 0 <= y < n && #[trigger] b[x]@[y] implies a[x]@.contains(
            (n + y) as usize) && a[n + y]@.contains(x as usize) by {
            assert(b0[x]@[y]);
            assert(a0[x]@.contains((n + y) as usize));
            let ny = n + y;
            assert(a0[ny]@.contains(x as usize));
            assert(a[x]@.contains((n + y) as usize));
            assert(a[ny]@.contains(x as usize));
        }
    }
}

/// Drops every occurrence of `v` from the list of `u`.
fn drop_neighbour(adj: &mut Vec<Vec<usize>>, u: usize, v: usize)
    requires
        u < old(adj)@.len(),
    ensures
        final(adj)@.len() == old(adj)@.len(),
        forall|w: usize| #[trigger] final(adj)@[u as int]@.contains(w) <==> (old(adj)@[u as int]@.contains(w) && w != v),
        forall|x: int| 0 <= x < old(adj)@.len() && x != u ==> #[trigger] final(adj)@[x] == old(adj)@[x],
{
    let mut kept: Vec<usize> = Vec::new();
    let mut k: usize = 0;
    let ghost old_list = adj@[u as int]@;
    while k < adj[u].len()
        invariant
            u < adj@.len(),
            adj@ == old(adj)@,
            old_list == adj@[u as int]@,
            k <= old_list.len(),
            forall|w: usize| #[trigger] kept@.contains(w) <==> (old_list.subrange(0, k as int).contains(w) && w != v),
        decreases old_list.len() - k,
    {
        let w = adj[u][k];
        proof {
            assert(old_list.subrange(0, k + 1) =~= old_list.subrange(0, k as int).push(w));
        }
        if w != v {
            let ghost kept0 = kept@;
            kept.push(w);
            proof {
                assert forall|z: usize| #[trigger] kept@.contains(z) <==> (old_list.subrange(0, k + 1).contains(z) && z != v) by {
                    let longer = old_list.subrange(0, k + 1);
                    let shorter = old_list.subrange(0, k as int);
                    assert(kept@[kept@.len() - 1] == w);
                    if kept@.contains(z) {
                        if z == w {
                            assert(longer[k as int] == w);
                        } else {
                            let q = choose|q: int| 0 <= q < kept@.len() && #[trigger] kept@[q] == z;
                            assert(kept0[q] == z);
                            assert(kept0.contains(z));
                            let q2 = choose|q2: int| 0 <= q2 < shorter.len() && #[trigger] shorter[q2] == z;
                            assert(longer[q2] == z);
                        }
                    }
                    if longer.contains(z) && z != v {
                        let q = choose|q: int| 0 <= q < longer.len() && #[trigger] longer[q] == z;
                        if q < k {
                            assert(shorter[q] == z);
                            assert(kept0.contains(z));
                            let q2 = choose|q2: int| 0 <= q2 < kept0.len() && #[trigger] kept0[q2] == z;
                            assert(kept@[q2] == z);
                        }
                    }
                }
            }
        } else {
            proof {
                assert forall|z: usize| #[trigger] kept@.contains(z) <==> (old_list.subrange(0, k + 1).contains(z) && z != v) by {
                    let longer = old_list.subrange(0, k + 1);
                    let shorter = old_list.subrange(0, k as int);
                    if longer.contains(z) && z != v {
                        let q = choose|q: int| 0 <= q < longer.len() && #[trigger] longer[q] == z;
                        assert(q < k);
                        assert(shorter[q] == z);
                    }
                    if shorter.contains(z) {
                        let q = choose|q: int| 0 <= q < shorter.len() && #[trigger] shorter[q] == z;
                        assert(longer[q] == z);
                    }
                }
            }
        }
        k += 1;
    }
    proof {
        assert(old_list.subrange(0, k as int) =~= old_list);
    }
    adj.set(u, kept);
}

/// Adjacency in a consistent basis goes both ways.
proof fn lemma_edge_symmetric(basic: Seq<Vec<bool>>, adj: Seq<Vec<usize>>, n: int, u: int, v: usize)
    requires
        consistent(basic, adj, n),
        0 <= u < 2 * n,
        adj[u]@.contains(v),
    ensures
        v < 2 * n,
        adj[v as int]@.contains(u as usize),
{
    let k = choose|k: int| 0 <= k < adj[u]@.len() && #[trigger] adj[u]@[k] == v;
    if u < n {
        assert(n <= adj[u]@[k] < 2 * n && basic[u]@[adj[u]@[k] - n]);
        assert(basic[u]@[v - n]);
    } else {
        assert(adj[u]@[k] < n && basic[adj[u]@[k] as int]@[u - n]);
        assert(basic[v as int]@[u - n]);
    }
}

proof fn lemma_reach_edge(adj: Seq<Vec<usize>>, a: int, b: int)
    requires
        adj.len() <= usize::MAX,
        0 <= a < adj.len(),
        0 <= b < adj.len(),
        adj[a]@.contains(b as usize),
    ensures
        reachable(adj, a, b),
{
    let p = seq![a as usize, b as usize];
    assert(adj[p[0] as int]@.contains(p[1]));
    assert(is_walk(adj, p));
}

proof fn lemma_reach_refl(adj: Seq<Vec<usize>>, a: int)
    requires
        adj.len() <= usize::MAX,
        0 <= a < adj.len(),
    ensures
        reachable(adj, a, a),
{
    let p = seq![a as usize];
    assert(is_walk(adj, p));
}

proof fn lemma_reach_trans(adj: Seq<Vec<usize>>, a: int, b: int, c: int)
    requires
        reachable(adj, a, b),
        reachable(adj, b, c),
    ensures
        reachable(adj, a, c),
{
    let p1 = choose|p: Seq<usize>| #[trigger] is_walk(adj, p) && p[0] == a && p.last() == b;
    let p2 = choose|p: Seq<usize>| #[trigger] is_walk(adj, p) && p[0] == b && p.last() == c;
    let p = p1 + p2.skip(1);
    assert forall|k: int| 0 <= k < p.len() implies #[trigger] p[k] < adj.len() by {
        if k >= p1.len() {
            assert(p[k] == p2[k - p1.len() + 1]);
        }
    }
    assert forall|k: int| 0 <= k < p.len() - 1 implies adj[p[k] as int]@.contains(#[trigger] p[k + 1]) by {
        if k + 1 < p1.len() {
            assert(p[k] == p1[k]);
            assert(p[k + 1] == p1[k + 1]);
        } else if k + 1 == p1.len() {
            assert(p[k] == p1[k]);
            assert(p1[k] == p2[0]);
            assert(p[k + 1] == p2[1]);
            assert(adj[p2[0] as int]@.contains(p2[0int + 1]));
        } else {
            let j = k - p1.len() + 1;
            assert(p[k] == p2[j]);
            assert(p[k + 1] == p2[j + 1]);
        }
    }
    if p2.len() == 1 {
        assert(p.last() == p1.last());
    } else {
        assert(p.last() == p2.last());
    }
    assert(is_walk(adj, p));
}

proof fn lemma_reach_symmetric(basic: Seq<Vec<bool>>, adj: Seq<Vec<usize>>, n: int, a: int, b: int)
    requires
        consistent(basic, adj, n),
        reachable(adj, a, b),
    ensures
        reachable(adj, b, a),
{
    let p = choose|p: Seq<usize>| #[trigger] is_walk(adj, p) && p[0] == a && p.last() == b;
    let q = p.reverse();
    assert forall|k: int| 0 <= k < q.len() implies #[trigger] q[k] < adj.len() by {
        assert(q[k] == p[p.len() - 1 - k]);
    }
    assert forall|k: int| 0 <= k < q.len() - 1 implies adj[q[k] as int]@.contains(#[trigger] q[k + 1]) by {
        let j = p.len() - 2 - k;
        assert(q[k] == p[j + 1]);
        assert(q[k + 1] == p[j]);
        assert(adj[p[j] as int]@.contains(p[j + 1]));
        lemma_edge_symmetric(basic, adj, n, p[j] as int, p[j + 1]);
    }
    assert(is_walk(adj, q));
}

/// In a connected consistent basis any two nodes are joined by a walk.
proof fn lemma_connected_reach(basic: Seq<Vec<bool>>, adj: Seq<Vec<usize>>, n: int, a: int, b: int)
    requires
        consistent(basic, adj, n),
        connected(adj),
        0 <= a < 2 * n,
        0 <= b < 2 * n,
    ensures
        reachable(adj, a, b),
{
    assert(reachable(adj, 0, a));
    assert(reachable(adj, 0, b));
    lemma_reach_symmetric(basic, adj, n, 0, a);
    lemma_reach_trans(adj, a, 0, b);
}

/// A walk that starts at a row alternates between rows and columns.
proof fn lemma_walk_alternates(basic: Seq<Vec<bool>>, adj: Seq<Vec<usize>>, n: int, p: Seq<usize>)
    requires
        consistent(basic, adj, n),
        is_walk(adj, p),
        p[0] < n,
    ensures
        forall|k: int| 0 <= k < p.len() ==> ((#[trigger] p[k]) < n) == (k % 2 == 0),
    decreases p.len(),
{
    if p.len() > 1 {
        let q = p.drop_last();
        assert(is_walk(adj, q)) by {
            assert forall|k: int| 0 <= k < q.len() - 1 implies adj[q[k] as int]@.contains(#[trigger] q[k + 1]) by {
                assert(adj[p[k] as int]@.contains(p[k + 1]));
            }
        }
        lemma_walk_alternates(basic, adj, n, q);
        let m = p.len() - 1;
        assert(q[m - 1] == p[m - 1]);
        assert(adj[p[m - 1] as int]@.contains(p[(m - 1) + 1]));
        let u = p[m - 1] as int;
        let kk = choose|kk: int| 0 <= kk < adj[u]@.len() && #[trigger] adj[u]@[kk] == p[m];
        assert forall|k: int| 0 <= k < p.len() implies ((#[trigger] p[k]) < n) == (k % 2 == 0) by {
            if k < m {
                assert(p[k] == q[k]);
            }
        }
    }
}

/// Disjoint sets over `0..m` with path halving. `root` names the
/// representative of each element and `rank` bounds its distance from it.
struct DisjointSets {
    parent: Vec<usize>,
    root: Ghost<Seq<int>>,
    rank: Ghost<Seq<nat>>,
}

impl DisjointSets {
    spec fn wf(&self) -> bool {
        let m = self.parent@.len();
        &&& self.root@.len() == m
        &&& self.rank@.len() == m
        &&& forall|x: int|
            0 <= x < m ==> {
                &&& (#[trigger] self.parent@[x]) < m
                &&& 0 <= self.root@[x] < m
                &&& self.parent@[self.root@[x]] == self.root@[x]
                &&& self.root@[self.parent@[x] as int] == self.root@[x]
                &&& (self.parent@[x] != x ==> self.rank@[self.parent@[x] as int] < self.rank@[x])
                &&& (self.parent@[x] == x ==> self.root@[x] == x)
            }
    }

    fn new(m: usize) -> (s: Self)
        ensures
            s.wf(),
            s.parent@.len() == m,
            forall|x: int| 0 <= x < m ==> #[trigger] s.root@[x] == x,
    {
        let mut parent: Vec<usize> = Vec::new();
        let mut x: usize = 0;
        while x < m
            invariant
                x <= m,
                parent@.len() == x,
                forall|y: int| 0 <= y < x ==> #[trigger] parent@[y] == y,
            decreases m - x,
        {
            parent.push(x);
            x += 1;
        }
        DisjointSets {
            parent,
            root: Ghost(Seq::new(m as nat, |y: int| y)),
            rank: Ghost(Seq::new(m as nat, |y: int| 0nat)),
        }
    }

    /// The representative of `x`; the parent links on the way are halved.
    fn find(&mut self, x: usize) -> (r: usize)
        requires
            old(self).wf(),
            x < old(self).parent@.len(),
        ensures
            final(self).wf(),
            final(self).parent@.len() == old(self).parent@.len(),
            final(self).root@ == old(self).root@,
            r == old(self).root@[x as int],
    {
        let ghost m = self.parent@.len();
        let mut x = x;
        let ghost target = self.root@[x as int];
        while self.parent[x] != x
            invariant
                self.wf(),
                self.parent@.len() == m,
                self.root@ == old(self).root@,
                x < m,
                self.root@[x as int] == target,
            decreases self.rank@[x as int],
        {
            let p = self.parent[x];
            let gp = self.parent[p];
            let ghost before = self.parent@;
            self.parent.set(x, gp);
            proof {
                assert(before[p as int] == gp);
                assert forall|y: int| 0 <= y < m implies {
                    &&& (#[trigger] self.parent@[y]) < m
                    &&& 0 <= self.root@[y] < m
                    &&& self.parent@[self.root@[y]] == self.root@[y]
                    &&& self.root@[self.parent@[y] as int] == self.root@[y]
                    &&& (self.parent@[y] != y ==> self.rank@[self.parent@[y] as int] < self.rank@[y])
                    &&& (self.parent@[y] == y ==> self.root@[y] == y)
                } by {
                    assert(before[y] < m);
                    assert(before[p as int] < m);
                    assert(before[self.root@[y]] == self.root@[y]);
                    if y != x as int {
                        assert(self.parent@[y] == before[y]);
                    }
                    if self.root@[y] == x as int {
                        assert(before[x as int] == x);
                    }
                }
            }
            x = gp;
        }
        x
    }

    /// Joins the sets of `a` and `b`; tells whether they were apart.
    fn union(&mut self, a: usize, b: usize) -> (joined: bool)
        requires
            old(self).wf(),
            a < old(self).parent@.len(),
            b < old(self).parent@.len(),
        ensures
            final(self).wf(),
            final(self).parent@.len() == old(self).parent@.len(),
            joined == (old(self).root@[a as int] != old(self).root@[b as int]),
            joined ==> final(self).root@ == Seq::new(
                old(self).root@.len(),
                |x: int|
                    if old(self).root@[x] == old(self).root@[a as int] {
                        old(self).root@[b as int]
                    } else {
                        old(self).root@[x]
                    },
            ),
            !joined ==> final(self).root@ == old(self).root@,
    {
        let ra = self.find(a);
        let rb = self.find(b);
        proof {
            assert(self.parent@[a as int] < self.parent@.len());
            assert(self.parent@[b as int] < self.parent@.len());
        }
        if ra == rb {
            false
        } else {
            let ghost m = self.parent@.len();
            let ghost before = self.parent@;
            let ghost root0 = self.root@;
            let ghost rank0 = self.rank@;
            let ghost bump: nat = rank0[rb as int] + 1;
            self.parent.set(ra, rb);
            proof {
                self.root@ = Seq::new(m, |x: int| if root0[x] == ra as int { rb as int } else { root0[x] });
                self.rank@ = Seq::new(m, |x: int| if root0[x] == ra as int { rank0[x] + bump } else { rank0[x] });
                assert(before[ra as int] == ra);
                assert(before[rb as int] == rb);
                assert(root0[ra as int] == ra);
                assert(root0[rb as int] == rb);
                assert forall|x: int| 0 <= x < m implies {
                    &&& (#[trigger] self.parent@[x]) < m
                    &&& 0 <= self.root@[x] < m
                    &&& self.parent@[self.root@[x]] == self.root@[x]
                    &&& self.root@[self.parent@[x] as int] == self.root@[x]
                    &&& (self.parent@[x] != x ==> self.rank@[self.parent@[x] as int] < self.rank@[x])
                    &&& (self.parent@[x] == x ==> self.root@[x] == x)
                } by {
                    assert(before[x] < m);
                    assert(before[root0[x]] == root0[x]);
                    assert(root0[before[x] as int] == root0[x]);
                    if x != ra as int {
                        assert(self.parent@[x] == before[x]);
                    }
                }
                assert(self.root@ =~= Seq::new(
                    old(self).root@.len(),
                    |x: int|
                        if old(self).root@[x] == old(self).root@[a as int] {
                            old(self).root@[b as int]
                        } else {
                            old(self).root@[x]
                        },
                ));
            }
            true
        }
    }
}

/// The column node that node `x` is paired with by `choice`.
spec fn paired_column(choice: Seq<usize>, n: int, x: int) -> int {
    if x < n {
        n + choice[x]
    } else {
        x
    }
}

/// Column node `y` has been joined to the part of row `0` after the first
/// `c` columns of row `0` were scanned.
spec fn joined_to_first(choice: Seq<usize>, n: int, c: int, y: int) -> bool {
    y == n + choice[0] || (n <= y < n + c)
}

/// A star through row `0` plus the permutation cells is connected.
proof fn lemma_star_connected(basic: Seq<Vec<bool>>, adj: Seq<Vec<usize>>, n: int, choice: Seq<usize>)
    requires
        n >= 1,
        consistent(basic, adj, n),
        is_permutation(choice, n),
        forall|r: int, c: int| 0 <= r < n && 0 <= c < n ==> #[trigger] basic[r]@[c] == (c == choice[r] || r == 0),
    ensures
        connected(adj),
{
    assert forall|x: int| 0 <= x < adj.len() implies #[trigger] reachable(adj, 0, x) by {
        if x == 0 {
            let p = seq![0usize];
            assert(is_walk(adj, p));
        } else if x >= n {
            let c = x - n;
            assert(basic[0]@[c]);
            let p = seq![0usize, x as usize];
            assert(adj[0]@.contains(x as usize));
            assert(is_walk(adj, p));
        } else {
            let c = choice[x] as int;
            assert(basic[0]@[c]);
            assert(basic[x]@[c]);
            let p = seq![0usize, (n + c) as usize, x as usize];
            assert(adj[p[0] as int]@.contains(p[1]));
            assert(adj[p[1] as int]@.contains(p[2]));
            assert(is_walk(adj, p));
        }
    }
}

/// The basis a pivot sequence starts from: each row's `choice` cell
/// carries its unit of flow, and degenerate cells, added in row-major
/// order wherever they join two parts of the basis (found with disjoint
/// sets), connect the `n` row-column pairs into one tree. With a
/// permutation `choice` these are the cells of row `0`.
pub fn initial_basis(n: usize, choice: &Vec<usize>) -> (b: Basis)
    requires
        n >= 1,
        2 * n <= usize::MAX,
        is_permutation(choice@, n as int),
    ensures
        b.wf(),
        b.n == n,
        b.assign@ == choice@,
        forall|r: int, c: int|
            0 <= r < n && 0 <= c < n ==> #[trigger] b.basic@[r]@[c] == (c == choice@[r] || r == 0),
{
    let mut basic: Vec<Vec<bool>> = Vec::new();
    let mut i: usize = 0;
    while i < n
        invariant
            i <= n,
            basic@.len() == i,
            forall|r: int| 0 <= r < i ==> (#[trigger] basic@[r])@.len() == n,
            forall|r: int, c: int| 0 <= r < i && 0 <= c < n ==> !#[trigger] basic@[r]@[c],
        decreases n - i,
    {
        let mut row: Vec<bool> = Vec::new();
        let mut j: usize = 0;
        while j < n
            invariant
                j <= n,
                row@.len() == j,
                forall|c: int| 0 <= c < j ==> !#[trigger] row@[c],
            decreases n - j,
        {
            row.push(false);
            j += 1;
        }
        basic.push(row);
        i += 1;
    }
    let mut tree_adj: Vec<Vec<usize>> = Vec::new();
    let mut i: usize = 0;
    while i < 2 * n
        invariant
            i <= 2 * n,
            2 * n <= usize::MAX,
            tree_adj@.len() == i,
            forall|x: int| 0 <= x < i ==> (#[trigger] tree_adj@[x])@.len() == 0,
        decreases 2 * n - i,
    {
        tree_adj.push(Vec::new());
        i += 1;
    }
    let mut uf = DisjointSets::new(2 * n);
    let mut r: usize = 0;
    while r < n
        invariant
            r <= n,
            n >= 1,
            2 * n <= usize::MAX,
            is_permutation(choice@, n as int),
            consistent(basic@, tree_adj@, n as int),
            forall|x: int, y: int| 0 <= x < n && 0 <= y < n ==> #[trigger] basic@[x]@[y] == (x < r && y == choice@[x]),
            uf.wf(),
            uf.parent@.len() == 2 * n,
            forall|x: int| 0 <= x < 2 * n ==> #[trigger] uf.root@[x] == (if x < r { n + choice@[x] } else { x }),
        decreases n - r,
    {
        let c = choice[r];
        add_basic(&mut basic, &mut tree_adj, n, r, c);
        let ghost root0 = uf.root@;
        let _ = uf.union(r, n + c);
        proof {
            assert(root0[r as int] == r);
            assert(root0[n + c] == n + c);
            assert forall|x: int| 0 <= x < 2 * n implies #[trigger] uf.root@[x] == (if x < r + 1 { n + choice@[x] } else { x }) by {
                assert(root0[x] == (if x < r { n + choice@[x] } else { x }));
            }
        }
        r += 1;
    }
    let mut edges_needed: usize = n - 1;
    let ghost mut hub: int = n + choice@[0];
    let mut r: usize = 0;
    'connect: while r < n
        invariant_except_break
            r <= 1,
            r == 0 ==> {
                &&& edges_needed == n - 1
                &&& hub == n + choice@[0]
                &&& forall|x: int, y: int| 0 <= x < n && 0 <= y < n ==> #[trigger] basic@[x]@[y] == (y == choice@[x])
                &&& forall|x: int| 0 <= x < 2 * n ==> #[trigger] uf.root@[x] == paired_column(choice@, n as int, x)
            },
            r == 1 ==> {
                &&& edges_needed == 0
                &&& forall|x: int, y: int| 0 <= x < n && 0 <= y < n ==> #[trigger] basic@[x]@[y] == (y == choice@[x] || x == 0)
            },
        invariant
            n >= 1,
            2 * n <= usize::MAX,
            is_permutation(choice@, n as int),
            consistent(basic@, tree_adj@, n as int),
            uf.wf(),
            uf.parent@.len() == 2 * n,
        ensures
            consistent(basic@, tree_adj@, n as int),
            forall|x: int, y: int| 0 <= x < n && 0 <= y < n ==> #[trigger] basic@[x]@[y] == (y == choice@[x] || x == 0),
        decreases n - r,
    {
        if edges_needed == 0 {
            break;
        }
        let mut c: usize = 0;
        while c < n
            invariant
                r == 0,
                n >= 1,
                2 * n <= usize::MAX,
                is_permutation(choice@, n as int),
                consistent(basic@, tree_adj@, n as int),
                uf.wf(),
                uf.parent@.len() == 2 * n,
                c <= n,
                edges_needed == n - 1 - c + (if choice@[0] < c { 1int } else { 0int }),
                n <= hub < 2 * n,
                joined_to_first(choice@, n as int, c as int, hub),
                forall|x: int, y: int|
                    0 <= x < n && 0 <= y < n ==> #[trigger] basic@[x]@[y] == (y == choice@[x] || (x == 0 && y < c)),
                forall|x: int|
                    0 <= x < 2 * n ==> #[trigger] uf.root@[x] == (if joined_to_first(
                        choice@,
                        n as int,
                        c as int,
                        paired_column(choice@, n as int, x),
                    ) {
                        hub
                    } else {
                        paired_column(choice@, n as int, x)
                    }),
            decreases n - c,
        {
            if edges_needed == 0 {
                proof {
                    assert(c == n - 1 && choice@[0] == n - 1);
                    assert forall|x: int, y: int| 0 <= x < n && 0 <= y < n implies #[trigger] basic@[x]@[y] == (y
                        == choice@[x] || x == 0) by {
                        assert(basic@[x]@[y] == (y == choice@[x] || (x == 0 && y < c)));
                    }
                }
                break 'connect;
            }
            let ghost root0 = uf.root@;
            let ghost hub0 = hub;
            if !basic[r][c] && uf.union(r, n + c) {
                add_basic(&mut basic, &mut tree_adj, n, r, c);
                edges_needed -= 1;
                proof {
                    hub = n + c;
                }
            }
            proof {
                assert(basic@[0]@[c as int] == (c == choice@[0]) || basic@[0]@[c as int]);
                assert forall|x: int| 0 <= x < 2 * n implies #[trigger] uf.root@[x] == (if joined_to_first(
                    choice@,
                    n as int,
                    c + 1,
                    paired_column(choice@, n as int, x),
                ) {
                    hub
                } else {
                    paired_column(choice@, n as int, x)
                }) by {
                    assert(root0[x] == (if joined_to_first(
                        choice@,
                        n as int,
                        c as int,
                        paired_column(choice@, n as int, x),
                    ) {
                        hub0
                    } else {
                        paired_column(choice@, n as int, x)
                    }));
                    assert(root0[0] == hub0);
                    if c != choice@[0] {
                        assert(root0[n + c] == n + c);
                    }
                }
            }
            c += 1;
        }
        r += 1;
    }
    let mut assign: Vec<usize> = Vec::new();
    let mut k: usize = 0;
    while k < n
        invariant
            k <= n,
            choice@.len() == n,
            assign@ == choice@.subrange(0, k as int),
        decreases n - k,
    {
        assign.push(choice[k]);
        k += 1;
    }
    proof {
        assert(assign@ == choice@);
        lemma_star_connected(basic@, tree_adj@, n as int, choice@);
        lemma_star_count(basic@, n as int, n as int, choice@);
    }
    Basis { n, basic, assign, tree_adj }
}

/// The basic cell of the `k`-th edge of walk `p`, `1 <= k < p.len()`.
pub open spec fn edge_cell(p: Seq<usize>, n: int, k: int) -> (usize, usize) {
    if p[k - 1] < n {
        (p[k - 1], (p[k] - n) as usize)
    } else {
        (p[k], (p[k - 1] - n) as usize)
    }
}

/// `p` is the tree path from the row of the entering cell `(ei, ej)` to
/// its column.
pub open spec fn pivot_path(adj: Seq<Vec<usize>>, n: int, ei: usize, ej: usize, p: Seq<usize>) -> bool {
    &&& is_walk(adj, p)
    &&& p[0] == ei
    &&& p.last() == n + ej
    &&& p.no_duplicates()
}

/// The cycle a pivot runs around: the entering cell, which gains flow,
/// then the cells of the path read from its column end, which in turn
/// lose and gain flow.
pub open spec fn pivot_cycle(p: Seq<usize>, n: int, ei: usize, ej: usize) -> Seq<((usize, usize), bool)> {
    Seq::new(
        p.len(),
        |m: int|
            if m == 0 {
                ((ei, ej), true)
            } else {
                (edge_cell(p, n, p.len() - m), (m - 1) % 2 == 1)
            },
    )
}

/// Cell `cell` carries its row's unit of flow.
pub open spec fn carries(assign: Seq<usize>, cell: (usize, usize)) -> bool {
    assign[cell.0 as int] == cell.1
}

/// Row-major order of cells.
pub open spec fn cell_lt(a: (usize, usize), b: (usize, usize)) -> bool {
    a.0 < b.0 || (a.0 == b.0 && a.1 < b.1)
}

/// The leaving cell: of the cells that lose flow, those with the least
/// flow, and of these the first in row-major order. The pivot is
/// degenerate when that least flow is zero.
pub open spec fn leaving_rule(
    cyc: Seq<((usize, usize), bool)>,
    assign: Seq<usize>,
    leave: (usize, usize),
    degenerate: bool,
) -> bool {
    &&& degenerate == exists|m: int| 0 <= m < cyc.len() && !(#[trigger] cyc[m]).1 && !carries(assign, cyc[m].0)
    &&& exists|m: int| 0 <= m < cyc.len() && !(#[trigger] cyc[m]).1 && cyc[m].0 == leave && carries(assign, leave) == !degenerate
    &&& forall|m: int|
        0 <= m < cyc.len() && !(#[trigger] cyc[m]).1 && carries(assign, cyc[m].0) == !degenerate ==> cyc[m].0
            == leave || cell_lt(leave, cyc[m].0)
}

/// The flow after the pivot: a unit step moves the flow of every row on
/// the cycle to its gaining cell; a degenerate pivot moves nothing.
pub open spec fn shifted(
    cyc: Seq<((usize, usize), bool)>,
    assign: Seq<usize>,
    after: Seq<usize>,
    degenerate: bool,
) -> bool {
    if degenerate {
        after == assign
    } else {
        &&& after.len() == assign.len()
        &&& forall|m: int| 0 <= m < cyc.len() && (#[trigger] cyc[m]).1 ==> after[cyc[m].0.0 as int] == cyc[m].0.1
        &&& forall|r: int|
            0 <= r < assign.len() && (forall|m: int| 0 <= m < cyc.len() && (#[trigger] cyc[m]).1 ==> cyc[m].0.0 != r)
                ==> #[trigger] after[r] == assign[r]
    }
}

/// The shape of a pivot cycle: the path alternates rows and columns, the
/// cycle cells are distinct, all but the entering cell are basic, and each
/// row and each column on the cycle has one gaining and one losing cell.
proof fn lemma_cycle_facts(
    basic: Seq<Vec<bool>>,
    adj: Seq<Vec<usize>>,
    n: int,
    ei: usize,
    ej: usize,
    p: Seq<usize>,
)
    requires
        consistent(basic, adj, n),
        pivot_path(adj, n, ei, ej, p),
        ei < n,
        ej < n,
        !basic[ei as int]@[ej as int],
    ensures
        p.len() >= 2,
        p.len() % 2 == 0,
        forall|k: int| 0 <= k < p.len() ==> (#[trigger] p[k]) < 2 * n && ((p[k] < n) == (k % 2 == 0)),
        forall|m: int|
            1 <= m < p.len() ==> {
                let k = p.len() - m;
                &&& (#[trigger] pivot_cycle(p, n, ei, ej)[m]).1 == (k % 2 == 0)
                &&& k % 2 == 1 ==> pivot_cycle(p, n, ei, ej)[m].0 == (p[k - 1], (p[k] - n) as usize)
                &&& k % 2 == 0 ==> pivot_cycle(p, n, ei, ej)[m].0 == (p[k], (p[k - 1] - n) as usize)
                &&& basic[pivot_cycle(p, n, ei, ej)[m].0.0 as int]@[pivot_cycle(p, n, ei, ej)[m].0.1 as int]
            },
        pivot_cycle(p, n, ei, ej)[0] == ((ei, ej), true),
        forall|m: int|
            0 <= m < p.len() ==> (#[trigger] pivot_cycle(p, n, ei, ej)[m]).0.0 < n && pivot_cycle(p, n, ei, ej)[m].0.1
                < n,
        forall|m1: int, m2: int|
            0 <= m1 < p.len() && 0 <= m2 < p.len() && m1 != m2 ==> (#[trigger] pivot_cycle(p, n, ei, ej)[m1]).0
                != (#[trigger] pivot_cycle(p, n, ei, ej)[m2]).0,
        forall|m1: int, m2: int|
            0 <= m1 < p.len() && 0 <= m2 < p.len() && m1 != m2 && (#[trigger] pivot_cycle(p, n, ei, ej)[m1]).1
                == (#[trigger] pivot_cycle(p, n, ei, ej)[m2]).1 ==> pivot_cycle(p, n, ei, ej)[m1].0.0
                != pivot_cycle(p, n, ei, ej)[m2].0.0 && pivot_cycle(p, n, ei, ej)[m1].0.1 != pivot_cycle(
                p,
                n,
                ei,
                ej,
            )[m2].0.1,
{
    let cyc = pivot_cycle(p, n, ei, ej);
    let len = p.len() as int;
    lemma_walk_alternates(basic, adj, n, p);
    assert forall|k: int| 0 <= k < p.len() implies (#[trigger] p[k]) < 2 * n && ((p[k] < n) == (k % 2 == 0)) by {
        assert(p[k] < adj.len());
    }
    assert(p[len - 1] == n + ej);
    assert(len >= 2) by {
        if len == 1 {
            assert(p[0] == ei);
        }
    }
    assert(len % 2 == 0) by {
        assert(!(p[len - 1] < n));
    }
    // every edge of the path is a basic cell
    assert forall|k: int| 1 <= k < len implies #[trigger] basic[edge_cell(p, n, k).0 as int]@[edge_cell(p, n, k).1 as int]
        && edge_cell(p, n, k).0 < n && edge_cell(p, n, k).1 < n by {
        let u = p[k - 1] as int;
        assert(adj[p[k - 1] as int]@.contains(p[(k - 1) + 1]));
        let q = choose|q: int| 0 <= q < adj[u]@.len() && #[trigger] adj[u]@[q] == p[k];
        if k % 2 == 1 {
            assert(n <= adj[u]@[q] < 2 * n && basic[u]@[adj[u]@[q] - n]);
        } else {
            assert(adj[u]@[q] < n && basic[adj[u]@[q] as int]@[u - n]);
        }
    }
    assert forall|m: int| 1 <= m < p.len() implies {
        let k = p.len() - m;
        &&& (#[trigger] cyc[m]).1 == (k % 2 == 0)
        &&& k % 2 == 1 ==> cyc[m].0 == (p[k - 1], (p[k] - n) as usize)
        &&& k % 2 == 0 ==> cyc[m].0 == (p[k], (p[k - 1] - n) as usize)
        &&& basic[cyc[m].0.0 as int]@[cyc[m].0.1 as int]
    } by {
        let k = len - m;
        assert(cyc[m] == (edge_cell(p, n, k), (m - 1) % 2 == 1));
        assert(basic[edge_cell(p, n, k).0 as int]@[edge_cell(p, n, k).1 as int]);
    }
    assert forall|m: int| 0 <= m < p.len() implies (#[trigger] cyc[m]).0.0 < n && cyc[m].0.1 < n by {
        if m > 0 {
            let k = len - m;
            assert(edge_cell(p, n, k).0 < n);
        }
    }
    assert forall|m1: int, m2: int| 0 <= m1 < p.len() && 0 <= m2 < p.len() && m1 != m2 implies (#[trigger] cyc[m1]).0
        != (#[trigger] cyc[m2]).0 by {
        if m1 == 0 {
            assert(basic[cyc[m2].0.0 as int]@[cyc[m2].0.1 as int]);
        } else if m2 == 0 {
            assert(basic[cyc[m1].0.0 as int]@[cyc[m1].0.1 as int]);
        } else {
            let k1 = len - m1;
            let k2 = len - m2;
            if cyc[m1].0 == cyc[m2].0 {
                // the two edges join the same row node and the same column node
                if k1 % 2 == 1 && k2 % 2 == 1 {
                    assert(p[k1 - 1] == p[k2 - 1]);
                } else if k1 % 2 == 0 && k2 % 2 == 0 {
                    assert(p[k1] == p[k2]);
                } else if k1 % 2 == 1 {
                    assert(p[k1 - 1] == p[k2]);
                } else {
                    assert(p[k1] == p[k2 - 1]);
                }
            }
        }
    }
    assert forall|m1: int, m2: int|
        0 <= m1 < p.len() && 0 <= m2 < p.len() && m1 != m2 && (#[trigger] cyc[m1]).1 == (#[trigger] cyc[m2]).1 implies cyc[m1].0.0
            != cyc[m2].0.0 && cyc[m1].0.1 != cyc[m2].0.1 by {
        let k1 = len - m1;
        let k2 = len - m2;
        if m1 == 0 {
            // the entering cell sits on the first row and the last column of the path
            assert(k2 % 2 == 0);
            assert(p[k2] != p[0]);
            assert(p[k2 - 1] != p[len - 1]);
        } else if m2 == 0 {
            assert(k1 % 2 == 0);
            assert(p[k1] != p[0]);
            assert(p[k1 - 1] != p[len - 1]);
        } else if k1 % 2 == 1 {
            assert(k2 % 2 == 1);
            assert(p[k1 - 1] != p[k2 - 1]);
            assert(p[k1] != p[k2]);
        } else {
            assert(k2 % 2 == 0);
            assert(p[k1] != p[k2]);
            assert(p[k1 - 1] != p[k2 - 1]);
        }
    }
}

/// `adj2` keeps every edge of `adj` except the one between `u` and `v`.
spec fn keeps_edges(adj: Seq<Vec<usize>>, adj2: Seq<Vec<usize>>, u: int, v: int) -> bool {
    &&& adj2.len() == adj.len()
    &&& forall|x: int, w: usize|
        0 <= x < adj.len() && #[trigger] adj[x]@.contains(w) && !((x == u && w == v) || (x == v && w == u))
            ==> adj2[x]@.contains(w)
}

/// A walk that never uses the dropped edge survives.
proof fn lemma_walk_kept(adj: Seq<Vec<usize>>, adj2: Seq<Vec<usize>>, u: int, v: int, q: Seq<usize>)
    requires
        keeps_edges(adj, adj2, u, v),
        is_walk(adj, q),
        forall|k: int| 0 <= k < q.len() - 1 ==> !((#[trigger] q[k] == u && q[k + 1] == v) || (q[k] == v && q[k + 1] == u)),
    ensures
        is_walk(adj2, q),
{
    assert forall|k: int| 0 <= k < q.len() - 1 implies adj2[q[k] as int]@.contains(#[trigger] q[k + 1]) by {
        assert(adj[q[k] as int]@.contains(q[k + 1]));
        assert(q[k] < adj.len());
    }
}

/// When the dropped edge's ends stay connected, every walk of `adj` still
/// joins its ends in `adj2`.
proof fn lemma_walk_reach_after(
    basic2: Seq<Vec<bool>>,
    adj: Seq<Vec<usize>>,
    adj2: Seq<Vec<usize>>,
    n: int,
    u: int,
    v: int,
    q: Seq<usize>,
)
    requires
        consistent(basic2, adj2, n),
        keeps_edges(adj, adj2, u, v),
        reachable(adj2, u, v),
        is_walk(adj, q),
    ensures
        reachable(adj2, q[0] as int, q.last() as int),
    decreases q.len(),
{
    if q.len() == 1 {
        assert(q[0] < adj.len());
        lemma_reach_refl(adj2, q[0] as int);
    } else {
        let q1 = q.drop_last();
        assert(is_walk(adj, q1)) by {
            assert forall|k: int| 0 <= k < q1.len() - 1 implies adj[q1[k] as int]@.contains(#[trigger] q1[k + 1]) by {
                assert(adj[q[k] as int]@.contains(q[k + 1]));
            }
        }
        lemma_walk_reach_after(basic2, adj, adj2, n, u, v, q1);
        let m = q.len() - 1;
        let x = q[m - 1] as int;
        let y = q[m] as int;
        assert(q1.last() == x);
        assert(adj[q[m - 1] as int]@.contains(q[(m - 1) + 1]));
        assert(x < adj.len() && y < adj.len());
        if (x == u && y == v) {
        } else if (x == v && y == u) {
            lemma_reach_symmetric(basic2, adj2, n, u, v);
        } else {
            assert(adj2[x]@.contains(y as usize));
            lemma_reach_edge(adj2, x, y);
        }
        lemma_reach_trans(adj2, q[0] as int, x, y);
    }
}

/// Pivoting keeps the basis connected: the ends of the leaving edge stay
/// joined around the rest of the cycle through the entering edge.
proof fn lemma_pivot_connected(
    basic: Seq<Vec<bool>>,
    basic2: Seq<Vec<bool>>,
    adj: Seq<Vec<usize>>,
    adj2: Seq<Vec<usize>>,
    n: int,
    ei: usize,
    ej: usize,
    p: Seq<usize>,
    kstar: int,
)
    requires
        consistent(basic, adj, n),
        consistent(basic2, adj2, n),
        connected(adj),
        pivot_path(adj, n, ei, ej, p),
        1 <= kstar < p.len(),
        keeps_edges(adj, adj2, p[kstar - 1] as int, p[kstar] as int),
        adj2[ei as int]@.contains((n + ej) as usize),
    ensures
        connected(adj2),
{
    let len = p.len() as int;
    let u = p[kstar - 1] as int;
    let v = p[kstar] as int;
    assert forall|k: int| 0 <= k < len implies #[trigger] p[k] < 2 * n by {
        assert(p[k] < adj.len());
    }
    // the part of the path before the leaving edge
    let w1 = p.subrange(0, kstar);
    assert(is_walk(adj, w1)) by {
        assert forall|k: int| 0 <= k < w1.len() - 1 implies adj[w1[k] as int]@.contains(#[trigger] w1[k + 1]) by {
            assert(adj[p[k] as int]@.contains(p[k + 1]));
        }
    }
    assert forall|k: int| 0 <= k < w1.len() - 1 implies !((#[trigger] w1[k] == u && w1[k + 1] == v) || (w1[k] == v
        && w1[k + 1] == u)) by {
        assert(w1[k] == p[k] && w1[k + 1] == p[k + 1]);
    }
    lemma_walk_kept(adj, adj2, u, v, w1);
    assert(reachable(adj2, p[0] as int, u)) by {
        assert(w1[0] == p[0] && w1.last() == p[kstar - 1]);
    }
    // the part after it
    let w2 = p.subrange(kstar, len);
    assert(is_walk(adj, w2)) by {
        assert forall|k: int| 0 <= k < w2.len() - 1 implies adj[w2[k] as int]@.contains(#[trigger] w2[k + 1]) by {
            assert(adj[p[kstar + k] as int]@.contains(p[(kstar + k) + 1]));
        }
    }
    assert forall|k: int| 0 <= k < w2.len() - 1 implies !((#[trigger] w2[k] == u && w2[k + 1] == v) || (w2[k] == v
        && w2[k + 1] == u)) by {
        assert(w2[k] == p[kstar + k] && w2[k + 1] == p[kstar + k + 1]);
    }
    lemma_walk_kept(adj, adj2, u, v, w2);
    assert(reachable(adj2, v, p[len - 1] as int)) by {
        assert(w2[0] == p[kstar] && w2.last() == p[len - 1]);
    }
    // close the cycle through the entering edge
    lemma_reach_edge(adj2, ei as int, n + ej);
    lemma_reach_symmetric(basic2, adj2, n, p[0] as int, u);
    lemma_reach_symmetric(basic2, adj2, n, v, p[len - 1] as int);
    lemma_reach_trans(adj2, u, ei as int, n + ej);
    lemma_reach_trans(adj2, u, n + ej, v);
    assert forall|x: int| 0 <= x < adj2.len() implies #[trigger] reachable(adj2, 0, x) by {
        assert(reachable(adj, 0, x));
        let q = choose|q: Seq<usize>| #[trigger] is_walk(adj, q) && q[0] == 0 && q.last() == x;
        lemma_walk_reach_after(basic2, adj, adj2, n, u, v, q);
    }
}

/// Pivoting keeps the flow a permutation carried by basic cells.
#[verifier::spinoff_prover]
#[verifier::rlimit(50)]
proof fn lemma_pivot_flow(
    basic: Seq<Vec<bool>>,
    basic2: Seq<Vec<bool>>,
    adj: Seq<Vec<usize>>,
    n: int,
    ei: usize,
    ej: usize,
    p: Seq<usize>,
    assign: Seq<usize>,
    assign2: Seq<usize>,
    leave: (usize, usize),
    degenerate: bool,
)
    requires
        consistent(basic, adj, n),
        flow_ok(basic, assign, n),
        pivot_path(adj, n, ei, ej, p),
        ei < n,
        ej < n,
        !basic[ei as int]@[ej as int],
        leaving_rule(pivot_cycle(p, n, ei, ej), assign, leave, degenerate),
        shifted(pivot_cycle(p, n, ei, ej), assign, assign2, degenerate),
        basic2.len() == n,
        forall|x: int, y: int|
            0 <= x < n && 0 <= y < n ==> #[trigger] basic2[x]@[y] == ((basic[x]@[y] || (x == ei && y == ej)) && !(x
                == leave.0 && y == leave.1)),
    ensures
        flow_ok(basic2, assign2, n),
{
    let cyc = pivot_cycle(p, n, ei, ej);
    let len = p.len() as int;
    lemma_cycle_facts(basic, adj, n, ei, ej, p);
    let ms = choose|m: int| 0 <= m < cyc.len() && !(#[trigger] cyc[m]).1 && cyc[m].0 == leave && carries(assign, leave) == !degenerate;
    assert(ms != 0);
    assert(basic[leave.0 as int]@[leave.1 as int]);
    if degenerate {
        assert forall|r: int| 0 <= r < n implies #[trigger] assign2[r] < n && basic2[r]@[assign2[r] as int] by {
            assert(assign[r] < n && basic[r]@[assign[r] as int]);
        }
    } else {
        // every losing cell carries flow
        assert forall|m: int| 0 <= m < cyc.len() && !(#[trigger] cyc[m]).1 implies carries(assign, cyc[m].0) by {
            if !carries(assign, cyc[m].0) {
                assert(exists|m2: int| 0 <= m2 < cyc.len() && !(#[trigger] cyc[m2]).1 && !carries(assign, cyc[m2].0));
            }
        }
        // the row of every losing cell also has a gaining cell
        assert forall|m: int| 1 <= m < len && !(#[trigger] cyc[m]).1 implies {
            let g = if m == len - 1 { 0 } else { m + 1 };
            cyc[g].1 && cyc[g].0.0 == cyc[m].0.0
        } by {
            let k = len - m;
            if m < len - 1 {
                let k2 = len - (m + 1);
                assert(cyc[m + 1].0 == (p[k2], (p[k2 - 1] - n) as usize));
            } else {
                assert(k == 1);
            }
        }
        // the column of every gaining cell is the column of a losing cell
        assert forall|m: int| 0 <= m < len && (#[trigger] cyc[m]).1 implies {
            let l = m + 1;
            l < len && !cyc[l].1 && cyc[l].0.1 == cyc[m].0.1
        } by {
            if m == 0 {
                assert(cyc[1].0 == (p[len - 2], (p[len - 1] - n) as usize));
            } else {
                let k = len - m;
                assert(k >= 2);
                let k2 = len - (m + 1);
                assert(cyc[m + 1].0 == (p[k2 - 1], (p[k2] - n) as usize));
            }
        }
        // rows that gain keep a basic cell
        assert forall|r: int| 0 <= r < n implies #[trigger] assign2[r] < n && basic2[r]@[assign2[r] as int] by {
            if exists|m: int| 0 <= m < cyc.len() && (#[trigger] cyc[m]).1 && cyc[m].0.0 == r {
                let m = choose|m: int| 0 <= m < cyc.len() && (#[trigger] cyc[m]).1 && cyc[m].0.0 == r;
                assert(assign2[cyc[m].0.0 as int] == cyc[m].0.1);
                assert(cyc[m].0 != cyc[ms].0);
                if m > 0 {
                    assert(basic[cyc[m].0.0 as int]@[cyc[m].0.1 as int]);
                }
            } else {
                assert(assign2[r] == assign[r]);
                assert(assign[r] < n && basic[r]@[assign[r] as int]);
                if r == leave.0 {
                    let g = if ms == len - 1 { 0 } else { ms + 1 };
                    assert(cyc[g].1 && cyc[g].0.0 == cyc[ms].0.0);
                }
            }
        }
        assert forall|r1: int, r2: int| 0 <= r1 < n && 0 <= r2 < n && r1 != r2 implies #[trigger] assign2[r1]
            != #[trigger] assign2[r2] by {
            let g1 = exists|m: int| 0 <= m < cyc.len() && (#[trigger] cyc[m]).1 && cyc[m].0.0 == r1;
            let g2 = exists|m: int| 0 <= m < cyc.len() && (#[trigger] cyc[m]).1 && cyc[m].0.0 == r2;
            if g1 && g2 {
                let m1 = choose|m: int| 0 <= m < cyc.len() && (#[trigger] cyc[m]).1 && cyc[m].0.0 == r1;
                let m2 = choose|m: int| 0 <= m < cyc.len() && (#[trigger] cyc[m]).1 && cyc[m].0.0 == r2;
                assert(assign2[cyc[m1].0.0 as int] == cyc[m1].0.1);
                assert(assign2[cyc[m2].0.0 as int] == cyc[m2].0.1);
            } else if g1 || g2 {
                let (ra, rb) = if g1 { (r1, r2) } else { (r2, r1) };
                let m1 = choose|m: int| 0 <= m < cyc.len() && (#[trigger] cyc[m]).1 && cyc[m].0.0 == ra;
                assert(assign2[cyc[m1].0.0 as int] == cyc[m1].0.1);
                assert(assign2[rb] == assign[rb]);
                let l = m1 + 1;
                assert(l < len && !cyc[l].1 && cyc[l].0.1 == cyc[m1].0.1);
                assert(carries(assign, cyc[l].0));
                let g = if l == len - 1 { 0 } else { l + 1 };
                assert(cyc[g].1 && cyc[g].0.0 == cyc[l].0.0);
                assert(cyc[l].0.0 != rb);
                assert(assign[cyc[l].0.0 as int] != assign[rb]);
            } else {
                assert(assign2[r1] == assign[r1]);
                assert(assign2[r2] == assign[r2]);
            }
        }
    }
}

impl Basis {
    /// One pivot of the primal simplex: the non-basic cell `(ei, ej)`
    /// enters the basis, the flow is pushed around the cycle it closes
    /// with the tree, and the leaving cell chosen by `leaving_rule` drops
    /// out. Returns the leaving cell and whether the pivot was degenerate.
    #[verifier::spinoff_prover]
    #[verifier::rlimit(40)]
    pub fn pivot(&mut self, ei: usize, ej: usize) -> (res: (usize, usize, bool))
        requires
            old(self).wf(),
            ei < old(self).n,
            ej < old(self).n,
            !old(self).basic@[ei as int]@[ej as int],
        ensures
            final(self).wf(),
            final(self).n == old(self).n,
            res.0 < old(self).n,
            res.1 < old(self).n,
            old(self).basic@[res.0 as int]@[res.1 as int],
            forall|x: int, y: int|
                0 <= x < old(self).n && 0 <= y < old(self).n ==> #[trigger] final(self).basic@[x]@[y] == ((old(
                    self,
                ).basic@[x]@[y] || (x == ei && y == ej)) && !(x == res.0 && y == res.1)),
            exists|p: Seq<usize>|
                #[trigger] pivot_path(old(self).tree_adj@, old(self).n as int, ei, ej, p) && leaving_rule(
                    pivot_cycle(p, old(self).n as int, ei, ej),
                    old(self).assign@,
                    (res.0, res.1),
                    res.2,
                ) && shifted(pivot_cycle(p, old(self).n as int, ei, ej), old(self).assign@, final(self).assign@, res.2),
    {
        let n = self.n;
        proof {
            lemma_connected_reach(self.basic@, self.tree_adj@, n as int, ei as int, n + ej);
        }
        let path = tree_path(&self.tree_adj, ei, n + ej, 2 * n);
        let ghost p = path@;
        let ghost cyc = pivot_cycle(p, n as int, ei, ej);
        proof {
            lemma_walk_alternates(self.basic@, self.tree_adj@, n as int, p);
            assert(p[p.len() - 1] == n + ej);
            lemma_cycle_facts(self.basic@, self.tree_adj@, n as int, ei, ej, p);
        }
        let mut cycle: Vec<((usize, usize), bool)> = Vec::new();
        cycle.push(((ei, ej), true));
        let mut sign = false;
        let mut w: usize = path.len() - 1;
        while w > 0
            invariant
                p == path@,
                p.len() >= 2,
                w < p.len(),
                forall|k: int| 0 <= k < p.len() ==> ((#[trigger] p[k]) < n) == (k % 2 == 0),
                forall|k: int| 0 <= k < p.len() ==> #[trigger] p[k] < 2 * n,
                cyc == pivot_cycle(p, n as int, ei, ej),
                cycle@ == cyc.subrange(0, p.len() - w),
                sign == ((p.len() - w - 1) % 2 == 1),
            decreases w,
        {
            let a = path[w - 1];
            let b = path[w];
            let cell = if a < n {
                (a, b - n)
            } else {
                (b, a - n)
            };
            cycle.push((cell, sign));
            proof {
                assert(cyc[p.len() - w] == (cell, sign));
                assert(cycle@ =~= cyc.subrange(0, p.len() - w + 1));
            }
            sign = !sign;
            w -= 1;
        }
        proof {
            assert(cycle@ =~= cyc);
        }
        let mut theta: u8 = 2;
        let mut leave: Option<(usize, usize)> = None;
        let mut i: usize = 0;
        while i < cycle.len()
            invariant
                cycle@ == cyc,
                i <= cyc.len(),
                self.assign@ == old(self).assign@,
                self.assign@.len() == n,
                forall|m: int| 0 <= m < cyc.len() ==> (#[trigger] cyc[m]).0.0 < n,
                theta <= 2,
                (theta == 2) == (leave is None),
                (theta == 2) == (forall|m: int| 0 <= m < i ==> (#[trigger] cyc[m]).1),
                theta < 2 ==> (theta == 0) == (exists|m: int| 0 <= m < i && !(#[trigger] cyc[m]).1 && !carries(self.assign@, cyc[m].0)),
                leave is Some ==> exists|m: int|
                    0 <= m < i && !(#[trigger] cyc[m]).1 && cyc[m].0 == leave->0 && carries(self.assign@, leave->0) == (theta == 1),
                leave is Some ==> forall|m: int|
                    0 <= m < i && !(#[trigger] cyc[m]).1 && carries(self.assign@, cyc[m].0) == (theta == 1) ==> cyc[m].0
                        == leave->0 || cell_lt(leave->0, cyc[m].0),
            decreases cyc.len() - i,
        {
            let (cell, gains) = cycle[i];
            if !gains {
                let (r, c) = cell;
                let f: u8 = if self.assign[r] == c {
                    1
                } else {
                    0
                };
                let better = f < theta || (f == theta && match leave {
                    None => true,
                    Some((lr, lc)) => r < lr || (r == lr && c < lc),
                });
                if better {
                    theta = f;
                    leave = Some((r, c));
                }
            }
            i += 1;
        }
        proof {
            assert(!cyc[1].1);
        }
        let (lr, lc) = leave.unwrap();
        let degenerate = theta == 0;
        proof {
            assert(leaving_rule(cyc, old(self).assign@, (lr, lc), degenerate));
        }
        if !degenerate {
            let mut i: usize = 0;
            while i < cycle.len()
                invariant
                    cycle@ == cyc,
                    i <= cyc.len(),
                    self.n == n,
                    self.basic@ == old(self).basic@,
                    self.tree_adj@ == old(self).tree_adj@,
                    self.assign@.len() == n,
                    cyc.len() == p.len(),
                    forall|m: int| 0 <= m < cyc.len() ==> (#[trigger] cyc[m]).0.0 < n && cyc[m].0.1 < n,
                    forall|m1: int, m2: int|
                        0 <= m1 < p.len() && 0 <= m2 < p.len() && m1 != m2 && (#[trigger] cyc[m1]).1 == (#[trigger] cyc[m2]).1
                            ==> cyc[m1].0.0 != cyc[m2].0.0 && cyc[m1].0.1 != cyc[m2].0.1,
                    forall|m: int| 0 <= m < i && (#[trigger] cyc[m]).1 ==> self.assign@[cyc[m].0.0 as int] == cyc[m].0.1,
                    forall|r: int|
                        0 <= r < n && (forall|m: int| 0 <= m < i && (#[trigger] cyc[m]).1 ==> cyc[m].0.0 != r)
                            ==> #[trigger] self.assign@[r] == old(self).assign@[r],
                decreases cyc.len() - i,
            {
                let (cell, gains) = cycle[i];
                if gains {
                    self.assign.set(cell.0, cell.1);
                }
                i += 1;
            }
        }
        let ghost mid_basic = self.basic@;
        add_basic(&mut self.basic, &mut self.tree_adj, n, ei, ej);
        let ghost mid_adj = self.tree_adj@;
        let ghost after_add = self.basic@;
        remove_basic(&mut self.basic, &mut self.tree_adj, n, lr, lc);
        proof {
            let adj0 = old(self).tree_adj@;
            let adj2 = self.tree_adj@;
            assert(shifted(cyc, old(self).assign@, self.assign@, degenerate));
            let ms = choose|m: int| 0 <= m < cyc.len() && !(#[trigger] cyc[m]).1 && cyc[m].0 == (lr, lc) && carries(old(self).assign@, (lr, lc)) == !degenerate;
            assert(ms != 0);
            let kstar = p.len() - ms;
            assert(cyc[ms].0 == (p[kstar - 1], (p[kstar] - n) as usize));
            assert(old(self).basic@[lr as int]@[lc as int]);
            assert(!(lr == ei && lc == ej));
            assert(keeps_edges(adj0, adj2, p[kstar - 1] as int, p[kstar] as int)) by {
                assert forall|x: int, w: usize|
                    0 <= x < adj0.len() && #[trigger] adj0[x]@.contains(w) && !((x == p[kstar - 1] && w == p[kstar]) || (x == p[kstar] && w == p[kstar - 1]))
                        implies adj2[x]@.contains(w) by {
                    let q = choose|q: int| 0 <= q < adj0[x]@.len() && #[trigger] adj0[x]@[q] == w;
                    if x == ei || x == n + ej {
                        assert(mid_adj[x]@[q] == w);
                    } else {
                        assert(mid_adj[x] == adj0[x]);
                    }
                    assert(mid_adj[x]@.contains(w));
                }
            }
            assert(mid_adj[ei as int]@[mid_adj[ei as int]@.len() - 1] == (n + ej) as usize);
            assert(mid_adj[ei as int]@.contains((n + ej) as usize));
            assert(adj2[ei as int]@.contains((n + ej) as usize));
            lemma_pivot_connected(
                old(self).basic@,
                self.basic@,
                adj0,
                adj2,
                n as int,
                ei,
                ej,
                p,
                kstar,
            );
            assert forall|x: int, y: int| 0 <= x < n && 0 <= y < n implies #[trigger] self.basic@[x]@[y] == ((old(
                self,
            ).basic@[x]@[y] || (x == ei && y == ej)) && !(x == lr && y == lc)) by {
                assert(self.basic@[x]@[y] == (after_add[x]@[y] && !(x == lr && y == lc)));
                assert(after_add[x]@[y] == (mid_basic[x]@[y] || (x == ei && y == ej)));
            }
            lemma_pivot_flow(
                old(self).basic@,
                self.basic@,
                adj0,
                n as int,
                ei,
                ej,
                p,
                old(self).assign@,
                self.assign@,
                (lr, lc),
                degenerate,
            );
            assert(pivot_path(adj0, n as int, ei, ej, p));
            lemma_cell_count_change(old(self).basic@, after_add, n as int, n as int, ei as int, ej as int);
            lemma_cell_count_change(after_add, self.basic@, n as int, n as int, lr as int, lc as int);
        }
        (lr, lc, degenerate)
    }
}

impl Basis {
    /// The assignment read off the basis: for each row, the first basic
    /// cell of the row that carries flow.
    pub fn assignment(&self) -> (row_assign: Vec<Option<usize>>)
        requires
            self.wf(),
        ensures
            row_assign@.len() == self.n,
            forall|r: int| 0 <= r < self.n ==> #[trigger] row_assign@[r] == Some(self.assign@[r]),
    {
        let n = self.n;
        let mut row_assign: Vec<Option<usize>> = Vec::new();
        let mut r: usize = 0;
        while r < n
            invariant
                self.wf(),
                n == self.n,
                r <= n,
                row_assign@.len() == r,
                forall|x: int| 0 <= x < r ==> #[trigger] row_assign@[x] == Some(self.assign@[x]),
            decreases n - r,
        {
            proof {
                assert(self.assign@[r as int] < n && self.basic@[r as int]@[self.assign@[r as int] as int]);
                assert(self.basic@[r as int]@.len() == n);
            }
            let mut found: Option<usize> = None;
            let mut c: usize = 0;
            while c < n
                invariant_except_break
                    found is None,
                    self.assign@[r as int] >= c,
                invariant
                    self.wf(),
                    n == self.n,
                    r < n,
                    c <= n,
                    self.basic@[r as int]@.len() == n,
                    self.assign@[r as int] < n,
                ensures
                    found == Some(self.assign@[r as int]),
                decreases n - c,
            {
                if self.basic[r][c] && self.assign[r] == c {
                    found = Some(c);
                    break;
                }
                c += 1;
            }
            row_assign.push(found);
            r += 1;
        }
        row_assign
    }
}

/// No row before `r` claimed column `c`.
pub open spec fn still_free(choice: Seq<usize>, r: int, c: int) -> bool {
    forall|r2: int| 0 <= r2 < r ==> #[trigger] choice[r2] != c
}

proof fn lemma_some_false(t: Seq<bool>, k: int)
    requires
        0 <= k <= t.len(),
        row_count(t, k) < k,
    ensures
        exists|j: int| 0 <= j < k && !#[trigger] t[j],
    decreases k,
{
    if t[k - 1] {
        lemma_some_false(t, k - 1);
        let j = choose|j: int| 0 <= j < k - 1 && !#[trigger] t[j];
        assert(!t[j]);
    } else {
        assert(!t[k - 1]);
    }
}

/// The greedy start of the simplex: each row in turn claims the free
/// column of least rank, the first such column on ties. `ranks[r][c]`
/// orders the costs of row `r` as they compare.
pub fn cheapest_free_columns(ranks: &Vec<Vec<u64>>, n: usize) -> (choice: Vec<usize>)
    requires
        ranks@.len() == n,
        forall|r: int| 0 <= r < n ==> (#[trigger] ranks@[r])@.len() == n,
    ensures
        is_permutation(choice@, n as int),
        forall|r: int, c: int|
            0 <= r < n && 0 <= c < n && still_free(choice@, r, c) ==> #[trigger] ranks@[r]@[c] > ranks@[r]@[choice@[r]
                as int] || (ranks@[r]@[c] == ranks@[r]@[choice@[r] as int] && choice@[r] <= c),
{
    let mut taken: Vec<bool> = Vec::new();
    let mut k: usize = 0;
    while k < n
        invariant
            k <= n,
            taken@.len() == k,
            forall|c: int| 0 <= c < k ==> !#[trigger] taken@[c],
        decreases n - k,
    {
        taken.push(false);
        k += 1;
    }
    proof {
        lemma_row_count_shape(taken@, n as int, -1, false);
    }
    let mut choice: Vec<usize> = Vec::new();
    let mut r: usize = 0;
    while r < n
        invariant
            r <= n,
            ranks@.len() == n,
            forall|x: int| 0 <= x < n ==> (#[trigger] ranks@[x])@.len() == n,
            taken@.len() == n,
            choice@.len() == r,
            row_count(taken@, n as int) == r,
            forall|c: int| 0 <= c < n ==> #[trigger] taken@[c] == !still_free(choice@, r as int, c),
            forall|x: int| 0 <= x < r ==> #[trigger] choice@[x] < n,
            forall|x1: int, x2: int| 0 <= x1 < r && 0 <= x2 < r && x1 != x2 ==> #[trigger] choice@[x1] != #[trigger] choice@[x2],
            forall|x: int, c: int|
                0 <= x < r && 0 <= c < n && still_free(choice@, x, c) ==> #[trigger] ranks@[x]@[c] > ranks@[x]@[choice@[x]
                    as int] || (ranks@[x]@[c] == ranks@[x]@[choice@[x] as int] && choice@[x] <= c),
        decreases n - r,
    {
        proof {
            lemma_some_false(taken@, n as int);
        }
        let mut best: Option<usize> = None;
        let mut c: usize = 0;
        while c < n
            invariant
                r < n,
                c <= n,
                ranks@.len() == n,
                ranks@[r as int]@.len() == n,
                taken@.len() == n,
                best is Some ==> best->0 < c && !taken@[best->0 as int],
                best is None ==> forall|c2: int| 0 <= c2 < c ==> #[trigger] taken@[c2],
                best is Some ==> forall|c2: int|
                    0 <= c2 < c && !#[trigger] taken@[c2] ==> ranks@[r as int]@[c2] > ranks@[r as int]@[best->0 as int] || (
                    ranks@[r as int]@[c2] == ranks@[r as int]@[best->0 as int] && best->0 <= c2),
            decreases n - c,
        {
            if !taken[c] {
                match best {
                    None => {
                        best = Some(c);
                    },
                    Some(b) => {
                        if ranks[r][c] < ranks[r][b] {
                            best = Some(c);
                        }
                    },
                }
            }
            c += 1;
        }
        let j = best.unwrap();
        let ghost t0 = taken@;
        let ghost ch0 = choice@;
        taken.set(j, true);
        choice.push(j);
        proof {
            lemma_row_count_change(t0, taken@, n as int, j as int);
            assert forall|x: int| 0 <= x < r implies #[trigger] choice@[x] == ch0[x] by {}
            assert forall|c2: int| 0 <= c2 < n implies #[trigger] taken@[c2] == !still_free(choice@, r + 1, c2) by {
                if c2 != j {
                    if !still_free(choice@, r + 1, c2) {
                        let x = choose|x: int| 0 <= x < r + 1 && #[trigger] choice@[x] == c2;
                        assert(x < r);
                        assert(ch0[x] == c2);
                    }
                    if !still_free(ch0, r as int, c2) {
                        let x = choose|x: int| 0 <= x < r && #[trigger] ch0[x] == c2;
                        assert(choice@[x] == c2);
                    }
                } else {
                    assert(choice@[r as int] == j);
                }
            }
            assert forall|x1: int, x2: int| 0 <= x1 < r + 1 && 0 <= x2 < r + 1 && x1 != x2 implies #[trigger] choice@[x1]
                != #[trigger] choice@[x2] by {
                if x1 == r {
                    assert(!t0[j as int]);
                    assert(still_free(ch0, r as int, j as int));
                    assert(ch0[x2] != j);
                } else if x2 == r {
                    assert(still_free(ch0, r as int, j as int));
                    assert(ch0[x1] != j);
                }
            }
            assert forall|x: int, c2: int|
                0 <= x < r + 1 && 0 <= c2 < n && still_free(choice@, x, c2) implies #[trigger] ranks@[x]@[c2] > ranks@[x]@[choice@[x]
                    as int] || (ranks@[x]@[c2] == ranks@[x]@[choice@[x] as int] && choice@[x] <= c2) by {
                if x < r {
                    assert forall|r2: int| 0 <= r2 < x implies #[trigger] ch0[r2] != c2 by {
                        assert(choice@[r2] == ch0[r2]);
                    }
                } else {
                    assert forall|r2: int| 0 <= r2 < r implies #[trigger] ch0[r2] != c2 by {
                        assert(choice@[r2] == ch0[r2]);
                    }
                    assert(!t0[c2]);
                }
            }
        }
        r += 1;
    }
    choice
}

} // verus!
