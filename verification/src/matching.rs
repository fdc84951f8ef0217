//! Maximum-cardinality bipartite matching (Hopcroft-Karp) on the
//! threshold graph of a square level matrix: the cell `(i, j)` is an edge
//! at threshold `t` when `levels[i][j] <= t`.
//!
//! Maximality is certified by König's theorem: when the breadth-first
//! search finds no augmenting path, the unreached rows together with the
//! reached columns form a vertex cover of the same size as the matching.
use vstd::prelude::*;
use vstd::relations::injective_on;
use vstd::set_lib::{lemma_int_range, lemma_len_subset, lemma_map_size, set_int_range};
use crate::assignment::{assigned_rows, is_assignment, is_matching, lemma_assigned_rows_bounded};

verus! {

/// `levels` is an `n x n` matrix.
pub open spec fn is_square(levels: Seq<Vec<usize>>, n: int) -> bool {
    &&& levels.len() == n
    &&& forall|i: int| 0 <= i < n ==> #[trigger] levels[i]@.len() == n
}

/// Every pair that `m` assigns is an edge at threshold `t`.
pub open spec fn within(levels: Seq<Vec<usize>>, t: int, m: Seq<Option<usize>>) -> bool {
    forall|i: int| 0 <= i < m.len() && #[trigger] m[i] is Some ==> levels[i]@[m[i]->0 as int] <= t
}

/// `cover` (rows as `i`, columns as `n + j`) touches every edge at threshold `t`.
pub open spec fn is_cover(levels: Seq<Vec<usize>>, t: int, n: int, cover: Set<int>) -> bool {
    forall|i: int, j: int|
        0 <= i < n && 0 <= j < n && #[trigger] levels[i]@[j] <= t ==> cover.contains(i)
            || cover.contains(n + j)
}

/// König's easy direction: no matching is larger than a vertex cover.
pub proof fn lemma_matching_bounded_by_cover(
    levels: Seq<Vec<usize>>,
    t: int,
    n: int,
    cover: Set<int>,
    m: Seq<Option<usize>>,
)
    requires
        is_square(levels, n),
        is_cover(levels, t, n, cover),
        cover.finite(),
        is_assignment(m, n, n),
        within(levels, t, m),
    ensures
        assigned_rows(m).len() <= cover.len(),
{
    let s = assigned_rows(m);
    let f = |i: int| if cover.contains(i) { i } else { n + m[i]->0 as int };
    lemma_assigned_rows_bounded(m);
    assert(injective_on(f, s)) by {
        assert forall|a: int, b: int| s.contains(a) && s.contains(b) && #[trigger] f(a) == #[trigger] f(b)
            implies a == b by {
            if !cover.contains(a) && !cover.contains(b) && a != b {
                assert(m[a] is Some && m[b] is Some);
                assert(m[a] != m[b]);
            }
        }
    }
    lemma_map_size(s, s.map(f), f);
    assert(s.map(f).subset_of(cover)) by {
        assert forall|x: int| s.map(f).contains(x) implies cover.contains(x) by {
            let a = choose|a: int| s.contains(a) && f(a) == x;
            if !cover.contains(a) {
                assert(m[a] is Some);
                assert(levels[a]@[m[a]->0 as int] <= t);
            }
        }
    }
    lemma_len_subset(s.map(f), cover);
}


/// Partner arrays, 1-indexed with `0` for "unmatched": `pu[x]` is the column
/// of row `x`, `pv[y]` the row of column `y`. Every matched pair is an edge
/// and the two arrays agree, except that the entry of column `w` may still
/// name a row that has since moved to another column.
spec fn pairs_ok(levels: Seq<Vec<usize>>, t: int, n: int, pu: Seq<usize>, pv: Seq<usize>, w: int) -> bool {
    &&& pu.len() == n + 1
    &&& pv.len() == n + 1
    &&& forall|x: int| 1 <= x <= n ==> #[trigger] pu[x] <= n
    &&& forall|y: int| 1 <= y <= n ==> #[trigger] pv[y] <= n
    &&& forall|x: int|
        1 <= x <= n && #[trigger] pu[x] != 0 ==> pv[pu[x] as int] == x && levels[x - 1]@[pu[x] - 1]
            <= t
    &&& forall|y: int| 1 <= y <= n && y != w && #[trigger] pv[y] != 0 ==> pu[pv[y] as int] == y
}

/// The matched rows, 0-indexed.
spec fn matched(pu: Seq<usize>, n: int) -> Set<int> {
    Set::new(|i: int| 0 <= i < n && pu[i + 1] != 0)
}

/// Reached nodes carry a layer number of at most `n`.
spec fn dist_ok(dist: Seq<usize>, n: int) -> bool {
    &&& dist.len() == n + 1
    &&& forall|x: int| 0 <= x <= n && #[trigger] dist[x] != usize::MAX ==> dist[x] <= n
}

/// One layered step: from row `a` the edge to column `c` leads to that
/// column's partner `b`, one layer further.
spec fn step(
    levels: Seq<Vec<usize>>,
    t: int,
    n: int,
    pv: Seq<usize>,
    dist: Seq<usize>,
    a: usize,
    c: usize,
    b: usize,
) -> bool {
    &&& 1 <= a <= n
    &&& 1 <= c <= n
    &&& levels[a - 1]@[c - 1] <= t
    &&& pv[c as int] == b
    &&& dist[b as int] == dist[a as int] + 1
}

/// `p` walks the layered graph, taking column `w[k]` out of row `p[k]`.
spec fn chain(
    levels: Seq<Vec<usize>>,
    t: int,
    n: int,
    pv: Seq<usize>,
    dist: Seq<usize>,
    p: Seq<usize>,
    w: Seq<usize>,
) -> bool {
    &&& p.len() >= 1
    &&& w.len() + 1 == p.len()
    &&& forall|k: int| 0 <= k < w.len() ==> step(levels, t, n, pv, dist, p[k], #[trigger] w[k], p[k + 1])
}

/// A layered walk that ends at the free sink `0`: an augmenting path.
spec fn layered_path(
    levels: Seq<Vec<usize>>,
    t: int,
    n: int,
    pv: Seq<usize>,
    dist: Seq<usize>,
    p: Seq<usize>,
    w: Seq<usize>,
) -> bool {
    &&& chain(levels, t, n, pv, dist, p, w)
    &&& p.last() == 0
}

proof fn lemma_matched_finite(pu: Seq<usize>, n: int)
    requires
        n >= 0,
    ensures
        matched(pu, n).finite(),
        matched(pu, n).len() <= n,
{
    lemma_int_range(0, n);
    assert(matched(pu, n).subset_of(set_int_range(0, n)));
    lemma_len_subset(matched(pu, n), set_int_range(0, n));
}

/// Depth-first search for an augmenting path from row `u` through the
/// layered graph; on success the path is flipped into the matching.
fn dfs(
    levels: &Vec<Vec<usize>>,
    n: usize,
    threshold: usize,
    u: usize,
    pair_u: &mut Vec<usize>,
    pair_v: &mut Vec<usize>,
    dist: &Vec<usize>,
) -> (found: bool)
    requires
        is_square(levels@, n as int),
        n + 2 <= usize::MAX,
        pairs_ok(levels@, threshold as int, n as int, old(pair_u)@, old(pair_v)@, 0),
        dist_ok(dist@, n as int),
        u <= n,
        u == 0 || dist@[u as int] <= n,
    ensures
        !found ==> final(pair_u)@ == old(pair_u)@ && final(pair_v)@ == old(pair_v)@,
        u == 0 ==> found && final(pair_u)@ == old(pair_u)@ && final(pair_v)@ == old(pair_v)@,
        found && u != 0 ==> {
            &&& pairs_ok(
                levels@,
                threshold as int,
                n as int,
                final(pair_u)@,
                final(pair_v)@,
                old(pair_u)@[u as int] as int,
            )
            &&& final(pair_u)@[u as int] != 0
            &&& final(pair_u)@[u as int] != old(pair_u)@[u as int]
            &&& matched(final(pair_u)@, n as int) == matched(old(pair_u)@, n as int).insert(u - 1)
            &&& forall|x: int|
                1 <= x <= n && #[trigger] final(pair_u)@[x] != old(pair_u)@[x] ==> dist@[x]
                    >= dist@[u as int]
            &&& forall|y: int|
                1 <= y <= n && #[trigger] final(pair_v)@[y] != old(pair_v)@[y] ==> old(pair_v)@[y] == 0
                    || dist@[old(pair_v)@[y] as int] > dist@[u as int]
        },
        (exists|p: Seq<usize>, w: Seq<usize>|
            #[trigger] layered_path(levels@, threshold as int, n as int, old(pair_v)@, dist@, p, w)
                && p[0] == u) ==> found,
    decreases
            if u == 0 {
                0
            } else {
                n + 1 - dist@[u as int]
            },
{
    if u == 0 {
        return true;
    }
    let ghost has_path = exists|p: Seq<usize>, w: Seq<usize>|
        #[trigger] layered_path(levels@, threshold as int, n as int, old(pair_v)@, dist@, p, w)
            && p[0] == u;
    let ghost pw: (Seq<usize>, Seq<usize>) = if has_path {
        choose|p: Seq<usize>, w: Seq<usize>|
            #[trigger] layered_path(levels@, threshold as int, n as int, old(pair_v)@, dist@, p, w)
                && p[0] == u
    } else {
        (Seq::empty(), Seq::empty())
    };
    proof {
        if has_path {
            let p = pw.0;
            let w = pw.1;
            assert(layered_path(levels@, threshold as int, n as int, old(pair_v)@, dist@, p, w)
                && p[0] == u);
            assert(w.len() >= 1);
        }
    }
    let mut v: usize = 1;
    while v <= n
        invariant
            is_square(levels@, n as int),
            n + 2 <= usize::MAX,
            pairs_ok(levels@, threshold as int, n as int, old(pair_u)@, old(pair_v)@, 0),
            dist_ok(dist@, n as int),
            1 <= u <= n,
            dist@[u as int] <= n,
            1 <= v <= n + 1,
            pair_u@ == old(pair_u)@,
            pair_v@ == old(pair_v)@,
            has_path ==> layered_path(
                levels@,
                threshold as int,
                n as int,
                old(pair_v)@,
                dist@,
                pw.0,
                pw.1,
            ) && pw.0[0] == u && pw.1.len() >= 1 && v <= pw.1[0],
        decreases n + 1 - v,
    {
        if levels[u - 1][v - 1] <= threshold {
            let next_u = pair_v[v];
            if dist[next_u] == dist[u] + 1 {
                let ghost pu0 = pair_u@;
                let ghost pv0 = pair_v@;
                proof {
                    if has_path && v == pw.1[0] {
                        let p = pw.0;
                        let w = pw.1;
                        let p2 = p.drop_first();
                        let w2 = w.drop_first();
                        assert(chain(levels@, threshold as int, n as int, old(pair_v)@, dist@, p2, w2)) by {
                            assert forall|k: int| 0 <= k < w2.len() implies step(
                                levels@,
                                threshold as int,
                                n as int,
                                old(pair_v)@,
                                dist@,
                                p2[k],
                                #[trigger] w2[k],
                                p2[k + 1],
                            ) by {
                                assert(w2[k] == w[k + 1]);
                                assert(step(levels@, threshold as int, n as int, old(pair_v)@, dist@, p[k + 1], w[k + 1], p[k + 2]));
                            }
                        }
                        assert(layered_path(levels@, threshold as int, n as int, old(pair_v)@, dist@, p2, w2));
                        assert(step(levels@, threshold as int, n as int, old(pair_v)@, dist@, p[0], w[0], p[1]));
                        assert(p2[0] == p[1]);
                        assert(old(pair_v)@[w[0] as int] == p[1]);
                    }
                }
                let ok = dfs(levels, n, threshold, next_u, pair_u, pair_v, dist);
                if ok {
                    let ghost pu1 = pair_u@;
                    let ghost pv1 = pair_v@;
                    proof {
                        assert(pu0[u as int] != v) by {
                            if pu0[u as int] != 0 {
                                assert(pv0[pu0[u as int] as int] == u);
                            }
                        }
                        if next_u != 0 {
                            assert(pu0[next_u as int] == v);
                            assert(pu1[u as int] == pu0[u as int]);
                            assert(pv1[v as int] == pv0[v as int]);
                            assert(matched(pu1, n as int) =~= matched(pu0, n as int));
                        } else {
                            assert(pu1 == pu0);
                        }
                    }
                    pair_v.set(v, u);
                    pair_u.set(u, v);
                    proof {
                        let pu2 = pair_u@;
                        let pv2 = pair_v@;
                        let w0 = pu0[u as int];
                        assert forall|x: int| 1 <= x <= n && #[trigger] pu2[x] != 0 implies pv2[pu2[x] as int]
                            == x && levels@[x - 1]@[pu2[x] - 1] <= threshold by {
                            if x == u {
                                assert(pu2[x] == v);
                                assert(pv2[v as int] == u);
                            } else {
                                assert(pu2[x] == pu1[x]);
                                if pu1[x] as int == v as int {
                                    if next_u != 0 {
                                        assert(pv1[v as int] == x);
                                    } else {
                                        assert(pv0[v as int] == x);
                                    }
                                }
                            }
                        }
                        assert forall|y: int| 1 <= y <= n && y != w0 && #[trigger] pv2[y] != 0 implies pu2[pv2[y] as int]
                            == y by {
                            if y != v {
                                assert(pv2[y] == pv1[y]);
                                if pv1[y] as int == u as int {
                                    if next_u != 0 {
                                        if pv1[y] != pv0[y] {
                                            assert(false);
                                        }
                                    }
                                    assert(pu0[u as int] == y);
                                }
                            }
                        }
                        assert(matched(pu2, n as int) =~= matched(pu1, n as int).insert(u - 1));
                        assert(matched(pu0, n as int) =~= matched(old(pair_u)@, n as int));
                    }
                    return true;
                }
            }
        }
        v += 1;
    }
    false
}


/// The nodes (rows `1..=n` and the sink `0`) that carry a layer number.
spec fn reached(dist: Seq<usize>, n: int) -> Set<int> {
    Set::new(|x: int| 0 <= x <= n && dist[x] != usize::MAX)
}

proof fn lemma_reached_bounded(dist: Seq<usize>, n: int)
    requires
        n >= 0,
    ensures
        reached(dist, n).finite(),
        reached(dist, n).len() <= n + 1,
{
    lemma_int_range(0, n + 1);
    assert(reached(dist, n).subset_of(set_int_range(0, n + 1)));
    lemma_len_subset(reached(dist, n), set_int_range(0, n + 1));
}

/// Every reached node carries a predecessor edge one layer closer to a free
/// row; layer `0` holds exactly the free rows.
spec fn preds_ok(
    levels: Seq<Vec<usize>>,
    t: int,
    n: int,
    pu: Seq<usize>,
    pv: Seq<usize>,
    dist: Seq<usize>,
    pr: Seq<usize>,
    pc: Seq<usize>,
) -> bool {
    &&& pr.len() == n + 1
    &&& pc.len() == n + 1
    &&& forall|x: int| 0 <= x <= n && #[trigger] dist[x] == 0 ==> 1 <= x <= n && pu[x] == 0
    &&& forall|x: int|
        0 <= x <= n && dist[x] != usize::MAX && dist[x] != 0 ==> {
            &&& 1 <= #[trigger] pr[x] <= n
            &&& 1 <= pc[x] <= n
            &&& levels[pr[x] - 1]@[pc[x] - 1] <= t
            &&& pv[pc[x] as int] == x
            &&& dist[pr[x] as int] != usize::MAX
            &&& dist[x] == dist[pr[x] as int] + 1
        }
}

/// Following predecessors from a reached node leads back to a free row.
proof fn lemma_walk_back(
    levels: Seq<Vec<usize>>,
    t: int,
    n: int,
    pu: Seq<usize>,
    pv: Seq<usize>,
    dist: Seq<usize>,
    pr: Seq<usize>,
    pc: Seq<usize>,
    x: int,
) -> (r: (Seq<usize>, Seq<usize>))
    requires
        n + 2 <= usize::MAX,
        preds_ok(levels, t, n, pu, pv, dist, pr, pc),
        dist.len() == n + 1,
        0 <= x <= n,
        dist[x] != usize::MAX,
    ensures
        chain(levels, t, n, pv, dist, r.0, r.1),
        1 <= r.0[0] <= n,
        pu[r.0[0] as int] == 0,
        r.0.last() == x,
    decreases dist[x],
{
    if dist[x] == 0 {
        (seq![x as usize], Seq::empty())
    } else {
        let y = pr[x] as int;
        let (p, w) = lemma_walk_back(levels, t, n, pu, pv, dist, pr, pc, y);
        let p2 = p.push(x as usize);
        let w2 = w.push(pc[x]);
        assert forall|k: int| 0 <= k < w2.len() implies step(levels, t, n, pv, dist, p2[k], #[trigger] w2[k], p2[k + 1]) by {
            if k < w.len() {
                assert(w2[k] == w[k]);
                assert(step(levels, t, n, pv, dist, p[k], w[k], p[k + 1]));
            } else {
                assert(p2[k] == p.last());
                assert(p2[k + 1] == x);
            }
        }
        (p2, w2)
    }
}

/// The state of the breadth-first layering: node `cur` is being expanded
/// and its columns below `upto` are done; every other reached node that has
/// left the queue has all its edges leading to reached nodes (while the sink
/// is unreached).
#[verifier::opaque]
spec fn bfs_inv(
    levels: Seq<Vec<usize>>,
    t: int,
    n: int,
    pu: Seq<usize>,
    pv: Seq<usize>,
    dist: Seq<usize>,
    q: Seq<usize>,
    pr: Seq<usize>,
    pc: Seq<usize>,
    cur: int,
    upto: int,
) -> bool {
    &&& dist.len() == n + 1
    &&& reached(dist, n).finite()
    &&& reached(dist, n).len() <= n + 1
    &&& forall|x: int|
        0 <= x <= n && #[trigger] dist[x] != usize::MAX ==> dist[x] < reached(dist, n).len()
    &&& forall|x: int| 1 <= x <= n && #[trigger] pu[x] == 0 ==> dist[x] == 0
    &&& preds_ok(levels, t, n, pu, pv, dist, pr, pc)
    &&& forall|k: int| 0 <= k < q.len() ==> #[trigger] q[k] <= n && dist[q[k] as int] != usize::MAX
    &&& dist[0] == usize::MAX ==> forall|x: int, y: int|
        1 <= x <= n && 1 <= y <= n && x != cur && dist[x] != usize::MAX && !q.contains(x as usize)
            && #[trigger] levels[x - 1]@[y - 1] <= t ==> dist[pv[y] as int] != usize::MAX
    &&& dist[0] == usize::MAX ==> forall|y: int|
        1 <= y < upto && #[trigger] levels[cur - 1]@[y - 1] <= t ==> dist[pv[y] as int] != usize::MAX
}

proof fn lemma_bfs_start(
    levels: Seq<Vec<usize>>,
    t: int,
    n: int,
    pu: Seq<usize>,
    pv: Seq<usize>,
    dist: Seq<usize>,
    q: Seq<usize>,
    pr: Seq<usize>,
    pc: Seq<usize>,
)
    requires
        n + 2 <= usize::MAX,
        n >= 0,
        pu.len() == n + 1,
        dist.len() == n + 1,
        pr.len() == n + 1,
        pc.len() == n + 1,
        dist[0] == usize::MAX,
        forall|x: int|
            1 <= x <= n ==> #[trigger] dist[x] == (if pu[x] == 0 {
                0
            } else {
                usize::MAX
            }),
        forall|k: int| 0 <= k < q.len() ==> 1 <= #[trigger] q[k] <= n && pu[q[k] as int] == 0,
        forall|x: int| 1 <= x <= n && #[trigger] pu[x] == 0 ==> q.contains(x as usize),
    ensures
        bfs_inv(levels, t, n, pu, pv, dist, q, pr, pc, -1, 0),
{
    reveal(bfs_inv);
    lemma_reached_bounded(dist, n);
    assert forall|x: int| 0 <= x <= n && #[trigger] dist[x] != usize::MAX implies dist[x] < reached(
        dist,
        n,
    ).len() by {
        assert(reached(dist, n).contains(x));
        if reached(dist, n).len() == 0 {
            reached(dist, n).lemma_len0_is_empty();
        }
    }
    assert forall|x: int, y: int|
        1 <= x <= n && 1 <= y <= n && x != -1 && dist[x] != usize::MAX && !q.contains(x as usize)
            && #[trigger] levels[x - 1]@[y - 1] <= t implies dist[pv[y] as int] != usize::MAX by {
        assert(pu[x] == 0);
    }
}

/// Taking the front node off the queue: it becomes the node under
/// expansion.
proof fn lemma_bfs_pop(
    levels: Seq<Vec<usize>>,
    t: int,
    n: int,
    pu: Seq<usize>,
    pv: Seq<usize>,
    dist: Seq<usize>,
    qa: Seq<usize>,
    pr: Seq<usize>,
    pc: Seq<usize>,
)
    requires
        n + 2 <= usize::MAX,
        bfs_inv(levels, t, n, pu, pv, dist, qa, pr, pc, -1, 0),
        qa.len() > 0,
    ensures
        qa[0] <= n,
        dist[qa[0] as int] <= n,
        dist.len() == n + 1,
        reached(dist, n).len() <= n + 1,
        dist[qa[0] as int] < dist[0] ==> 1 <= qa[0] && bfs_inv(
            levels,
            t,
            n,
            pu,
            pv,
            dist,
            qa.subrange(1, qa.len() as int),
            pr,
            pc,
            qa[0] as int,
            1,
        ),
        dist[qa[0] as int] >= dist[0] ==> bfs_inv(
            levels,
            t,
            n,
            pu,
            pv,
            dist,
            qa.subrange(1, qa.len() as int),
            pr,
            pc,
            -1,
            0,
        ),
{
    reveal(bfs_inv);
    let x = qa[0];
    let q0 = qa.subrange(1, qa.len() as int);
    assert(qa[0] <= n && dist[qa[0] as int] != usize::MAX);
    assert(reached(dist, n).len() <= n + 1);
    assert forall|k: int| 0 <= k < q0.len() implies #[trigger] q0[k] <= n && dist[q0[k] as int]
        != usize::MAX by {
        assert(q0[k] == qa[k + 1]);
    }
    assert forall|z: int| 1 <= z <= n && z != x && !q0.contains(z as usize) implies !#[trigger] qa.contains(
        z as usize,
    ) by {
        if qa.contains(z as usize) {
            let k = choose|k: int| 0 <= k < qa.len() && qa[k] == z as usize;
            assert(k != 0);
            assert(q0[k - 1] == z as usize);
        }
    }
    if dist[x as int] < dist[0] {
        if x == 0 {
            assert(false);
        }
    }
    if dist[x as int] >= dist[0] {
        assert(dist[0] != usize::MAX);
    }
}

/// An edge of the node under expansion that needs no update.
proof fn lemma_bfs_skip(
    levels: Seq<Vec<usize>>,
    t: int,
    n: int,
    pu: Seq<usize>,
    pv: Seq<usize>,
    dist: Seq<usize>,
    q: Seq<usize>,
    pr: Seq<usize>,
    pc: Seq<usize>,
    x: int,
    y: int,
)
    requires
        bfs_inv(levels, t, n, pu, pv, dist, q, pr, pc, x, y),
        1 <= y <= n,
        levels[x - 1]@[y - 1] <= t ==> dist[pv[y] as int] != usize::MAX,
    ensures
        bfs_inv(levels, t, n, pu, pv, dist, q, pr, pc, x, y + 1),
{
    reveal(bfs_inv);
}

/// Reaching a new node through the edge `(x, y)`.
proof fn lemma_bfs_relax(
    levels: Seq<Vec<usize>>,
    t: int,
    n: int,
    pu: Seq<usize>,
    pv: Seq<usize>,
    dist: Seq<usize>,
    q: Seq<usize>,
    pr: Seq<usize>,
    pc: Seq<usize>,
    x: int,
    y: int,
)
    requires
        n + 2 <= usize::MAX,
        bfs_inv(levels, t, n, pu, pv, dist, q, pr, pc, x, y),
        1 <= x <= n,
        1 <= y <= n,
        pv.len() == n + 1,
        forall|c: int| 1 <= c <= n ==> #[trigger] pv[c] <= n,
        levels[x - 1]@[y - 1] <= t,
        dist[x] != usize::MAX,
        dist[pv[y] as int] == usize::MAX,
        dist[x] + 1 < usize::MAX,
    ensures
        ({
            let nx = pv[y] as int;
            let d2 = dist.update(nx, (dist[x] + 1) as usize);
            &&& bfs_inv(
                levels,
                t,
                n,
                pu,
                pv,
                d2,
                q.push(pv[y]),
                pr.update(nx, x as usize),
                pc.update(nx, y as usize),
                x,
                y + 1,
            )
            &&& reached(d2, n).len() == reached(dist, n).len() + 1
            &&& reached(d2, n).len() <= n + 1
        }),
{
    reveal(bfs_inv);
    let nx = pv[y] as int;
    let d2 = dist.update(nx, (dist[x] + 1) as usize);
    let q2 = q.push(pv[y]);
    let pr2 = pr.update(nx, x as usize);
    let pc2 = pc.update(nx, y as usize);
    assert(reached(d2, n) =~= reached(dist, n).insert(nx));
    assert(!reached(dist, n).contains(nx));
    lemma_reached_bounded(d2, n);
    assert forall|z: int| 0 <= z <= n && #[trigger] d2[z] == 0 implies 1 <= z <= n && pu[z] == 0 by {
        assert(dist[z] == 0);
    }
    assert forall|z: int|
        0 <= z <= n && d2[z] != usize::MAX && d2[z] != 0 implies {
        &&& 1 <= #[trigger] pr2[z] <= n
        &&& 1 <= pc2[z] <= n
        &&& levels[pr2[z] - 1]@[pc2[z] - 1] <= t
        &&& pv[pc2[z] as int] == z
        &&& d2[pr2[z] as int] != usize::MAX
        &&& d2[z] == d2[pr2[z] as int] + 1
    } by {
        if z != nx {
            assert(dist[z] != usize::MAX);
            assert(pr2[z] == pr[z]);
            assert(pc2[z] == pc[z]);
        }
    }
    assert forall|z: int| 0 <= z <= n && #[trigger] d2[z] != usize::MAX implies d2[z] < reached(
        d2,
        n,
    ).len() by {
        if z != nx {
            assert(dist[z] != usize::MAX);
        }
    }
    assert forall|k: int| 0 <= k < q2.len() implies #[trigger] q2[k] <= n && d2[q2[k] as int]
        != usize::MAX by {
        if k < q.len() {
            assert(q2[k] == q[k]);
        }
    }
    assert forall|z: int| 0 <= z <= n && z != nx && !q2.contains(z as usize) implies !#[trigger] q.contains(
        z as usize,
    ) by {
        if q.contains(z as usize) {
            let k = choose|k: int| 0 <= k < q.len() && q[k] == z as usize;
            assert(q2[k] == z as usize);
        }
    }
    assert(q2[q.len() as int] == pv[y]);
    assert(q2.contains(pv[y]));
    if d2[0] == usize::MAX {
        assert forall|z: int, c: int|
            1 <= z <= n && 1 <= c <= n && z != x && d2[z] != usize::MAX && !q2.contains(z as usize)
                && #[trigger] levels[z - 1]@[c - 1] <= t implies d2[pv[c] as int] != usize::MAX by {
            assert(dist[z] != usize::MAX);
            assert(!q.contains(z as usize));
            assert(dist[pv[c] as int] != usize::MAX);
        }
        assert forall|c: int|
            1 <= c < y + 1 && #[trigger] levels[x - 1]@[c - 1] <= t implies d2[pv[c] as int] != usize::MAX by {
            if c < y {
                assert(dist[pv[c] as int] != usize::MAX);
            }
        }
    }
}

/// The node under expansion is done.
proof fn lemma_bfs_done(
    levels: Seq<Vec<usize>>,
    t: int,
    n: int,
    pu: Seq<usize>,
    pv: Seq<usize>,
    dist: Seq<usize>,
    q: Seq<usize>,
    pr: Seq<usize>,
    pc: Seq<usize>,
    x: int,
)
    requires
        bfs_inv(levels, t, n, pu, pv, dist, q, pr, pc, x, n + 1),
    ensures
        bfs_inv(levels, t, n, pu, pv, dist, q, pr, pc, -1, 0),
{
    reveal(bfs_inv);
}

/// What an exhausted queue tells: the layers are well formed, a reached
/// sink yields an augmenting path, and an unreached one closes the reached
/// set under edges.
proof fn lemma_bfs_end(
    levels: Seq<Vec<usize>>,
    t: int,
    n: int,
    pu: Seq<usize>,
    pv: Seq<usize>,
    dist: Seq<usize>,
    pr: Seq<usize>,
    pc: Seq<usize>,
)
    requires
        n + 2 <= usize::MAX,
        n >= 0,
        bfs_inv(levels, t, n, pu, pv, dist, Seq::empty(), pr, pc, -1, 0),
    ensures
        dist_ok(dist, n),
        forall|x: int| 1 <= x <= n && #[trigger] pu[x] == 0 ==> dist[x] == 0,
        dist[0] != usize::MAX ==> exists|p: Seq<usize>, w: Seq<usize>|
            #[trigger] layered_path(levels, t, n, pv, dist, p, w) && 1 <= p[0] <= n
                && pu[p[0] as int] == 0,
        dist[0] == usize::MAX ==> forall|x: int, y: int|
            1 <= x <= n && 1 <= y <= n && dist[x] != usize::MAX && #[trigger] levels[x - 1]@[y
                - 1] <= t ==> dist[pv[y] as int] != usize::MAX,
{
    reveal(bfs_inv);
    if dist[0] != usize::MAX {
        let (p, w) = lemma_walk_back(levels, t, n, pu, pv, dist, pr, pc, 0);
        assert(layered_path(levels, t, n, pv, dist, p, w));
    }
    if dist[0] == usize::MAX {
        assert forall|x: int, y: int|
            1 <= x <= n && 1 <= y <= n && dist[x] != usize::MAX && #[trigger] levels[x - 1]@[y
                - 1] <= t implies dist[pv[y] as int] != usize::MAX by {
            assert(!Seq::<usize>::empty().contains(x as usize));
        }
    }
}

/// Breadth-first layering from the free rows over alternating paths.
/// Returns whether a free column (the sink `0`) was reached.
fn bfs(
    levels: &Vec<Vec<usize>>,
    n: usize,
    threshold: usize,
    pair_u: &Vec<usize>,
    pair_v: &Vec<usize>,
    dist: &mut Vec<usize>,
) -> (found: bool)
    requires
        is_square(levels@, n as int),
        n + 2 <= usize::MAX,
        pairs_ok(levels@, threshold as int, n as int, pair_u@, pair_v@, 0),
        old(dist)@.len() == n + 1,
    ensures
        dist_ok(final(dist)@, n as int),
        found == (final(dist)@[0] != usize::MAX),
        forall|x: int| 1 <= x <= n && #[trigger] pair_u@[x] == 0 ==> final(dist)@[x] == 0,
        found ==> exists|p: Seq<usize>, w: Seq<usize>|
            #[trigger] layered_path(levels@, threshold as int, n as int, pair_v@, final(dist)@, p, w)
                && 1 <= p[0] <= n && pair_u@[p[0] as int] == 0,
        !found ==> forall|x: int, y: int|
            1 <= x <= n && 1 <= y <= n && final(dist)@[x] != usize::MAX && #[trigger] levels@[x
                - 1]@[y - 1] <= threshold ==> final(dist)@[pair_v@[y] as int] != usize::MAX,
{
    let mut queue: std::collections::VecDeque<usize> = std::collections::VecDeque::new();
    let ghost mut pr: Seq<usize> = Seq::new((n + 1) as nat, |i: int| 0usize);
    let ghost mut pc: Seq<usize> = Seq::new((n + 1) as nat, |i: int| 0usize);
    let mut u: usize = 1;
    while u <= n
        invariant
            1 <= u <= n + 1,
            n + 2 <= usize::MAX,
            pairs_ok(levels@, threshold as int, n as int, pair_u@, pair_v@, 0),
            dist@.len() == n + 1,
            forall|x: int|
                1 <= x < u ==> #[trigger] dist@[x] == (if pair_u@[x] == 0 {
                    0
                } else {
                    usize::MAX
                }),
            forall|k: int|
                0 <= k < queue@.len() ==> 1 <= #[trigger] queue@[k] < u && pair_u@[queue@[k] as int]
                    == 0,
            forall|x: int| 1 <= x < u && #[trigger] pair_u@[x] == 0 ==> queue@.contains(x as usize),
        decreases n + 1 - u,
    {
        let ghost q0 = queue@;
        if pair_u[u] == 0 {
            dist.set(u, 0);
            queue.push_back(u);
        } else {
            dist.set(u, usize::MAX);
        }
        proof {
            assert forall|x: int| 1 <= x < u + 1 && #[trigger] pair_u@[x] == 0 implies queue@.contains(
                x as usize,
            ) by {
                if x < u {
                    let k = choose|k: int| 0 <= k < q0.len() && q0[k] == x as usize;
                    assert(queue@[k] == x as usize);
                } else {
                    assert(queue@[queue@.len() - 1] == u);
                }
            }
        }
        u += 1;
    }
    dist.set(0, usize::MAX);
    proof {
        lemma_bfs_start(levels@, threshold as int, n as int, pair_u@, pair_v@, dist@, queue@, pr, pc);
    }
    loop
        invariant
            n + 2 <= usize::MAX,
            pairs_ok(levels@, threshold as int, n as int, pair_u@, pair_v@, 0),
            bfs_inv(levels@, threshold as int, n as int, pair_u@, pair_v@, dist@, queue@, pr, pc, -1, 0),
            is_square(levels@, n as int),
            pr.len() == n + 1,
            pc.len() == n + 1,
        ensures
            queue@.len() == 0,
        decreases (n + 1 - reached(dist@, n as int).len()) + queue@.len(),
    {
        let ghost qa = queue@;
        let front = queue.pop_front();
        match front {
            None => {
                break;
            },
            Some(x) => {
                proof {
                    lemma_bfs_pop(levels@, threshold as int, n as int, pair_u@, pair_v@, dist@, qa, pr, pc);
                }
                if dist[x] < dist[0] {
                    let ghost m0 = (n + 1 - reached(dist@, n as int).len()) + queue@.len();
                    let mut y: usize = 1;
                    while y <= n
                        invariant
                            1 <= y <= n + 1,
                            1 <= x <= n,
                            n + 2 <= usize::MAX,
                            pairs_ok(levels@, threshold as int, n as int, pair_u@, pair_v@, 0),
                            dist@.len() == n + 1,
                            dist@[x as int] <= n,
                            reached(dist@, n as int).len() <= n + 1,
                            bfs_inv(
                                levels@,
                                threshold as int,
                                n as int,
                                pair_u@,
                                pair_v@,
                                dist@,
                                queue@,
                                pr,
                                pc,
                                x as int,
                                y as int,
                            ),
                            (n + 1 - reached(dist@, n as int).len()) + queue@.len() == m0,
                            is_square(levels@, n as int),
                            pr.len() == n + 1,
                            pc.len() == n + 1,
                        decreases n + 1 - y,
                    {
                        if levels[x - 1][y - 1] <= threshold {
                            let next_u = pair_v[y];
                            if dist[next_u] == usize::MAX {
                                let nd = dist[x] + 1;
                                proof {
                                    lemma_bfs_relax(levels@, threshold as int, n as int, pair_u@, pair_v@, dist@, queue@, pr, pc, x as int, y as int);
                                    pr = pr.update(next_u as int, x);
                                    pc = pc.update(next_u as int, y);
                                }
                                dist.set(next_u, nd);
                                queue.push_back(next_u);
                            } else {
                                proof {
                                    lemma_bfs_skip(levels@, threshold as int, n as int, pair_u@, pair_v@, dist@, queue@, pr, pc, x as int, y as int);
                                }
                            }
                        } else {
                            proof {
                                lemma_bfs_skip(levels@, threshold as int, n as int, pair_u@, pair_v@, dist@, queue@, pr, pc, x as int, y as int);
                            }
                        }
                        y += 1;
                    }
                    proof {
                        lemma_bfs_done(levels@, threshold as int, n as int, pair_u@, pair_v@, dist@, queue@, pr, pc, x as int);
                    }
                }
            },
        }
    }
    proof {
        assert(queue@ =~= Seq::<usize>::empty());
        lemma_bfs_end(levels@, threshold as int, n as int, pair_u@, pair_v@, dist@, pr, pc);
    }
    dist[0] != usize::MAX
}


/// When the layering leaves the sink unreached, the unreached rows and the
/// reached columns cover every edge with exactly as many nodes as there are
/// matched rows, so no assignment on the threshold graph is larger.
proof fn lemma_layers_certify_maximum(
    levels: Seq<Vec<usize>>,
    t: int,
    n: int,
    pu: Seq<usize>,
    pv: Seq<usize>,
    dist: Seq<usize>,
)
    requires
        n >= 0,
        is_square(levels, n),
        pairs_ok(levels, t, n, pu, pv, 0),
        dist.len() == n + 1,
        dist[0] == usize::MAX,
        forall|x: int| 1 <= x <= n && #[trigger] pu[x] == 0 ==> dist[x] == 0,
        forall|x: int, y: int|
            1 <= x <= n && 1 <= y <= n && dist[x] != usize::MAX && #[trigger] levels[x - 1]@[y - 1]
                <= t ==> dist[pv[y] as int] != usize::MAX,
    ensures
        forall|m: Seq<Option<usize>>|
            is_assignment(m, n, n) && within(levels, t, m) ==> #[trigger] assigned_rows(m).len()
                <= matched(pu, n).len(),
{
    let cover = Set::new(
        |z: int|
            (0 <= z < n && dist[z + 1] == usize::MAX) || (n <= z < 2 * n && dist[pv[z - n + 1] as int]
                != usize::MAX),
    );
    let s = matched(pu, n);
    let g = |i: int| if dist[i + 1] == usize::MAX { i } else { n + pu[i + 1] - 1 };
    lemma_matched_finite(pu, n);
    assert(is_cover(levels, t, n, cover)) by {
        assert forall|i: int, j: int|
            0 <= i < n && 0 <= j < n && #[trigger] levels[i]@[j] <= t implies cover.contains(i)
                || cover.contains(n + j) by {
            if dist[i + 1] != usize::MAX {
                assert(levels[(i + 1) - 1]@[(j + 1) - 1] <= t);
                assert(dist[pv[j + 1] as int] != usize::MAX);
                assert(cover.contains(n + j));
            }
        }
    }
    assert(injective_on(g, s)) by {
        assert forall|a: int, b: int| s.contains(a) && s.contains(b) && #[trigger] g(a) == #[trigger] g(b)
            implies a == b by {
            if dist[a + 1] != usize::MAX && dist[b + 1] != usize::MAX {
                assert(pu[a + 1] != 0 && pu[b + 1] != 0);
                assert(pv[pu[a + 1] as int] == a + 1);
                assert(pv[pu[b + 1] as int] == b + 1);
            }
            if dist[a + 1] != usize::MAX && dist[b + 1] == usize::MAX {
                assert(pu[a + 1] >= 1);
            }
            if dist[a + 1] == usize::MAX && dist[b + 1] != usize::MAX {
                assert(pu[b + 1] >= 1);
            }
        }
    }
    assert(s.map(g) =~= cover) by {
        assert forall|z: int| s.map(g).contains(z) implies cover.contains(z) by {
            let i = choose|i: int| s.contains(i) && g(i) == z;
            if dist[i + 1] != usize::MAX {
                assert(pu[i + 1] != 0);
                assert(pv[pu[i + 1] as int] == i + 1);
                assert(1 <= pu[i + 1] <= n);
                assert(z - n + 1 == pu[i + 1]);
            }
        }
        assert forall|z: int| cover.contains(z) implies s.map(g).contains(z) by {
            if 0 <= z < n && dist[z + 1] == usize::MAX {
                if pu[z + 1] == 0 {
                    assert(dist[z + 1] == 0);
                }
                assert(s.contains(z) && g(z) == z);
            } else {
                let c = z - n + 1;
                assert(1 <= c <= n);
                let x = pv[c] as int;
                assert(x != 0);
                assert(pu[x] == c);
                assert(s.contains(x - 1));
                assert(g(x - 1) == z);
            }
        }
    }
    lemma_map_size(s, cover, g);
    assert forall|m: Seq<Option<usize>>|
        is_assignment(m, n, n) && within(levels, t, m) implies #[trigger] assigned_rows(m).len()
            <= matched(pu, n).len() by {
        lemma_matching_bounded_by_cover(levels, t, n, cover, m);
    }
}

/// Hopcroft-Karp: a maximum-cardinality matching of the threshold graph at
/// `threshold`. Returns its size and the row and column assignments.
pub fn hopcroft_karp(levels: &Vec<Vec<usize>>, n: usize, threshold: usize) -> (res: (
    usize,
    Vec<Option<usize>>,
    Vec<Option<usize>>,
))
    requires
        is_square(levels@, n as int),
        n + 2 <= usize::MAX,
    ensures
        res.1@.len() == n,
        res.2@.len() == n,
        is_matching(res.1@, res.2@),
        within(levels@, threshold as int, res.1@),
        res.0 == assigned_rows(res.1@).len(),
        forall|m: Seq<Option<usize>>|
            is_assignment(m, n as int, n as int) && within(levels@, threshold as int, m)
                ==> #[trigger] assigned_rows(m).len() <= res.0,
{
    let mut pair_u: Vec<usize> = vec![0usize; n + 1];
    let mut pair_v: Vec<usize> = vec![0usize; n + 1];
    let mut dist: Vec<usize> = vec![usize::MAX; n + 1];
    let mut matching_size: usize = 0;
    proof {
        assert(matched(pair_u@, n as int) =~= Set::empty());
    }
    loop
        invariant
            is_square(levels@, n as int),
            n + 2 <= usize::MAX,
            pairs_ok(levels@, threshold as int, n as int, pair_u@, pair_v@, 0),
            dist@.len() == n + 1,
            matched(pair_u@, n as int).finite(),
            matching_size == matched(pair_u@, n as int).len(),
            matching_size <= n,
        ensures
            pairs_ok(levels@, threshold as int, n as int, pair_u@, pair_v@, 0),
            matching_size == matched(pair_u@, n as int).len(),
            dist@.len() == n + 1,
            dist@[0] == usize::MAX,
            forall|x: int| 1 <= x <= n && #[trigger] pair_u@[x] == 0 ==> dist@[x] == 0,
            forall|x: int, y: int|
                1 <= x <= n && 1 <= y <= n && dist@[x] != usize::MAX && #[trigger] levels@[x
                    - 1]@[y - 1] <= threshold ==> dist@[pair_v@[y] as int] != usize::MAX,
        decreases n - matching_size,
    {
        let found = bfs(levels, n, threshold, &pair_u, &pair_v, &mut dist);
        if !found {
            break;
        }
        let ghost pu0 = pair_u@;
        let ghost pv0 = pair_v@;
        let ghost ms0 = matching_size as int;
        let ghost pw = choose|p: Seq<usize>, w: Seq<usize>|
            #[trigger] layered_path(levels@, threshold as int, n as int, pair_v@, dist@, p, w)
                && 1 <= p[0] <= n && pair_u@[p[0] as int] == 0;
        let ghost root = pw.0[0] as int;
        let mut progressed = false;
        let mut u: usize = 1;
        while u <= n
            invariant
                1 <= u <= n + 1,
                is_square(levels@, n as int),
                n + 2 <= usize::MAX,
                pairs_ok(levels@, threshold as int, n as int, pair_u@, pair_v@, 0),
                dist_ok(dist@, n as int),
                forall|x: int| 1 <= x <= n && #[trigger] pu0[x] == 0 ==> dist@[x] == 0,
                forall|x: int| 1 <= x <= n && #[trigger] pu0[x] != 0 ==> pair_u@[x] != 0,
                matched(pair_u@, n as int).finite(),
                matching_size == matched(pair_u@, n as int).len(),
                matching_size <= n,
                layered_path(levels@, threshold as int, n as int, pv0, dist@, pw.0, pw.1),
                1 <= root <= n,
                root == pw.0[0],
                pu0[root] == 0,
                !progressed ==> pair_u@ == pu0 && pair_v@ == pv0 && u <= root && matching_size == ms0,
                progressed ==> matching_size > ms0,
            decreases n + 1 - u,
        {
            if pair_u[u] == 0 {
                let ghost pu1 = pair_u@;
                proof {
                    if pu0[u as int] != 0 {
                        assert(pair_u@[u as int] != 0);
                    }
                }
                let ok = dfs(levels, n, threshold, u, &mut pair_u, &mut pair_v, &dist);
                if ok {
                    proof {
                        lemma_matched_finite(pair_u@, n as int);
                        assert(!matched(pu1, n as int).contains(u - 1));
                        assert forall|x: int| 1 <= x <= n && #[trigger] pu0[x] != 0 implies pair_u@[x] != 0 by {
                            assert(pu1[x] != 0);
                            assert(pu1[(x - 1) + 1] != 0);
                            assert(matched(pu1, n as int).contains(x - 1));
                            assert(matched(pair_u@, n as int).contains(x - 1));
                            assert(pair_u@[(x - 1) + 1] != 0);
                        }
                    }
                    matching_size += 1;
                    progressed = true;
                }
            }
            u += 1;
        }
    }
    proof {
        lemma_layers_certify_maximum(levels@, threshold as int, n as int, pair_u@, pair_v@, dist@);
    }
    let mut row_assign: Vec<Option<usize>> = Vec::new();
    let mut u: usize = 1;
    while u <= n
        invariant
            1 <= u <= n + 1,
            n + 2 <= usize::MAX,
            pairs_ok(levels@, threshold as int, n as int, pair_u@, pair_v@, 0),
            row_assign@.len() == u - 1,
            forall|i: int|
                0 <= i < u - 1 ==> #[trigger] row_assign@[i] == (if pair_u@[i + 1] != 0 {
                    Some((pair_u@[i + 1] - 1) as usize)
                } else {
                    None
                }),
        decreases n + 1 - u,
    {
        if pair_u[u] != 0 {
            row_assign.push(Some(pair_u[u] - 1));
        } else {
            row_assign.push(None);
        }
        u += 1;
    }
    let mut col_assign: Vec<Option<usize>> = Vec::new();
    let mut v: usize = 1;
    while v <= n
        invariant
            1 <= v <= n + 1,
            n + 2 <= usize::MAX,
            pairs_ok(levels@, threshold as int, n as int, pair_u@, pair_v@, 0),
            col_assign@.len() == v - 1,
            forall|j: int|
                0 <= j < v - 1 ==> #[trigger] col_assign@[j] == (if pair_v@[j + 1] != 0 {
                    Some((pair_v@[j + 1] - 1) as usize)
                } else {
                    None
                }),
        decreases n + 1 - v,
    {
        if pair_v[v] != 0 {
            col_assign.push(Some(pair_v[v] - 1));
        } else {
            col_assign.push(None);
        }
        v += 1;
    }
    proof {
        assert(assigned_rows(row_assign@) =~= matched(pair_u@, n as int));
        assert forall|i: int| 0 <= i < row_assign@.len() && #[trigger] row_assign@[i] is Some implies row_assign@[i]->0
            < col_assign@.len() && col_assign@[row_assign@[i]->0 as int] is Some
            && col_assign@[row_assign@[i]->0 as int]->0 == i by {
            assert(pair_u@[i + 1] != 0);
            assert(pair_v@[pair_u@[i + 1] as int] == i + 1);
        }
        assert forall|j: int| 0 <= j < col_assign@.len() && #[trigger] col_assign@[j] is Some implies col_assign@[j]->0
            < row_assign@.len() && row_assign@[col_assign@[j]->0 as int] is Some
            && row_assign@[col_assign@[j]->0 as int]->0 == j by {
            assert(pair_v@[j + 1] != 0);
            assert(pair_u@[pair_v@[j + 1] as int] == j + 1);
        }
        assert forall|i: int| 0 <= i < row_assign@.len() && #[trigger] row_assign@[i] is Some implies levels@[i]@[row_assign@[i]->0 as int]
            <= threshold by {
            assert(pair_u@[i + 1] != 0);
        }
    }
    (matching_size, row_assign, col_assign)
}

} // verus!
