//! The combinatorial parts of the primal network simplex on the assignment
//! LP: the spanning-tree basis is a graph on `2n` nodes (rows `0..n`,
//! columns `n..2n`), and a pivot needs the tree path between the two ends
//! of the entering edge. (The row-to-column inversion of the final basis
//! is `assignment::invert`.)
use vstd::prelude::*;

verus! {

/// The nodes are `0..total`, each with an adjacency list naming only
/// nodes; lists past `total` are not read.
pub open spec fn adjacency_ok(adj: Seq<Vec<usize>>, total: int) -> bool {
    &&& adj.len() >= total
    &&& forall|x: int, k: int| 0 <= x < total && 0 <= k < adj[x]@.len() ==> #[trigger] adj[x]@[k] < total
}

/// `p` is a walk: consecutive nodes are neighbours.
pub open spec fn is_walk(adj: Seq<Vec<usize>>, p: Seq<usize>) -> bool {
    &&& p.len() >= 1
    &&& forall|k: int| 0 <= k < p.len() ==> #[trigger] p[k] < adj.len()
    &&& forall|k: int| 0 <= k < p.len() - 1 ==> adj[p[k] as int]@.contains(#[trigger] p[k + 1])
}

/// `target` can be reached from `start`.
pub open spec fn reachable(adj: Seq<Vec<usize>>, start: int, target: int) -> bool {
    exists|p: Seq<usize>| #[trigger] is_walk(adj, p) && p[0] == start && p.last() == target
}

spec fn unvisited(visited: Seq<bool>) -> Set<int> {
    Set::new(|x: int| 0 <= x < visited.len() && !visited[x])
}

proof fn lemma_unvisited_finite(visited: Seq<bool>)
    ensures
        unvisited(visited).finite(),
        unvisited(visited).len() <= visited.len(),
{
    vstd::set_lib::lemma_int_range(0, visited.len() as int);
    assert(unvisited(visited).subset_of(vstd::set_lib::set_int_range(0, visited.len() as int)));
    vstd::set_lib::lemma_len_subset(unvisited(visited), vstd::set_lib::set_int_range(0, visited.len() as int));
}

/// Visited nodes carry a depth and a parent one step closer to `start`.
spec fn tree_links(
    adj: Seq<Vec<usize>>,
    total: int,
    start: int,
    visited: Seq<bool>,
    parent: Seq<usize>,
    depth: Seq<int>,
) -> bool {
    &&& visited.len() == total
    &&& parent.len() == total
    &&& depth.len() == total
    &&& 0 <= start < total
    &&& visited[start]
    &&& depth[start] == 0
    &&& forall|x: int|
        0 <= x < total && #[trigger] visited[x] && x != start ==> {
            &&& parent[x] < total
            &&& visited[parent[x] as int]
            &&& adj[parent[x] as int]@.contains(x as usize)
            &&& depth[x] == depth[parent[x] as int] + 1
            &&& depth[x] >= 1
        }
}

/// Breadth-first search state: besides the links, visited nodes that left
/// the queue have all their neighbours visited.
spec fn search_inv(
    adj: Seq<Vec<usize>>,
    total: int,
    start: int,
    visited: Seq<bool>,
    parent: Seq<usize>,
    depth: Seq<int>,
    queue: Seq<usize>,
) -> bool {
    &&& tree_links(adj, total, start, visited, parent, depth)
    &&& forall|k: int| 0 <= k < queue.len() ==> #[trigger] queue[k] < total && visited[queue[k] as int]
    &&& forall|x: int, k: int|
        0 <= x < total && visited[x] && !queue.contains(x as usize) && 0 <= k < adj[x]@.len()
            ==> #[trigger] visited[adj[x]@[k] as int]
}

/// Once the queue is exhausted, everything reachable from `start` has been
/// visited.
proof fn lemma_search_complete(
    adj: Seq<Vec<usize>>,
    total: int,
    start: int,
    visited: Seq<bool>,
    parent: Seq<usize>,
    depth: Seq<int>,
    p: Seq<usize>,
)
    requires
        adjacency_ok(adj, total),
        search_inv(adj, total, start, visited, parent, depth, Seq::empty()),
        is_walk(adj, p),
        p[0] == start,
    ensures
        forall|k: int| 0 <= k < p.len() ==> visited[#[trigger] p[k] as int],
{
    assert forall|k: int| 0 <= k < p.len() implies visited[#[trigger] p[k] as int] by {
        lemma_walk_visited(adj, total, start, visited, parent, depth, p, k);
    }
}

proof fn lemma_walk_visited(
    adj: Seq<Vec<usize>>,
    total: int,
    start: int,
    visited: Seq<bool>,
    parent: Seq<usize>,
    depth: Seq<int>,
    p: Seq<usize>,
    k: int,
)
    requires
        adjacency_ok(adj, total),
        search_inv(adj, total, start, visited, parent, depth, Seq::empty()),
        is_walk(adj, p),
        p[0] == start,
        0 <= k < p.len(),
    ensures
        p[k] < total,
        visited[p[k] as int],
    decreases k,
{
    if k > 0 {
        lemma_walk_visited(adj, total, start, visited, parent, depth, p, k - 1);
        let x = p[k - 1] as int;
        assert(adj[p[k - 1] as int]@.contains(p[(k - 1) + 1]));
        let q = choose|q: int| 0 <= q < adj[x]@.len() && adj[x]@[q] == p[k];
        assert(!Seq::<usize>::empty().contains(x as usize));
        assert(visited[adj[x]@[q] as int]);
    }
}

/// The path from `start` to `target` in the tree, found by breadth-first
/// search and read back along parent links.
pub fn tree_path(tree_adj: &[Vec<usize>], start: usize, target: usize, total: usize) -> (path: Vec<usize>)
    requires
        adjacency_ok(tree_adj@, total as int),
        start < total,
        target < total,
        reachable(tree_adj@, start as int, target as int),
    ensures
        is_walk(tree_adj@, path@),
        path@[0] == start,
        path@.last() == target,
        path@.no_duplicates(),
{
    let mut parent: Vec<usize> = Vec::new();
    let mut visited: Vec<bool> = Vec::new();
    let mut x: usize = 0;
    while x < total
        invariant
            x <= total,
            parent@.len() == x,
            visited@.len() == x,
            forall|y: int| 0 <= y < x ==> !#[trigger] visited@[y] && parent@[y] == usize::MAX,
        decreases total - x,
    {
        parent.push(usize::MAX);
        visited.push(false);
        x += 1;
    }
    let ghost mut depth: Seq<int> = Seq::new(total as nat, |i: int| 0int);
    visited.set(start, true);
    let mut queue: std::collections::VecDeque<usize> = std::collections::VecDeque::new();
    queue.push_back(start);
    proof {
        lemma_unvisited_finite(visited@);
    }
    proof {
        assert(queue@[0] == start);
        assert(queue@.contains(start));
        assert forall|x: int| 0 <= x < total && #[trigger] visited@[x] implies x == start by {}
    }
    loop
        invariant_except_break
            search_inv(tree_adj@, total as int, start as int, visited@, parent@, depth, queue@),
        invariant
            adjacency_ok(tree_adj@, total as int),
            start < total,
            target < total,
            reachable(tree_adj@, start as int, target as int),
            tree_links(tree_adj@, total as int, start as int, visited@, parent@, depth),
            unvisited(visited@).finite(),
        ensures
            tree_links(tree_adj@, total as int, start as int, visited@, parent@, depth),
            visited@[target as int],
        decreases unvisited(visited@).len() + queue@.len(),
    {
        let ghost qa = queue@;
        let front = queue.pop_front();
        match front {
            None => {
                proof {
                    assert(queue@ =~= Seq::<usize>::empty());
                    let p = choose|p: Seq<usize>| #[trigger] is_walk(tree_adj@, p) && p[0] == start && p.last() == target;
                    lemma_search_complete(tree_adj@, total as int, start as int, visited@, parent@, depth, p);
                    assert(visited@[p[p.len() - 1] as int]);
                }
                break;
            },
            Some(node) => {
                if node == target {
                    proof {
                        assert(visited@[qa[0] as int]);
                    }
                    break;
                }
                let ghost q0 = queue@;
                let ghost m0 = unvisited(visited@).len() + queue@.len();
                proof {
                    assert forall|x: int| 0 <= x < total && x != node && !q0.contains(x as usize) implies !#[trigger] qa.contains(x as usize) by {
                        if qa.contains(x as usize) {
                            let q = choose|q: int| 0 <= q < qa.len() && qa[q] == x as usize;
                            assert(q != 0);
                            assert(q0[q - 1] == x as usize);
                        }
                    }
                }
                let nbrs = &tree_adj[node];
                let mut k: usize = 0;
                while k < nbrs.len()
                    invariant
                        adjacency_ok(tree_adj@, total as int),
                        nbrs == &tree_adj@[node as int],
                        node < total,
                        start < total,
                        target < total,
                        visited@[node as int],
                        k <= nbrs@.len(),
                        visited@.len() == total,
                        parent@.len() == total,
                        depth.len() == total,
                        visited@[start as int],
                        depth[start as int] == 0,
                        forall|x: int|
                            0 <= x < total && #[trigger] visited@[x] && x != start ==> {
                                &&& parent@[x] < total
                                &&& visited@[parent@[x] as int]
                                &&& tree_adj@[parent@[x] as int]@.contains(x as usize)
                                &&& depth[x] == depth[parent@[x] as int] + 1
                                &&& depth[x] >= 1
                            },
                        forall|q: int| 0 <= q < queue@.len() ==> #[trigger] queue@[q] < total && visited@[queue@[q] as int],
                        forall|x: int, q: int|
                            0 <= x < total && visited@[x] && !queue@.contains(x as usize) && x != node && 0 <= q < tree_adj@[x]@.len()
                                ==> #[trigger] visited@[tree_adj@[x]@[q] as int],
                        forall|q: int| 0 <= q < k ==> #[trigger] visited@[nbrs@[q] as int],
                        unvisited(visited@).finite(),
                        unvisited(visited@).len() + queue@.len() == m0,
                    decreases nbrs@.len() - k,
                {
                    let nb = nbrs[k];
                    if !visited[nb] {
                        let ghost v0 = visited@;
                        let ghost qb = queue@;
                        visited.set(nb, true);
                        parent.set(nb, node);
                        proof {
                            depth = depth.update(nb as int, depth[node as int] + 1);
                            assert(unvisited(visited@) =~= unvisited(v0).remove(nb as int));
                            lemma_unvisited_finite(visited@);
                            assert(nbrs@[k as int] == nb);
                            assert(tree_adj@[node as int]@.contains(nb));
                        }
                        queue.push_back(nb);
                        proof {
                            assert forall|x: int| 0 <= x < total && x != nb && !queue@.contains(x as usize) implies !#[trigger] qb.contains(x as usize) by {
                                if qb.contains(x as usize) {
                                    let q = choose|q: int| 0 <= q < qb.len() && qb[q] == x as usize;
                                    assert(queue@[q] == x as usize);
                                }
                            }
                            assert(queue@[queue@.len() - 1] == nb);
                        }
                    }
                    k += 1;
                }
                proof {
                    assert forall|x: int, q: int|
                        0 <= x < total && visited@[x] && !queue@.contains(x as usize) && 0 <= q < tree_adj@[x]@.len()
                            implies #[trigger] visited@[tree_adj@[x]@[q] as int] by {
                        if x == node {
                            assert(nbrs@[q] == tree_adj@[x]@[q]);
                        }
                    }
                }
            },
        }
    }
    let mut rev: Vec<usize> = Vec::new();
    rev.push(target);
    let mut cur: usize = target;
    while cur != start
        invariant
            tree_links(tree_adj@, total as int, start as int, visited@, parent@, depth),
            adjacency_ok(tree_adj@, total as int),
            cur < total,
            visited@[cur as int],
            rev@.len() >= 1,
            rev@[0] == target,
            rev@.last() == cur,
            forall|q: int| 0 <= q < rev@.len() ==> #[trigger] rev@[q] < total && visited@[rev@[q] as int]
                && depth[rev@[q] as int] == depth[target as int] - q,
            forall|q: int| 0 <= q < rev@.len() - 1 ==> tree_adj@[#[trigger] rev@[q + 1] as int]@.contains(rev@[q]),
        decreases depth[cur as int],
    {
        let p = parent[cur];
        rev.push(p);
        cur = p;
    }
    let mut path: Vec<usize> = Vec::new();
    let mut k: usize = rev.len();
    while k > 0
        invariant
            k <= rev@.len(),
            path@.len() == rev@.len() - k,
            forall|q: int| 0 <= q < path@.len() ==> #[trigger] path@[q] == rev@[rev@.len() - 1 - q],
        decreases k,
    {
        k -= 1;
        path.push(rev[k]);
    }
    proof {
        assert forall|q: int| 0 <= q < path@.len() - 1 implies tree_adj@[path@[q] as int]@.contains(#[trigger] path@[q + 1]) by {
            let a = rev@.len() - 1 - q;
            assert(path@[q] == rev@[a]);
            assert(path@[q + 1] == rev@[a - 1]);
            assert(tree_adj@[rev@[(a - 1) + 1] as int]@.contains(rev@[a - 1]));
        }
        assert forall|a: int, b: int| 0 <= a < path@.len() && 0 <= b < path@.len() && a != b implies path@[a] != path@[b] by {
            assert(path@[a] == rev@[rev@.len() - 1 - a]);
            assert(path@[b] == rev@[rev@.len() - 1 - b]);
        }
    }
    path
}

/// Node `x` is the child of some discovery in `order`.
pub open spec fn discovered(order: Seq<(usize, usize)>, x: int) -> bool {
    exists|k: int| 0 <= k < order.len() && (#[trigger] order[k]).1 == x
}

/// `i` is the first position of `x` in `list`.
pub open spec fn first_at(list: Seq<usize>, x: usize, i: int) -> bool {
    &&& 0 <= i < list.len()
    &&& list[i] == x
    &&& forall|i2: int| 0 <= i2 < i ==> list[i2] != x
}

proof fn lemma_first_at_unique(list: Seq<usize>, x: usize, i1: int, i2: int)
    requires
        first_at(list, x, i1),
        first_at(list, x, i2),
    ensures
        i1 == i2,
{
    if i1 < i2 {
        assert(list[i1] != x);
    } else if i2 < i1 {
        assert(list[i2] != x);
    }
}

/// The discoveries made from `u` by one scan of its adjacency list: its
/// neighbours not yet visited, each at its first position in the list, in
/// list order.
spec fn scan_result(
    adj: Seq<Vec<usize>>,
    total: int,
    u: int,
    v0: Seq<bool>,
    o0: Seq<(usize, usize)>,
    v1: Seq<bool>,
    o1: Seq<(usize, usize)>,
) -> bool {
    let list = adj[u]@;
    &&& v1.len() == total
    &&& o1.len() >= o0.len()
    &&& o1.subrange(0, o0.len() as int) == o0
    &&& forall|k: int|
        o0.len() <= k < o1.len() ==> {
            &&& (#[trigger] o1[k]).0 == u
            &&& o1[k].1 < total
            &&& !v0[o1[k].1 as int]
            &&& list.contains(o1[k].1)
            &&& exists|i: int| #[trigger] first_at(list, o1[k].1, i)
        }
    &&& forall|k1: int, k2: int, i1: int, i2: int|
        o0.len() <= k1 < k2 < o1.len() && #[trigger] first_at(list, o1[k1].1, i1) && #[trigger] first_at(list, o1[k2].1, i2)
            ==> i1 < i2
    &&& forall|k1: int, k2: int| o0.len() <= k1 < k2 < o1.len() ==> (#[trigger] o1[k1]).1 != (#[trigger] o1[k2]).1
    &&& forall|x: int| 0 <= x < total ==> #[trigger] v1[x] == (v0[x] || exists|k: int| o0.len() <= k < o1.len() && (#[trigger] o1[k]).1 == x)
    &&& forall|q: int| 0 <= q < list.len() ==> v1[#[trigger] list[q] as int]
    &&& unvisited(v1).finite()
    &&& unvisited(v1).len() + o1.len() == unvisited(v0).len() + o0.len()
}

/// Scans the adjacency list of `u`, marking and recording (as `(u, x)`)
/// each neighbour `x` not yet visited.
fn scan_node(tree_adj: &[Vec<usize>], total: usize, u: usize, visited: &mut Vec<bool>, order: &mut Vec<(usize, usize)>)
    requires
        adjacency_ok(tree_adj@, total as int),
        u < total,
        old(visited)@.len() == total,
    ensures
        scan_result(tree_adj@, total as int, u as int, old(visited)@, old(order)@, final(visited)@, final(order)@),
{
    let ghost v0 = visited@;
    let ghost o0 = order@;
    let ghost list = tree_adj@[u as int]@;
    proof {
        lemma_unvisited_finite(v0);
    }
    let nbrs = &tree_adj[u];
    let mut j: usize = 0;
    while j < nbrs.len()
        invariant
            adjacency_ok(tree_adj@, total as int),
            u < total,
            nbrs@ == list,
            list == tree_adj@[u as int]@,
            j <= list.len(),
            v0.len() == total,
            visited@.len() == total,
            order@.len() >= o0.len(),
            order@.subrange(0, o0.len() as int) == o0,
            forall|k: int|
                o0.len() <= k < order@.len() ==> {
                    &&& (#[trigger] order@[k]).0 == u
                    &&& order@[k].1 < total
                    &&& !v0[order@[k].1 as int]
                    &&& list.contains(order@[k].1)
                    &&& exists|i: int| 0 <= i < j && #[trigger] first_at(list, order@[k].1, i)
                },
            forall|k1: int, k2: int, i1: int, i2: int|
                o0.len() <= k1 < k2 < order@.len() && #[trigger] first_at(list, order@[k1].1, i1) && #[trigger] first_at(
                    list,
                    order@[k2].1,
                    i2,
                ) ==> i1 < i2,
            forall|k1: int, k2: int| o0.len() <= k1 < k2 < order@.len() ==> (#[trigger] order@[k1]).1 != (#[trigger] order@[k2]).1,
            forall|x: int|
                0 <= x < total ==> #[trigger] visited@[x] == (v0[x] || exists|k: int|
                    o0.len() <= k < order@.len() && (#[trigger] order@[k]).1 == x),
            forall|q: int| 0 <= q < j ==> visited@[#[trigger] list[q] as int],
            unvisited(visited@).finite(),
            unvisited(visited@).len() + order@.len() == unvisited(v0).len() + o0.len(),
        decreases list.len() - j,
    {
        let nb = nbrs[j];
        proof {
            assert(list[j as int] == nb);
        }
        if !visited[nb] {
            let ghost va = visited@;
            let ghost oa = order@;
            visited.set(nb, true);
            order.push((u, nb));
            proof {
                assert(unvisited(visited@) =~= unvisited(va).remove(nb as int));
                lemma_unvisited_finite(visited@);
                let last = oa.len() as int;
                assert(order@[last] == (u, nb));
                assert(order@.subrange(0, o0.len() as int) =~= oa.subrange(0, o0.len() as int));
                assert(first_at(list, nb, j as int)) by {
                    assert forall|i2: int| 0 <= i2 < j implies list[i2] != nb by {
                        assert(va[list[i2] as int]);
                    }
                }
                assert(!v0[nb as int]) by {
                    if v0[nb as int] {
                        assert(va[nb as int]);
                    }
                }
                assert(list.contains(nb));
                assert forall|k: int| o0.len() <= k < order@.len() implies {
                    &&& (#[trigger] order@[k]).0 == u
                    &&& order@[k].1 < total
                    &&& !v0[order@[k].1 as int]
                    &&& list.contains(order@[k].1)
                    &&& exists|i: int| 0 <= i < j + 1 && #[trigger] first_at(list, order@[k].1, i)
                } by {
                    if k < last {
                        assert(order@[k] == oa[k]);
                    }
                }
                assert forall|k1: int, k2: int, i1: int, i2: int|
                    o0.len() <= k1 < k2 < order@.len() && #[trigger] first_at(list, order@[k1].1, i1) && #[trigger] first_at(
                        list,
                        order@[k2].1,
                        i2,
                    ) implies i1 < i2 by {
                    assert(order@[k1] == oa[k1]);
                    if k2 == last {
                        lemma_first_at_unique(list, nb, i2, j as int);
                        let i = choose|i: int| 0 <= i < j && #[trigger] first_at(list, oa[k1].1, i);
                        lemma_first_at_unique(list, oa[k1].1, i1, i);
                    } else {
                        assert(order@[k2] == oa[k2]);
                    }
                }
                assert forall|k1: int, k2: int| o0.len() <= k1 < k2 < order@.len() implies (#[trigger] order@[k1]).1
                    != (#[trigger] order@[k2]).1 by {
                    assert(order@[k1] == oa[k1]);
                    if k2 == last {
                        assert(va[oa[k1].1 as int]);
                    } else {
                        assert(order@[k2] == oa[k2]);
                    }
                }
                assert forall|x: int| 0 <= x < total implies #[trigger] visited@[x] == (v0[x] || exists|k: int|
                    o0.len() <= k < order@.len() && (#[trigger] order@[k]).1 == x) by {
                    if x == nb {
                        assert(order@[last].1 == x);
                    } else {
                        if exists|k: int| o0.len() <= k < order@.len() && (#[trigger] order@[k]).1 == x {
                            let k = choose|k: int| o0.len() <= k < order@.len() && (#[trigger] order@[k]).1 == x;
                            assert(k != last);
                            assert(order@[k] == oa[k]);
                        }
                        if exists|k: int| o0.len() <= k < oa.len() && (#[trigger] oa[k]).1 == x {
                            let k = choose|k: int| o0.len() <= k < oa.len() && (#[trigger] oa[k]).1 == x;
                            assert(order@[k] == oa[k]);
                        }
                    }
                }
            }
        }
        j += 1;
    }
}

/// `order` lists the discoveries in breadth-first order from `start`: nodes
/// are processed in the order they were reached (`start` first, then the
/// children of `order` in turn), a node's discoveries follow its adjacency
/// list, and a node is reached from the first processed node that lists it.
pub open spec fn breadth_first(adj: Seq<Vec<usize>>, start: int, order: Seq<(usize, usize)>) -> bool {
    &&& forall|k1: int, k2: int|
        0 <= k1 < k2 < order.len() && (#[trigger] order[k2]).0 == start ==> (#[trigger] order[k1]).0 == start
    &&& forall|k1: int, k2: int, g1: int, g2: int|
        #![trigger order[k1], order[k2], order[g1], order[g2]]
        0 <= k1 < k2 < order.len() && 0 <= g1 < order.len() && 0 <= g2 < order.len() && order[k1].0 == order[g1].1
            && order[k2].0 == order[g2].1 ==> g1 <= g2
    &&& forall|k1: int, k2: int, i1: int, i2: int|
        0 <= k1 < k2 < order.len() && order[k1].0 == order[k2].0 && #[trigger] first_at(adj[order[k1].0 as int]@, order[k1].1, i1)
            && #[trigger] first_at(adj[order[k2].0 as int]@, order[k2].1, i2) ==> i1 < i2
    &&& forall|k: int, g: int|
        0 <= k < order.len() && 0 <= g < order.len() && (#[trigger] order[k]).0 == (#[trigger] order[g]).1 ==> {
            &&& !adj[start]@.contains(order[k].1)
            &&& forall|g2: int| 0 <= g2 < g ==> !adj[(#[trigger] order[g2]).1 as int]@.contains(order[k].1)
        }
}

/// Walks from `start` stay among visited nodes when the neighbours of every
/// visited node are visited.
proof fn lemma_closed_walk(adj: Seq<Vec<usize>>, total: int, start: int, visited: Seq<bool>, p: Seq<usize>, k: int)
    requires
        adjacency_ok(adj, total),
        visited.len() == total,
        0 <= start < total,
        visited[start],
        forall|x: int, q: int| 0 <= x < total && visited[x] && 0 <= q < adj[x]@.len() ==> #[trigger] visited[adj[x]@[q] as int],
        is_walk(adj, p),
        p[0] == start,
        0 <= k < p.len(),
    ensures
        p[k] < total,
        visited[p[k] as int],
    decreases k,
{
    if k > 0 {
        lemma_closed_walk(adj, total, start, visited, p, k - 1);
        let x = p[k - 1] as int;
        assert(adj[p[k - 1] as int]@.contains(p[(k - 1) + 1]));
        let q = choose|q: int| 0 <= q < adj[x]@.len() && adj[x]@[q] == p[k];
        assert(visited[adj[x]@[q] as int]);
    }
}

/// One more node processed keeps the breadth-first shape of the order.
#[verifier::spinoff_prover]
proof fn lemma_breadth_first_step(
    adj: Seq<Vec<usize>>,
    total: int,
    start: int,
    h: int,
    va: Seq<bool>,
    oa: Seq<(usize, usize)>,
    vb: Seq<bool>,
    ob: Seq<(usize, usize)>,
)
    requires
        adjacency_ok(adj, total),
        0 <= start < total,
        0 <= h < oa.len(),
        va.len() == total,
        scan_result(adj, total, oa[h].1 as int, va, oa, vb, ob),
        forall|y: int| 0 <= y < total ==> #[trigger] va[y] == (y == start || discovered(oa, y)),
        forall|k: int|
            0 <= k < oa.len() ==> {
                &&& (#[trigger] oa[k]).1 < total
                &&& oa[k].1 != start
                &&& (oa[k].0 == start || exists|g: int| 0 <= g < k && g < h && (#[trigger] oa[g]).1 == oa[k].0)
            },
        forall|k1: int, k2: int| 0 <= k1 < k2 < oa.len() ==> (#[trigger] oa[k1]).1 != (#[trigger] oa[k2]).1,
        forall|q: int| 0 <= q < adj[start]@.len() ==> #[trigger] va[adj[start]@[q] as int],
        forall|g: int, q: int|
            0 <= g < h && 0 <= q < adj[oa[g].1 as int]@.len() ==> #[trigger] va[adj[(#[trigger] oa[g]).1 as int]@[q] as int],
        breadth_first(adj, start, oa),
    ensures
        breadth_first(adj, start, ob),
{
    let la = oa.len() as int;
    let u = oa[h].1 as int;
    assert forall|k: int| 0 <= k < la implies #[trigger] ob[k] == oa[k] by {
        assert(ob.subrange(0, la)[k] == ob[k]);
    }
    // every child of `ob` before `la` is visited in `va`, every later one is not
    assert forall|k: int| 0 <= k < ob.len() implies (k < la <==> va[(#[trigger] ob[k]).1 as int]) by {
        if k < la {
            assert(ob[k] == oa[k]);
            assert(discovered(oa, oa[k].1 as int));
        }
    }
    assert(va[start]);
    assert(va[u]) by {
        assert(discovered(oa, u));
    }
    // the parent of an old entry is visited in `va` and differs from `u`
    assert forall|k: int| 0 <= k < la implies va[(#[trigger] oa[k]).0 as int] && oa[k].0 != u by {
        if oa[k].0 != start {
            let g = choose|g: int| 0 <= g < k && g < h && (#[trigger] oa[g]).1 == oa[k].0;
            assert(discovered(oa, oa[g].1 as int));
        }
    }
    // the child equal to an old parent is the old one it names
    assert forall|k1: int, k2: int, g1: int, g2: int|
        #![trigger ob[k1], ob[k2], ob[g1], ob[g2]]
        0 <= k1 < k2 < ob.len() && 0 <= g1 < ob.len() && 0 <= g2 < ob.len() && ob[k1].0 == ob[g1].1 && ob[k2].0 == ob[g2].1
            implies g1 <= g2 by {
        if k2 < la {
            assert(ob[k1] == oa[k1] && ob[k2] == oa[k2]);
            assert(va[oa[k1].0 as int] && va[oa[k2].0 as int]);
            assert(va[ob[g1].1 as int] && va[ob[g2].1 as int]);
            assert(g1 < la && g2 < la);
            assert(ob[g1] == oa[g1] && ob[g2] == oa[g2]);
        } else {
            assert(ob[k2].0 == u);
            assert(va[ob[g2].1 as int]);
            assert(g2 < la);
            assert(ob[g2] == oa[g2]);
            assert(g2 == h) by {
                if g2 != h {
                    assert(oa[g2].1 != oa[h].1);
                }
            }
            if k1 < la {
                assert(ob[k1] == oa[k1]);
                assert(va[ob[g1].1 as int]);
                assert(ob[g1] == oa[g1]);
                if oa[k1].0 != start {
                    let g = choose|g: int| 0 <= g < k1 && g < h && (#[trigger] oa[g]).1 == oa[k1].0;
                    assert(g1 == g) by {
                        if g1 != g {
                            if g1 < g {
                                assert(oa[g1].1 != oa[g].1);
                            } else {
                                assert(oa[g].1 != oa[g1].1);
                            }
                        }
                    }
                } else {
                    assert(oa[g1].1 != start);
                }
            } else {
                assert(ob[k1].0 == u);
                assert(va[ob[g1].1 as int]);
                assert(ob[g1] == oa[g1]);
                assert(g1 == h) by {
                    if g1 != h {
                        assert(oa[g1].1 != oa[h].1);
                    }
                }
            }
        }
    }
    assert forall|k1: int, k2: int| 0 <= k1 < k2 < ob.len() && (#[trigger] ob[k2]).0 == start implies (#[trigger] ob[k1]).0 == start by {
        if k2 < la {
            assert(ob[k1] == oa[k1] && ob[k2] == oa[k2]);
        } else {
            assert(oa[h].1 != start);
        }
    }
    assert forall|k1: int, k2: int, i1: int, i2: int|
        0 <= k1 < k2 < ob.len() && ob[k1].0 == ob[k2].0 && #[trigger] first_at(adj[ob[k1].0 as int]@, ob[k1].1, i1)
            && #[trigger] first_at(adj[ob[k2].0 as int]@, ob[k2].1, i2) implies i1 < i2 by {
        if k2 < la {
            assert(ob[k1] == oa[k1] && ob[k2] == oa[k2]);
        } else if k1 < la {
            assert(ob[k1] == oa[k1]);
            assert(oa[k1].0 != u);
        }
    }
    assert forall|k: int, g: int|
        0 <= k < ob.len() && 0 <= g < ob.len() && (#[trigger] ob[k]).0 == (#[trigger] ob[g]).1 implies {
        &&& !adj[start]@.contains(ob[k].1)
        &&& forall|g2: int| 0 <= g2 < g ==> !adj[(#[trigger] ob[g2]).1 as int]@.contains(ob[k].1)
    } by {
        if k < la {
            assert(ob[k] == oa[k]);
            assert(va[oa[k].0 as int]);
            assert(va[ob[g].1 as int]);
            assert(g < la);
            assert(ob[g] == oa[g]);
            assert forall|g2: int| 0 <= g2 < g implies !adj[(#[trigger] ob[g2]).1 as int]@.contains(ob[k].1) by {
                assert(ob[g2] == oa[g2]);
            }
        } else {
            let x = ob[k].1;
            assert(!va[x as int]);
            assert(ob[k].0 == u);
            assert(va[ob[g].1 as int]);
            assert(ob[g] == oa[g]);
            assert(g == h) by {
                if g != h {
                    if g < h {
                        assert(oa[g].1 != oa[h].1);
                    } else {
                        assert(oa[h].1 != oa[g].1);
                    }
                }
            }
            if adj[start]@.contains(x) {
                let q = choose|q: int| 0 <= q < adj[start]@.len() && adj[start]@[q] == x;
                assert(va[adj[start]@[q] as int]);
            }
            assert forall|g2: int| 0 <= g2 < g implies !adj[(#[trigger] ob[g2]).1 as int]@.contains(x) by {
                assert(ob[g2] == oa[g2]);
                if adj[oa[g2].1 as int]@.contains(x) {
                    let q = choose|q: int| 0 <= q < adj[oa[g2].1 as int]@.len() && adj[oa[g2].1 as int]@[q] == x;
                    assert(va[adj[(oa[g2]).1 as int]@[q] as int]);
                }
            }
        }
    }
}

/// The discoveries of a breadth-first search from `start`, in the order it
/// makes them: each is a pair (node, newly reached neighbour). Every node
/// reachable from `start` but `start` itself is reached exactly once, from
/// `start` or from a node reached earlier, so values defined at `start` can
/// be carried to every node along the order.
pub fn spanning_order(tree_adj: &[Vec<usize>], start: usize, total: usize) -> (order: Vec<(usize, usize)>)
    requires
        adjacency_ok(tree_adj@, total as int),
        start < total,
    ensures
        forall|k: int|
            0 <= k < order@.len() ==> {
                &&& (#[trigger] order@[k]).0 < total
                &&& order@[k].1 < total
                &&& order@[k].1 != start
                &&& tree_adj@[order@[k].0 as int]@.contains(order@[k].1)
                &&& (order@[k].0 == start || exists|k2: int| 0 <= k2 < k && (#[trigger] order@[k2]).1 == order@[k].0)
            },
        forall|k1: int, k2: int| 0 <= k1 < k2 < order@.len() ==> (#[trigger] order@[k1]).1 != (#[trigger] order@[k2]).1,
        forall|x: int| 0 <= x < total && x != start && reachable(tree_adj@, start as int, x) ==> #[trigger] discovered(order@, x),
        breadth_first(tree_adj@, start as int, order@),
{
    let mut visited: Vec<bool> = Vec::new();
    let mut x: usize = 0;
    while x < total
        invariant
            x <= total,
            visited@.len() == x,
            forall|y: int| 0 <= y < x ==> !#[trigger] visited@[y],
        decreases total - x,
    {
        visited.push(false);
        x += 1;
    }
    let mut order: Vec<(usize, usize)> = Vec::new();
    let ghost vs = visited@;
    visited.set(start, true);
    proof {
        lemma_unvisited_finite(visited@);
        assert forall|y: int| 0 <= y < total implies #[trigger] visited@[y] == (y == start) by {}
    }
    let ghost v0 = visited@;
    let ghost o0 = order@;
    scan_node(tree_adj, total, start, &mut visited, &mut order);
    let ghost c0: int = (unvisited(visited@).len() + order@.len()) as int;
    proof {
        let o = order@;
        assert(o0.len() == 0);
        assert forall|k: int| 0 <= k < o.len() implies (#[trigger] o[k]).0 == start && o[k].1 != start by {
            assert(!v0[o[k].1 as int]);
        }
        assert forall|y: int| 0 <= y < total implies #[trigger] visited@[y] == (y == start || discovered(o, y)) by {
            if exists|k: int| 0 <= k < o.len() && (#[trigger] o[k]).1 == y {
                let k = choose|k: int| 0 <= k < o.len() && (#[trigger] o[k]).1 == y;
            }
        }
        assert forall|k1: int, k2: int, g1: int, g2: int|
            #![trigger o[k1], o[k2], o[g1], o[g2]]
            0 <= k1 < k2 < o.len() && 0 <= g1 < o.len() && 0 <= g2 < o.len() && o[k1].0 == o[g1].1 && o[k2].0 == o[g2].1
                implies g1 <= g2 by {
            assert(o[k1].0 == start);
        }
        assert forall|k: int, g: int|
            0 <= k < o.len() && 0 <= g < o.len() && (#[trigger] o[k]).0 == (#[trigger] o[g]).1 implies {
            &&& !tree_adj@[start as int]@.contains(o[k].1)
            &&& forall|g2: int| 0 <= g2 < g ==> !tree_adj@[(#[trigger] o[g2]).1 as int]@.contains(o[k].1)
        } by {
            assert(o[k].0 == start);
        }
        assert(breadth_first(tree_adj@, start as int, o));
    }
    let mut h: usize = 0;
    while h < order.len()
        invariant
            adjacency_ok(tree_adj@, total as int),
            start < total,
            visited@.len() == total,
            h <= order@.len(),
            unvisited(visited@).finite(),
            unvisited(visited@).len() + order@.len() == c0,
            forall|y: int| 0 <= y < total ==> #[trigger] visited@[y] == (y == start || discovered(order@, y)),
            forall|k: int|
                0 <= k < order@.len() ==> {
                    &&& (#[trigger] order@[k]).0 < total
                    &&& order@[k].1 < total
                    &&& order@[k].1 != start
                    &&& tree_adj@[order@[k].0 as int]@.contains(order@[k].1)
                    &&& (order@[k].0 == start || exists|g: int| 0 <= g < k && g < h && (#[trigger] order@[g]).1 == order@[k].0)
                },
            forall|k1: int, k2: int| 0 <= k1 < k2 < order@.len() ==> (#[trigger] order@[k1]).1 != (#[trigger] order@[k2]).1,
            forall|q: int| 0 <= q < tree_adj@[start as int]@.len() ==> #[trigger] visited@[tree_adj@[start as int]@[q] as int],
            forall|g: int, q: int|
                0 <= g < h && 0 <= q < tree_adj@[order@[g].1 as int]@.len() ==> #[trigger] visited@[tree_adj@[(
                #[trigger] order@[g]).1 as int]@[q] as int],
            breadth_first(tree_adj@, start as int, order@),
        decreases c0 - h,
    {
        let u = order[h].1;
        let ghost va = visited@;
        let ghost oa = order@;
        scan_node(tree_adj, total, u, &mut visited, &mut order);
        proof {
            let la = oa.len() as int;
            let ob = order@;
            assert forall|k: int| 0 <= k < la implies #[trigger] ob[k] == oa[k] by {
                assert(ob.subrange(0, la)[k] == ob[k]);
            }
            assert(ob[h as int] == oa[h as int]);
            // the node just scanned is neither the start nor an earlier parent
            assert forall|y: int| 0 <= y < total implies #[trigger] visited@[y] == (y == start || discovered(ob, y)) by {
                if discovered(oa, y) {
                    let k = choose|k: int| 0 <= k < oa.len() && (#[trigger] oa[k]).1 == y;
                    assert(ob[k] == oa[k]);
                }
                if discovered(ob, y) && !discovered(oa, y) {
                    let k = choose|k: int| 0 <= k < ob.len() && (#[trigger] ob[k]).1 == y;
                    if k < la {
                        assert(ob[k] == oa[k]);
                    }
                }
            }
            assert forall|k: int| 0 <= k < ob.len() implies {
                &&& (#[trigger] ob[k]).0 < total
                &&& ob[k].1 < total
                &&& ob[k].1 != start
                &&& tree_adj@[ob[k].0 as int]@.contains(ob[k].1)
                &&& (ob[k].0 == start || exists|g: int| 0 <= g < k && g < h + 1 && (#[trigger] ob[g]).1 == ob[k].0)
            } by {
                if k < la {
                    assert(ob[k] == oa[k]);
                    if oa[k].0 != start {
                        let g = choose|g: int| 0 <= g < k && g < h && (#[trigger] oa[g]).1 == oa[k].0;
                        assert(ob[g] == oa[g]);
                    }
                } else {
                    assert(!va[ob[k].1 as int]);
                    assert(va[start as int]);
                    assert(ob[h as int].1 == ob[k].0);
                }
            }
            assert forall|k1: int, k2: int| 0 <= k1 < k2 < ob.len() implies (#[trigger] ob[k1]).1 != (#[trigger] ob[k2]).1 by {
                if k2 < la {
                    assert(ob[k1] == oa[k1]);
                    assert(ob[k2] == oa[k2]);
                } else if k1 < la {
                    assert(ob[k1] == oa[k1]);
                    assert(!va[ob[k2].1 as int]);
                    assert(va[oa[k1].1 as int]);
                }
            }
            assert forall|q: int| 0 <= q < tree_adj@[start as int]@.len() implies #[trigger] visited@[tree_adj@[start as int]@[q] as int] by {
                assert(va[tree_adj@[start as int]@[q] as int]);
            }
            assert forall|g: int, q: int|
                0 <= g < h + 1 && 0 <= q < tree_adj@[ob[g].1 as int]@.len() implies #[trigger] visited@[tree_adj@[(
                #[trigger] ob[g]).1 as int]@[q] as int] by {
                assert(ob[g] == oa[g]);
                if g < h {
                    assert(va[tree_adj@[oa[g].1 as int]@[q] as int]);
                }
            }
            lemma_breadth_first_step(tree_adj@, total as int, start as int, h as int, va, oa, visited@, ob);
        }
        h += 1;
    }
    proof {
        assert forall|x: int, q: int|
            0 <= x < total && visited@[x] && 0 <= q < tree_adj@[x]@.len() implies #[trigger] visited@[tree_adj@[x]@[q] as int] by {
            if x != start {
                let g = choose|g: int| 0 <= g < order@.len() && (#[trigger] order@[g]).1 == x;
            }
        }
        assert forall|x: int| 0 <= x < total && x != start && reachable(tree_adj@, start as int, x) implies #[trigger] discovered(
            order@,
            x,
        ) by {
            let p = choose|p: Seq<usize>| #[trigger] is_walk(tree_adj@, p) && p[0] == start && p.last() == x;
            lemma_closed_walk(tree_adj@, total as int, start as int, visited@, p, p.len() - 1);
        }
        assert forall|k: int| 0 <= k < order@.len() implies (order@[k].0 == start || exists|k2: int|
            0 <= k2 < k && (#[trigger] order@[k2]).1 == order@[k].0) by {
            if order@[k].0 != start {
                let g = choose|g: int| 0 <= g < k && g < h && (#[trigger] order@[g]).1 == order@[k].0;
            }
        }
    }
    order
}

} // verus!
