//! The assignment network of the successive-shortest-path solver: for `n`
//! rows and `n` columns the source is node `0`, rows are nodes `1..=n`,
//! columns are nodes `n+1..=2n` and the sink is node `2n+1`. A shortest-path
//! search leaves `parent[u]`, the node it reached `u` from; augmenting
//! matches each column on the path from the sink to the row before it.
use vstd::prelude::*;
use crate::assignment::{assigned_rows, is_matching};
use crate::augment::{lemma_chain_unique, way_chain};

verus! {

/// Node `u` is a row node.
pub open spec fn is_row_node(n: int, u: int) -> bool {
    1 <= u <= n
}

/// Node `u` is a column node.
pub open spec fn is_col_node(n: int, u: int) -> bool {
    n + 1 <= u <= 2 * n
}

/// `p -> u` is an arc of the residual network of the matching
/// (`row`, `col`): the source to a free row, a row to a column it is not
/// matched to, a matched column back to its row, a free column to the sink.
pub open spec fn residual_arc(n: int, row: Seq<Option<usize>>, col: Seq<Option<usize>>, p: int, u: int) -> bool {
    ||| p == 0 && is_row_node(n, u) && row[u - 1] is None
    ||| is_row_node(n, p) && is_col_node(n, u) && row[p - 1] != Some((u - n - 1) as usize)
    ||| is_col_node(n, p) && is_row_node(n, u) && col[p - n - 1] == Some((u - 1) as usize)
    ||| is_col_node(n, p) && u == 2 * n + 1 && col[p - n - 1] is None
}

/// Position `q` of the chain `c` (sink first) holds a column node whose
/// parent is a row node: augmenting matches them.
pub open spec fn network_link(n: int, c: Seq<usize>, q: int) -> bool {
    &&& 0 <= q < c.len() - 1
    &&& is_col_node(n, c[q] as int)
    &&& is_row_node(n, c[q + 1] as int)
}

/// Row `r` is matched by some link of the chain.
pub open spec fn row_on_links(n: int, c: Seq<usize>, r: int) -> bool {
    exists|q: int| #[trigger] network_link(n, c, q) && c[q + 1] == r + 1
}

/// Column `j` is matched by some link of the chain.
pub open spec fn col_on_links(n: int, c: Seq<usize>, j: int) -> bool {
    exists|q: int| #[trigger] network_link(n, c, q) && c[q] == j + n + 1
}

/// What augmenting along the chain `c` makes of (`row`, `col`): each link
/// matched, every other row and column as it was.
pub open spec fn augmented(
    n: int,
    c: Seq<usize>,
    row: Seq<Option<usize>>,
    col: Seq<Option<usize>>,
    row2: Seq<Option<usize>>,
    col2: Seq<Option<usize>>,
) -> bool {
    &&& row2.len() == row.len()
    &&& col2.len() == col.len()
    &&& forall|q: int| #[trigger] network_link(n, c, q) ==> row2[c[q + 1] - 1] == Some((c[q] - n - 1) as usize)
        && col2[c[q] - n - 1] == Some((c[q + 1] - 1) as usize)
    &&& forall|r: int| 0 <= r < n && !row_on_links(n, c, r) ==> #[trigger] row2[r] == row[r]
    &&& forall|j: int| 0 <= j < n && !col_on_links(n, c, j) ==> #[trigger] col2[j] == col[j]
}

/// Augments the matching along the `parent` links from the sink back to
/// the source: each column node whose parent is a row node is matched to
/// that row.
pub fn augment_network_path(
    parent: &Vec<usize>,
    n: usize,
    matched_col: &mut Vec<Option<usize>>,
    matched_row: &mut Vec<Option<usize>>,
)
    requires
        parent@.len() == 2 * n + 2,
        old(matched_col)@.len() == n,
        old(matched_row)@.len() == n,
        exists|c: Seq<usize>| #[trigger] way_chain(parent@, 2 * n + 1, c),
    ensures
        forall|c: Seq<usize>|
            #[trigger] way_chain(parent@, 2 * n + 1, c) ==> augmented(
                n as int,
                c,
                old(matched_col)@,
                old(matched_row)@,
                final(matched_col)@,
                final(matched_row)@,
            ),
{
    let ghost c = choose|c: Seq<usize>| #[trigger] way_chain(parent@, 2 * n + 1, c);
    let t = parent.len() - 1;
    let mut curr = t;
    let ghost mut k: int = 0;
    while curr != 0
        invariant
            way_chain(parent@, 2 * n + 1, c),
            parent@.len() == 2 * n + 2,
            t == 2 * n + 1,
            0 <= k < c.len(),
            c[k] == curr,
            matched_col@.len() == n,
            matched_row@.len() == n,
            forall|q: int|
                0 <= q < k && #[trigger] network_link(n as int, c, q) ==> matched_col@[c[q + 1] - 1] == Some(
                    (c[q] - n - 1) as usize,
                ) && matched_row@[c[q] - n - 1] == Some((c[q + 1] - 1) as usize),
            forall|r: int|
                0 <= r < n && (forall|q: int| 0 <= q < k && #[trigger] network_link(n as int, c, q) ==> c[q + 1] != r + 1)
                    ==> #[trigger] matched_col@[r] == old(matched_col)@[r],
            forall|j: int|
                0 <= j < n && (forall|q: int| 0 <= q < k && #[trigger] network_link(n as int, c, q) ==> c[q] != j + n + 1)
                    ==> #[trigger] matched_row@[j] == old(matched_row)@[j],
        decreases c.len() - k,
    {
        proof {
            assert(k < c.len() - 1) by {
                if k == c.len() - 1 {
                    assert(c[k] == 0);
                }
            }
        }
        let p = parent[curr];
        let ghost before_col = matched_col@;
        let ghost before_row = matched_row@;
        if 1 <= p && p <= n && n + 1 <= curr && curr < t {
            matched_col.set(p - 1, Some(curr - n - 1));
            matched_row.set(curr - n - 1, Some(p - 1));
            proof {
                assert(network_link(n as int, c, k));
                assert forall|q: int|
                    0 <= q < k + 1 && #[trigger] network_link(n as int, c, q) implies matched_col@[c[q + 1] - 1] == Some(
                    (c[q] - n - 1) as usize,
                ) && matched_row@[c[q] - n - 1] == Some((c[q + 1] - 1) as usize) by {
                    if q < k {
                        assert(c[q + 1] != c[k + 1]);
                        assert(c[q] != c[k]);
                    }
                }
                assert forall|r: int|
                    0 <= r < n && (forall|q: int| 0 <= q < k + 1 && #[trigger] network_link(n as int, c, q) ==> c[q + 1] != r
                        + 1) implies #[trigger] matched_col@[r] == old(matched_col)@[r] by {
                    assert(c[k + 1] != r + 1);
                    assert(before_col[r] == old(matched_col)@[r]);
                }
                assert forall|j: int|
                    0 <= j < n && (forall|q: int| 0 <= q < k + 1 && #[trigger] network_link(n as int, c, q) ==> c[q] != j + n
                        + 1) implies #[trigger] matched_row@[j] == old(matched_row)@[j] by {
                    assert(c[k] != j + n + 1);
                    assert(before_row[j] == old(matched_row)@[j]);
                }
            }
        } else {
            proof {
                assert(!network_link(n as int, c, k));
            }
        }
        curr = p;
        proof {
            k = k + 1;
        }
    }
    proof {
        assert(k == c.len() - 1) by {
            if k < c.len() - 1 {
                assert(c[k] != 0);
            }
        }
        assert forall|c2: Seq<usize>| #[trigger] way_chain(parent@, 2 * n + 1, c2) implies augmented(
            n as int,
            c2,
            old(matched_col)@,
            old(matched_row)@,
            matched_col@,
            matched_row@,
        ) by {
            lemma_chain_unique(parent@, 2 * n + 1, c, c2);
            assert forall|r: int| 0 <= r < n && !row_on_links(n as int, c, r) implies #[trigger] matched_col@[r]
                == old(matched_col)@[r] by {
                assert forall|q: int| 0 <= q < k && #[trigger] network_link(n as int, c, q) implies c[q + 1] != r + 1 by {
                }
            }
            assert forall|j: int| 0 <= j < n && !col_on_links(n as int, c, j) implies #[trigger] matched_row@[j]
                == old(matched_row)@[j] by {
                assert forall|q: int| 0 <= q < k && #[trigger] network_link(n as int, c, q) implies c[q] != j + n + 1 by {
                }
            }
        }
    }
}

/// The links of a residual chain in terms of the matching before: each
/// link but the last is followed by another whose row held the next link's
/// column, each link but the first is preceded by another whose column
/// held the previous link's row, the first link's column and the last
/// link's row were free.
spec fn link_facts(n: int, row: Seq<Option<usize>>, col: Seq<Option<usize>>, c: Seq<usize>) -> bool {
    let len = c.len() as int;
    &&& len >= 4
    &&& network_link(n, c, 1)
    &&& network_link(n, c, len - 3)
    &&& col[c[1] - n - 1] is None
    &&& row[c[len - 2] - 1] is None
    &&& forall|q: int| #[trigger] network_link(n, c, q) ==> 1 <= q <= len - 3
    &&& forall|q: int|
        #[trigger] network_link(n, c, q) && q + 1 < len - 2 ==> network_link(n, c, q + 2) && row[c[q + 1] - 1] == Some(
            (c[q + 2] - n - 1) as usize,
        )
    &&& forall|q: int|
        #[trigger] network_link(n, c, q) && q > 1 ==> network_link(n, c, q - 2) && col[c[q] - n - 1] == Some(
            (c[q - 1] - 1) as usize,
        )
}

/// A chain of residual arcs, sink first.
spec fn residual_chain(n: int, row: Seq<Option<usize>>, col: Seq<Option<usize>>, parent: Seq<usize>, c: Seq<usize>) -> bool {
    &&& n >= 0
    &&& way_chain(parent, 2 * n + 1, c)
    &&& forall|q: int| 0 <= q < c.len() - 1 ==> #[trigger] residual_arc(n, row, col, c[q + 1] as int, c[q] as int)
}

/// The link after a link that does not end the chain.
proof fn lemma_next_link(n: int, row: Seq<Option<usize>>, col: Seq<Option<usize>>, parent: Seq<usize>, c: Seq<usize>, q: int)
    requires
        residual_chain(n, row, col, parent, c),
        is_matching(row, col),
        col.len() == n,
        network_link(n, c, q),
        q + 1 < c.len() - 2,
    ensures
        network_link(n, c, q + 2),
        row[c[q + 1] - 1] == Some((c[q + 2] - n - 1) as usize),
{
    assert(c[q + 2] != 0);
    assert(residual_arc(n, row, col, c[q + 2] as int, c[q + 1] as int));
    assert(residual_arc(n, row, col, c[q + 3] as int, c[q + 2] as int));
    let j = c[q + 2] - n - 1;
    assert(col[j] is Some);
}

/// The link before a link other than the first.
proof fn lemma_previous_link(n: int, row: Seq<Option<usize>>, col: Seq<Option<usize>>, parent: Seq<usize>, c: Seq<usize>, q: int)
    requires
        residual_chain(n, row, col, parent, c),
        network_link(n, c, q),
        q > 1,
    ensures
        network_link(n, c, q - 2),
        col[c[q] - n - 1] == Some((c[q - 1] - 1) as usize),
{
    assert(c[q - 1] != 2 * n + 1) by {
        assert(c[0] == 2 * n + 1);
    }
    assert(residual_arc(n, row, col, c[q] as int, c[q - 1] as int));
    assert(residual_arc(n, row, col, c[q - 1] as int, c[q - 2] as int));
}

#[verifier::spinoff_prover]
proof fn lemma_link_facts(n: int, row: Seq<Option<usize>>, col: Seq<Option<usize>>, parent: Seq<usize>, c: Seq<usize>)
    requires
        row.len() == n,
        col.len() == n,
        is_matching(row, col),
        residual_chain(n, row, col, parent, c),
    ensures
        link_facts(n, row, col, c),
{
    let len = c.len() as int;
    assert(len >= 2) by {
        if len == 1 {
            assert(c[0] == 0);
        }
    }
    assert(residual_arc(n, row, col, c[1] as int, c[0] as int));
    assert(len >= 3) by {
        if len == 2 {
            assert(c[1] == 0);
        }
    }
    assert(residual_arc(n, row, col, c[2] as int, c[1] as int));
    assert(network_link(n, c, 1));
    assert(residual_arc(n, row, col, c[len - 1] as int, c[len - 2] as int));
    assert(c[len - 1] == 0);
    assert(len >= 4) by {
        if len == 3 {
            assert(is_row_node(n, c[1] as int));
        }
    }
    assert(residual_arc(n, row, col, c[len - 2] as int, c[len - 3] as int));
    assert(network_link(n, c, len - 3));
    assert forall|q: int| #[trigger] network_link(n, c, q) implies 1 <= q <= len - 3 by {
        if q == 0 {
            assert(c[0] == 2 * n + 1);
        }
    }
    assert forall|q: int| #[trigger] network_link(n, c, q) && q + 1 < len - 2 implies network_link(n, c, q + 2) && row[c[q + 1]
        - 1] == Some((c[q + 2] - n - 1) as usize) by {
        lemma_next_link(n, row, col, parent, c, q);
    }
    assert forall|q: int| #[trigger] network_link(n, c, q) && q > 1 implies network_link(n, c, q - 2) && col[c[q] - n - 1] == Some(
        (c[q - 1] - 1) as usize,
    ) by {
        lemma_previous_link(n, row, col, parent, c, q);
    }
}

#[verifier::spinoff_prover]
proof fn lemma_augmented_is_matching(
    n: int,
    row: Seq<Option<usize>>,
    col: Seq<Option<usize>>,
    row2: Seq<Option<usize>>,
    col2: Seq<Option<usize>>,
    c: Seq<usize>,
)
    requires
        row.len() == n,
        col.len() == n,
        is_matching(row, col),
        link_facts(n, row, col, c),
        augmented(n, c, row, col, row2, col2),
    ensures
        is_matching(row2, col2),
{
    let len = c.len() as int;
    assert forall|i: int| 0 <= i < row2.len() && #[trigger] row2[i] is Some implies row2[i]->0 < col2.len() && col2[row2[i]->0 as int]
        is Some && col2[row2[i]->0 as int]->0 == i by {
        if row_on_links(n, c, i) {
            let q = choose|q: int| #[trigger] network_link(n, c, q) && c[q + 1] == i + 1;
            assert(row2[c[q + 1] - 1] == Some((c[q] - n - 1) as usize));
        } else {
            assert(row2[i] == row[i]);
            let j = row[i]->0 as int;
            assert(col[j] == Some(i as usize));
            if col_on_links(n, c, j) {
                let q = choose|q: int| #[trigger] network_link(n, c, q) && c[q] == j + n + 1;
                if q == 1 {
                    assert(false);
                } else {
                    assert(network_link(n, c, q - 2));
                    assert(c[q - 1] == i + 1);
                    assert(row_on_links(n, c, i));
                }
            }
            assert(col2[j] == col[j]);
        }
    }
    assert forall|j: int| 0 <= j < col2.len() && #[trigger] col2[j] is Some implies col2[j]->0 < row2.len() && row2[col2[j]->0 as int]
        is Some && row2[col2[j]->0 as int]->0 == j by {
        if col_on_links(n, c, j) {
            let q = choose|q: int| #[trigger] network_link(n, c, q) && c[q] == j + n + 1;
            assert(col2[c[q] - n - 1] == Some((c[q + 1] - 1) as usize));
        } else {
            assert(col2[j] == col[j]);
            let i = col[j]->0 as int;
            assert(row[i] == Some(j as usize));
            if row_on_links(n, c, i) {
                let q = choose|q: int| #[trigger] network_link(n, c, q) && c[q + 1] == i + 1;
                if q + 1 == len - 2 {
                    assert(false);
                } else {
                    assert(network_link(n, c, q + 2));
                    assert(c[q + 2] == j + n + 1);
                    assert(col_on_links(n, c, j));
                }
            }
            assert(row2[i] == row[i]);
        }
    }
}

#[verifier::spinoff_prover]
proof fn lemma_augmented_rows(
    n: int,
    row: Seq<Option<usize>>,
    col: Seq<Option<usize>>,
    row2: Seq<Option<usize>>,
    col2: Seq<Option<usize>>,
    c: Seq<usize>,
)
    requires
        row.len() == n,
        col.len() == n,
        link_facts(n, row, col, c),
        augmented(n, c, row, col, row2, col2),
    ensures
        assigned_rows(row2) == assigned_rows(row).insert(c[c.len() - 2] - 1),
{
    let len = c.len() as int;
    let rf = c[len - 2] - 1;
    assert(row_on_links(n, c, rf));
    assert forall|i: int| #[trigger] assigned_rows(row2).contains(i) == assigned_rows(row).insert(rf).contains(i) by {
        if 0 <= i < n {
            if row_on_links(n, c, i) {
                let q = choose|q: int| #[trigger] network_link(n, c, q) && c[q + 1] == i + 1;
                assert(row2[c[q + 1] - 1] == Some((c[q] - n - 1) as usize));
                if q + 1 != len - 2 {
                    assert(row[c[q + 1] - 1] == Some((c[q + 2] - n - 1) as usize));
                }
            } else {
                assert(row2[i] == row[i]);
                assert(i != rf);
            }
        }
    }
    assert(assigned_rows(row2) =~= assigned_rows(row).insert(rf));
}

/// Augmenting a matching along a chain of residual arcs from the sink back
/// to the source leaves a matching, and the rows it matches are those
/// matched before plus the free row at the chain's end: each augmentation
/// of the successive-shortest-path method matches one more row.
pub proof fn lemma_network_augment_extends_matching(
    n: int,
    row: Seq<Option<usize>>,
    col: Seq<Option<usize>>,
    row2: Seq<Option<usize>>,
    col2: Seq<Option<usize>>,
    parent: Seq<usize>,
    c: Seq<usize>,
)
    requires
        n >= 0,
        row.len() == n,
        col.len() == n,
        parent.len() == 2 * n + 2,
        is_matching(row, col),
        way_chain(parent, 2 * n + 1, c),
        forall|q: int| 0 <= q < c.len() - 1 ==> #[trigger] residual_arc(n, row, col, c[q + 1] as int, c[q] as int),
        augmented(n, c, row, col, row2, col2),
    ensures
        c.len() >= 4,
        row[c[c.len() - 2] - 1] is None,
        is_matching(row2, col2),
        assigned_rows(row2) == assigned_rows(row).insert(c[c.len() - 2] - 1),
{
    lemma_link_facts(n, row, col, parent, c);
    lemma_augmented_is_matching(n, row, col, row2, col2, c);
    lemma_augmented_rows(n, row, col, row2, col2, c);
}

} // verus!
