//! Aggregates of a node set over a flow matrix, and how they change when
//! one node joins the set.
use vstd::prelude::*;
use crate::graph::{col_sum, col_total, is_square, matrix_total, prefix_sum, row_total, total_upto};

verus! {

/// Membership of area `a` under the node-to-area assignment `s`.
pub open spec fn mask(s: Seq<usize>, a: int) -> Seq<bool> {
    Seq::new(s.len(), |u: int| s[u] == a)
}

/// Flow from node `u` into the set `p`, over the first `k` columns.
pub open spec fn to_set(m: Seq<Seq<u32>>, p: Seq<bool>, u: int, k: int) -> int
    decreases k,
{
    if k <= 0 {
        0
    } else {
        to_set(m, p, u, k - 1) + if p[k - 1] {
            m[u][k - 1] as int
        } else {
            0
        }
    }
}

/// Flow from the set `p` into node `v`, over the first `k` rows.
pub open spec fn from_set(m: Seq<Seq<u32>>, p: Seq<bool>, v: int, k: int) -> int
    decreases k,
{
    if k <= 0 {
        0
    } else {
        from_set(m, p, v, k - 1) + if p[k - 1] {
            m[k - 1][v] as int
        } else {
            0
        }
    }
}

/// Total incoming flow of the members of `p` among the first `k` nodes.
pub open spec fn flow_in(m: Seq<Seq<u32>>, p: Seq<bool>, k: int) -> int
    decreases k,
{
    if k <= 0 {
        0
    } else {
        flow_in(m, p, k - 1) + if p[k - 1] {
            col_total(m, k - 1)
        } else {
            0
        }
    }
}

/// Total outgoing flow of the members of `p` among the first `k` nodes.
pub open spec fn flow_out(m: Seq<Seq<u32>>, p: Seq<bool>, k: int) -> int
    decreases k,
{
    if k <= 0 {
        0
    } else {
        flow_out(m, p, k - 1) + if p[k - 1] {
            row_total(m, k - 1)
        } else {
            0
        }
    }
}

/// Flow between members of `p`: rows below `k1`, columns below `k2`.
pub open spec fn inner_rows(m: Seq<Seq<u32>>, p: Seq<bool>, k1: int, k2: int) -> int
    decreases k1,
{
    if k1 <= 0 {
        0
    } else {
        inner_rows(m, p, k1 - 1, k2) + if p[k1 - 1] {
            to_set(m, p, k1 - 1, k2)
        } else {
            0
        }
    }
}

/// Flow between members of `p`, summed column by column.
pub open spec fn inner_cols(m: Seq<Seq<u32>>, p: Seq<bool>, k1: int, k2: int) -> int
    decreases k2,
{
    if k2 <= 0 {
        0
    } else {
        inner_cols(m, p, k1, k2 - 1) + if p[k2 - 1] {
            from_set(m, p, k2 - 1, k1)
        } else {
            0
        }
    }
}

/// Flow whose source and target both lie in `p` (a self-loop counted once).
pub open spec fn inner(m: Seq<Seq<u32>>, p: Seq<bool>) -> int {
    inner_rows(m, p, m.len() as int, m.len() as int)
}

/// Demand of area `a`: the in-degrees of its members.
pub open spec fn demand(m: Seq<Seq<u32>>, s: Seq<usize>, a: int) -> int {
    flow_in(m, mask(s, a), m.len() as int)
}

/// Supply of area `a`: the out-degrees of its members.
pub open spec fn supply(m: Seq<Seq<u32>>, s: Seq<usize>, a: int) -> int {
    flow_out(m, mask(s, a), m.len() as int)
}

/// Self-containment of area `a`: the flow internal to it.
pub open spec fn containment(m: Seq<Seq<u32>>, s: Seq<usize>, a: int) -> int {
    inner(m, mask(s, a))
}

// ---------------------------------------------------------------------------
// Adding one node to a set
// ---------------------------------------------------------------------------

proof fn lemma_add_to_set(m: Seq<Seq<u32>>, p: Seq<bool>, v: int, u: int, k: int)
    requires
        0 <= v < p.len(),
        !p[v],
        0 <= k <= p.len(),
    ensures
        to_set(m, p.update(v, true), u, k) == to_set(m, p, u, k) + if v < k {
            m[u][v] as int
        } else {
            0
        },
        from_set(m, p.update(v, true), u, k) == from_set(m, p, u, k) + if v < k {
            m[v][u] as int
        } else {
            0
        },
    decreases k,
{
    if k > 0 {
        lemma_add_to_set(m, p, v, u, k - 1);
    }
}

proof fn lemma_add_flows(m: Seq<Seq<u32>>, p: Seq<bool>, v: int, k: int)
    requires
        0 <= v < p.len(),
        !p[v],
        0 <= k <= p.len(),
    ensures
        flow_in(m, p.update(v, true), k) == flow_in(m, p, k) + if v < k {
            col_total(m, v)
        } else {
            0
        },
        flow_out(m, p.update(v, true), k) == flow_out(m, p, k) + if v < k {
            row_total(m, v)
        } else {
            0
        },
    decreases k,
{
    if k > 0 {
        lemma_add_flows(m, p, v, k - 1);
    }
}

proof fn lemma_add_inner_rows(m: Seq<Seq<u32>>, p: Seq<bool>, v: int, k: int)
    requires
        p.len() == m.len(),
        0 <= v < p.len(),
        !p[v],
        0 <= k <= p.len(),
    ensures
        inner_rows(m, p.update(v, true), k, m.len() as int) == inner_rows(m, p, k, m.len() as int)
            + (if v < k {
            to_set(m, p.update(v, true), v, m.len() as int)
        } else {
            0
        }) + from_set(m, p, v, k),
    decreases k,
{
    if k > 0 {
        lemma_add_inner_rows(m, p, v, k - 1);
        lemma_add_to_set(m, p, v, k - 1, m.len() as int);
    }
}

/// When `v` joins the set `p`, the set's internal flow grows by the flow
/// from `v` into the enlarged set (its self-loop included) and the flow
/// from the other members into `v`.
pub proof fn lemma_add_node(m: Seq<Seq<u32>>, p: Seq<bool>, v: int)
    requires
        p.len() == m.len(),
        0 <= v < p.len(),
        !p[v],
    ensures
        inner(m, p.update(v, true)) == inner(m, p) + to_set(m, p.update(v, true), v, m.len() as int)
            + from_set(m, p, v, m.len() as int),
        flow_in(m, p.update(v, true), m.len() as int) == flow_in(m, p, m.len() as int)
            + col_total(m, v),
        flow_out(m, p.update(v, true), m.len() as int) == flow_out(m, p, m.len() as int)
            + row_total(m, v),
{
    lemma_add_inner_rows(m, p, v, m.len() as int);
    lemma_add_flows(m, p, v, m.len() as int);
}

// ---------------------------------------------------------------------------
// Bounds
// ---------------------------------------------------------------------------

proof fn lemma_to_set_bounds(m: Seq<Seq<u32>>, p: Seq<bool>, u: int, k: int)
    requires
        is_square(m),
        p.len() == m.len(),
        0 <= u < m.len(),
        0 <= k <= m.len(),
    ensures
        0 <= to_set(m, p, u, k) <= prefix_sum(m[u], k),
    decreases k,
{
    if k > 0 {
        lemma_to_set_bounds(m, p, u, k - 1);
    }
}

proof fn lemma_from_set_bounds(m: Seq<Seq<u32>>, p: Seq<bool>, v: int, k: int)
    requires
        is_square(m),
        p.len() == m.len(),
        0 <= v < m.len(),
        0 <= k <= m.len(),
    ensures
        0 <= from_set(m, p, v, k) <= col_sum(m, v, k),
    decreases k,
{
    if k > 0 {
        lemma_from_set_bounds(m, p, v, k - 1);
    }
}

/// Flow from a node into a set is at most its out-degree, and flow from a
/// set into a node at most its in-degree.
pub proof fn lemma_node_set_flow_bounds(m: Seq<Seq<u32>>, p: Seq<bool>, v: int)
    requires
        is_square(m),
        p.len() == m.len(),
        0 <= v < m.len(),
    ensures
        0 <= to_set(m, p, v, m.len() as int) <= row_total(m, v),
        0 <= from_set(m, p, v, m.len() as int) <= col_total(m, v),
{
    lemma_to_set_bounds(m, p, v, m.len() as int);
    lemma_from_set_bounds(m, p, v, m.len() as int);
}

proof fn lemma_inner_rows_le_out(m: Seq<Seq<u32>>, p: Seq<bool>, k: int)
    requires
        is_square(m),
        p.len() == m.len(),
        0 <= k <= m.len(),
    ensures
        0 <= inner_rows(m, p, k, m.len() as int) <= flow_out(m, p, k),
    decreases k,
{
    if k > 0 {
        lemma_inner_rows_le_out(m, p, k - 1);
        lemma_to_set_bounds(m, p, k - 1, m.len() as int);
    }
}

proof fn lemma_inner_cols_le_in(m: Seq<Seq<u32>>, p: Seq<bool>, k: int)
    requires
        is_square(m),
        p.len() == m.len(),
        0 <= k <= m.len(),
    ensures
        0 <= inner_cols(m, p, m.len() as int, k) <= flow_in(m, p, k),
    decreases k,
{
    if k > 0 {
        lemma_inner_cols_le_in(m, p, k - 1);
        lemma_from_set_bounds(m, p, k - 1, m.len() as int);
    }
}

proof fn lemma_inner_cols_step(m: Seq<Seq<u32>>, p: Seq<bool>, k1: int, k2: int)
    requires
        0 <= k1,
        0 <= k2 <= p.len(),
        k1 < p.len(),
    ensures
        inner_cols(m, p, k1 + 1, k2) == inner_cols(m, p, k1, k2) + if p[k1] {
            to_set(m, p, k1, k2)
        } else {
            0
        },
    decreases k2,
{
    if k2 > 0 {
        lemma_inner_cols_step(m, p, k1, k2 - 1);
    }
}

proof fn lemma_inner_swap(m: Seq<Seq<u32>>, p: Seq<bool>, k1: int, k2: int)
    requires
        0 <= k1 <= p.len(),
        0 <= k2 <= p.len(),
    ensures
        inner_rows(m, p, k1, k2) == inner_cols(m, p, k1, k2),
    decreases k1,
{
    if k1 > 0 {
        lemma_inner_swap(m, p, k1 - 1, k2);
        lemma_inner_cols_step(m, p, k1 - 1, k2);
    } else {
        lemma_inner_cols_zero(m, p, k2);
    }
}

proof fn lemma_inner_cols_zero(m: Seq<Seq<u32>>, p: Seq<bool>, k2: int)
    requires
        0 <= k2 <= p.len(),
    ensures
        inner_cols(m, p, 0, k2) == 0,
    decreases k2,
{
    if k2 > 0 {
        lemma_inner_cols_zero(m, p, k2 - 1);
    }
}

/// The internal flow of a set, summed column by column, is the same.
pub proof fn lemma_inner_by_columns(m: Seq<Seq<u32>>, p: Seq<bool>)
    requires
        p.len() == m.len(),
    ensures
        inner(m, p) == inner_cols(m, p, m.len() as int, m.len() as int),
{
    lemma_inner_swap(m, p, m.len() as int, m.len() as int);
}

/// The internal flow of a set is at most its total outgoing flow and at most
/// its total incoming flow.
pub proof fn lemma_inner_bounds(m: Seq<Seq<u32>>, p: Seq<bool>)
    requires
        is_square(m),
        p.len() == m.len(),
    ensures
        0 <= inner(m, p) <= flow_out(m, p, m.len() as int),
        inner(m, p) <= flow_in(m, p, m.len() as int),
{
    lemma_inner_rows_le_out(m, p, m.len() as int);
    lemma_inner_swap(m, p, m.len() as int, m.len() as int);
    lemma_inner_cols_le_in(m, p, m.len() as int);
}


/// The set of all nodes.
pub open spec fn everyone(n: int) -> Seq<bool> {
    Seq::new(n as nat, |u: int| true)
}

proof fn lemma_full_sets(m: Seq<Seq<u32>>, u: int, k: int)
    requires
        is_square(m),
        0 <= u < m.len(),
        0 <= k <= m.len(),
    ensures
        to_set(m, everyone(m.len() as int), u, k) == prefix_sum(m[u], k),
        from_set(m, everyone(m.len() as int), u, k) == col_sum(m, u, k),
    decreases k,
{
    if k > 0 {
        lemma_full_sets(m, u, k - 1);
    }
}

proof fn lemma_full_inner(m: Seq<Seq<u32>>, k: int)
    requires
        is_square(m),
        0 <= k <= m.len(),
    ensures
        inner_rows(m, everyone(m.len() as int), k, m.len() as int) == total_upto(m, k),
        inner_cols(m, everyone(m.len() as int), m.len() as int, k) == flow_in(
            m,
            everyone(m.len() as int),
            k,
        ),
    decreases k,
{
    if k > 0 {
        lemma_full_inner(m, k - 1);
        lemma_full_sets(m, k - 1, m.len() as int);
    }
}

proof fn lemma_flows_le_everyone(m: Seq<Seq<u32>>, p: Seq<bool>, k: int)
    requires
        is_square(m),
        p.len() == m.len(),
        0 <= k <= m.len(),
    ensures
        0 <= flow_in(m, p, k) <= flow_in(m, everyone(m.len() as int), k),
        0 <= flow_out(m, p, k) <= total_upto(m, k),
    decreases k,
{
    if k > 0 {
        lemma_flows_le_everyone(m, p, k - 1);
        lemma_from_set_bounds(m, everyone(m.len() as int), k - 1, m.len() as int);
        lemma_full_sets(m, k - 1, m.len() as int);
        crate::graph::lemma_prefix_sum_bounds(m[k - 1], 0, m.len() as int);
    }
}

/// The incoming and the outgoing flow of any set are at most the total flow.
pub proof fn lemma_flows_le_total(m: Seq<Seq<u32>>, p: Seq<bool>)
    requires
        is_square(m),
        p.len() == m.len(),
    ensures
        0 <= flow_in(m, p, m.len() as int) <= matrix_total(m),
        0 <= flow_out(m, p, m.len() as int) <= matrix_total(m),
{
    let n = m.len() as int;
    lemma_flows_le_everyone(m, p, n);
    lemma_full_inner(m, n);
    lemma_inner_swap(m, everyone(n), n, n);
}

} // verus!
