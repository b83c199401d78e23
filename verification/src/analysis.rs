//! Read-only statistics over a constructed year graph: totals, the per-year
//! breakdown, and the year-over-year transition of greatest weight.

use vstd::prelude::*;

use crate::graph::YearGraph;

verus! {

/// The sum of the weights of the first `k` edges.
pub open spec fn weight_sum_upto(g: YearGraph, k: int) -> nat
    decreases k,
{
    if k <= 0 {
        0
    } else {
        weight_sum_upto(g, k - 1) + g.edge_seq()[k - 1].weight as nat
    }
}

/// The sum of all edge weights of the graph.
pub open spec fn total_weight(g: YearGraph) -> nat {
    weight_sum_upto(g, g.edge_seq().len() as int)
}

/// The summed weight of those of the first `k` edges that leave the node at
/// index `node`.
pub open spec fn out_weight_upto(g: YearGraph, node: int, k: int) -> nat
    decreases k,
{
    if k <= 0 {
        0
    } else {
        out_weight_upto(g, node, k - 1) + if g.edge_seq()[k - 1].source as int == node {
            g.edge_seq()[k - 1].weight as nat
        } else {
            0
        }
    }
}

/// The summed weight of all edges leaving the node at index `node`: the
/// additions recorded for the transition into the following year.
pub open spec fn out_weight(g: YearGraph, node: int) -> nat {
    out_weight_upto(g, node, g.edge_seq().len() as int)
}

/// A prefix sum of edge weights never exceeds a longer one.
proof fn lemma_weight_sum_mono(g: YearGraph, k1: int, k2: int)
    requires
        k1 <= k2,
    ensures
        weight_sum_upto(g, k1) <= weight_sum_upto(g, k2),
    decreases k2 - k1,
{
    if k1 < k2 {
        lemma_weight_sum_mono(g, k1, k2 - 1);
    }
}

/// One node's outgoing weight is part of the sum over all edges.
proof fn lemma_out_le_weight_sum(g: YearGraph, node: int, k: int)
    ensures
        out_weight_upto(g, node, k) <= weight_sum_upto(g, k),
    decreases k,
{
    if k > 0 {
        lemma_out_le_weight_sum(g, node, k - 1);
    }
}

/// The aggregate statistics of a year graph.
#[derive(Clone, Copy, PartialEq, Eq, Structural, Debug)]
pub struct GraphSummary {
    pub total_years: usize,
    pub total_transitions: usize,
    pub total_additions: usize,
}

/// The sum of all edge weights, or nothing when that sum cannot be carried in
/// one machine word.
pub fn checked_total_weight(g: &YearGraph) -> (r: Option<usize>)
    ensures
        match r {
            Some(t) => t as nat == total_weight(*g) && total_weight(*g) <= usize::MAX,
            None => total_weight(*g) > usize::MAX,
        },
{
    let n = g.edge_count();
    let mut acc: usize = 0;
    let mut k: usize = 0;
    while k < n
        invariant
            k <= n,
            n == g.edge_seq().len(),
            acc as nat == weight_sum_upto(*g, k as int),
        decreases n - k,
    {
        let w = g.edge_at(k).weight;
        if w <= usize::MAX - acc {
            acc = acc + w;
        } else {
            proof {
                lemma_weight_sum_mono(*g, k as int + 1, g.edge_seq().len() as int);
            }
            return None;
        }
        k = k + 1;
    }
    Some(acc)
}

/// The summed weight of the edges leaving the node at index `i`.
pub fn out_weight_at(g: &YearGraph, i: usize) -> (w: usize)
    requires
        g.wf(),
        i < g.years().len(),
        total_weight(*g) <= usize::MAX,
    ensures
        w as nat == out_weight(*g, i as int),
{
    let n = g.edge_count();
    let mut acc: usize = 0;
    let mut k: usize = 0;
    while k < n
        invariant
            k <= n,
            n == g.edge_seq().len(),
            total_weight(*g) <= usize::MAX,
            acc as nat == out_weight_upto(*g, i as int, k as int),
        decreases n - k,
    {
        let e = g.edge_at(k);
        if e.source == i {
            proof {
                lemma_out_le_weight_sum(*g, i as int, k as int + 1);
                lemma_weight_sum_mono(*g, k as int + 1, g.edge_seq().len() as int);
            }
            acc = acc + e.weight;
        }
        k = k + 1;
    }
    acc
}

/// Count the nodes and edges and sum all edge weights. On an empty graph
/// every total is zero: the degenerate case is a defined result, never a
/// fault. The average of additions per year is the quotient of
/// `total_additions` by `total_years`, which the caller forms only when
/// `total_years` is not zero.
pub fn analyze_graph(g: &YearGraph) -> (s: GraphSummary)
    requires
        g.wf(),
        total_weight(*g) <= usize::MAX,
    ensures
        s.total_years == g.years().len(),
        s.total_transitions == g.edge_seq().len(),
        s.total_additions as nat == total_weight(*g),
        g.years().len() == 0 ==> s.total_years == 0 && s.total_transitions == 0
            && s.total_additions == 0,
{
    proof {
        if g.years().len() == 0 && g.edge_seq().len() > 0 {
            assert((g.edge_seq()[0].source as int) < g.years().len());
        }
    }
    let total = match checked_total_weight(g) {
        Some(t) => t,
        None => {
            proof {
                assert(false);
            }
            0
        }
    };
    GraphSummary {
        total_years: g.node_count(),
        total_transitions: g.edge_count(),
        total_additions: total,
    }
}

/// The additions recorded per year, in node-iteration order: each node is
/// paired with the summed weight of its outgoing edges (zero for the
/// terminal year, which has no successor).
pub fn per_year_additions(g: &YearGraph) -> (r: Vec<(i32, usize)>)
    requires
        g.wf(),
        total_weight(*g) <= usize::MAX,
    ensures
        r@.len() == g.years().len(),
        forall|i: int|
            0 <= i < r@.len() ==> (#[trigger] r@[i]).0 == g.years()[i] && r@[i].1 as nat
                == out_weight(*g, i),
{
    let n = g.node_count();
    let mut r: Vec<(i32, usize)> = Vec::new();
    let mut i: usize = 0;
    while i < n
        invariant
            i <= n,
            n == g.years().len(),
            g.wf(),
            total_weight(*g) <= usize::MAX,
            r@.len() == i,
            forall|j: int|
                0 <= j < i ==> (#[trigger] r@[j]).0 == g.years()[j] && r@[j].1 as nat
                    == out_weight(*g, j),
        decreases n - i,
    {
        let w = out_weight_at(g, i);
        r.push((g.year_at(i), w));
        i = i + 1;
    }
    r
}

/// Scan the nodes in iteration order for the one with the greatest summed
/// outgoing weight. Only a strictly greater sum displaces the running
/// maximum, so the first node reaching the maximum wins and later ties do
/// not overwrite it. When no node has positive outgoing weight the result is
/// the degenerate triple `(-1, 0, 0)`.
pub fn year_with_greatest_change(g: &YearGraph) -> (r: (i32, i32, usize))
    requires
        g.wf(),
        total_weight(*g) <= usize::MAX,
    ensures
        forall|i: int| 0 <= i < g.years().len() ==> #[trigger] out_weight(*g, i) <= r.2 as nat,
        (exists|i: int| 0 <= i < g.years().len() && #[trigger] out_weight(*g, i) > 0)
            ==> exists|i: int|
            0 <= i < g.years().len() && #[trigger] out_weight(*g, i) == r.2 as nat && r.1
                == g.years()[i] && r.0 as int == g.years()[i] - 1 && (forall|j: int|
                0 <= j < i ==> #[trigger] out_weight(*g, j) < r.2 as nat),
        (forall|i: int| 0 <= i < g.years().len() ==> #[trigger] out_weight(*g, i) == 0) ==> r
            == (-1i32, 0i32, 0usize),
{
    let n = g.node_count();
    let mut max_w: usize = 0;
    let mut year_of: i32 = 0;
    let mut prev: i32 = -1;
    let mut i: usize = 0;
    while i < n
        invariant
            i <= n,
            n == g.years().len(),
            g.wf(),
            total_weight(*g) <= usize::MAX,
            forall|j: int| 0 <= j < i ==> #[trigger] out_weight(*g, j) <= max_w as nat,
            max_w > 0 ==> exists|j: int|
                0 <= j < i && #[trigger] out_weight(*g, j) == max_w as nat && year_of
                    == g.years()[j] && prev as int == g.years()[j] - 1 && (forall|l: int|
                    0 <= l < j ==> #[trigger] out_weight(*g, l) < max_w as nat),
            max_w == 0 ==> prev == -1i32 && year_of == 0i32,
        decreases n - i,
    {
        let w = out_weight_at(g, i);
        if w > max_w {
            max_w = w;
            year_of = g.year_at(i);
            prev = year_of - 1;
        }
        i = i + 1;
    }
    proof {
        if exists|i2: int| 0 <= i2 < g.years().len() && #[trigger] out_weight(*g, i2) > 0 {
            let i2: int = choose|i2: int|
                0 <= i2 < g.years().len() && #[trigger] out_weight(*g, i2) > 0;
            assert(out_weight(*g, i2) <= max_w as nat);
        }
    }
    (prev, year_of, max_w)
}

} // verus!
