//! Maximum-flow and minimum-cost-flow solvers, and the max-flow/min-cut
//! theorem over the library's flow model.
pub mod dinic;
pub mod scaling;
pub mod push_relabel;
pub mod min_cost;

use vstd::prelude::*;
use crate::error::StanchionError;
use crate::graph::{DiGraph, NodeId};
use crate::graph::residual::{
    flow_value, is_flow, is_max_flow, closed_cut, cut_capacity, net_out, rcap, cost_ceiling,
    linear_cost,
};
use crate::sums::{
    sum_to, twin, lemma_sum_ext, lemma_sum_point, lemma_sum_zero, lemma_sum_add, lemma_sum_le,
    lemma_sum_pairs_cancel,
};

verus! {

/// Result of a maximum-flow computation.
#[derive(Debug, Clone)]
pub struct FlowResult {
    pub max_flow: i128,
    /// Flow on each raw arc index (parallel to the graph's arc list).
    pub flow_on_edge: Vec<i64>,
}

/// Result of a minimum-cost flow computation.
#[derive(Debug, Clone)]
pub struct MinCostFlowResult {
    pub max_flow: i128,
    pub min_cost: i128,
    pub flow_on_edge: Vec<i64>,
}

/// `r` holds a maximum `s`-`t` flow of `g` and its value.
pub open spec fn max_flow_result(g: &DiGraph, r: FlowResult, s: int, t: int) -> bool {
    &&& is_max_flow(g, r.flow_on_edge@, s, t)
    &&& r.max_flow == flow_value(g, r.flow_on_edge@, s)
}

/// The inputs every max-flow solver accepts.
pub open spec fn max_flow_input(g: &DiGraph, s: NodeId, t: NodeId) -> bool {
    &&& g.wf()
    &&& (s.0 as int) < g.n()
    &&& (t.0 as int) < g.n()
    &&& s != t
}

/// Implemented by every max-flow algorithm.
pub trait MaxFlowSolver {
    fn max_flow(&self, graph: &DiGraph, source: NodeId, sink: NodeId) -> (r: Result<
        FlowResult,
        StanchionError,
    >)
        requires
            max_flow_input(graph, source, sink),
        ensures
            r matches Ok(res) && max_flow_result(graph, res, source.0 as int, sink.0 as int),
    ;
}

/// Inputs every minimum-cost flow solver needs: a max-flow input whose
/// flow costs fit the accumulator.
pub open spec fn mcf_input(g: &DiGraph, s: NodeId, t: NodeId) -> bool {
    &&& max_flow_input(g, s, t)
    &&& cost_ceiling(g) <= i128::MAX
}

/// Implemented by every minimum-cost flow algorithm.
pub trait MinCostFlowSolver {
    /// Further conditions this algorithm puts on its input.
    spec fn mcf_accepts(&self, g: &DiGraph, s: NodeId, t: NodeId) -> bool;

    fn min_cost_flow(&self, graph: &DiGraph, source: NodeId, sink: NodeId, demand: Option<i128>) -> (r: Result<
        MinCostFlowResult,
        StanchionError,
    >)
        requires
            mcf_input(graph, source, sink),
            self.mcf_accepts(graph, source, sink),
        ensures
            r matches Ok(res) ==> res.flow_on_edge@.len() == graph.m() && res.min_cost == linear_cost(
                graph,
                res.flow_on_edge@,
            ),
    ;
}

/// For a cut `side` (holding `s`, not `t`), the value of a feasible flow is
/// the net flow on the arcs leaving `side`.
pub proof fn lemma_value_through_cut(g: &DiGraph, f: Seq<i64>, s: int, t: int, side: Seq<bool>)
    requires
        g.wf(),
        is_flow(g, f, s, t),
        side.len() == g.n(),
        0 <= s < g.n(),
        0 <= t < g.n(),
        side[s],
        !side[t],
    ensures
        flow_value(g, f, s) == sum_to(
            g.m(),
            |i: int| if side[g.arc_from(i)] && !side[g.arc_to(i)] { f[i] as int } else { 0 },
        ),
{
    let n = g.n();
    let node_term = |v: int| if side[v] { net_out(g, f, v) } else { 0 };
    let zero = |v: int| 0int;
    assert forall|v: int| 0 <= v < n && v != s implies #[trigger] zero(v) == node_term(v) by {
        if side[v] {
            assert(v != t);
            assert(net_out(g, f, v) == 0);
        }
    }
    lemma_sum_point(n, zero, node_term, s);
    lemma_sum_zero(n, zero);
    lemma_side_net_out(g, f, side);
}

/// Summed over a node set, net outflow equals the flow on the arcs that
/// leave the set: flow on arcs inside the set cancels in pairs.
pub proof fn lemma_side_net_out(g: &DiGraph, f: Seq<i64>, side: Seq<bool>)
    requires
        g.wf(),
        f.len() == g.m(),
        forall|i: int| 0 <= i < g.m() ==> #[trigger] f[twin(i)] == -f[i],
        side.len() == g.n(),
    ensures
        sum_to(g.n(), |v: int| if side[v] { net_out(g, f, v) } else { 0 }) == sum_to(
            g.m(),
            |i: int| if side[g.arc_from(i)] && !side[g.arc_to(i)] { f[i] as int } else { 0 },
        ),
{
    let n = g.n();
    let m = g.m();
    lemma_nodes_to_arcs(g, f, side, n);
    let from_in = |i: int| if side[g.arc_from(i)] { f[i] as int } else { 0 };
    let from_below = |i: int|
        if g.arc_from(i) < n && side[g.arc_from(i)] {
            f[i] as int
        } else {
            0
        };
    assert forall|i: int| 0 <= i < m implies #[trigger] from_below(i) == from_in(i) by {
        g.lemma_arc(i);
    }
    lemma_sum_ext(m, from_below, from_in);
    let cross = |i: int| if side[g.arc_from(i)] && !side[g.arc_to(i)] { f[i] as int } else { 0 };
    let inner = |i: int| if side[g.arc_from(i)] && side[g.arc_to(i)] { f[i] as int } else { 0 };
    assert forall|i: int| 0 <= i < m implies #[trigger] from_in(i) == cross(i) + inner(i) by {}
    lemma_sum_add(m, cross, inner, from_in);
    assert forall|i: int| 0 <= i < m implies #[trigger] inner(twin(i)) == -inner(i) by {
        g.lemma_arc(i);
        assert(f[twin(i)] == -f[i]);
    }
    lemma_sum_pairs_cancel(m, inner);
}

/// Summing net outflow over the first `k` nodes of `side` sums the flow on
/// the arcs leaving those nodes.
proof fn lemma_nodes_to_arcs(g: &DiGraph, f: Seq<i64>, side: Seq<bool>, k: int)
    requires
        g.wf(),
        f.len() == g.m(),
        0 <= k <= g.n(),
    ensures
        sum_to(k, |v: int| if side[v] { net_out(g, f, v) } else { 0 }) == sum_to(
            g.m(),
            |i: int|
                if g.arc_from(i) < k && side[g.arc_from(i)] {
                    f[i] as int
                } else {
                    0
                },
        ),
    decreases k,
{
    let m = g.m();
    if k == 0 {
        lemma_sum_zero(
            m,
            |i: int|
                if g.arc_from(i) < 0 && side[g.arc_from(i)] {
                    f[i] as int
                } else {
                    0
                },
        );
        assert(sum_to(0, |v: int| if side[v] { net_out(g, f, v) } else { 0 }) == 0);
    } else {
        lemma_nodes_to_arcs(g, f, side, k - 1);
        let prev = |i: int|
            if g.arc_from(i) < k - 1 && side[g.arc_from(i)] {
                f[i] as int
            } else {
                0
            };
        let at = |i: int|
            if g.arc_from(i) == k - 1 && side[k - 1] {
                f[i] as int
            } else {
                0
            };
        let cur = |i: int|
            if g.arc_from(i) < k && side[g.arc_from(i)] {
                f[i] as int
            } else {
                0
            };
        assert forall|i: int| 0 <= i < m implies #[trigger] cur(i) == prev(i) + at(i) by {}
        lemma_sum_add(m, prev, at, cur);
        let out = |i: int| if g.arc_from(i) == k - 1 { f[i] as int } else { 0 };
        if side[k - 1] {
            lemma_sum_ext(m, at, out);
        } else {
            lemma_sum_zero(m, at);
        }
    }
}

/// Weak duality: the value of any feasible flow is at most the capacity of
/// any cut that separates the terminals.
pub proof fn lemma_flow_le_cut(g: &DiGraph, f: Seq<i64>, s: int, t: int, side: Seq<bool>)
    requires
        g.wf(),
        is_flow(g, f, s, t),
        side.len() == g.n(),
        0 <= s < g.n(),
        0 <= t < g.n(),
        side[s],
        !side[t],
    ensures
        flow_value(g, f, s) <= cut_capacity(g, side),
{
    lemma_value_through_cut(g, f, s, t, side);
    let cross = |i: int| if side[g.arc_from(i)] && !side[g.arc_to(i)] { f[i] as int } else { 0 };
    let capf = |i: int| if side[g.arc_from(i)] && !side[g.arc_to(i)] { g.cap(i) } else { 0 };
    assert forall|i: int| 0 <= i < g.m() implies #[trigger] cross(i) <= capf(i) by {
        assert(f[i] <= g.cap(i));
    }
    lemma_sum_le(g.m(), cross, capf);
}

/// Max-flow/min-cut: for a feasible flow and a node set that holds the
/// source, not the sink, and that no residual arc leaves, the flow value
/// equals the capacity of the cut.
pub proof fn lemma_max_flow_min_cut(g: &DiGraph, f: Seq<i64>, s: int, t: int, side: Seq<bool>)
    requires
        g.wf(),
        is_flow(g, f, s, t),
        0 <= s < g.n(),
        0 <= t < g.n(),
        closed_cut(g, f, side, s, t),
    ensures
        flow_value(g, f, s) == cut_capacity(g, side),
{
    lemma_value_through_cut(g, f, s, t, side);
    let cross = |i: int| if side[g.arc_from(i)] && !side[g.arc_to(i)] { f[i] as int } else { 0 };
    let capf = |i: int| if side[g.arc_from(i)] && !side[g.arc_to(i)] { g.cap(i) } else { 0 };
    assert forall|i: int| 0 <= i < g.m() implies #[trigger] cross(i) == capf(i) by {
        g.lemma_arc(i);
        assert(f[i] <= g.cap(i));
        if side[g.arc_from(i)] && !side[g.arc_to(i)] {
            assert(!(rcap(g, f, i) > 0));
        }
    }
    lemma_sum_ext(g.m(), cross, capf);
}

/// A maximum flow is maximum: no feasible flow has a larger value.
pub proof fn lemma_max_flow_is_maximum(g: &DiGraph, f: Seq<i64>, other: Seq<i64>, s: int, t: int)
    requires
        g.wf(),
        0 <= s < g.n(),
        0 <= t < g.n(),
        is_max_flow(g, f, s, t),
        is_flow(g, other, s, t),
    ensures
        flow_value(g, other, s) <= flow_value(g, f, s),
{
    let side = choose|side: Seq<bool>| closed_cut(g, f, side, s, t);
    lemma_max_flow_min_cut(g, f, s, t, side);
    lemma_flow_le_cut(g, other, s, t, side);
}

/// Every maximum-flow solver reports the same value: any two maximum-flow
/// results for the same terminals carry equal flow values.
pub proof fn lemma_max_flow_values_agree(g: &DiGraph, r1: FlowResult, r2: FlowResult, s: NodeId, t: NodeId)
    requires
        max_flow_input(g, s, t),
        max_flow_result(g, r1, s.0 as int, t.0 as int),
        max_flow_result(g, r2, s.0 as int, t.0 as int),
    ensures
        r1.max_flow == r2.max_flow,
{
    lemma_max_flow_is_maximum(g, r1.flow_on_edge@, r2.flow_on_edge@, s.0 as int, t.0 as int);
    lemma_max_flow_is_maximum(g, r2.flow_on_edge@, r1.flow_on_edge@, s.0 as int, t.0 as int);
}

} // verus!
