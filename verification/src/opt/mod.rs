//! Minimum cuts and stanchion layout recommendations.
pub mod belt;
pub mod decision;
pub mod min_cut;

pub use decision::{DecisionReason, StanchionDecision};
pub use min_cut::find_min_cut;

use vstd::prelude::*;
use crate::error::StanchionError;
use crate::flow::{FlowResult, MaxFlowSolver, max_flow_input, max_flow_result};
use belt::{adds_belt, belt_gain, lemma_belt_bounds, lemma_belt_gain};
use crate::graph::{Capacity, Cost, DiGraph, EdgeId, NodeId};
use crate::graph::residual::{is_max_flow, is_flow, flow_value, net_out, rcap, closed_cut};
use min_cut::{cut_arcs, ext_flow, fwd_arcs, lemma_fwd_arcs_step};

verus! {

/// The belt to add for a min-cut arc `i`, with the flow it gains.
pub open spec fn add_decision(g: &DiGraph, i: int, cap: i64, cost: i64, gain: i64) -> StanchionDecision {
    StanchionDecision::AddEdge {
        from: g.edges[i].from,
        to: g.edges[i].to,
        capacity: Capacity(cap),
        cost: Cost(cost),
        reason: DecisionReason::BottleneckExpansion { delta_flow: gain },
    }
}

/// The removal of a forward arc `i` that carries no flow.
pub open spec fn remove_decision(i: int) -> StanchionDecision {
    StanchionDecision::RemoveEdge { edge_id: EdgeId(i as u32), reason: DecisionReason::ZeroFlowPruning }
}

/// Forward arcs that carry no flow under `f`, in increasing order.
pub open spec fn zero_flow_arcs(g: &DiGraph, f: Seq<i64>) -> Seq<int> {
    fwd_arcs(g.m()).filter(|i: int| ext_flow(f, i) == 0)
}

/// Impact of a decision: the flow gain promised by a bottleneck expansion.
pub open spec fn impact(d: StanchionDecision) -> int {
    match d {
        StanchionDecision::AddEdge { reason: DecisionReason::BottleneckExpansion { delta_flow }, .. } => delta_flow as int,
        _ => 0,
    }
}

/// `x` placed into `s` before the first entry of smaller impact.
pub open spec fn insert_by_impact(s: Seq<StanchionDecision>, x: StanchionDecision) -> Seq<StanchionDecision>
    decreases s.len(),
{
    if s.len() == 0 {
        seq![x]
    } else if impact(s[0]) < impact(x) {
        seq![x] + s
    } else {
        seq![s[0]] + insert_by_impact(s.drop_first(), x)
    }
}

/// `s` ordered by descending impact, entries of equal impact in their
/// order in `s`.
pub open spec fn by_impact(s: Seq<StanchionDecision>) -> Seq<StanchionDecision>
    decreases s.len(),
{
    if s.len() == 0 {
        s
    } else {
        insert_by_impact(by_impact(s.drop_last()), s.last())
    }
}

/// The belts to add for the min-cut arcs of `f`, with their gains.
pub open spec fn expansions(g: &DiGraph, f: Seq<i64>, s: int, cap: i64, cost: i64, gains: Seq<i64>) -> Seq<StanchionDecision> {
    let cut = cut_arcs(g, f, s);
    Seq::new(cut.len(), |k: int| add_decision(g, cut[k], cap, cost, gains[k]))
}

/// The recommendations for flow `f`: one added belt per min-cut arc, with
/// the flow it gains, and one removal per idle forward arc, ordered by
/// impact, highest first, ties in the order of generation (additions
/// before removals).
pub open spec fn plan(g: &DiGraph, f: Seq<i64>, s: int, cap: i64, cost: i64, gains: Seq<i64>) -> Seq<StanchionDecision> {
    let removes = zero_flow_arcs(g, f).map_values(|i: int| remove_decision(i));
    by_impact(expansions(g, f, s, cap, cost, gains) + removes)
}

/// `gains[k]` is the gain of the belt added beside the `k`-th min-cut arc.
pub open spec fn cut_gains(g: &DiGraph, f: Seq<i64>, s: int, t: int, cap: i64, cost: i64, gains: Seq<i64>) -> bool {
    let cut = cut_arcs(g, f, s);
    &&& gains.len() == cut.len()
    &&& forall|k: int|
        0 <= k < cut.len() ==> #[trigger] belt_gain(g, s, t, g.edges[cut[k]].from, g.edges[cut[k]].to, cap, cost, gains[k] as int)
}

/// Places `x` before the first entry of `s` of smaller impact.
proof fn lemma_insert_at(s: Seq<StanchionDecision>, x: StanchionDecision, p: int)
    requires
        0 <= p <= s.len(),
        forall|q: int| 0 <= q < p ==> impact(#[trigger] s[q]) >= impact(x),
        p == s.len() || impact(s[p]) < impact(x),
    ensures
        insert_by_impact(s, x) == s.insert(p, x),
    decreases p,
{
    if p == 0 {
        if s.len() == 0 {
            assert(s.insert(0, x) =~= seq![x]);
        } else {
            assert(s.insert(0, x) =~= seq![x] + s);
        }
    } else {
        assert(impact(s[0]) >= impact(x));
        let r = s.drop_first();
        assert forall|q: int| 0 <= q < p - 1 implies impact(#[trigger] r[q]) >= impact(x) by {
            assert(r[q] == s[q + 1]);
        }
        lemma_insert_at(r, x, p - 1);
        assert(s.insert(p, x) =~= seq![s[0]] + r.insert(p - 1, x));
    }
}

/// Impact of a decision, as `impact` states it.
fn impact_of(d: &StanchionDecision) -> (r: i64)
    ensures
        r == impact(*d),
{
    match d {
        StanchionDecision::AddEdge { reason: DecisionReason::BottleneckExpansion { delta_flow }, .. } => *delta_flow,
        StanchionDecision::AddEdge { .. } => 0,
        StanchionDecision::RemoveEdge { .. } => 0,
    }
}

/// Orders decisions by descending impact, keeping the order of entries of
/// equal impact.
fn sort_by_impact(v: Vec<StanchionDecision>) -> (r: Vec<StanchionDecision>)
    ensures
        r@ == by_impact(v@),
{
    let mut out: Vec<StanchionDecision> = Vec::new();
    let mut i: usize = 0;
    while i < v.len()
        invariant
            i <= v.len(),
            out@ == by_impact(v@.take(i as int)),
        decreases v.len() - i,
    {
        let x = v[i];
        let ix = impact_of(&x);
        let mut p: usize = 0;
        while p < out.len() && !(impact_of(&out[p]) < ix)
            invariant
                p <= out.len(),
                ix == impact(x),
                forall|q: int| 0 <= q < p ==> impact(#[trigger] out@[q]) >= impact(x),
            decreases out.len() - p,
        {
            p += 1;
        }
        proof {
            lemma_insert_at(out@, x, p as int);
            assert(v@.take(i as int + 1).drop_last() =~= v@.take(i as int));
            assert(v@.take(i as int + 1).last() == x);
        }
        out.insert(p, x);
        i += 1;
    }
    proof {
        assert(v@.take(v.len() as int) =~= v@);
    }
    out
}

/// Analyses a stanchion graph and recommends layout changes.
///
/// Uses a max-flow solve to identify the min-cut (bottleneck arcs) and
/// zero-flow arcs, then produces `StanchionDecision` values sorted by
/// estimated impact.
pub struct OptimizationEngine<F: MaxFlowSolver> {
    pub solver: F,
    /// Suggested capacity for a newly added belt.
    pub default_new_capacity: i64,
    /// Suggested cost (transit time) for a newly added belt.
    pub default_new_cost: i64,
}

impl<F: MaxFlowSolver> OptimizationEngine<F> {
    pub fn new(solver: F) -> (r: Self)
        ensures
            r.solver == solver,
            r.default_new_capacity == 1,
            r.default_new_cost == 1,
    {
        Self { solver, default_new_capacity: 1, default_new_cost: 1 }
    }

    /// Return recommended decisions sorted by impact (highest flow gain first).
    pub fn recommend(&self, graph: &DiGraph, source: NodeId, sink: NodeId) -> (r: Result<
        Vec<StanchionDecision>,
        StanchionError,
    >)
        requires
            max_flow_input(graph, source, sink),
            self.default_new_capacity >= 0,
            self.default_new_cost > i64::MIN,
            graph.edges.len() + 2 <= u32::MAX,
        ensures
            r matches Ok(ds) && exists|f: Seq<i64>, gains: Seq<i64>|
                is_max_flow(graph, f, source.0 as int, sink.0 as int) && cut_gains(
                    graph,
                    f,
                    source.0 as int,
                    sink.0 as int,
                    self.default_new_capacity,
                    self.default_new_cost,
                    gains,
                ) && ds@ == plan(
                    graph,
                    f,
                    source.0 as int,
                    self.default_new_capacity,
                    self.default_new_cost,
                    gains,
                ),
    {
        let result = self.solver.max_flow(graph, source, sink)?;
        let ghost f = result.flow_on_edge@;
        let mut decisions: Vec<StanchionDecision> = Vec::new();
        let gains = self.bottleneck_expansions(graph, &result, source, sink, &mut decisions);
        let mut removes: Vec<StanchionDecision> = Vec::new();
        self.zero_flow_prunings(graph, &result, &mut removes);
        let ghost adds = decisions@;
        decisions.append(&mut removes);
        // Sort by descending delta_flow impact.
        let sorted = sort_by_impact(decisions);
        proof {
            assert(is_max_flow(graph, f, source.0 as int, sink.0 as int));
            assert(sorted@ == plan(
                graph,
                f,
                source.0 as int,
                self.default_new_capacity,
                self.default_new_cost,
                gains@,
            ));
        }
        Ok(sorted)
    }

    /// One added belt per min-cut arc, beside it, with the flow it gains:
    /// the maximum flow of the graph with that belt, less that of the graph.
    fn bottleneck_expansions(
        &self,
        graph: &DiGraph,
        result: &FlowResult,
        source: NodeId,
        sink: NodeId,
        decisions: &mut Vec<StanchionDecision>,
    ) -> (gains: Ghost<Seq<i64>>)
        requires
            max_flow_input(graph, source, sink),
            max_flow_result(graph, *result, source.0 as int, sink.0 as int),
            self.default_new_capacity >= 0,
            self.default_new_cost > i64::MIN,
            graph.edges.len() + 2 <= u32::MAX,
            old(decisions)@ == Seq::<StanchionDecision>::empty(),
        ensures
            cut_gains(
                graph,
                result.flow_on_edge@,
                source.0 as int,
                sink.0 as int,
                self.default_new_capacity,
                self.default_new_cost,
                gains@,
            ),
            final(decisions)@ == expansions(
                graph,
                result.flow_on_edge@,
                source.0 as int,
                self.default_new_capacity,
                self.default_new_cost,
                gains@,
            ),
    {
        let cap = self.default_new_capacity;
        let cost = self.default_new_cost;
        let ghost s = source.0 as int;
        let ghost t = sink.0 as int;
        let cut_edges = find_min_cut(graph, result, source);
        let ghost cut = cut_arcs(graph, result.flow_on_edge@, source.0 as int);
        proof {
            let fa = fwd_arcs(graph.m());
            let pred = |i: int| crate::opt::min_cut::crosses_cut(graph, result.flow_on_edge@, source.0 as int, i);
            assert forall|j: int| 0 <= j < cut.len() implies 0 <= #[trigger] cut[j] < graph.m() by {
                assert(cut.contains(cut[j]));
                fa.lemma_filter_contains_rev(pred, cut[j]);
                let x = choose|x: int| 0 <= x < fa.len() && fa[x] == cut[j];
            }
        }
        let ghost mut gs: Seq<i64> = Seq::empty();
        let mut k: usize = 0;
        while k < cut_edges.len()
            invariant
                max_flow_input(graph, source, sink),
                max_flow_result(graph, *result, s, t),
                s == source.0 as int,
                t == sink.0 as int,
                cap == self.default_new_capacity,
                cost == self.default_new_cost,
                cap >= 0,
                cost > i64::MIN,
                graph.edges.len() + 2 <= u32::MAX,
                k <= cut_edges.len(),
                cut_edges@.map_values(|e: EdgeId| e.0 as int) == cut,
                cut == cut_arcs(graph, result.flow_on_edge@, s),
                forall|j: int| 0 <= j < cut.len() ==> 0 <= #[trigger] cut[j] < graph.m(),
                decisions@.len() == k,
                gs.len() == k,
                forall|j: int| 0 <= j < k ==> #[trigger] decisions@[j] == add_decision(graph, cut[j], cap, cost, gs[j]),
                forall|j: int|
                    0 <= j < k ==> #[trigger] belt_gain(
                        graph,
                        s,
                        t,
                        graph.edges[cut[j]].from,
                        graph.edges[cut[j]].to,
                        cap,
                        cost,
                        gs[j] as int,
                    ),
            decreases cut_edges.len() - k,
        {
            let eid = cut_edges[k];
            proof {
                assert(cut[k as int] == eid.0 as int);
            }
            match graph.edge(eid) {
                Some(e) => {
                    proof {
                        graph.lemma_arc(eid.0 as int);
                    }
                    let mut g2 = graph.arc_copy();
                    g2.add_edge(e.from, e.to, Capacity(cap), Cost(cost));
                    proof {
                        assert(adds_belt(graph, &g2, e.from, e.to, cap, cost));
                    }
                    let r2 = match self.solver.max_flow(&g2, source, sink) {
                        Ok(x) => x,
                        Err(_) => {
                            return Ghost(gs);
                        },
                    };
                    proof {
                        lemma_belt_bounds(graph, &g2, e.from, e.to, cap, cost, result.flow_on_edge@, r2.flow_on_edge@, s, t);
                        lemma_belt_gain(graph, &g2, e.from, e.to, cap, cost, result.flow_on_edge@, r2.flow_on_edge@, s, t);
                    }
                    let gain = (r2.max_flow - result.max_flow) as i64;
                    let ghost d0 = decisions@;
                    decisions.push(
                        StanchionDecision::AddEdge {
                            from: e.from,
                            to: e.to,
                            capacity: Capacity(cap),
                            cost: Cost(cost),
                            reason: DecisionReason::BottleneckExpansion { delta_flow: gain },
                        },
                    );
                    proof {
                        gs = gs.push(gain);
                        assert forall|j: int| 0 <= j < k + 1 implies #[trigger] decisions@[j] == add_decision(
                            graph,
                            cut[j],
                            cap,
                            cost,
                            gs[j],
                        ) by {
                            if j < k {
                                assert(decisions@[j] == d0[j]);
                            }
                        }
                    }
                },
                None => {
                    return Ghost(gs);
                },
            }
            k += 1;
        }
        proof {
            assert(decisions@ =~= expansions(graph, result.flow_on_edge@, s, cap, cost, gs));
        }
        Ghost(gs)
    }

    fn zero_flow_prunings(
        &self,
        graph: &DiGraph,
        result: &FlowResult,
        decisions: &mut Vec<StanchionDecision>,
    )
        requires
            graph.wf(),
            old(decisions)@ == Seq::<StanchionDecision>::empty(),
        ensures
            final(decisions)@ == zero_flow_arcs(graph, result.flow_on_edge@).map_values(
                |i: int| remove_decision(i),
            ),
    {
        let ghost f = result.flow_on_edge@;
        let ghost zero = |i: int| ext_flow(f, i) == 0;
        let ghost mk = |i: int| remove_decision(i);
        let m = graph.edges.len();
        let mut idx: usize = 0;
        while idx < m
            invariant
                graph.wf(),
                m == graph.m(),
                f == result.flow_on_edge@,
                zero == (|i: int| ext_flow(f, i) == 0),
                mk == (|i: int| remove_decision(i)),
                idx % 2 == 0,
                idx <= m,
                decisions@ == fwd_arcs(idx as int).filter(zero).map_values(mk),
            decreases m - idx,
        {
            proof {
                graph.lemma_arc(idx as int);
                lemma_fwd_arcs_step(idx as int);
                fwd_arcs(idx as int).lemma_filter_push(idx as int, zero);
                fwd_arcs(idx as int).filter(zero).lemma_push_map_commute(mk, idx as int);
            }
            let flow: i64 = if idx < result.flow_on_edge.len() {
                result.flow_on_edge[idx]
            } else {
                0
            };
            if flow == 0 {
                decisions.push(
                    StanchionDecision::RemoveEdge {
                        edge_id: EdgeId(idx as u32),
                        reason: DecisionReason::ZeroFlowPruning,
                    },
                );
            }
            idx = idx + 2;
        }
    }
}

/// `g2` is `g` with possibly different capacities: the same nodes, arcs,
/// costs and adjacency lists.
pub open spec fn same_layout(g: &DiGraph, g2: &DiGraph) -> bool {
    &&& g2.n() == g.n()
    &&& g2.m() == g.m()
    &&& forall|i: int| 0 <= i < g.m() ==> #[trigger] g2.arc_from(i) == g.arc_from(i) && g2.arc_to(i) == g.arc_to(i)
}

/// A flow of `g` is a flow of the same value in any layout that has the
/// same arcs and at least the capacities.
proof fn lemma_flow_carries_over(g: &DiGraph, g2: &DiGraph, f: Seq<i64>, s: int, t: int)
    requires
        g.wf(),
        g2.wf(),
        same_layout(g, g2),
        is_flow(g, f, s, t),
        forall|i: int| 0 <= i < g.m() ==> #[trigger] f[i] <= g2.cap(i),
    ensures
        is_flow(g2, f, s, t),
        forall|v: int| #[trigger] net_out(g2, f, v) == net_out(g, f, v),
{
    assert forall|v: int| #[trigger] net_out(g2, f, v) == net_out(g, f, v) by {
        let a = |i: int| if g2.arc_from(i) == v { f[i] as int } else { 0 };
        let b = |i: int| if g.arc_from(i) == v { f[i] as int } else { 0 };
        assert forall|i: int| 0 <= i < g.m() implies #[trigger] a(i) == b(i) by {}
        crate::sums::lemma_sum_ext(g.m(), a, b);
    }
}

/// Adding capacity can only help: when every belt keeps or gains capacity,
/// the maximum flow does not drop.
pub proof fn lemma_more_capacity_more_flow(g: &DiGraph, g2: &DiGraph, f: Seq<i64>, f2: Seq<i64>, s: int, t: int)
    requires
        g.wf(),
        g2.wf(),
        same_layout(g, g2),
        forall|i: int| 0 <= i < g.m() ==> #[trigger] g.cap(i) <= g2.cap(i),
        0 <= s < g.n(),
        0 <= t < g.n(),
        is_max_flow(g, f, s, t),
        is_max_flow(g2, f2, s, t),
    ensures
        flow_value(g, f, s) <= flow_value(g2, f2, s),
{
    lemma_flow_carries_over(g, g2, f, s, t);
    crate::flow::lemma_max_flow_is_maximum(g2, f2, f, s, t);
}

/// Pruning idle belts is safe: if a maximum flow leaves some forward arcs
/// unused, the same flow is a maximum flow, of the same value, once the
/// capacity of any number of them (all at once, in particular) is removed.
pub proof fn lemma_zero_flow_pruning(g: &DiGraph, g2: &DiGraph, f: Seq<i64>, s: int, t: int)
    requires
        g.wf(),
        g2.wf(),
        same_layout(g, g2),
        forall|i: int|
            0 <= i < g.m() ==> #[trigger] g2.cap(i) == g.cap(i) || (i % 2 == 0 && f[i] == 0 && g2.cap(i) == 0),
        0 <= s < g.n(),
        0 <= t < g.n(),
        is_max_flow(g, f, s, t),
    ensures
        is_max_flow(g2, f, s, t),
        flow_value(g2, f, s) == flow_value(g, f, s),
{
    assert forall|i: int| 0 <= i < g.m() implies #[trigger] f[i] <= g2.cap(i) by {
        if g2.cap(i) == g.cap(i) {
            assert(f[i] <= g.cap(i));
        }
    }
    lemma_flow_carries_over(g, g2, f, s, t);
    let side = choose|side: Seq<bool>| closed_cut(g, f, side, s, t);
    assert forall|i: int|
        0 <= i < g2.m() && #[trigger] side[g2.arc_from(i)] && rcap(g2, f, i) > 0 implies side[g2.arc_to(i)] by {
        assert(g2.arc_from(i) == g.arc_from(i));
        if g2.cap(i) == g.cap(i) {
            assert(rcap(g, f, i) > 0);
        }
    }
    assert(closed_cut(g2, f, side, s, t));
}

} // verus!
