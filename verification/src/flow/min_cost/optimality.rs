//! Optimality of minimum-cost flows through node potentials.
use vstd::prelude::*;
use crate::graph::{DiGraph, NodeId};
use crate::graph::residual::{is_flow, is_max_flow, flow_value, net_out, rcap, linear_cost, lemma_linear_cost};
use crate::flow::{MinCostFlowResult, max_flow_input};
use crate::error::StanchionError;
use crate::flow::min_cost::successive_shortest::ssp_outcome;
use crate::flow::min_cost::cycle_canceling::cc_outcome;
use crate::flow::min_cost::network_simplex::ns_outcome;
use crate::flow::lemma_max_flow_is_maximum;
use crate::flow::min_cost::rwalk::pos_fwd;
use crate::flow::push_relabel::lemma_value_is_sink_excess;
use crate::sums::{
    sum_to, twin, lemma_sum_ext, lemma_sum_add, lemma_sum_nonneg, lemma_sum_zero, lemma_sum_pairs_cancel,
};

verus! {

/// Reduced cost of arc `i` under integer node potentials `p`.
pub open spec fn reduced_cost(g: &DiGraph, p: Seq<int>, i: int) -> int {
    g.cost(i) + p[g.arc_from(i)] - p[g.arc_to(i)]
}

/// `p` certifies `f`: every arc with residual capacity under `f` has a
/// non-negative reduced cost.
pub open spec fn certifies(g: &DiGraph, f: Seq<i64>, p: Seq<int>) -> bool {
    &&& p.len() == g.n()
    &&& forall|i: int| 0 <= i < g.m() && rcap(g, f, i) > 0 ==> #[trigger] reduced_cost(g, p, i) >= 0
}

/// Some potentials certify `f`.
pub open spec fn certified(g: &DiGraph, f: Seq<i64>) -> bool {
    exists|p: Seq<int>| #[trigger] certifies(g, f, p)
}

/// The graph admits potentials under which no forward arc of positive
/// capacity has a negative reduced cost: equivalently, it has no cycle of
/// negative cost.  Non-negative arc costs are the common case (all-zero
/// potentials).
pub open spec fn feasible_potentials(g: &DiGraph) -> bool {
    exists|p: Seq<int>|
        p.len() == g.n() && forall|i: int|
            0 <= i < g.m() && #[trigger] pos_fwd(g)(i) ==> reduced_cost(g, p, i) >= 0
}

/// Over an even range closed under pairing, a sum equals the sum of its
/// terms taken at the paired indices.
proof fn lemma_sum_twin(m: int, f: spec_fn(int) -> int)
    requires
        m >= 0,
        m % 2 == 0,
    ensures
        sum_to(m, |i: int| f(twin(i))) == sum_to(m, f),
{
    let d = |i: int| f(i) - f(twin(i));
    assert forall|i: int| 0 <= i < m implies #[trigger] d(twin(i)) == -d(i) by {
        assert(twin(twin(i)) == i);
    }
    lemma_sum_pairs_cancel(m, d);
    let ft = |i: int| f(twin(i));
    let neg = |i: int| -ft(i);
    lemma_sum_add(m, f, neg, d);
    lemma_sum_add(m, ft, neg, |i: int| 0int);
    lemma_sum_zero(m, |i: int| 0int);
}

/// A constant factor moves out of a sum.
proof fn lemma_sum_scale(n: int, c: int, f: spec_fn(int) -> int)
    ensures
        sum_to(n, |i: int| c * f(i)) == c * sum_to(n, f),
    decreases n,
{
    if n > 0 {
        lemma_sum_scale(n - 1, c, f);
        let a = sum_to(n - 1, f);
        let b = f(n - 1);
        assert(c * (a + b) == c * a + c * b) by (nonlinear_arith);
    } else {
        assert(c * 0 == 0) by (nonlinear_arith);
    }
}

/// Net flow of `d` out of `v`.
spec fn net_diff(g: &DiGraph, d: spec_fn(int) -> int, v: int) -> int {
    sum_to(g.m(), |i: int| if g.arc_from(i) == v { d(i) } else { 0 })
}

/// Weighting each node's net outflow by its potential sums, arc by arc, to
/// the potential of each arc's tail times the arc's flow.
proof fn lemma_weighted_nodes(g: &DiGraph, d: spec_fn(int) -> int, p: Seq<int>, k: int)
    requires
        g.wf(),
        0 <= k <= g.n(),
    ensures
        sum_to(k, |v: int| p[v] * net_diff(g, d, v)) == sum_to(
            g.m(),
            |i: int| if g.arc_from(i) < k { p[g.arc_from(i)] * d(i) } else { 0 },
        ),
    decreases k,
{
    let m = g.m();
    if k == 0 {
        lemma_sum_zero(m, |i: int| if g.arc_from(i) < 0 { p[g.arc_from(i)] * d(i) } else { 0 });
    } else {
        lemma_weighted_nodes(g, d, p, k - 1);
        let prev = |i: int| if g.arc_from(i) < k - 1 { p[g.arc_from(i)] * d(i) } else { 0 };
        let at = |i: int| if g.arc_from(i) == k - 1 { p[k - 1] * d(i) } else { 0 };
        let cur = |i: int| if g.arc_from(i) < k { p[g.arc_from(i)] * d(i) } else { 0 };
        assert forall|i: int| 0 <= i < m implies #[trigger] cur(i) == prev(i) + at(i) by {}
        lemma_sum_add(m, prev, at, cur);
        let out = |i: int| if g.arc_from(i) == k - 1 { d(i) } else { 0 };
        lemma_sum_scale(m, p[k - 1], out);
        assert forall|i: int| 0 <= i < m implies #[trigger] at(i) == p[k - 1] * out(i) by {
            if g.arc_from(i) != k - 1 {
                assert(p[k - 1] * 0 == 0) by (nonlinear_arith);
            }
        }
        lemma_sum_ext(m, at, |i: int| p[k - 1] * out(i));
    }
}

/// Reduced-cost optimality: if node potentials give every residual arc of
/// a feasible flow a non-negative reduced cost, then no feasible flow of
/// the same value between the same terminals costs less.
pub proof fn lemma_potential_certificate(g: &DiGraph, f: Seq<i64>, h: Seq<i64>, s: int, t: int, p: Seq<int>)
    requires
        g.wf(),
        0 <= s < g.n(),
        0 <= t < g.n(),
        s != t,
        is_flow(g, f, s, t),
        is_flow(g, h, s, t),
        flow_value(g, f, s) == flow_value(g, h, s),
        certifies(g, f, p),
    ensures
        linear_cost(g, f) <= linear_cost(g, h),
{
    let n = g.n();
    let m = g.m();
    let d = |i: int| h[i] - f[i];
    // every node, the terminals included, has zero net difference
    assert forall|v: int| 0 <= v < n implies #[trigger] net_diff(g, d, v) == 0 by {
        let hv = |i: int| if g.arc_from(i) == v { h[i] as int } else { 0 };
        let fv = |i: int| if g.arc_from(i) == v { f[i] as int } else { 0 };
        let nf = |i: int| -fv(i);
        lemma_sum_add(m, fv, nf, |i: int| 0int);
        lemma_sum_zero(m, |i: int| 0int);
        lemma_sum_add(m, hv, nf, |i: int| if g.arc_from(i) == v { d(i) } else { 0 });
        assert(net_out(g, h, v) == sum_to(m, hv));
        assert(net_out(g, f, v) == sum_to(m, fv));
        assert(net_diff(g, d, v) == net_out(g, h, v) - net_out(g, f, v));
        if v == t {
            lemma_value_is_sink_excess(g, f, s, t);
            lemma_value_is_sink_excess(g, h, s, t);
        } else if v != s {
            assert(net_out(g, h, v) == 0);
            assert(net_out(g, f, v) == 0);
        }
    }
    // the potential terms cancel
    lemma_weighted_nodes(g, d, p, n);
    let tail = |i: int| p[g.arc_from(i)] * d(i);
    let tail_n = |i: int| if g.arc_from(i) < n { p[g.arc_from(i)] * d(i) } else { 0 };
    assert forall|i: int| 0 <= i < m implies #[trigger] tail_n(i) == tail(i) by {
        g.lemma_arc(i);
    }
    lemma_sum_ext(m, tail_n, tail);
    assert forall|v: int| 0 <= v < n implies #[trigger] (p[v] * net_diff(g, d, v)) == 0 by {
        assert(net_diff(g, d, v) == 0);
        assert(p[v] * 0 == 0) by (nonlinear_arith);
    }
    lemma_sum_zero(n, |v: int| p[v] * net_diff(g, d, v));
    let head = |i: int| p[g.arc_to(i)] * d(i);
    assert forall|i: int| 0 <= i < m implies #[trigger] head(i) == -tail(twin(i)) by {
        g.lemma_arc(i);
        assert(f[twin(i)] == -f[i]);
        assert(h[twin(i)] == -h[i]);
        let x = p[g.arc_to(i)];
        let y = d(i);
        assert(x * y == -(x * (-y))) by (nonlinear_arith);
    }
    lemma_sum_twin(m, tail);
    let neg_tail_twin = |i: int| -tail(twin(i));
    lemma_sum_ext(m, head, neg_tail_twin);
    lemma_sum_add(m, |i: int| tail(twin(i)), neg_tail_twin, |i: int| 0int);
    lemma_sum_zero(m, |i: int| 0int);
    // arc costs against reduced costs
    let dc = |i: int| d(i) * g.cost(i);
    let drc = |i: int| d(i) * reduced_cost(g, p, i);
    let nh = |i: int| -head(i);
    let mid = |i: int| dc(i) + tail(i);
    assert forall|i: int| 0 <= i < m implies #[trigger] drc(i) == mid(i) + nh(i) by {
        let x = d(i);
        let c = g.cost(i);
        let a = p[g.arc_from(i)];
        let b = p[g.arc_to(i)];
        assert(x * (c + a - b) == x * c + a * x - b * x) by (nonlinear_arith);
    }
    lemma_sum_add(m, dc, tail, mid);
    lemma_sum_add(m, mid, nh, drc);
    lemma_sum_add(m, head, nh, |i: int| 0int);
    // every reduced-cost term is non-negative
    assert forall|i: int| 0 <= i < m implies #[trigger] drc(i) >= 0 by {
        g.lemma_arc(i);
        assert(f[twin(i)] == -f[i]);
        assert(h[twin(i)] == -h[i]);
        assert(f[i] <= g.cap(i));
        assert(h[i] <= g.cap(i));
        assert(h[twin(i)] <= g.cap(twin(i)));
        let x = d(i);
        let r = reduced_cost(g, p, i);
        if x > 0 {
            assert(rcap(g, f, i) > 0);
            assert(r >= 0);
            assert(x * r >= 0) by (nonlinear_arith)
                requires
                    x > 0,
                    r >= 0,
            ;
        } else if x < 0 {
            assert(rcap(g, f, twin(i)) > 0);
            assert(reduced_cost(g, p, twin(i)) >= 0);
            assert(reduced_cost(g, p, twin(i)) == -r);
            assert(x * r >= 0) by (nonlinear_arith)
                requires
                    x < 0,
                    r <= 0,
            ;
        } else {
            assert(x * r == 0) by (nonlinear_arith)
                requires
                    x == 0,
            ;
        }
    }
    lemma_sum_nonneg(m, drc);
    // the arc-cost sum over all arcs is twice the cost difference
    let hc = |i: int| h[i] * g.cost(i);
    let fc = |i: int| f[i] * g.cost(i);
    let nfc = |i: int| -fc(i);
    assert forall|i: int| 0 <= i < m implies #[trigger] dc(i) == hc(i) + nfc(i) by {
        let a = h[i] as int;
        let b = f[i] as int;
        let c = g.cost(i);
        assert((a - b) * c == a * c - b * c) by (nonlinear_arith);
    }
    lemma_sum_add(m, hc, nfc, dc);
    lemma_sum_add(m, fc, nfc, |i: int| 0int);
    lemma_all_arcs_cost(g, h);
    lemma_all_arcs_cost(g, f);
    assert(sum_to(m, tail) == 0);
    assert(sum_to(m, head) == 0);
    assert(sum_to(m, drc) == sum_to(m, dc));
    assert(sum_to(m, dc) == sum_to(m, hc) - sum_to(m, fc));
}

/// Over all arcs, flow times cost counts each forward arc twice.
proof fn lemma_all_arcs_cost(g: &DiGraph, f: Seq<i64>)
    requires
        g.wf(),
        f.len() == g.m(),
        forall|i: int| 0 <= i < g.m() ==> #[trigger] f[twin(i)] == -f[i],
    ensures
        sum_to(g.m(), |i: int| f[i] * g.cost(i)) == 2 * linear_cost(g, f),
{
    let m = g.m();
    let all = |i: int| f[i] * g.cost(i);
    let even = |i: int| if i % 2 == 0 { f[i] * g.cost(i) } else { 0 };
    let odd = |i: int| if i % 2 == 0 { 0 } else { f[i] * g.cost(i) };
    assert forall|i: int| 0 <= i < m implies #[trigger] all(i) == even(i) + odd(i) by {}
    lemma_sum_add(m, even, odd, all);
    assert forall|i: int| 0 <= i < m implies #[trigger] odd(i) == even(twin(i)) by {
        g.lemma_arc(i);
        if i % 2 == 1 {
            g.lemma_arc(twin(i));
            let a = f[twin(i)] as int;
            let c = g.cost(twin(i));
            assert((-a) * (-c) == a * c) by (nonlinear_arith);
        }
    }
    lemma_sum_twin(m, even);
    lemma_sum_ext(m, odd, |i: int| even(twin(i)));
}

/// Successive shortest paths returns a cheapest flow: on a graph without a
/// negative-cost cycle, no feasible flow of the value it reports costs less
/// than the cost it reports.
pub proof fn lemma_ssp_min_cost(
    g: &DiGraph,
    s: NodeId,
    t: NodeId,
    demand: Option<i128>,
    res: MinCostFlowResult,
    other: Seq<i64>,
)
    requires
        max_flow_input(g, s, t),
        ssp_outcome(g, s.0 as int, t.0 as int, demand, Ok(res)),
        feasible_potentials(g),
        is_flow(g, other, s.0 as int, t.0 as int),
        flow_value(g, other, s.0 as int) == res.max_flow,
    ensures
        res.min_cost <= linear_cost(g, other),
{
    let f = res.flow_on_edge@;
    let p = choose|p: Seq<int>| #[trigger] certifies(g, f, p);
    lemma_potential_certificate(g, f, other, s.0 as int, t.0 as int, p);
    lemma_linear_cost(g, f);
}

/// Cycle canceling returns a cheapest flow: no feasible flow of the value
/// its flow carries costs less than the cost it reports.
pub proof fn lemma_cc_min_cost(
    g: &DiGraph,
    s: NodeId,
    t: NodeId,
    demand: Option<i128>,
    res: MinCostFlowResult,
    other: Seq<i64>,
)
    requires
        max_flow_input(g, s, t),
        cc_outcome(g, s.0 as int, t.0 as int, demand, Ok(res)),
        is_flow(g, other, s.0 as int, t.0 as int),
        flow_value(g, other, s.0 as int) == flow_value(g, res.flow_on_edge@, s.0 as int),
    ensures
        res.min_cost <= linear_cost(g, other),
{
    let f = res.flow_on_edge@;
    let p = choose|p: Seq<int>| #[trigger] certifies(g, f, p);
    lemma_potential_certificate(g, f, other, s.0 as int, t.0 as int, p);
    lemma_linear_cost(g, f);
}

/// Without a demand, cycle canceling and successive shortest paths agree on
/// a graph without negative-cost cycles: both carry the maximum flow value
/// and report the same cost.
pub proof fn lemma_cc_matches_ssp(g: &DiGraph, s: NodeId, t: NodeId, cc: MinCostFlowResult, ssp: MinCostFlowResult)
    requires
        max_flow_input(g, s, t),
        cc_outcome(g, s.0 as int, t.0 as int, None, Ok(cc)),
        ssp_outcome(g, s.0 as int, t.0 as int, None, Ok(ssp)),
        feasible_potentials(g),
    ensures
        cc.max_flow == ssp.max_flow,
        cc.min_cost == ssp.min_cost,
{
    let si = s.0 as int;
    let ti = t.0 as int;
    let fc = cc.flow_on_edge@;
    let fs = ssp.flow_on_edge@;
    let fm = choose|fm: Seq<i64>| #[trigger] is_max_flow(g, fm, si, ti) && flow_value(g, fm, si) == flow_value(g, fc, si);
    lemma_max_flow_is_maximum(g, fm, fs, si, ti);
    lemma_max_flow_is_maximum(g, fs, fm, si, ti);
    let pc = choose|p: Seq<int>| #[trigger] certifies(g, fc, p);
    let ps = choose|p: Seq<int>| #[trigger] certifies(g, fs, p);
    lemma_potential_certificate(g, fc, fs, si, ti, pc);
    lemma_potential_certificate(g, fs, fc, si, ti, ps);
    lemma_linear_cost(g, fc);
    lemma_linear_cost(g, fs);
}

/// Network simplex returns a cheapest flow wherever the graph admits
/// feasible potentials: no feasible flow of the value its flow carries costs
/// less than the cost it reports.
pub proof fn lemma_ns_min_cost(
    g: &DiGraph,
    s: NodeId,
    t: NodeId,
    demand: Option<i128>,
    res: MinCostFlowResult,
    other: Seq<i64>,
)
    requires
        max_flow_input(g, s, t),
        ns_outcome(g, s.0 as int, t.0 as int, demand, Ok(res)),
        feasible_potentials(g),
        is_flow(g, other, s.0 as int, t.0 as int),
        flow_value(g, other, s.0 as int) == flow_value(g, res.flow_on_edge@, s.0 as int),
    ensures
        res.min_cost <= linear_cost(g, other),
{
    let r = Ok::<MinCostFlowResult, StanchionError>(res);
    let q = choose|q: Result<MinCostFlowResult, StanchionError>| #[trigger] ssp_outcome(g, s.0 as int, t.0 as int, demand, q)
        && match q {
        Err(e) => r == Err::<MinCostFlowResult, StanchionError>(e),
        Ok(x) => r matches Ok(res) && {
            &&& res.max_flow == x.max_flow
            &&& is_flow(g, res.flow_on_edge@, s.0 as int, t.0 as int)
            &&& flow_value(g, res.flow_on_edge@, s.0 as int) == flow_value(g, x.flow_on_edge@, s.0 as int)
            &&& res.min_cost == linear_cost(g, res.flow_on_edge@)
            &&& res.min_cost <= x.min_cost
            &&& (feasible_potentials(g) ==> res.min_cost == x.min_cost)
        },
    };
    let x = q->Ok_0;
    lemma_ssp_min_cost(g, s, t, demand, x, other);
}

/// Network simplex agrees with successive shortest paths: on a graph with
/// feasible potentials both, asked for the same demand, report the same
/// flow value and the same cost.
pub proof fn lemma_ns_matches_ssp(
    g: &DiGraph,
    s: NodeId,
    t: NodeId,
    demand: Option<i128>,
    ns: MinCostFlowResult,
    ssp: MinCostFlowResult,
)
    requires
        max_flow_input(g, s, t),
        ns_outcome(g, s.0 as int, t.0 as int, demand, Ok(ns)),
        ssp_outcome(g, s.0 as int, t.0 as int, demand, Ok(ssp)),
        feasible_potentials(g),
    ensures
        ns.max_flow == ssp.max_flow,
        ns.min_cost == ssp.min_cost,
{
    let si = s.0 as int;
    let ti = t.0 as int;
    let r = Ok::<MinCostFlowResult, StanchionError>(ns);
    let q = choose|q: Result<MinCostFlowResult, StanchionError>| #[trigger] ssp_outcome(g, si, ti, demand, q)
        && match q {
        Err(e) => r == Err::<MinCostFlowResult, StanchionError>(e),
        Ok(x) => r matches Ok(res) && {
            &&& res.max_flow == x.max_flow
            &&& is_flow(g, res.flow_on_edge@, si, ti)
            &&& flow_value(g, res.flow_on_edge@, si) == flow_value(g, x.flow_on_edge@, si)
            &&& res.min_cost == linear_cost(g, res.flow_on_edge@)
            &&& res.min_cost <= x.min_cost
            &&& (feasible_potentials(g) ==> res.min_cost == x.min_cost)
        },
    };
    let x = q->Ok_0;
    let fx = x.flow_on_edge@;
    let fs = ssp.flow_on_edge@;
    if demand is None {
        lemma_max_flow_is_maximum(g, fx, fs, si, ti);
        lemma_max_flow_is_maximum(g, fs, fx, si, ti);
    }
    let px = choose|p: Seq<int>| #[trigger] certifies(g, fx, p);
    let ps = choose|p: Seq<int>| #[trigger] certifies(g, fs, p);
    lemma_potential_certificate(g, fx, fs, si, ti, px);
    lemma_potential_certificate(g, fs, fx, si, ti, ps);
    lemma_linear_cost(g, fx);
    lemma_linear_cost(g, fs);
}

} // verus!
