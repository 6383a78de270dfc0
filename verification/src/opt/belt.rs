//! What one more belt does to the maximum flow.
use vstd::prelude::*;
use crate::graph::{Capacity, Cost, DiGraph, Edge, NodeId};
use crate::graph::residual::{
    flow_bounded, is_flow, is_max_flow, flow_value, net_out, cut_capacity, closed_cut,
};
use crate::flow::{lemma_flow_le_cut, lemma_max_flow_min_cut, lemma_max_flow_is_maximum};
use crate::sums::{sum_to, twin, lemma_sum_ext};

verus! {

/// `g2` is `g` with one more belt from `u` to `w` of capacity `cap` and
/// cost `cost` (followed by the belt's residual partner).
pub open spec fn adds_belt(g: &DiGraph, g2: &DiGraph, u: NodeId, w: NodeId, cap: i64, cost: i64) -> bool {
    &&& g2.wf()
    &&& g2.n() == g.n()
    &&& g2.m() == g.m() + 2
    &&& forall|i: int| 0 <= i < g.m() ==> #[trigger] g2.edges@[i] == g.edges@[i]
    &&& g2.edges@[g.m()] == Edge { from: u, to: w, capacity: Capacity(cap), cost: Cost(cost) }
    &&& g2.edges@[g.m() + 1] == Edge { from: w, to: u, capacity: Capacity(0), cost: Cost((-cost) as i64) }
}

/// Adding the belt from `u` to `w` raises the maximum flow value of `g`
/// from `s` to `t` by exactly `gain`.
pub open spec fn belt_gain(g: &DiGraph, s: int, t: int, u: NodeId, w: NodeId, cap: i64, cost: i64, gain: int) -> bool {
    forall|g2: DiGraph, f: Seq<i64>, f2: Seq<i64>|
        adds_belt(g, &g2, u, w, cap, cost) && #[trigger] is_max_flow(g, f, s, t) && #[trigger] is_max_flow(&g2, f2, s, t)
            ==> flow_value(&g2, f2, s) == flow_value(g, f, s) + gain
}

/// The last two terms of a sum.
proof fn lemma_sum_two(m: int, h: spec_fn(int) -> int)
    requires
        m >= 0,
    ensures
        sum_to(m + 2, h) == sum_to(m, h) + h(m) + h(m + 1),
{
    assert(sum_to(m + 2, h) == sum_to(m + 1, h) + h(m + 1));
    assert(sum_to(m + 1, h) == sum_to(m, h) + h(m));
}

/// Two graphs with the same arcs and node count have the same flows, of
/// the same values.
proof fn lemma_same_arcs_flow(ga: &DiGraph, gb: &DiGraph, f: Seq<i64>, s: int, t: int)
    requires
        ga.wf(),
        gb.wf(),
        ga.n() == gb.n(),
        ga.edges@ == gb.edges@,
        is_flow(ga, f, s, t),
    ensures
        is_flow(gb, f, s, t),
        flow_value(gb, f, s) == flow_value(ga, f, s),
{
    assert forall|v: int| #[trigger] net_out(gb, f, v) == net_out(ga, f, v) by {
        let ha = |i: int| if ga.arc_from(i) == v { f[i] as int } else { 0 };
        let hb = |i: int| if gb.arc_from(i) == v { f[i] as int } else { 0 };
        lemma_sum_ext(ga.m(), hb, ha);
    }
    assert forall|v: int| 0 <= v < gb.n() && v != s && v != t implies #[trigger] net_out(gb, f, v) == 0 by {
        assert(net_out(ga, f, v) == 0);
    }
}

/// The belt's gain does not depend on how the extended graph is laid out.
proof fn lemma_same_arcs_max(ga: &DiGraph, gb: &DiGraph, fa: Seq<i64>, fb: Seq<i64>, s: int, t: int)
    requires
        ga.wf(),
        gb.wf(),
        ga.n() == gb.n(),
        ga.edges@ == gb.edges@,
        0 <= s < ga.n(),
        0 <= t < ga.n(),
        is_max_flow(ga, fa, s, t),
        is_max_flow(gb, fb, s, t),
    ensures
        flow_value(ga, fa, s) == flow_value(gb, fb, s),
{
    lemma_same_arcs_flow(ga, gb, fa, s, t);
    lemma_same_arcs_flow(gb, ga, fb, s, t);
    lemma_max_flow_is_maximum(gb, fb, fa, s, t);
    lemma_max_flow_is_maximum(ga, fa, fb, s, t);
}

/// A new belt of capacity `cap` raises the maximum flow by at least zero
/// and at most `cap`: a maximum flow of `g`, with nothing on the new belt,
/// is a flow of `g2`; and the cut that the maximum flow of `g` saturates
/// gains at most the new belt's capacity.
pub proof fn lemma_belt_bounds(g: &DiGraph, g2: &DiGraph, u: NodeId, w: NodeId, cap: i64, cost: i64, f: Seq<i64>, f2: Seq<i64>, s: int, t: int)
    requires
        g.wf(),
        adds_belt(g, g2, u, w, cap, cost),
        cap >= 0,
        0 <= s < g.n(),
        0 <= t < g.n(),
        is_max_flow(g, f, s, t),
        is_max_flow(g2, f2, s, t),
    ensures
        flow_value(g, f, s) <= flow_value(g2, f2, s) <= flow_value(g, f, s) + cap,
{
    let m = g.m();
    // the old flow, extended by nothing on the new belt
    let fe = f + seq![0i64, 0i64];
    assert forall|i: int| 0 <= i < g2.m() implies #[trigger] fe[twin(i)] == -fe[i] && fe[i] <= g2.cap(i) by {
        g2.lemma_arc(i);
        if i < m {
            g.lemma_arc(i);
            assert(g2.edges@[i] == g.edges@[i]);
            assert(fe[i] == f[i]);
            assert(fe[twin(i)] == f[twin(i)]);
        }
    }
    assert(flow_bounded(g2, fe));
    assert forall|v: int| #[trigger] net_out(g2, fe, v) == net_out(g, f, v) by {
        let h2 = |i: int| if g2.arc_from(i) == v { fe[i] as int } else { 0 };
        let h = |i: int| if g.arc_from(i) == v { f[i] as int } else { 0 };
        assert forall|i: int| 0 <= i < m implies #[trigger] h2(i) == h(i) by {
            assert(g2.edges@[i] == g.edges@[i]);
        }
        lemma_sum_ext(m, h2, h);
        lemma_sum_two(m, h2);
    }
    assert forall|v: int| 0 <= v < g2.n() && v != s && v != t implies #[trigger] net_out(g2, fe, v) == 0 by {
        assert(net_out(g, f, v) == 0);
    }
    lemma_max_flow_is_maximum(g2, f2, fe, s, t);
    // the saturated cut of g
    let side = choose|side: Seq<bool>| closed_cut(g, f, side, s, t);
    lemma_max_flow_min_cut(g, f, s, t, side);
    lemma_flow_le_cut(g2, f2, s, t, side);
    let h2 = |i: int| if side[g2.arc_from(i)] && !side[g2.arc_to(i)] { g2.cap(i) } else { 0 };
    let h = |i: int| if side[g.arc_from(i)] && !side[g.arc_to(i)] { g.cap(i) } else { 0 };
    assert forall|i: int| 0 <= i < m implies #[trigger] h2(i) == h(i) by {
        assert(g2.edges@[i] == g.edges@[i]);
    }
    lemma_sum_ext(m, h2, h);
    lemma_sum_two(m, h2);
}

/// The gain measured on one extended graph is the gain of the belt.
pub proof fn lemma_belt_gain(g: &DiGraph, g2: &DiGraph, u: NodeId, w: NodeId, cap: i64, cost: i64, f: Seq<i64>, f2: Seq<i64>, s: int, t: int)
    requires
        g.wf(),
        adds_belt(g, g2, u, w, cap, cost),
        0 <= s < g.n(),
        0 <= t < g.n(),
        is_max_flow(g, f, s, t),
        is_max_flow(g2, f2, s, t),
    ensures
        belt_gain(g, s, t, u, w, cap, cost, flow_value(g2, f2, s) - flow_value(g, f, s)),
{
    assert forall|g3: DiGraph, fa: Seq<i64>, f3: Seq<i64>|
        adds_belt(g, &g3, u, w, cap, cost) && #[trigger] is_max_flow(g, fa, s, t) && #[trigger] is_max_flow(&g3, f3, s, t)
            implies flow_value(&g3, f3, s) == flow_value(g, fa, s) + (flow_value(g2, f2, s) - flow_value(g, f, s)) by {
        assert(g3.edges@ =~= g2.edges@) by {
            assert forall|i: int| 0 <= i < g2.m() implies g3.edges@[i] == g2.edges@[i] by {
                if i < g.m() {
                    assert(g3.edges@[i] == g.edges@[i]);
                    assert(g2.edges@[i] == g.edges@[i]);
                }
            }
        }
        lemma_same_arcs_max(&g3, g2, f3, f2, s, t);
        lemma_max_flow_is_maximum(g, fa, f, s, t);
        lemma_max_flow_is_maximum(g, f, fa, s, t);
    }
}

} // verus!
