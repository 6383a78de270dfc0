//! Negative-cycle canceling for minimum-cost flow.
use vstd::prelude::*;
use crate::error::StanchionError;
use crate::graph::{Capacity, Cost, DiGraph, Edge, NodeData, NodeId, ResidualGraph};
use crate::flow::min_cost::entry::{entry_graph, entry_arc, lemma_entry_value, lemma_entry_restrict};
use crate::graph::residual::{
    rcap, flow_bounded, lemma_rcap_range, is_flow, flow_value, flow_cost, is_max_flow, net_out,
    lemma_push, lemma_flow_cost_push, lemma_flow_cost_bound, cost_ceiling, cost_magnitude, arc_cost_term, abs_int, lemma_cost_term, ceiling_term,
};
use crate::sums::{sum_to, twin, lemma_sum_le};
use crate::flow::min_cost::labels::{
    NO_PARENT, parents_ok, links_ok, labels_below, found_entry, anc, cycle_cost, lemma_links_start,
    lemma_labels_start, lemma_links_relax, lemma_labels_step, lemma_labels_round, lemma_walk_back, lemma_anc_next,
    lemma_cycle_negative, lemma_return_distinct,
};
use crate::flow::min_cost::optimality::{certified, certifies, reduced_cost};
use crate::flow::{MinCostFlowResult, MinCostFlowSolver, MaxFlowSolver};
use crate::flow::dinic::Dinic;

verus! {

/// Negative-cycle canceling min-cost flow.
///
/// Phase 1: find a max-flow ignoring costs (Dinic's algorithm).
/// Phase 2: repeatedly detect a negative-cost cycle in the residual graph
/// using a multi-source Bellman-Ford, and cancel it by pushing the maximum
/// possible flow around it; stop when none is found.  Every cancellation
/// lowers the cost by at least one, so the search ends, with no negative
/// cycle left, and its distances certify the flow as a cheapest one of its
/// value.
pub struct CycleCanceling;

/// `c` lists distinct arcs of positive residual capacity, each leaving the
/// node the next one enters, the last leaving the node the first enters:
/// followed backwards they form a closed walk.
pub open spec fn residual_cycle(g: &DiGraph, f: Seq<i64>, c: Seq<usize>) -> bool {
    &&& c.len() >= 1
    &&& forall|k: int| 0 <= k < c.len() ==> (#[trigger] c[k] as int) < g.m() && rcap(g, f, c[k] as int) > 0
    &&& forall|a: int, b: int| 0 <= a < b < c.len() ==> #[trigger] c[a] != #[trigger] c[b]
    &&& forall|k: int| 0 <= k < c.len() - 1 ==> g.arc_from(#[trigger] c[k] as int) == g.arc_to(c[k + 1] as int)
    &&& g.arc_from(c[c.len() - 1] as int) == g.arc_to(c[0] as int)
}

/// One flow entry per arc, and every residual capacity fits an `i64`.
pub open spec fn rcap_fits(g: &DiGraph, f: Seq<i64>) -> bool {
    &&& f.len() == g.m()
    &&& forall|i: int| 0 <= i < g.m() ==> #[trigger] rcap(g, f, i) <= i64::MAX
}

/// Multi-source Bellman-Ford over residual arcs with positive capacity.
/// All distances start at 0 (a virtual super-source joined to every node
/// at cost 0), so negative cycles reachable from anywhere are found.
/// Returns the arc indices of a cycle of negative cost, or None when the
/// final distances certify the flow: no residual arc then has a negative
/// reduced cost under them.
fn find_negative_cycle(res: &ResidualGraph) -> (r: Option<Vec<usize>>)
    requires
        res.graph.wf(),
        rcap_fits(res.graph, res.flow@),
        res.graph.n() >= 1,
    ensures
        match r {
            Some(c) => residual_cycle(res.graph, res.flow@, c@) && cycle_cost(res.graph, c@) < 0,
            None => certified(res.graph, res.flow@),
        },
{
    let g = res.graph;
    let ghost f = res.flow@;
    let n = g.node_count();
    let m = g.edges.len();
    let ghost kk = i64::MAX as int;
    let mut dist: Vec<i128> = Vec::new();
    let mut parent: Vec<usize> = Vec::new();
    let ghost mut stamp: Seq<int> = Seq::empty();
    let mut k: usize = 0;
    while k < n
        invariant
            k <= n,
            dist@.len() == k,
            parent@.len() == k,
            stamp.len() == k,
            forall|w: int| 0 <= w < k ==> #[trigger] dist@[w] == 0,
            forall|w: int| 0 <= w < k ==> #[trigger] parent@[w] == NO_PARENT,
            forall|w: int| 0 <= w < k ==> #[trigger] stamp[w] == 0,
        decreases n - k,
    {
        dist.push(0);
        parent.push(NO_PARENT);
        proof {
            stamp = stamp.push(0);
        }
        k += 1;
    }
    let ghost mut clock: int = 1;
    proof {
        assert((n - 1) * m + 1 <= 0xFFFF_FFFF * 0xFFFF_FFFF + 1) by (nonlinear_arith)
            requires
                1 <= n <= 0xFFFF_FFFF,
                0 <= m <= 0xFFFF_FFFF,
        ;
        assert((0xFFFF_FFFF * 0xFFFF_FFFF + 1) * kk <= 0x7FFF_FFFF_FFFF_FFFF_FFFF_FFFF_FFFF_FFFF) by (nonlinear_arith)
            requires
                kk == 0x7FFF_FFFF_FFFF_FFFF,
        ;
        lemma_links_start(g, dist@, parent@, stamp);
        lemma_labels_start(g, f, dist@);
    }
    let ghost mut ops: int = 0;
    // n-1 relaxation rounds
    let mut r: usize = 0;
    while r < n - 1
        invariant
            g.wf(),
            g == res.graph,
            f == res.flow@,
            rcap_fits(g, f),
            n == g.n(),
            m == g.m(),
            kk == i64::MAX,
            n >= 1,
            r <= n - 1,
            ops == r * m,
            (n - 1) * m + 1 <= 0xFFFF_FFFF * 0xFFFF_FFFF + 1,
            (0xFFFF_FFFF * 0xFFFF_FFFF + 1) * kk <= 0x7FFF_FFFF_FFFF_FFFF_FFFF_FFFF_FFFF_FFFF,
            dist@.len() == n,
            parents_ok(g, f, parent@),
            links_ok(g, dist@, parent@, stamp, clock),
            labels_below(g, f, dist@, r as int, 0),
            forall|v: int| 0 <= v < n ==> -(ops * kk) <= #[trigger] dist@[v] <= 0,
        decreases n - 1 - r,
    {
        let mut e: usize = 0;
        while e < m
            invariant
                g.wf(),
                g == res.graph,
                f == res.flow@,
                rcap_fits(g, f),
                n == g.n(),
                m == g.m(),
                kk == i64::MAX,
                n >= 1,
                r < n - 1,
                e <= m,
                ops == r * m + e,
                (n - 1) * m + 1 <= 0xFFFF_FFFF * 0xFFFF_FFFF + 1,
                (0xFFFF_FFFF * 0xFFFF_FFFF + 1) * kk <= 0x7FFF_FFFF_FFFF_FFFF_FFFF_FFFF_FFFF_FFFF,
                dist@.len() == n,
                parents_ok(g, f, parent@),
                links_ok(g, dist@, parent@, stamp, clock),
                labels_below(g, f, dist@, r as int, e as int),
                forall|v: int| 0 <= v < n ==> -(ops * kk) <= #[trigger] dist@[v] <= 0,
            decreases m - e,
        {
            proof {
                g.lemma_arc(e as int);
                assert(ops + 1 <= (n - 1) * m) by (nonlinear_arith)
                    requires
                        ops == r * m + e,
                        r + 1 <= n - 1,
                        e < m,
                ;
                assert(ops * kk + kk == (ops + 1) * kk) by (nonlinear_arith);
                assert((ops + 1) * kk <= (0xFFFF_FFFF * 0xFFFF_FFFF + 1) * kk) by (nonlinear_arith)
                    requires
                        ops + 1 <= 0xFFFF_FFFF * 0xFFFF_FFFF + 1,
                        kk >= 0,
                ;
            }
            let ghost d0 = dist@;
            if res.residual_capacity(e) > 0 {
                let u = g.edges[e].from.0 as usize;
                let v = g.edges[e].to.0 as usize;
                let w = res.edge_cost(e) as i128;
                if dist[u] + w < dist[v] {
                    let ghost par0 = parent@;
                    let ghost st0 = stamp;
                    dist.set(v, dist[u] + w);
                    parent.set(v, e);
                    proof {
                        stamp = stamp.update(v as int, clock);
                        lemma_links_relax(g, f, d0, par0, st0, clock, e as int, dist@, parent@, stamp);
                        clock = clock + 1;
                    }
                }
            }
            proof {
                lemma_labels_step(g, f, d0, dist@, r as int, e as int);
                ops = ops + 1;
                assert forall|x: int| 0 <= x < n implies -(ops * kk) <= #[trigger] dist@[x] <= 0 by {
                    assert((ops - 1) * kk <= ops * kk) by (nonlinear_arith)
                        requires
                            kk >= 0,
                    ;
                }
            }
            e += 1;
        }
        proof {
            assert(ops == (r + 1) * m) by (nonlinear_arith)
                requires
                    ops == r * m + m,
            ;
            lemma_labels_round(g, f, dist@, r as int);
        }
        r += 1;
    }
    // one more round: any relaxation reveals a negative cycle
    let ghost pre = parent@;
    let mut cycle_entry: usize = NO_PARENT;
    let mut e: usize = 0;
    while e < m
        invariant_except_break
            cycle_entry == NO_PARENT,
            parent@ == pre,
        invariant
            g.wf(),
            g == res.graph,
            f == res.flow@,
            rcap_fits(g, f),
            n == g.n(),
            m == g.m(),
            kk == i64::MAX,
            n >= 1,
            e <= m,
            ops == (n - 1) * m,
            (n - 1) * m + 1 <= 0xFFFF_FFFF * 0xFFFF_FFFF + 1,
            (0xFFFF_FFFF * 0xFFFF_FFFF + 1) * kk <= 0x7FFF_FFFF_FFFF_FFFF_FFFF_FFFF_FFFF_FFFF,
            dist@.len() == n,
            parents_ok(g, f, pre),
            links_ok(g, dist@, pre, stamp, clock),
            labels_below(g, f, dist@, n - 1, 0),
            forall|v: int| 0 <= v < n ==> -(ops * kk) <= #[trigger] dist@[v] <= 0,
            forall|i: int|
                0 <= i < e && rcap(g, f, i) > 0 ==> #[trigger] dist@[g.arc_from(i)] + g.cost(i) >= dist@[g.arc_to(i)],
        ensures
            cycle_entry == NO_PARENT ==> forall|i: int|
                0 <= i < m && rcap(g, f, i) > 0 ==> #[trigger] dist@[g.arc_from(i)] + g.cost(i) >= dist@[g.arc_to(i)],
            cycle_entry != NO_PARENT ==> found_entry(g, f, dist@, pre, stamp, clock, parent@, cycle_entry as int),
        decreases m - e,
    {
        proof {
            g.lemma_arc(e as int);
            assert(ops * kk + kk == (ops + 1) * kk) by (nonlinear_arith);
            assert((ops + 1) * kk <= (0xFFFF_FFFF * 0xFFFF_FFFF + 1) * kk) by (nonlinear_arith)
                requires
                    ops + 1 <= 0xFFFF_FFFF * 0xFFFF_FFFF + 1,
                    kk >= 0,
            ;
        }
        if res.residual_capacity(e) > 0 {
            let u = g.edges[e].from.0 as usize;
            let v = g.edges[e].to.0 as usize;
            let w = res.edge_cost(e) as i128;
            if dist[u] + w < dist[v] {
                parent.set(v, e);
                cycle_entry = v;
                proof {
                    assert forall|x: int| 0 <= x < g.n() && #[trigger] parent@[x] != NO_PARENT implies (parent@[x] as int)
                        < g.m() && g.arc_to(parent@[x] as int) == x && rcap(g, f, parent@[x] as int) > 0 by {
                        if x != v {
                            assert(parent@[x] == pre[x]);
                        }
                    }
                }
                break;
            }
        }
        e += 1;
    }
    if cycle_entry == NO_PARENT {
        proof {
            let p = Seq::new(n as nat, |x: int| dist@[x] as int);
            assert forall|i: int| 0 <= i < g.m() && rcap(g, f, i) > 0 implies #[trigger] reduced_cost(g, p, i) >= 0 by {
                g.lemma_arc(i);
            }
            assert(certifies(g, f, p));
        }
        return None;
    }
    // walk n steps back from cycle_entry so we land inside the cycle
    let ghost v0 = cycle_entry as int;
    let ghost per = lemma_walk_back(g, f, dist@, pre, stamp, clock, parent@, v0);
    let mut v = cycle_entry;
    let mut k: usize = 0;
    while k < n
        invariant
            g.wf(),
            g == res.graph,
            n == g.n(),
            parents_ok(g, f, parent@),
            k <= n,
            1 <= per <= n,
            v == anc(g, parent@, v0, k as nat),
            forall|j: nat| j <= n + per ==> 0 <= #[trigger] anc(g, parent@, v0, j) < n && parent@[anc(
                g,
                parent@,
                v0,
                j,
            )] != NO_PARENT,
        decreases n - k,
    {
        proof {
            lemma_anc_next(g, f, parent@, v0, k as nat);
        }
        let idx = parent[v];
        v = g.edges[idx].from.0 as usize;
        k += 1;
    }
    // trace the cycle until we return to its start
    let start = v;
    let mut cycle: Vec<usize> = Vec::new();
    loop
        invariant_except_break
            cycle@.len() < per,
            forall|t: int| 0 < t <= cycle@.len() ==> #[trigger] anc(g, parent@, v0, (n + t) as nat) != start,
        invariant
            g.wf(),
            g == res.graph,
            f == res.flow@,
            n == g.n(),
            parents_ok(g, f, parent@),
            1 <= per <= n,
            start == anc(g, parent@, v0, n as nat),
            v == anc(g, parent@, v0, (n + cycle@.len()) as nat),
            anc(g, parent@, v0, (n + per) as nat) == anc(g, parent@, v0, n as nat),
            forall|j: nat| j <= n + per ==> 0 <= #[trigger] anc(g, parent@, v0, j) < n && parent@[anc(
                g,
                parent@,
                v0,
                j,
            )] != NO_PARENT,
            forall|t: int| 0 <= t < cycle@.len() ==> #[trigger] cycle@[t] == parent@[anc(g, parent@, v0, (n + t) as nat)],
        ensures
            1 <= cycle@.len() <= per,
            anc(g, parent@, v0, (n + cycle@.len()) as nat) == start,
            forall|t: int| 0 < t < cycle@.len() ==> #[trigger] anc(g, parent@, v0, (n + t) as nat) != start,
            forall|t: int| 0 <= t < cycle@.len() ==> #[trigger] cycle@[t] == parent@[anc(g, parent@, v0, (n + t) as nat)],
        decreases per - cycle@.len(),
    {
        proof {
            lemma_anc_next(g, f, parent@, v0, (n + cycle@.len()) as nat);
        }
        let idx = parent[v];
        let ghost c0 = cycle@;
        cycle.push(idx);
        v = g.edges[idx].from.0 as usize;
        proof {
            assert(v == anc(g, parent@, v0, (n + cycle@.len()) as nat));
            assert forall|t: int| 0 <= t < cycle@.len() implies #[trigger] cycle@[t] == parent@[anc(
                g,
                parent@,
                v0,
                (n + t) as nat,
            )] by {
                if t < c0.len() {
                    assert(cycle@[t] == c0[t]);
                }
            }
        }
        if v == start {
            break;
        }
        if cycle.len() - 1 > n {
            // cannot happen: the walk back returns to its start within n steps
            break;
        }
    }
    proof {
        let c = cycle@;
        let l = c.len() as int;
        lemma_cycle_negative(g, f, dist@, pre, stamp, clock, parent@, v0, n as nat, c);
        assert forall|t: int| 0 <= t < l implies (#[trigger] c[t] as int) < g.m() && rcap(g, f, c[t] as int) > 0 by {
            lemma_anc_next(g, f, parent@, v0, (n + t) as nat);
        }
        assert forall|a: int, b: int| 0 <= a < b < l implies #[trigger] c[a] != #[trigger] c[b] by {
            lemma_return_distinct(g, parent@, v0, n as nat, l, a, b);
            lemma_anc_next(g, f, parent@, v0, (n + a) as nat);
            lemma_anc_next(g, f, parent@, v0, (n + b) as nat);
        }
        assert forall|t: int| 0 <= t < l - 1 implies g.arc_from(#[trigger] c[t] as int) == g.arc_to(c[t + 1] as int) by {
            lemma_anc_next(g, f, parent@, v0, (n + t) as nat);
            lemma_anc_next(g, f, parent@, v0, (n + t + 1) as nat);
        }
        lemma_anc_next(g, f, parent@, v0, (n + l - 1) as nat);
        lemma_anc_next(g, f, parent@, v0, n as nat);
    }
    Some(cycle)
}

/// `b` is the smallest residual capacity along the cycle `c`.
pub open spec fn is_bottleneck(g: &DiGraph, f: Seq<i64>, c: Seq<usize>, b: int) -> bool {
    &&& forall|j: int| 0 <= j < c.len() ==> b <= #[trigger] rcap(g, f, c[j] as int)
    &&& exists|j: int| 0 <= j < c.len() && b == rcap(g, f, c[j] as int)
}

/// Push as much flow as possible around the given cycle: the bottleneck
/// amount goes along every arc of the cycle (and back along its twin), so
/// the cost drops by the bottleneck times the cycle's cost.
fn cancel_cycle(res: &mut ResidualGraph, cycle: &Vec<usize>)
    requires
        old(res).graph.wf(),
        flow_bounded(old(res).graph, old(res).flow@),
        residual_cycle(old(res).graph, old(res).flow@, cycle@),
        cycle_cost(old(res).graph, cycle@) < 0,
    ensures
        final(res).graph == old(res).graph,
        flow_bounded(final(res).graph, final(res).flow@),
        flow_cost(final(res).graph, final(res).flow@) < flow_cost(old(res).graph, old(res).flow@),
        forall|v: int| #[trigger] net_out(final(res).graph, final(res).flow@, v) == net_out(old(res).graph, old(res).flow@, v),
        exists|b: int| {
            &&& is_bottleneck(old(res).graph, old(res).flow@, cycle@, b)
            &&& flow_cost(final(res).graph, final(res).flow@) == flow_cost(old(res).graph, old(res).flow@) + b
                * cycle_cost(old(res).graph, cycle@)
            &&& forall|i: int|
                0 <= i < old(res).graph.m() ==> #[trigger] final(res).flow@[i] == old(res).flow@[i] + (if pushed_before(
                    cycle@,
                    cycle@.len() as int,
                    i,
                ) {
                    b
                } else {
                    0
                }) - (if pushed_before(cycle@, cycle@.len() as int, twin(i)) {
                    b
                } else {
                    0
                })
        },
{
    let ghost g = res.graph;
    let ghost f0 = res.flow@;
    let c = cycle;
    let mut bottleneck: i64 = i64::MAX;
    let mut k: usize = 0;
    while k < c.len()
        invariant
            res.graph == g,
            res.flow@ == f0,
            g.wf(),
            flow_bounded(g, f0),
            residual_cycle(g, f0, c@),
            k <= c.len(),
            1 <= bottleneck,
            forall|j: int| 0 <= j < k ==> bottleneck <= #[trigger] rcap(g, f0, c@[j] as int),
            k == 0 ==> bottleneck == i64::MAX,
            k > 0 ==> exists|j: int| 0 <= j < k && bottleneck == rcap(g, f0, c@[j] as int),
        decreases c.len() - k,
    {
        proof {
            lemma_rcap_range(g, f0, c@[k as int] as int);
        }
        let x = res.residual_capacity(c[k]);
        if x < bottleneck {
            bottleneck = x;
        }
        proof {
            if bottleneck == x {
                assert(bottleneck == rcap(g, f0, c@[k as int] as int));
            }
        }
        k += 1;
    }
    if bottleneck <= 0 {
        return;
    }
    let ghost b = bottleneck as int;
    let ghost l = c@.len() as int;
    let mut k: usize = 0;
    while k < c.len()
        invariant
            res.graph == g,
            g.wf(),
            flow_bounded(g, f0),
            flow_bounded(g, res.flow@),
            residual_cycle(g, f0, c@),
            l == c@.len(),
            k <= c.len(),
            b == bottleneck,
            1 <= b,
            cycle_cost(g, c@) < 0,
            flow_cost(g, res.flow@) == flow_cost(g, f0) + b * sum_to(k as int, |t: int| g.cost(c@[t] as int)),
            forall|j: int| 0 <= j < l ==> bottleneck <= #[trigger] rcap(g, f0, c@[j] as int),
            forall|i: int|
                0 <= i < g.m() ==> #[trigger] res.flow@[i] == f0[i] + (if pushed_before(c@, k as int, i) {
                    b
                } else {
                    0
                }) - (if pushed_before(c@, k as int, twin(i)) {
                    b
                } else {
                    0
                }),
            forall|v: int|
                #[trigger] net_out(g, res.flow@, v) == net_out(g, f0, v) + (if k > 0 && v == g.arc_from(c@[k - 1] as int) {
                    b
                } else {
                    0
                }) - (if k > 0 && v == g.arc_to(c@[0] as int) {
                    b
                } else {
                    0
                }),
        decreases c.len() - k,
    {
        let e = c[k];
        let ghost f1 = res.flow@;
        proof {
            g.lemma_arc(e as int);
            assert(!pushed_before(c@, k as int, e as int)) by {
                if pushed_before(c@, k as int, e as int) {
                    let j = choose|j: int| 0 <= j < k && c@[j] == e as int;
                    assert(c@[j] != c@[k as int]);
                }
            }
            assert(bottleneck <= rcap(g, f0, c@[k as int] as int));
            assert(f1[e as int] <= f0[e as int]);
            lemma_rcap_range(g, f1, e as int);
            lemma_rcap_range(g, f1, twin(e as int));
            lemma_push(g, f1, e as int, b);
            lemma_flow_cost_push(g, f1, e as int, b);
        }
        res.push_flow(e, bottleneck);
        proof {
            let f2 = res.flow@;
            let cc = |t: int| g.cost(c@[t] as int);
            assert(sum_to(k + 1, cc) == sum_to(k as int, cc) + cc(k as int));
            assert(b * sum_to(k + 1, cc) == b * sum_to(k as int, cc) + b * cc(k as int)) by (nonlinear_arith)
                requires
                    sum_to(k + 1, cc) == sum_to(k as int, cc) + cc(k as int),
            ;
            assert forall|i: int|
                0 <= i < g.m() implies #[trigger] f2[i] == f0[i] + (if pushed_before(c@, k + 1, i) {
                    b
                } else {
                    0
                }) - (if pushed_before(c@, k + 1, twin(i)) {
                    b
                } else {
                    0
                }) by {
                g.lemma_arc(i);
                if pushed_before(c@, k as int, i) {
                    assert(pushed_before(c@, k + 1, i));
                }
                if pushed_before(c@, k as int, twin(i)) {
                    assert(pushed_before(c@, k + 1, twin(i)));
                }
                if i == e as int {
                    assert(pushed_before(c@, k + 1, i));
                }
                if twin(i) == e as int {
                    assert(pushed_before(c@, k + 1, twin(i)));
                    assert(i == twin(e as int));
                }
                if pushed_before(c@, k + 1, i) && !pushed_before(c@, k as int, i) {
                    let j = choose|j: int| 0 <= j < k + 1 && c@[j] == i;
                    assert(j == k);
                }
                if pushed_before(c@, k + 1, twin(i)) && !pushed_before(c@, k as int, twin(i)) {
                    let j = choose|j: int| 0 <= j < k + 1 && c@[j] == twin(i);
                    assert(j == k);
                }
                if i != e as int && i != twin(e as int) {
                    assert(f2[i] == f1[i]);
                }
            }
            assert forall|v: int|
                #[trigger] net_out(g, f2, v) == net_out(g, f0, v) + (if v == g.arc_from(c@[k as int] as int) {
                    b
                } else {
                    0
                }) - (if v == g.arc_to(c@[0] as int) {
                    b
                } else {
                    0
                }) by {
                if k > 0 {
                    assert(g.arc_from(c@[k - 1] as int) == g.arc_to(c@[k as int] as int));
                }
            }
        }
        k += 1;
    }
    proof {
        let s = sum_to(l, |t: int| g.cost(c@[t] as int));
        assert(b * s < 0) by (nonlinear_arith)
            requires
                b >= 1,
                s < 0,
        ;
        assert(is_bottleneck(g, f0, c@, b));
    }
}

/// Arc `i` is among the first `k` arcs of `c`.
pub open spec fn pushed_before(c: Seq<usize>, k: int, i: int) -> bool {
    exists|j: int| 0 <= j < k && c[j] == i
}


/// The cost magnitude of a bounded flow lies within the cost ceiling.
proof fn lemma_magnitude_ceiling(g: &DiGraph, f: Seq<i64>)
    requires
        g.wf(),
        flow_bounded(g, f),
    ensures
        cost_magnitude(g, f) <= cost_ceiling(g),
{
    let a = |i: int| abs_int(arc_cost_term(g, f, i));
    let c = |i: int| ceiling_term(g, i);
    assert forall|i: int| 0 <= i < g.m() implies #[trigger] a(i) <= c(i) by {
        lemma_cost_term(g, f, i);
    }
    lemma_sum_le(g.m(), a, c);
}

/// The value cycle canceling aims at: the demand, taken as zero when
/// negative, when it is below the maximum flow value `vm`; `vm` otherwise.
pub open spec fn cc_target(demand: Option<i128>, vm: int) -> int {
    match demand {
        Some(d) => if d < vm {
            if d < 0 {
                0
            } else {
                d as int
            }
        } else {
            vm
        },
        None => vm,
    }
}

/// What cycle canceling delivers: a flow of the target value (the demand
/// when it is below the maximum flow value, the maximum value otherwise),
/// certified cheapest by node potentials, its value and its cost.
pub open spec fn cc_outcome(g: &DiGraph, s: int, t: int, demand: Option<i128>, r: Result<MinCostFlowResult, StanchionError>) -> bool {
    r matches Ok(res) && {
        let v = flow_value(g, res.flow_on_edge@, s);
        &&& is_flow(g, res.flow_on_edge@, s, t)
        &&& exists|f: Seq<i64>| #[trigger] is_max_flow(g, f, s, t) && v == cc_target(demand, flow_value(g, f, s))
        &&& res.min_cost == flow_cost(g, res.flow_on_edge@)
        &&& res.max_flow == v
        &&& certified(g, res.flow_on_edge@)
    }
}

/// Cancels negative-cost cycles until none remains.  Every cancellation
/// lowers the cost by at least one, and the cost of a bounded flow never
/// drops below minus the cost ceiling, so this ends.
fn cancel_all(res: &mut ResidualGraph)
    requires
        old(res).graph.wf(),
        old(res).graph.n() >= 1,
        flow_bounded(old(res).graph, old(res).flow@),
    ensures
        final(res).graph == old(res).graph,
        flow_bounded(final(res).graph, final(res).flow@),
        forall|v: int| #[trigger] net_out(final(res).graph, final(res).flow@, v) == net_out(old(res).graph, old(res).flow@, v),
        certified(final(res).graph, final(res).flow@),
{
    let ghost g = res.graph;
    let ghost f0 = res.flow@;
    loop
        invariant
            g.wf(),
            g.n() >= 1,
            res.graph == g,
            flow_bounded(g, res.flow@),
            forall|v: int| #[trigger] net_out(g, res.flow@, v) == net_out(g, f0, v),
        ensures
            flow_bounded(g, res.flow@),
            forall|v: int| #[trigger] net_out(g, res.flow@, v) == net_out(g, f0, v),
            certified(g, res.flow@),
        decreases flow_cost(g, res.flow@) + cost_ceiling(g),
    {
        proof {
            lemma_flow_cost_bound(g, res.flow@);
            assert forall|i: int| 0 <= i < g.m() implies #[trigger] rcap(g, res.flow@, i) <= i64::MAX by {
                lemma_rcap_range(g, res.flow@, i);
            }
        }
        match find_negative_cycle(&res) {
            None => {
                break;
            },
            Some(cycle) => {
                cancel_cycle(res, &cycle);
                proof {
                    lemma_flow_cost_bound(g, res.flow@);
                }
            },
        }
    }
}

impl MinCostFlowSolver for CycleCanceling {
    /// Room for one more node and the entry arcs a demand below the maximum
    /// flow value needs (at most one per arc of the graph).
    open spec fn mcf_accepts(&self, g: &DiGraph, s: NodeId, t: NodeId) -> bool {
        g.nodes.len() < u32::MAX && 3 * g.edges.len() + 2 <= u32::MAX
    }

    fn min_cost_flow(&self, graph: &DiGraph, source: NodeId, sink: NodeId, demand: Option<i128>) -> (r: Result<
        MinCostFlowResult,
        StanchionError,
    >)
        ensures
            cc_outcome(graph, source.0 as int, sink.0 as int, demand, r),
    {
        // phase 1: find a maximum flow (ignoring arc costs)
        let fwd = match Dinic.max_flow(graph, source, sink) {
            Ok(x) => x,
            Err(e) => {
                return Err(e);
            },
        };
        let ghost s = source.0 as int;
        let ghost t = sink.0 as int;
        let ghost fm = fwd.flow_on_edge@;
        let vm = fwd.max_flow;
        // a demand below the maximum: the flow must carry just the demand,
        // so it enters through arcs of that total capacity in front of the
        // source
        let target: Option<i128> = match demand {
            Some(d) => if d < vm {
                if d < 0 {
                    Some(0)
                } else {
                    Some(d)
                }
            } else {
                None
            },
            None => None,
        };
        proof {
            let z = Seq::new(graph.m() as nat, |i: int| 0i64);
            crate::graph::residual::lemma_zero_flow(graph, z, s, t);
            crate::flow::lemma_max_flow_is_maximum(graph, fm, z, s, t);
        }
        assert(target matches Some(w) ==> 0 <= w <= vm);
        let flow: Vec<i64> = match target {
            None => {
                let mut res = ResidualGraph::from_flow(graph, fwd.flow_on_edge);
                // phase 2: cancel negative-cost cycles until none remain
                cancel_all(&mut res);
                proof {
                    assert forall|v: int| 0 <= v < graph.n() && v != s && v != t implies #[trigger] net_out(
                        graph,
                        res.flow@,
                        v,
                    ) == 0 by {
                        assert(net_out(graph, fm, v) == 0);
                    }
                    assert(flow_value(graph, res.flow@, s) == flow_value(graph, fm, s));
                }
                res.flow
            },
            Some(want) => {
                let ghost m = graph.m();
                let ghost big = i64::MAX as int;
                proof {
                    crate::graph::residual::lemma_value_le_source_capacity(graph, fm, s);
                    crate::sums::lemma_sum_bounded(
                        m,
                        |i: int| if graph.arc_from(i) == s { graph.cap(i) } else { 0 },
                        big,
                    );
                }
                let mut g2 = graph.arc_copy();
                let x = g2.add_node(NodeData { label: None });
                let mut rest: i128 = want;
                let mut k: usize = 0;
                loop
                    invariant_except_break
                        want - rest == k * big,
                        k > 0 ==> rest > 0,
                    invariant
                        graph.wf(),
                        g2.wf(),
                        m == graph.m(),
                        big == i64::MAX,
                        0 <= s < graph.n(),
                        source.0 == s,
                        x.0 == graph.n(),
                        g2.n() == graph.n() + 1,
                        g2.m() == m + 2 * k,
                        3 * m + 2 <= u32::MAX,
                        0 <= want <= vm,
                        vm <= m * big,
                        0 <= rest <= want,
                        forall|i: int| 0 <= i < m ==> #[trigger] g2.edges@[i] == graph.edges@[i],
                        forall|i: int| m <= i < m + 2 * k && i % 2 == 0 ==> #[trigger] entry_arc(&g2, graph.n() as int, s, i),
                        sum_to(k as int, |j: int| g2.cap(m + 2 * j)) == want - rest,
                    ensures
                        entry_graph(graph, &g2, s, k as int, want as int),
                    decreases rest,
                {
                    let c: i64 = if rest > i64::MAX as i128 {
                        i64::MAX
                    } else {
                        rest as i64
                    };
                    proof {
                        if k > 0 {
                            assert(k * big < m * big);
                            assert(k < m) by (nonlinear_arith)
                                requires
                                    k * big < m * big,
                                    big > 0,
                            ;
                        }
                    }
                    let ghost gp = g2;
                    g2.add_edge(x, source, Capacity(c), Cost(0));
                    proof {
                        let e = m + 2 * k;
                        assert(g2.edges@[e] == Edge { from: x, to: source, capacity: Capacity(c), cost: Cost(0) });
                        assert forall|i: int| 0 <= i < m implies #[trigger] g2.edges@[i] == graph.edges@[i] by {
                            assert(g2.edges@[i] == gp.edges@[i]);
                        }
                        assert forall|i: int| m <= i < m + 2 * (k + 1) && i % 2 == 0 implies #[trigger] entry_arc(
                            &g2,
                            graph.n() as int,
                            s,
                            i,
                        ) by {
                            if i < e {
                                assert(entry_arc(&gp, graph.n() as int, s, i));
                                assert(g2.edges@[i] == gp.edges@[i]);
                            }
                        }
                        let cn = |j: int| g2.cap(m + 2 * j);
                        let co = |j: int| gp.cap(m + 2 * j);
                        assert forall|j: int| 0 <= j < k implies #[trigger] cn(j) == co(j) by {
                            assert(g2.edges@[m + 2 * j] == gp.edges@[m + 2 * j]);
                        }
                        crate::sums::lemma_sum_ext(k as int, cn, co);
                        assert(sum_to(k + 1, cn) == sum_to(k as int, cn) + cn(k as int));
                    }
                    rest = rest - c as i128;
                    k = k + 1;
                    if rest == 0 {
                        break;
                    }
                }
                proof {
                    assert forall|i: int| 0 <= i < m implies #[trigger] g2.edges@[i] == graph.edges@[i] by {}
                    assert(entry_graph(graph, &g2, s, k as int, want as int));
                }
                let r2 = match Dinic.max_flow(&g2, x, sink) {
                    Ok(y) => y,
                    Err(e) => {
                        return Err(e);
                    },
                };
                proof {
                    let z = Seq::new(graph.m() as nat, |i: int| 0i64);
                    crate::graph::residual::lemma_zero_flow(graph, z, s, t);
                    crate::flow::lemma_max_flow_is_maximum(graph, fm, z, s, t);
                    lemma_entry_value(graph, &g2, s, t, k as int, want as int, fm, r2.flow_on_edge@);
                }
                let ghost f20 = r2.flow_on_edge@;
                let mut res2 = ResidualGraph::from_flow(&g2, r2.flow_on_edge);
                // phase 2: cancel negative-cost cycles until none remain
                cancel_all(&mut res2);
                let f2 = res2.flow;
                proof {
                    assert(is_flow(&g2, f2@, x.0 as int, t)) by {
                        assert forall|v: int| 0 <= v < g2.n() && v != x.0 as int && v != t implies #[trigger] net_out(
                            &g2,
                            f2@,
                            v,
                        ) == 0 by {
                            assert(net_out(&g2, f20, v) == 0);
                        }
                    }
                    assert(flow_value(&g2, f2@, x.0 as int) == flow_value(&g2, f20, x.0 as int));
                    lemma_entry_restrict(graph, &g2, s, t, k as int, want as int, f2@);
                }
                let mut flow: Vec<i64> = Vec::new();
                let mut i: usize = 0;
                while i < graph.edges.len()
                    invariant
                        i <= graph.edges.len(),
                        f2@.len() >= graph.edges.len(),
                        flow@ == f2@.subrange(0, i as int),
                    decreases graph.edges.len() - i,
                {
                    flow.push(f2[i]);
                    i += 1;
                }
                proof {
                    assert(flow@ =~= f2@.subrange(0, graph.m()));
                }
                flow
            },
        };
        let res = ResidualGraph::from_flow(graph, flow);
        proof {
            lemma_magnitude_ceiling(graph, res.flow@);
        }
        let cost = res.total_cost();
        proof {
            crate::graph::residual::lemma_linear_cost(graph, res.flow@);
        }
        let value: i128 = match target {
            None => vm,
            Some(c) => c,
        };
        Ok(MinCostFlowResult { max_flow: value, min_cost: cost, flow_on_edge: res.flow })
    }
}

} // verus!
