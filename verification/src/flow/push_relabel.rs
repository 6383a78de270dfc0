//! Push-relabel maximum flow.
use vstd::prelude::*;
use std::collections::VecDeque;
use crate::error::StanchionError;
use crate::graph::{DiGraph, NodeId, ResidualGraph};
use crate::graph::residual::{
    flow_bounded, net_out, rcap, is_flow, closed_cut, no_augmenting_path, pushed, lemma_push,
    lemma_rcap_range,
};
use crate::flow::{FlowResult, MaxFlowSolver, max_flow_input, lemma_side_net_out};
use crate::flow::dinic::Dinic;
use crate::flow::min_cost::rwalk::{walk_by, reach_by, resid, cost_by, neg_cycle_by, lemma_short_by};
use crate::sums::{
    sum_to, twin, count_where, lemma_sum_point, lemma_sum_nonneg, lemma_sum_le, lemma_sum_zero,
    lemma_count_replace, lemma_count_le, lemma_count_all,
};

verus! {

/// Push-relabel max-flow with FIFO selection and gap heuristic.
///
/// Complexity: O(V² √E).
pub struct PushRelabel;

/// Arc `i` respects the height labels: when it has residual capacity, its
/// tail lies at most one level above its head.
pub open spec fn label_ok(g: &DiGraph, f: Seq<i64>, h: Seq<usize>, i: int) -> bool {
    rcap(g, f, i) > 0 ==> h[g.arc_from(i)] <= h[g.arc_to(i)] + 1
}

/// Every arc respects the height labels.
pub open spec fn labels_valid(g: &DiGraph, f: Seq<i64>, h: Seq<usize>) -> bool {
    forall|i: int| 0 <= i < g.m() ==> #[trigger] label_ok(g, f, h, i)
}

/// Arc `i` has residual capacity and runs exactly one level down.
pub open spec fn admissible(g: &DiGraph, f: Seq<i64>, h: Seq<usize>, i: int) -> bool {
    rcap(g, f, i) > 0 && h[g.arc_from(i)] == h[g.arc_to(i)] + 1
}

/// Unit arc costs: the cost of a walk is its length.
pub open spec fn unit_cost() -> spec_fn(int) -> int {
    |i: int| 1int
}

pub proof fn lemma_unit_cost(p: Seq<int>)
    ensures
        cost_by(unit_cost(), p) == p.len(),
    decreases p.len(),
{
    if p.len() > 0 {
        lemma_unit_cost(p.drop_first());
    }
}

/// Along a residual walk the labels drop by at most one per arc.
pub proof fn lemma_walk_height(g: &DiGraph, f: Seq<i64>, h: Seq<usize>, p: Seq<int>, x: int, z: int)
    requires
        labels_valid(g, f, h),
        walk_by(g, resid(g, f), p, x, z),
    ensures
        h[x] <= h[z] + p.len(),
    decreases p.len(),
{
    if p.len() > 0 {
        assert(label_ok(g, f, h, p[0]));
        lemma_walk_height(g, f, h, p.drop_first(), g.arc_to(p[0]), z);
    }
}

/// A node that reaches another along residual arcs does so in fewer than
/// `n` arcs.
pub proof fn lemma_short_resid(g: &DiGraph, f: Seq<i64>, x: int, z: int)
    requires
        g.wf(),
        0 <= x < g.n(),
        reach_by(g, resid(g, f), x, z),
    ensures
        exists|q: Seq<int>| #[trigger] walk_by(g, resid(g, f), q, x, z) && q.len() < g.n(),
{
    let ok = resid(g, f);
    let p = choose|p: Seq<int>| #[trigger] walk_by(g, ok, p, x, z);
    if neg_cycle_by(g, ok, unit_cost(), x) {
        let (p0, cy, w) = choose|p0: Seq<int>, cy: Seq<int>, w: int|
            #[trigger] walk_by(g, ok, p0, x, w) && #[trigger] walk_by(g, ok, cy, w, w) && cost_by(unit_cost(), cy) < 0;
        lemma_unit_cost(cy);
    }
    lemma_short_by(g, ok, unit_cost(), x, p, z);
}

/// Prepending a residual arc to a residual walk.
pub proof fn lemma_prepend(g: &DiGraph, f: Seq<i64>, i: int, p: Seq<int>, z: int)
    requires
        0 <= i < g.m(),
        rcap(g, f, i) > 0,
        walk_by(g, resid(g, f), p, g.arc_to(i), z),
    ensures
        walk_by(g, resid(g, f), seq![i] + p, g.arc_from(i), z),
{
    let q = seq![i] + p;
    assert(q.drop_first() =~= p);
    assert(q[0] == i);
}

/// In a preflow (no node but the source has negative excess), every node
/// with positive excess can send it back to the source along residual arcs.
pub proof fn lemma_excess_reaches_source(g: &DiGraph, f: Seq<i64>, s: int, e: Seq<i128>, u: int)
    requires
        g.wf(),
        flow_bounded(g, f),
        0 <= s < g.n(),
        0 <= u < g.n(),
        e.len() == g.n(),
        forall|v: int| 0 <= v < g.n() ==> #[trigger] e[v] == -net_out(g, f, v),
        forall|v: int| 0 <= v < g.n() && v != s ==> #[trigger] e[v] >= 0,
        e[u] > 0,
    ensures
        reach_by(g, resid(g, f), u, s),
{
    let ok = resid(g, f);
    if !reach_by(g, ok, u, s) {
        let n = g.n();
        let m = g.m();
        let side = Seq::new(n as nat, |v: int| !reach_by(g, ok, v, s));
        assert(walk_by(g, ok, Seq::<int>::empty(), s, s));
        assert(!side[s]);
        lemma_side_net_out(g, f, side);
        let cross = |i: int| if side[g.arc_from(i)] && !side[g.arc_to(i)] { f[i] as int } else { 0 };
        assert forall|i: int| 0 <= i < m implies #[trigger] cross(i) >= 0 by {
            g.lemma_arc(i);
            lemma_rcap_range(g, f, i);
            if side[g.arc_from(i)] && !side[g.arc_to(i)] {
                if rcap(g, f, i) > 0 {
                    let p = choose|p: Seq<int>| #[trigger] walk_by(g, ok, p, g.arc_to(i), s);
                    lemma_prepend(g, f, i, p, s);
                }
                assert(f[i] <= g.cap(i));
            }
        }
        lemma_sum_nonneg(m, cross);
        let node = |v: int| if side[v] { net_out(g, f, v) } else { 0 };
        let rest = |v: int| if v == u { 0 } else { node(v) };
        let zero = |v: int| 0int;
        assert forall|v: int| 0 <= v < n implies #[trigger] rest(v) <= zero(v) by {
            if side[v] && v != u {
                assert(e[v] >= 0);
            }
        }
        lemma_sum_le(n, rest, zero);
        lemma_sum_zero(n, zero);
        lemma_sum_point(n, rest, node, u);
        assert(node(u) == -e[u]);
    }
}

/// A node with positive excess has a residual arc to a node below `2n - 1`.
pub proof fn lemma_relabel_room(g: &DiGraph, f: Seq<i64>, h: Seq<usize>, s: int, u: int)
    requires
        g.wf(),
        labels_valid(g, f, h),
        h.len() == g.n(),
        0 <= s < g.n(),
        0 <= u < g.n(),
        u != s,
        h[s] == g.n(),
        reach_by(g, resid(g, f), u, s),
    ensures
        exists|j: int|
            0 <= j < g.adj[u].len() && #[trigger] rcap(g, f, g.adj[u][j] as int) > 0 && h[g.arc_to(
                g.adj[u][j] as int,
            )] + 1 < 2 * g.n(),
{
    lemma_short_resid(g, f, u, s);
    let q = choose|q: Seq<int>| #[trigger] walk_by(g, resid(g, f), q, u, s) && q.len() < g.n();
    let a = q[0];
    lemma_walk_height(g, f, h, q.drop_first(), g.arc_to(a), s);
    g.lemma_arc(a);
    assert(g.adj[u]@.contains(a as usize));
    let j = choose|j: int| 0 <= j < g.adj[u].len() && g.adj[u][j] == a as usize;
    assert(rcap(g, f, g.adj[u][j] as int) > 0);
}

/// With the source `n` levels above the sink, no residual path joins them.
pub proof fn lemma_labels_cut(g: &DiGraph, f: Seq<i64>, h: Seq<usize>, s: int, t: int)
    requires
        g.wf(),
        labels_valid(g, f, h),
        h.len() == g.n(),
        0 <= s < g.n(),
        0 <= t < g.n(),
        h[s] == g.n(),
        h[t] == 0,
    ensures
        no_augmenting_path(g, f, s, t),
{
    let ok = resid(g, f);
    if reach_by(g, ok, s, t) {
        lemma_short_resid(g, f, s, t);
        let q = choose|q: Seq<int>| #[trigger] walk_by(g, ok, q, s, t) && q.len() < g.n();
        lemma_walk_height(g, f, h, q, s, t);
    }
    let side = Seq::new(g.n() as nat, |v: int| !reach_by(g, ok, v, t));
    assert(walk_by(g, ok, Seq::<int>::empty(), t, t));
    assert forall|i: int|
        0 <= i < g.m() && #[trigger] side[g.arc_from(i)] && rcap(g, f, i) > 0 implies side[g.arc_to(i)] by {
        g.lemma_arc(i);
        if !side[g.arc_to(i)] {
            let p = choose|p: Seq<int>| #[trigger] walk_by(g, ok, p, g.arc_to(i), t);
            lemma_prepend(g, f, i, p, t);
        }
    }
    assert(closed_cut(g, f, side, s, t));
}


/// Mutable algorithm state passed to `discharge` and `gap_relabel`.
struct DischargeCtx {
    height: Vec<usize>,
    excess: Vec<i128>,
    cur_arc: Vec<usize>,
    active: VecDeque<usize>,
    gap_count: Vec<u32>,
}

/// `v` is neither terminal.
pub open spec fn inner(v: int, s: int, t: int) -> bool {
    v != s && v != t
}

/// The algorithm's bookkeeping agrees with the flow `f`: the excesses `e`
/// are net inflows and only the source runs a deficit; the terminals keep
/// their heights `h` and every other node stays below `2n`; labels are
/// valid; each node's current arc `ca` has only passed inadmissible arcs;
/// and every height in use has a positive gap count in `gc`, none larger than
/// the number of nodes at or above that height.
pub open spec fn state_ok(
    g: &DiGraph,
    f: Seq<i64>,
    s: int,
    t: int,
    h: Seq<usize>,
    e: Seq<i128>,
    ca: Seq<usize>,
    gc: Seq<u32>,
) -> bool {
    let n = g.n();
    &&& g.wf()
    &&& 0 <= s < n
    &&& 0 <= t < n
    &&& s != t
    &&& 2 * n + 2 <= usize::MAX
    &&& flow_bounded(g, f)
    &&& h.len() == n
    &&& e.len() == n
    &&& ca.len() == n
    &&& gc.len() == 2 * n + 2
    &&& forall|v: int| 0 <= v < n ==> #[trigger] e[v] == -net_out(g, f, v)
    &&& forall|v: int| 0 <= v < n && v != s ==> #[trigger] e[v] >= 0
    &&& h[s] == n
    &&& h[t] == 0
    &&& forall|v: int| 0 <= v < n && inner(v, s, t) ==> #[trigger] h[v] < 2 * n
    &&& labels_valid(g, f, h)
    &&& forall|v: int| 0 <= v < n && inner(v, s, t) ==> #[trigger] ca[v] <= g.adj[v].len()
    &&& forall|v: int, j: int|
        0 <= v < n && inner(v, s, t) && 0 <= j < ca[v] ==> !admissible(g, f, h, #[trigger] g.adj[v][j] as int)
    &&& forall|v: int| 0 <= v < n && inner(v, s, t) ==> #[trigger] gc[h[v] as int] >= 1
    &&& forall|k: int| 0 <= k < 2 * n + 2 ==> #[trigger] gc[k] <= count_where(h, at_least(k))
}

/// `state_ok` for the fields of a context.
spec fn ctx_ok(g: &DiGraph, f: Seq<i64>, s: int, t: int, c: &DischargeCtx) -> bool {
    state_ok(g, f, s, t, c.height@, c.excess@, c.cur_arc@, c.gap_count@)
}

/// Heights of at least `k`.
pub open spec fn at_least(k: int) -> spec_fn(usize) -> bool {
    |x: usize| x >= k
}

/// The queue holds distinct inner nodes, none of them `skip`, and exactly the
/// inner nodes other than `skip` that have positive excess.
pub open spec fn queue_ok(q: Seq<usize>, e: Seq<i128>, n: int, s: int, t: int, skip: int) -> bool {
    &&& q.no_duplicates()
    &&& forall|i: int| 0 <= i < q.len() ==> #[trigger] q[i] < n && inner(q[i] as int, s, t) && q[i] != skip
    &&& forall|v: int|
        0 <= v < n && inner(v, s, t) && v != skip ==> (#[trigger] e[v] > 0 <==> q.contains(v as usize))
}

/// Room left for relabels: how far the inner nodes are below `2n`.
pub open spec fn height_room(h: Seq<usize>, n: int, s: int, t: int) -> int {
    sum_to(n, |v: int| if inner(v, s, t) { 2 * n - h[v] } else { 0 })
}

/// Excess weighted by height: every push moves excess one level down.
pub open spec fn excess_weight(e: Seq<i128>, h: Seq<usize>, n: int, s: int, t: int) -> int {
    sum_to(n, |v: int| if inner(v, s, t) { e[v] * h[v] } else { 0 })
}

/// Arcs the inner nodes have not yet scanned.
pub open spec fn arcs_left(g: &DiGraph, c: Seq<usize>, s: int, t: int) -> int {
    sum_to(g.n(), |v: int| if inner(v, s, t) { g.adj[v].len() - c[v] } else { 0 })
}

/// Lexicographic order on the three progress measures.
pub open spec fn lex_lt(a0: int, a1: int, a2: int, b0: int, b1: int, b2: int) -> bool {
    ||| a0 < b0
    ||| a0 == b0 && a1 < b1
    ||| a0 == b0 && a1 == b1 && a2 < b2
}

/// Net flow out of a node is bounded by the number of arcs times the largest
/// flow on an arc.
pub proof fn lemma_net_out_bound(g: &DiGraph, f: Seq<i64>, v: int)
    requires
        g.wf(),
        f.len() == g.m(),
    ensures
        -0x1_0000_0000 * 0x8000_0000_0000_0000 <= net_out(g, f, v) <= 0x1_0000_0000 * 0x8000_0000_0000_0000,
{
    let m = g.m();
    let h = |i: int| if g.arc_from(i) == v { f[i] as int } else { 0 };
    let nh = |i: int| -h(i);
    assert forall|i: int| 0 <= i < m implies #[trigger] h(i) <= 0x8000_0000_0000_0000 by {}
    assert forall|i: int| 0 <= i < m implies #[trigger] nh(i) <= 0x8000_0000_0000_0000 by {}
    crate::sums::lemma_sum_bounded(m, h, 0x8000_0000_0000_0000);
    crate::sums::lemma_sum_bounded(m, nh, 0x8000_0000_0000_0000);
    crate::sums::lemma_sum_add(m, h, nh, |i: int| 0int);
    lemma_sum_zero(m, |i: int| 0int);
    assert(m * 0x8000_0000_0000_0000 <= 0x1_0000_0000 * 0x8000_0000_0000_0000) by (nonlinear_arith)
        requires
            0 <= m <= u32::MAX,
    ;
}

/// The measures of a state are non-negative.
pub proof fn lemma_measures_nonneg(
    g: &DiGraph,
    f: Seq<i64>,
    s: int,
    t: int,
    h: Seq<usize>,
    e: Seq<i128>,
    ca: Seq<usize>,
    gc: Seq<u32>,
)
    requires
        state_ok(g, f, s, t, h, e, ca, gc),
    ensures
        height_room(h, g.n(), s, t) >= 0,
        excess_weight(e, h, g.n(), s, t) >= 0,
        arcs_left(g, ca, s, t) >= 0,
{
    let n = g.n();
    let r = |v: int| if inner(v, s, t) { 2 * n - h[v] } else { 0 };
    let w = |v: int| if inner(v, s, t) { e[v] * h[v] } else { 0 };
    let a = |v: int| if inner(v, s, t) { g.adj[v].len() - ca[v] } else { 0 };
    assert forall|v: int| 0 <= v < n implies #[trigger] r(v) >= 0 by {
        if inner(v, s, t) {
            assert(h[v] < 2 * n);
        }
    }
    assert forall|v: int| 0 <= v < n implies #[trigger] w(v) >= 0 by {
        if inner(v, s, t) {
            let x = e[v] as int;
            let y = h[v] as int;
            assert(x >= 0);
            assert(x * y >= 0) by (nonlinear_arith)
                requires
                    x >= 0,
                    y >= 0,
            ;
        }
    }
    assert forall|v: int| 0 <= v < n implies #[trigger] a(v) >= 0 by {
        if inner(v, s, t) {
            assert(ca[v] <= g.adj[v].len());
        }
    }
    lemma_sum_nonneg(n, r);
    lemma_sum_nonneg(n, w);
    lemma_sum_nonneg(n, a);
}

/// Relabelling a node whose arcs are all scanned and that holds excess
/// raises it strictly, to below `2n`, and keeps the state consistent.
pub proof fn lemma_relabel_step(
    g: &DiGraph,
    f: Seq<i64>,
    s: int,
    t: int,
    h: Seq<usize>,
    e: Seq<i128>,
    ca: Seq<usize>,
    gc: Seq<u32>,
    u: int,
    r: int,
)
    requires
        state_ok(g, f, s, t, h, e, ca, gc),
        0 <= u < g.n(),
        inner(u, s, t),
        ca[u] == g.adj[u].len(),
        e[u] > 0,
        forall|j: int|
            0 <= j < g.adj[u].len() && #[trigger] rcap(g, f, g.adj[u][j] as int) > 0 ==> r <= h[g.arc_to(
                g.adj[u][j] as int,
            )] + 1,
        r == 2 * g.n() || exists|j: int|
            0 <= j < g.adj[u].len() && #[trigger] rcap(g, f, g.adj[u][j] as int) > 0 && r == h[g.arc_to(
                g.adj[u][j] as int,
            )] + 1,
    ensures
        h[u] < r < 2 * g.n(),
        g.adj[u].len() >= 1,
        gc[r] + 1 <= count_where(h.update(u, r as usize), at_least(r)),
        count_where(h.update(u, r as usize), at_least(r)) <= u32::MAX,
        state_ok(g, f, s, t, h.update(u, r as usize), e, ca.update(u, 0), gc.update(r, (gc[r] + 1) as u32)),
        height_room(h.update(u, r as usize), g.n(), s, t) < height_room(h, g.n(), s, t),
{
    let n = g.n();
    let m = g.m();
    lemma_excess_reaches_source(g, f, s, e, u);
    lemma_relabel_room(g, f, h, s, u);
    let j0 = choose|j: int|
        0 <= j < g.adj[u].len() && #[trigger] rcap(g, f, g.adj[u][j] as int) > 0 && h[g.arc_to(
            g.adj[u][j] as int,
        )] + 1 < 2 * g.n();
    assert(r < 2 * n);
    let j1 = choose|j: int|
        0 <= j < g.adj[u].len() && #[trigger] rcap(g, f, g.adj[u][j] as int) > 0 && r == h[g.arc_to(
            g.adj[u][j] as int,
        )] + 1;
    g.lemma_adj(u, j1);
    assert(!admissible(g, f, h, g.adj[u][j1] as int));
    assert(label_ok(g, f, h, g.adj[u][j1] as int));
    let h1 = h.update(u, r as usize);
    let ca1 = ca.update(u, 0);
    let gc1 = gc.update(r, (gc[r] + 1) as u32);
    lemma_count_replace(h, at_least(r), u, r as usize);
    lemma_count_le(h1, at_least(r));
    assert forall|k: int| 0 <= k < 2 * n + 2 implies #[trigger] gc1[k] <= count_where(h1, at_least(k)) by {
        lemma_count_replace(h, at_least(k), u, r as usize);
        assert(gc[k] <= count_where(h, at_least(k)));
    }
    assert forall|i: int| 0 <= i < m implies #[trigger] label_ok(g, f, h1, i) by {
        g.lemma_arc(i);
        assert(label_ok(g, f, h, i));
        if rcap(g, f, i) > 0 && g.arc_from(i) == u && g.arc_to(i) != u {
            assert(g.adj[u]@.contains(i as usize));
            let j = choose|j: int| 0 <= j < g.adj[u].len() && g.adj[u][j] == i as usize;
            assert(rcap(g, f, g.adj[u][j] as int) > 0);
        }
    }
    assert forall|v: int, j: int|
        0 <= v < n && inner(v, s, t) && 0 <= j < ca1[v] implies !admissible(g, f, h1, #[trigger] g.adj[v][j] as int) by {
        assert(v != u);
        assert(ca1[v] == ca[v]);
        g.lemma_adj(v, j);
        let a = g.adj[v][j] as int;
        g.lemma_arc(a);
        assert(g.arc_from(a) == v);
        assert(!admissible(g, f, h, a));
        assert(label_ok(g, f, h, a));
        assert(h1[v] == h[v]);
        if g.arc_to(a) == u {
            assert(h1[u] == r);
        } else {
            assert(h1[g.arc_to(a)] == h[g.arc_to(a)]);
        }
    }
    assert forall|v: int| 0 <= v < n && inner(v, s, t) implies #[trigger] gc1[h1[v] as int] >= 1 by {
        if v != u {
            assert(gc[h[v] as int] >= 1);
        }
    }
    assert forall|v: int| 0 <= v < n && inner(v, s, t) implies #[trigger] ca1[v] <= g.adj[v].len() by {
        if v != u {
            assert(ca[v] <= g.adj[v].len());
        }
    }
    assert forall|v: int| 0 <= v < n && inner(v, s, t) implies #[trigger] h1[v] < 2 * n by {
        if v != u {
            assert(h[v] < 2 * n);
        }
    }
    let r0 = |v: int| if inner(v, s, t) { 2 * n - h[v] } else { 0 };
    let r1 = |v: int| if inner(v, s, t) { 2 * n - h1[v] } else { 0 };
    lemma_sum_point(n, r0, r1, u);
    assert(labels_valid(g, f, h1));
}

/// Pushing `d` units along the current arc of `u`, when it is admissible,
/// keeps the state consistent and lowers the height-weighted excess.
pub proof fn lemma_push_step(
    g: &DiGraph,
    f: Seq<i64>,
    s: int,
    t: int,
    h: Seq<usize>,
    e: Seq<i128>,
    ca: Seq<usize>,
    gc: Seq<u32>,
    u: int,
    d: int,
)
    requires
        state_ok(g, f, s, t, h, e, ca, gc),
        0 <= u < g.n(),
        inner(u, s, t),
        ca[u] < g.adj[u].len(),
        admissible(g, f, h, g.adj[u][ca[u] as int] as int),
        1 <= d <= e[u],
        d <= rcap(g, f, g.adj[u][ca[u] as int] as int),
    ensures
        ({
            let i = g.adj[u][ca[u] as int] as int;
            let v = g.arc_to(i);
            let f1 = pushed(f, i, d);
            let e1 = e.update(u, (e[u] - d) as i128).update(v, (e[v] + d) as i128);
            &&& 0 <= v < g.n()
            &&& v != u
            &&& -0x1_0000_0000 * 0x8000_0000_0000_0000 <= e[v] + d <= 0x1_0000_0000 * 0x8000_0000_0000_0000
            &&& state_ok(g, f1, s, t, h, e1, ca, gc)
            &&& excess_weight(e1, h, g.n(), s, t) < excess_weight(e, h, g.n(), s, t)
        }),
{
    let n = g.n();
    let m = g.m();
    g.lemma_adj(u, ca[u] as int);
    let i = g.adj[u][ca[u] as int] as int;
    g.lemma_arc(i);
    lemma_rcap_range(g, f, i);
    lemma_push(g, f, i, d);
    let v = g.arc_to(i);
    let f1 = pushed(f, i, d);
    let em = e.update(u, (e[u] - d) as i128);
    let e1 = em.update(v, (e[v] + d) as i128);
    assert(v != u);
    lemma_net_out_bound(g, f1, v);
    assert(net_out(g, f1, v) == net_out(g, f, v) - d);
    assert(net_out(g, f1, u) == net_out(g, f, u) + d);
    assert forall|w: int| 0 <= w < n implies #[trigger] e1[w] == -net_out(g, f1, w) by {
        assert(net_out(g, f1, w) == net_out(g, f, w) + (if w == g.arc_from(i) { d } else { 0 }) - (if w
            == g.arc_to(i) {
            d
        } else {
            0
        }));
    }
    assert forall|w: int| 0 <= w < n && w != s implies #[trigger] e1[w] >= 0 by {
        assert(e[w] >= 0);
    }
    assert forall|k: int| 0 <= k < m implies #[trigger] label_ok(g, f1, h, k) by {
        assert(label_ok(g, f, h, k));
        if k != i && k != twin(i) {
            assert(f1[k] == f[k]);
        }
    }
    assert forall|w: int, j: int|
        0 <= w < n && inner(w, s, t) && 0 <= j < ca[w] implies !admissible(g, f1, h, #[trigger] g.adj[w][j] as int) by {
        let a = g.adj[w][j] as int;
        g.lemma_adj(w, j);
        assert(!admissible(g, f, h, a));
        if a != i && a != twin(i) {
            assert(f1[a] == f[a]);
        }
    }
    let hu = h[u] as int;
    let hv = h[v] as int;
    assert(hu == hv + 1);
    let w0 = |k: int| if inner(k, s, t) { e[k] * h[k] } else { 0 };
    let wm = |k: int| if inner(k, s, t) { em[k] * h[k] } else { 0 };
    let w1 = |k: int| if inner(k, s, t) { e1[k] * h[k] } else { 0 };
    lemma_sum_point(n, w0, wm, u);
    lemma_sum_point(n, wm, w1, v);
    let eu = e[u] as int;
    let ev = e[v] as int;
    assert((eu - d) * hu == eu * hu - d * hu) by (nonlinear_arith);
    assert((ev + d) * hv == ev * hv + d * hv) by (nonlinear_arith);
    assert(d * hu == d * hv + d) by (nonlinear_arith)
        requires
            hu == hv + 1,
    ;
    assert(d * hv >= 0) by (nonlinear_arith)
        requires
            d >= 1,
            hv >= 0,
    ;
    assert(labels_valid(g, f1, h));
}

/// Passing over an inadmissible current arc keeps the state consistent and
/// leaves one arc fewer to scan.
pub proof fn lemma_advance_step(
    g: &DiGraph,
    f: Seq<i64>,
    s: int,
    t: int,
    h: Seq<usize>,
    e: Seq<i128>,
    ca: Seq<usize>,
    gc: Seq<u32>,
    u: int,
)
    requires
        state_ok(g, f, s, t, h, e, ca, gc),
        0 <= u < g.n(),
        inner(u, s, t),
        ca[u] < g.adj[u].len(),
        !admissible(g, f, h, g.adj[u][ca[u] as int] as int),
    ensures
        state_ok(g, f, s, t, h, e, ca.update(u, (ca[u] + 1) as usize), gc),
        arcs_left(g, ca.update(u, (ca[u] + 1) as usize), s, t) == arcs_left(g, ca, s, t) - 1,
{
    let n = g.n();
    let ca1 = ca.update(u, (ca[u] + 1) as usize);
    assert forall|v: int, j: int|
        0 <= v < n && inner(v, s, t) && 0 <= j < ca1[v] implies !admissible(g, f, h, #[trigger] g.adj[v][j] as int) by {
        if v != u || j < ca[u] {
            assert(!admissible(g, f, h, g.adj[v][j] as int));
        }
    }
    assert forall|v: int| 0 <= v < n && inner(v, s, t) implies #[trigger] ca1[v] <= g.adj[v].len() by {
        if v != u {
            assert(ca[v] <= g.adj[v].len());
        }
    }
    let a0 = |v: int| if inner(v, s, t) { g.adj[v].len() - ca[v] } else { 0 };
    let a1 = |v: int| if inner(v, s, t) { g.adj[v].len() - ca1[v] } else { 0 };
    lemma_sum_point(n, a0, a1, u);
}

/// New height for `u`: one above its lowest residual neighbour, or `2n`
/// when it has no residual arc.
fn relabel(res: &ResidualGraph<'_>, u: usize, n: usize, height: &Vec<usize>) -> (r: usize)
    requires
        res.graph.wf(),
        flow_bounded(res.graph, res.flow@),
        n == res.graph.n(),
        u < n,
        height.len() == n,
        2 * n + 2 <= usize::MAX,
        forall|v: int| 0 <= v < n ==> #[trigger] height@[v] <= 2 * n,
    ensures
        (forall|j: int|
            0 <= j < res.graph.adj[u as int].len() ==> #[trigger] rcap(
                res.graph,
                res.flow@,
                res.graph.adj[u as int][j] as int,
            ) <= 0) ==> r == 2 * n,
        forall|j: int|
            0 <= j < res.graph.adj[u as int].len() && #[trigger] rcap(
                res.graph,
                res.flow@,
                res.graph.adj[u as int][j] as int,
            ) > 0 ==> r <= height@[res.graph.arc_to(res.graph.adj[u as int][j] as int)] + 1,
        r == 2 * n || exists|j: int|
            0 <= j < res.graph.adj[u as int].len() && #[trigger] rcap(
                res.graph,
                res.flow@,
                res.graph.adj[u as int][j] as int,
            ) > 0 && r == height@[res.graph.arc_to(res.graph.adj[u as int][j] as int)] + 1,
{
    let g = res.graph;
    let a = &g.adj[u];
    let mut min_h: usize = usize::MAX;
    let mut j: usize = 0;
    while j < a.len()
        invariant
            g == res.graph,
            g.wf(),
            flow_bounded(g, res.flow@),
            n == g.n(),
            u < n,
            a == &g.adj[u as int],
            height.len() == n,
            2 * n + 2 <= usize::MAX,
            forall|v: int| 0 <= v < n ==> #[trigger] height@[v] <= 2 * n,
            j <= a.len(),
            min_h == usize::MAX || min_h <= 2 * n,
            min_h == usize::MAX ==> forall|k: int|
                0 <= k < j ==> #[trigger] rcap(g, res.flow@, a[k] as int) <= 0,
            forall|k: int|
                0 <= k < j && #[trigger] rcap(g, res.flow@, a[k] as int) > 0 ==> min_h <= height@[g.arc_to(
                    a[k] as int,
                )],
            min_h != usize::MAX ==> exists|k: int|
                0 <= k < j && #[trigger] rcap(g, res.flow@, a[k] as int) > 0 && min_h == height@[g.arc_to(
                    a[k] as int,
                )],
        decreases a.len() - j,
    {
        proof {
            g.lemma_adj(u as int, j as int);
            lemma_rcap_range(g, res.flow@, a[j as int] as int);
        }
        let idx = a[j];
        if res.residual_capacity(idx) > 0 {
            proof {
                g.lemma_arc(idx as int);
            }
            let v = g.edges[idx].to.0 as usize;
            if height[v] < min_h {
                min_h = height[v];
            }
        }
        j += 1;
    }
    if min_h == usize::MAX {
        2 * n
    } else {
        min_h + 1
    }
}

/// Raise all inner nodes above `gap_h` to height `2n` (cut off from the
/// sink) and drop from the queue the nodes that are cut off or hold no
/// excess.
fn gap_relabel(ctx: &mut DischargeCtx, gap_h: usize, n: usize, source: usize, sink: usize)
    requires
        old(ctx).height.len() == n,
        old(ctx).excess.len() == n,
        old(ctx).gap_count.len() == 2 * n + 2,
        2 * n + 2 <= usize::MAX,
    ensures
        final(ctx).excess@ == old(ctx).excess@,
        final(ctx).cur_arc@ == old(ctx).cur_arc@,
        final(ctx).gap_count.len() == old(ctx).gap_count.len(),
        final(ctx).height.len() == n,
        forall|v: int|
            0 <= v < n ==> #[trigger] final(ctx).height@[v] == if v != source && v != sink && old(ctx).height@[v]
                > gap_h {
                2 * n
            } else {
                old(ctx).height@[v] as int
            },
        forall|x: usize|
            #[trigger] final(ctx).active@.contains(x) ==> old(ctx).active@.contains(x) && x < n
                && old(ctx).excess@[x as int] > 0 && final(ctx).height@[x as int] < 2 * n,
{
    let mut v: usize = 0;
    while v < n
        invariant
            v <= n,
            ctx.height.len() == n,
            ctx.excess@ == old(ctx).excess@,
            ctx.cur_arc@ == old(ctx).cur_arc@,
            ctx.active@ == old(ctx).active@,
            ctx.gap_count.len() == 2 * n + 2,
            2 * n + 2 <= usize::MAX,
            forall|w: int|
                0 <= w < v ==> #[trigger] ctx.height@[w] == if w != source && w != sink && old(ctx).height@[w]
                    > gap_h {
                    2 * n
                } else {
                    old(ctx).height@[w] as int
                },
            forall|w: int| v <= w < n ==> #[trigger] ctx.height@[w] == old(ctx).height@[w],
        decreases n - v,
    {
        if v == source || v == sink {
            v += 1;
            continue;
        }
        if ctx.height[v] > gap_h {
            if ctx.height[v] < 2 * n {
                let h = ctx.height[v];
                let c = ctx.gap_count[h];
                ctx.gap_count.set(h, c.saturating_sub(1));
            }
            ctx.height.set(v, 2 * n);
        }
        v += 1;
    }
    let len = ctx.active.len();
    let ghost q0 = ctx.active@;
    let ghost h1 = ctx.height@;
    let mut k: usize = 0;
    while k < len
        invariant
            k <= len,
            len == q0.len(),
            q0 == old(ctx).active@,
            ctx.height.len() == n,
            ctx.excess@ == old(ctx).excess@,
            ctx.cur_arc@ == old(ctx).cur_arc@,
            ctx.gap_count.len() == 2 * n + 2,
            ctx.active@.len() >= len - k,
            forall|i: int| 0 <= i < len - k ==> #[trigger] ctx.active@[i] == q0[k + i],
            forall|i: int|
                len - k <= i < ctx.active@.len() ==> q0.contains(#[trigger] ctx.active@[i]) && ctx.active@[i]
                    < n && old(ctx).excess@[ctx.active@[i] as int] > 0 && ctx.height@[ctx.active@[i] as int] < 2
                    * n,
            ctx.excess.len() == n,
            ctx.height@ == h1,
            forall|w: int|
                0 <= w < n ==> #[trigger] h1[w] == if w != source && w != sink && old(ctx).height@[w] > gap_h {
                    2 * n
                } else {
                    old(ctx).height@[w] as int
                },
        decreases len - k,
    {
        let front = ctx.active.pop_front();
        if let Some(x) = front {
            proof {
                assert(x == q0[k as int]);
            }
            if x < n && ctx.excess[x] > 0 && ctx.height[x] < 2 * n {
                ctx.active.push_back(x);
            }
        }
        k += 1;
    }
    proof {
        assert forall|x: usize| #[trigger] ctx.active@.contains(x) implies old(ctx).active@.contains(x) && x < n
            && old(ctx).excess@[x as int] > 0 && ctx.height@[x as int] < 2 * n by {
            let i = choose|i: int| 0 <= i < ctx.active@.len() && ctx.active@[i] == x;
            assert(q0.contains(ctx.active@[i]));
        }
    }
}

/// Push the excess of `u` along admissible arcs, relabelling `u` whenever
/// its current arc runs past the end of its arc list, until no excess is
/// left.
#[verifier::spinoff_prover]
#[verifier::rlimit(40)]
fn discharge(res: &mut ResidualGraph<'_>, u: usize, sink: usize, source: usize, n: usize, ctx: &mut DischargeCtx)
    requires
        ctx_ok(old(res).graph, old(res).flow@, source as int, sink as int, old(ctx)),
        n == old(res).graph.n(),
        u < n,
        inner(u as int, source as int, sink as int),
        queue_ok(old(ctx).active@, old(ctx).excess@, n as int, source as int, sink as int, u as int),
        old(ctx).excess@[u as int] > 0,
    ensures
        final(res).graph == old(res).graph,
        ctx_ok(final(res).graph, final(res).flow@, source as int, sink as int, final(ctx)),
        queue_ok(final(ctx).active@, final(ctx).excess@, n as int, source as int, sink as int, -1),
        lex_lt(
            height_room(final(ctx).height@, n as int, source as int, sink as int),
            excess_weight(final(ctx).excess@, final(ctx).height@, n as int, source as int, sink as int),
            arcs_left(final(res).graph, final(ctx).cur_arc@, source as int, sink as int),
            height_room(old(ctx).height@, n as int, source as int, sink as int),
            excess_weight(old(ctx).excess@, old(ctx).height@, n as int, source as int, sink as int),
            arcs_left(old(res).graph, old(ctx).cur_arc@, source as int, sink as int),
        ),
{
    let g = res.graph;
    let adj_len = g.adj[u].len();
    let ghost s = source as int;
    let ghost t = sink as int;
    let ghost r0 = height_room(ctx.height@, n as int, s, t);
    let ghost w0 = excess_weight(ctx.excess@, ctx.height@, n as int, s, t);
    let ghost a0 = arcs_left(g, ctx.cur_arc@, s, t);
    let ghost mut moved = false;
    while ctx.excess[u] > 0
        invariant
            g == res.graph,
            g == old(res).graph,
            n == g.n(),
            u < n,
            s == source,
            t == sink,
            inner(u as int, s, t),
            adj_len == g.adj[u as int].len(),
            ctx_ok(g, res.flow@, s, t, ctx),
            queue_ok(ctx.active@, ctx.excess@, n as int, s, t, u as int),
            r0 == height_room(old(ctx).height@, n as int, s, t),
            w0 == excess_weight(old(ctx).excess@, old(ctx).height@, n as int, s, t),
            a0 == arcs_left(g, old(ctx).cur_arc@, s, t),
            moved ==> lex_lt(
                height_room(ctx.height@, n as int, s, t),
                excess_weight(ctx.excess@, ctx.height@, n as int, s, t),
                arcs_left(g, ctx.cur_arc@, s, t),
                r0,
                w0,
                a0,
            ),
            !moved ==> ctx.excess@[u as int] > 0 && height_room(ctx.height@, n as int, s, t) == r0
                && excess_weight(ctx.excess@, ctx.height@, n as int, s, t) == w0 && arcs_left(
                g,
                ctx.cur_arc@,
                s,
                t,
            ) == a0,
        decreases
            height_room(ctx.height@, n as int, s, t),
            excess_weight(ctx.excess@, ctx.height@, n as int, s, t),
            arcs_left(g, ctx.cur_arc@, s, t),
    {
        let ghost rs = height_room(ctx.height@, n as int, s, t);
        let ghost ws = excess_weight(ctx.excess@, ctx.height@, n as int, s, t);
        let ghost as_ = arcs_left(g, ctx.cur_arc@, s, t);
        if ctx.cur_arc[u] == adj_len {
            proof {
                assert forall|v: int| 0 <= v < n implies #[trigger] ctx.height@[v] <= 2 * n by {
                    if inner(v, s, t) {
                        assert(ctx.height@[v] < 2 * n);
                    }
                }
            }
            let new_h = relabel(res, u, n, &ctx.height);
            let old_h = ctx.height[u];
            proof {
                lemma_relabel_step(
                    g,
                    res.flow@,
                    s,
                    t,
                    ctx.height@,
                    ctx.excess@,
                    ctx.cur_arc@,
                    ctx.gap_count@,
                    u as int,
                    new_h as int,
                );
                assert(ctx.gap_count@[old_h as int] >= 1);
            }
            if old_h < 2 * n && ctx.gap_count[old_h] == 0 {
                gap_relabel(ctx, old_h, n, source, sink);
            }
            let ghost h0 = ctx.height@;
            ctx.height.set(u, new_h);
            if new_h < 2 * n {
                let c = ctx.gap_count[new_h];
                proof {
                    assert(ctx.height@ == h0.update(u as int, new_h));
                }
                ctx.gap_count.set(new_h, c + 1);
            }
            ctx.cur_arc.set(u, 0);
            if new_h >= 2 * n {
                return;
            }
        }
        proof {
            assert(ctx.cur_arc@[u as int] < adj_len);
        }
        let edge_idx = g.adj[u][ctx.cur_arc[u]];
        proof {
            g.lemma_adj(u as int, ctx.cur_arc@[u as int] as int);
            g.lemma_arc(edge_idx as int);
            lemma_rcap_range(g, res.flow@, edge_idx as int);
        }
        let v = g.edges[edge_idx].to.0 as usize;
        let res_cap = res.residual_capacity(edge_idx);
        if res_cap > 0 && ctx.height[u] == ctx.height[v] + 1 {
            let delta: i64 = if ctx.excess[u] < res_cap as i128 {
                ctx.excess[u] as i64
            } else {
                res_cap
            };
            let ghost f0 = res.flow@;
            let ghost e0 = ctx.excess@;
            proof {
                lemma_push_step(
                    g,
                    res.flow@,
                    s,
                    t,
                    ctx.height@,
                    ctx.excess@,
                    ctx.cur_arc@,
                    ctx.gap_count@,
                    u as int,
                    delta as int,
                );
            }
            res.push_flow(edge_idx, delta);
            let eu = ctx.excess[u];
            ctx.excess.set(u, eu - delta as i128);
            let ev = ctx.excess[v];
            ctx.excess.set(v, ev + delta as i128);
            let ghost q0 = ctx.active@;
            if v != sink && v != source && ctx.excess[v] - (delta as i128) <= 0 {
                proof {
                    assert(!q0.contains(v));
                }
                ctx.active.push_back(v);
            }
            proof {
                let q1 = ctx.active@;
                assert(q1.no_duplicates()) by {
                    if q1.len() != q0.len() {
                        assert forall|a: int, b: int| 0 <= a < q1.len() && 0 <= b < q1.len() && a != b implies q1[a]
                            != q1[b] by {
                            if a < q0.len() && b < q0.len() {
                                assert(q0[a] != q0[b]);
                            } else if a < q0.len() {
                                assert(q0.contains(q0[a]));
                            } else {
                                assert(q0.contains(q0[b]));
                            }
                        }
                    }
                }
                assert forall|w: int|
                    0 <= w < n && inner(w, s, t) && w != u implies (#[trigger] ctx.excess@[w] > 0 <==> q1.contains(
                        w as usize,
                    )) by {
                    if w != v {
                        assert(ctx.excess@[w] == e0[w]);
                        if q1.len() != q0.len() {
                            assert(q1 == q0.push(v));
                            if q1.contains(w as usize) {
                                let k = choose|k: int| 0 <= k < q1.len() && q1[k] == w as usize;
                                assert(q0.contains(w as usize)) by {
                                    assert(q0[k] == w as usize);
                                }
                            }
                            if q0.contains(w as usize) {
                                let k = choose|k: int| 0 <= k < q0.len() && q0[k] == w as usize;
                                assert(q1[k] == w as usize);
                            }
                        }
                    } else {
                        if q1.len() != q0.len() {
                            assert(q1[q1.len() - 1] == v);
                        } else {
                            assert(e0[w] > 0);
                        }
                    }
                }
            }
        } else {
            proof {
                lemma_advance_step(
                    g,
                    res.flow@,
                    s,
                    t,
                    ctx.height@,
                    ctx.excess@,
                    ctx.cur_arc@,
                    ctx.gap_count@,
                    u as int,
                );
            }
            let c = ctx.cur_arc[u];
            ctx.cur_arc.set(u, c + 1);
        }
        proof {
            lemma_measures_nonneg(g, res.flow@, s, t, ctx.height@, ctx.excess@, ctx.cur_arc@, ctx.gap_count@);
            moved = true;
        }
    }
}

/// At the end, with no inner node holding excess, the source's outflow is
/// the sink's excess.
pub proof fn lemma_value_is_sink_excess(g: &DiGraph, f: Seq<i64>, s: int, t: int)
    requires
        g.wf(),
        flow_bounded(g, f),
        0 <= s < g.n(),
        0 <= t < g.n(),
        s != t,
        forall|v: int| 0 <= v < g.n() && inner(v, s, t) ==> #[trigger] net_out(g, f, v) == 0,
    ensures
        net_out(g, f, s) == -net_out(g, f, t),
{
    let n = g.n();
    let side = Seq::new(n as nat, |v: int| true);
    lemma_side_net_out(g, f, side);
    let cross = |i: int| if side[g.arc_from(i)] && !side[g.arc_to(i)] { f[i] as int } else { 0 };
    assert forall|i: int| 0 <= i < g.m() implies #[trigger] cross(i) == 0 by {
        g.lemma_arc(i);
    }
    lemma_sum_zero(g.m(), cross);
    let node = |v: int| if side[v] { net_out(g, f, v) } else { 0 };
    let zero = |v: int| 0int;
    let k1 = |v: int| if v == s { net_out(g, f, v) } else { 0 };
    let keep = |v: int| if v == s || v == t { net_out(g, f, v) } else { 0 };
    lemma_sum_zero(n, zero);
    lemma_sum_point(n, zero, k1, s);
    lemma_sum_point(n, k1, keep, t);
    assert forall|v: int| 0 <= v < n implies #[trigger] node(v) == keep(v) by {}
    crate::sums::lemma_sum_ext(n, node, keep);
}

impl MaxFlowSolver for PushRelabel {
    fn max_flow(&self, graph: &DiGraph, source: NodeId, sink: NodeId) -> (r: Result<
        FlowResult,
        StanchionError,
    >) {
        let n = graph.node_count();
        if n > (usize::MAX - 2) / 2 {
            // Heights run up to 2n; a graph this large only fits in memory
            // where `usize` is wide enough, so elsewhere Dinic takes it.
            return Dinic.max_flow(graph, source, sink);
        }
        let src = source.0 as usize;
        let snk = sink.0 as usize;
        let mut res = ResidualGraph::new(graph);
        let mut height: Vec<usize> = Vec::new();
        let mut excess: Vec<i128> = Vec::new();
        let mut cur_arc: Vec<usize> = Vec::new();
        let mut k: usize = 0;
        while k < n
            invariant
                k <= n,
                height.len() == k,
                excess.len() == k,
                cur_arc.len() == k,
                forall|v: int| 0 <= v < k ==> #[trigger] height@[v] == 0,
                forall|v: int| 0 <= v < k ==> #[trigger] excess@[v] == 0,
                forall|v: int| 0 <= v < k ==> #[trigger] cur_arc@[v] == 0,
            decreases n - k,
        {
            height.push(0);
            excess.push(0);
            cur_arc.push(0);
            k += 1;
        }
        let mut gap_count: Vec<u32> = Vec::new();
        let mut k: usize = 0;
        while k < 2 * n + 2
            invariant
                2 * n + 2 <= usize::MAX,
                k <= 2 * n + 2,
                gap_count.len() == k,
                forall|i: int| 0 <= i < k ==> #[trigger] gap_count@[i] == 0,
            decreases 2 * n + 2 - k,
        {
            gap_count.push(0);
            k += 1;
        }
        let mut ctx = DischargeCtx { height, excess, cur_arc, active: VecDeque::new(), gap_count };
        ctx.height.set(src, n);
        ctx.gap_count.set(0, n.saturating_sub(2) as u32);
        let ghost s = src as int;
        let ghost t = snk as int;
        proof {
            assert(flow_bounded(graph, res.flow@)) by {
                assert(is_flow(graph, res.flow@, s, t));
            }
        }

        // Saturate every arc leaving the source.
        let nbrs = graph.neighbors(source);
        let mut j: usize = 0;
        while j < nbrs.len()
            invariant
                max_flow_input(graph, source, sink),
                n == graph.n(),
                2 * n + 2 <= usize::MAX,
                s == src,
                t == snk,
                src == source.0,
                snk == sink.0,
                res.graph == graph,
                flow_bounded(graph, res.flow@),
                nbrs.len() == graph.adj[s].len(),
                forall|q: int|
                    0 <= q < nbrs.len() ==> #[trigger] nbrs@[q] == (
                        graph.edges[graph.adj[s][q] as int].to,
                        graph.adj[s][q],
                    ),
                j <= nbrs.len(),
                ctx.height.len() == n,
                ctx.excess.len() == n,
                ctx.cur_arc.len() == n,
                ctx.gap_count.len() == 2 * n + 2,
                ctx.height@[s] == n,
                forall|v: int| 0 <= v < n && v != s ==> #[trigger] ctx.height@[v] == 0,
                forall|v: int| 0 <= v < n ==> #[trigger] ctx.cur_arc@[v] == 0,
                ctx.gap_count@[0] == n - 2,
                forall|i: int| 0 < i < 2 * n + 2 ==> #[trigger] ctx.gap_count@[i] == 0,
                forall|v: int| 0 <= v < n ==> #[trigger] ctx.excess@[v] == -net_out(graph, res.flow@, v),
                forall|v: int| 0 <= v < n && v != s ==> #[trigger] ctx.excess@[v] >= 0,
                forall|q: int|
                    0 <= q < j ==> #[trigger] rcap(graph, res.flow@, graph.adj[s][q] as int) <= 0
                        || graph.arc_to(graph.adj[s][q] as int) == s,
                queue_ok(ctx.active@, ctx.excess@, n as int, s, t, -1),
            decreases nbrs.len() - j,
        {
            let (v, idx) = nbrs[j];
            proof {
                graph.lemma_adj(s, j as int);
                graph.lemma_arc(idx as int);
                lemma_rcap_range(graph, res.flow@, idx as int);
            }
            let cap = res.residual_capacity(idx);
            let vi = v.0 as usize;
            if cap > 0 && vi != src {
                let ghost f0 = res.flow@;
                let ghost e0 = ctx.excess@;
                let ghost q0 = ctx.active@;
                proof {
                    lemma_push(graph, f0, idx as int, cap as int);
                    lemma_net_out_bound(graph, pushed(f0, idx as int, cap as int), vi as int);
                    lemma_net_out_bound(graph, pushed(f0, idx as int, cap as int), s);
                    assert(net_out(graph, pushed(f0, idx as int, cap as int), s) == net_out(graph, f0, s) + cap);
                    assert(net_out(graph, pushed(f0, idx as int, cap as int), vi as int) == net_out(graph, f0, vi as int) - cap);
                }
                res.push_flow(idx, cap);
                let ev = ctx.excess[vi];
                ctx.excess.set(vi, ev + cap as i128);
                let es = ctx.excess[src];
                ctx.excess.set(src, es - cap as i128);
                if vi != snk && ctx.excess[vi] == cap as i128 {
                    proof {
                        assert(!q0.contains(vi));
                    }
                    ctx.active.push_back(vi);
                }
                proof {
                    let f1 = res.flow@;
                    assert forall|w: int| 0 <= w < n implies #[trigger] ctx.excess@[w] == -net_out(graph, f1, w) by {
                        assert(net_out(graph, f1, w) == net_out(graph, f0, w) + (if w == graph.arc_from(idx as int) {
                            cap as int
                        } else {
                            0
                        }) - (if w == graph.arc_to(idx as int) {
                            cap as int
                        } else {
                            0
                        }));
                    }
                    assert forall|q: int|
                        0 <= q < j + 1 implies #[trigger] rcap(graph, f1, graph.adj[s][q] as int) <= 0 || graph.arc_to(
                            graph.adj[s][q] as int,
                        ) == s by {
                        graph.lemma_adj(s, q);
                        let a = graph.adj[s][q] as int;
                        if q < j {
                            assert(rcap(graph, f0, a) <= 0 || graph.arc_to(a) == s);
                            assert(graph.adj[s][q] < graph.adj[s][j as int]);
                            assert(graph.arc_from(twin(idx as int)) == vi);
                            assert(a != twin(idx as int));
                            assert(a != idx as int);
                            assert(f1[a] == f0[a]);
                        } else {
                            assert(a == idx as int);
                            assert(rcap(graph, f1, a) == rcap(graph, f0, a) - cap);
                        }
                    }
                    let q1 = ctx.active@;
                    assert(q1.no_duplicates()) by {
                        if q1.len() != q0.len() {
                            assert forall|a: int, b: int|
                                0 <= a < q1.len() && 0 <= b < q1.len() && a != b implies q1[a] != q1[b] by {
                                if a < q0.len() && b < q0.len() {
                                    assert(q0[a] != q0[b]);
                                } else if a < q0.len() {
                                    assert(q0.contains(q0[a]));
                                } else {
                                    assert(q0.contains(q0[b]));
                                }
                            }
                        }
                    }
                    assert forall|w: int|
                        0 <= w < n && inner(w, s, t) && w != -1 implies (#[trigger] ctx.excess@[w] > 0
                            <==> q1.contains(w as usize)) by {
                        if w != vi {
                            assert(ctx.excess@[w] == e0[w]);
                            if q1.len() != q0.len() {
                                if q1.contains(w as usize) {
                                    let k = choose|k: int| 0 <= k < q1.len() && q1[k] == w as usize;
                                    assert(q0[k] == w as usize);
                                }
                                if q0.contains(w as usize) {
                                    let k = choose|k: int| 0 <= k < q0.len() && q0[k] == w as usize;
                                    assert(q1[k] == w as usize);
                                }
                            }
                        } else {
                            if q1.len() != q0.len() {
                                assert(q1[q1.len() - 1] == vi);
                            } else {
                                assert(e0[w] > 0);
                            }
                        }
                    }
                }
            } else {
                proof {
                    assert(rcap(graph, res.flow@, graph.adj[s][j as int] as int) <= 0 || graph.arc_to(
                        graph.adj[s][j as int] as int,
                    ) == s);
                }
            }
            j += 1;
        }
        proof {
            let f = res.flow@;
            let h = ctx.height@;
            assert forall|i: int| 0 <= i < graph.m() implies #[trigger] label_ok(graph, f, h, i) by {
                graph.lemma_arc(i);
                if rcap(graph, f, i) > 0 && graph.arc_from(i) == s {
                    assert(graph.adj[s]@.contains(i as usize));
                    let q = choose|q: int| 0 <= q < graph.adj[s].len() && graph.adj[s][q] == i as usize;
                    assert(rcap(graph, f, graph.adj[s][q] as int) <= 0 || graph.arc_to(graph.adj[s][q] as int) == s);
                }
            }
            lemma_count_all(h, at_least(0));
            assert forall|k: int| 0 <= k < 2 * n + 2 implies #[trigger] ctx.gap_count@[k] <= count_where(
                h,
                at_least(k),
            ) by {
                if k == 0 {
                    assert(forall|i: int| 0 <= i < h.len() ==> #[trigger] at_least(0)(h[i]));
                }
            }
            assert forall|v: int| 0 <= v < n && inner(v, s, t) implies #[trigger] ctx.gap_count@[h[v] as int] >= 1 by {
                assert(h[v] == 0);
            }
            assert(labels_valid(graph, f, h));
            assert(ctx_ok(graph, f, s, t, &ctx));
        }

        // Discharge active nodes in FIFO order.
        loop
            invariant
                max_flow_input(graph, source, sink),
                n == graph.n(),
                s == src,
                t == snk,
                src == source.0,
                snk == sink.0,
                res.graph == graph,
                ctx_ok(graph, res.flow@, s, t, &ctx),
                queue_ok(ctx.active@, ctx.excess@, n as int, s, t, -1),
            ensures
                ctx_ok(graph, res.flow@, s, t, &ctx),
                queue_ok(ctx.active@, ctx.excess@, n as int, s, t, -1),
                ctx.active@.len() == 0,
            decreases
                height_room(ctx.height@, n as int, s, t),
                excess_weight(ctx.excess@, ctx.height@, n as int, s, t),
                arcs_left(graph, ctx.cur_arc@, s, t),
        {
            let ghost q0 = ctx.active@;
            match ctx.active.pop_front() {
                None => {
                    break;
                },
                Some(u) => {
                    proof {
                        assert(q0[0] == u);
                        assert(q0.contains(u));
                        let q1 = ctx.active@;
                        assert forall|i: int| 0 <= i < q1.len() implies #[trigger] q1[i] != u by {
                            assert(q1[i] == q0[i + 1]);
                        }
                        assert forall|w: int|
                            0 <= w < n && inner(w, s, t) && w != u implies (#[trigger] ctx.excess@[w] > 0
                                <==> q1.contains(w as usize)) by {
                            if q0.contains(w as usize) {
                                let k = choose|k: int| 0 <= k < q0.len() && q0[k] == w as usize;
                                assert(k != 0);
                                assert(q1[k - 1] == w as usize);
                            }
                            if q1.contains(w as usize) {
                                let k = choose|k: int| 0 <= k < q1.len() && q1[k] == w as usize;
                                assert(q0[k + 1] == w as usize);
                            }
                        }
                        assert(q1.no_duplicates()) by {
                            assert forall|a: int, b: int|
                                0 <= a < q1.len() && 0 <= b < q1.len() && a != b implies q1[a] != q1[b] by {
                                assert(q1[a] == q0[a + 1]);
                                assert(q1[b] == q0[b + 1]);
                            }
                        }
                    }
                    discharge(&mut res, u, snk, src, n, &mut ctx);
                    proof {
                        lemma_measures_nonneg(
                            graph,
                            res.flow@,
                            s,
                            t,
                            ctx.height@,
                            ctx.excess@,
                            ctx.cur_arc@,
                            ctx.gap_count@,
                        );
                    }
                },
            }
        }
        let ghost f = res.flow@;
        proof {
            assert forall|v: int| 0 <= v < n && inner(v, s, t) implies #[trigger] net_out(graph, f, v) == 0 by {
                assert(ctx.excess@[v] >= 0);
                assert(!(ctx.excess@[v] > 0));
                assert(ctx.excess@[v] == -net_out(graph, f, v));
            }
            assert(is_flow(graph, f, s, t));
            lemma_labels_cut(graph, f, ctx.height@, s, t);
            lemma_value_is_sink_excess(graph, f, s, t);
            assert(ctx.excess@[t] == -net_out(graph, f, t));
            assert(ctx.excess@[t] >= 0);
        }
        let e = ctx.excess[snk];
        Ok(FlowResult { max_flow: if e > 0 { e } else { 0 }, flow_on_edge: res.flow })
    }
}

} // verus!
