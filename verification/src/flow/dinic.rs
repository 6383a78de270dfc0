//! Dinic's maximum-flow algorithm.
use std::collections::VecDeque;
use vstd::prelude::*;
use crate::error::StanchionError;
use crate::graph::{DiGraph, NodeId, ResidualGraph};
use crate::graph::residual::{
    rcap, flow_bounded, net_out, is_flow, flow_value, closed_cut, no_augmenting_path, is_max_flow,
    source_capacity, pushed, lemma_push, lemma_rcap_range, lemma_value_le_source_capacity,
    lemma_source_capacity_bound,
};
use crate::sums::{twin, count_where, lemma_count_update, lemma_count_le, lemma_count_all};
use super::{FlowResult, MaxFlowSolver, max_flow_input};

verus! {

/// Dinic's max-flow algorithm.
///
/// Uses BFS to build a level graph and DFS with current-arc optimisation
/// to find blocking flows.
pub struct Dinic;

/// `p` is a path of arcs from `u` to `t` in the level graph of `f`: every
/// arc has positive residual capacity and climbs exactly one level.
pub open spec fn level_path(
    g: &DiGraph,
    f: Seq<i64>,
    level: Seq<i64>,
    p: Seq<int>,
    u: int,
    t: int,
) -> bool
    decreases p.len(),
{
    if p.len() == 0 {
        u == t
    } else {
        let i = p[0];
        &&& 0 <= i < g.m()
        &&& g.arc_from(i) == u
        &&& rcap(g, f, i) > 0
        &&& level[g.arc_to(i)] == level[u] + 1
        &&& level_path(g, f, level, p.drop_first(), g.arc_to(i), t)
    }
}

/// `u` still reaches `t` in the level graph.
pub open spec fn alive(g: &DiGraph, f: Seq<i64>, level: Seq<i64>, u: int, t: int) -> bool {
    exists|p: Seq<int>| level_path(g, f, level, p, u, t)
}

/// Arc `i` is a level-graph arc that can still carry flow toward `t`.
pub open spec fn usable(g: &DiGraph, f: Seq<i64>, level: Seq<i64>, i: int, t: int) -> bool {
    &&& rcap(g, f, i) > 0
    &&& level[g.arc_to(i)] == level[g.arc_from(i)] + 1
    &&& alive(g, f, level, g.arc_to(i), t)
}

/// Every arc skipped by a current-arc pointer is no longer usable.
pub open spec fn blocked(
    g: &DiGraph,
    f: Seq<i64>,
    level: Seq<i64>,
    iter: Seq<usize>,
    t: int,
) -> bool {
    &&& iter.len() == g.n()
    &&& forall|w: int| 0 <= w < g.n() ==> #[trigger] iter[w] <= g.adj[w].len()
    &&& forall|w: int, j: int|
        0 <= w < g.n() && 0 <= j < iter[w] ==> !usable(g, f, level, #[trigger] g.adj[w][j] as int, t)
}

/// Level arcs keep or lose residual capacity from `f` to `f2`.
pub open spec fn level_arcs_shrink(g: &DiGraph, f: Seq<i64>, f2: Seq<i64>, level: Seq<i64>) -> bool {
    forall|i: int|
        0 <= i < g.m() && level[g.arc_to(i)] == level[g.arc_from(i)] + 1 ==> #[trigger] rcap(
            g,
            f2,
            i,
        ) <= rcap(g, f, i)
}

/// Levels as computed by the BFS from `s`.
pub open spec fn levels_ok(g: &DiGraph, f: Seq<i64>, level: Seq<i64>, s: int) -> bool {
    &&& level.len() == g.n()
    &&& level[s] == 0
    &&& forall|v: int| 0 <= v < g.n() ==> -1 <= #[trigger] level[v] < g.n()
    &&& forall|v: int| 0 <= v < g.n() && level[v] == 0 ==> v == s
    &&& forall|v: int| 0 <= v < g.n() && #[trigger] level[v] > 0 ==> has_level_pred(g, f, level, v)
}

pub open spec fn has_level_pred(g: &DiGraph, f: Seq<i64>, level: Seq<i64>, v: int) -> bool {
    exists|i: int|
        0 <= i < g.m() && #[trigger] g.arc_to(i) == v && level[g.arc_from(i)] == level[v] - 1
            && rcap(g, f, i) > 0
}

proof fn lemma_level_path_extend(
    g: &DiGraph,
    f: Seq<i64>,
    level: Seq<i64>,
    p: Seq<int>,
    a: int,
    b: int,
    i: int,
)
    requires
        level_path(g, f, level, p, a, b),
        0 <= i < g.m(),
        g.arc_from(i) == b,
        rcap(g, f, i) > 0,
        level[g.arc_to(i)] == level[b] + 1,
    ensures
        level_path(g, f, level, p.push(i), a, g.arc_to(i)),
    decreases p.len(),
{
    if p.len() == 0 {
        assert(p.push(i).drop_first() =~= Seq::<int>::empty());
        assert(level_path(g, f, level, Seq::<int>::empty(), g.arc_to(i), g.arc_to(i)));
        assert(p.push(i)[0] == i);
    } else {
        assert(p.push(i).drop_first() =~= p.drop_first().push(i));
        assert(p.push(i)[0] == p[0]);
        lemma_level_path_extend(g, f, level, p.drop_first(), g.arc_to(p[0]), b, i);
    }
}

/// Every node the BFS labelled is reached from `s` by a level path.
proof fn lemma_levels_reach(g: &DiGraph, f: Seq<i64>, level: Seq<i64>, s: int, v: int)
    requires
        levels_ok(g, f, level, s),
        0 <= v < g.n(),
        level[v] >= 0,
        g.wf(),
    ensures
        alive(g, f, level, s, v),
    decreases level[v],
{
    if level[v] == 0 {
        assert(level_path(g, f, level, Seq::<int>::empty(), s, v));
    } else {
        assert(has_level_pred(g, f, level, v));
        let i = choose|i: int|
            0 <= i < g.m() && #[trigger] g.arc_to(i) == v && level[g.arc_from(i)] == level[v] - 1
                && rcap(g, f, i) > 0;
        g.lemma_arc(i);
        let u = g.arc_from(i);
        lemma_levels_reach(g, f, level, s, u);
        let p = choose|p: Seq<int>| level_path(g, f, level, p, s, u);
        lemma_level_path_extend(g, f, level, p, s, u, i);
    }
}

/// Level paths of a flow whose level arcs only lost capacity were level
/// paths before.
proof fn lemma_level_path_shrink(
    g: &DiGraph,
    f: Seq<i64>,
    f2: Seq<i64>,
    level: Seq<i64>,
    p: Seq<int>,
    u: int,
    t: int,
)
    requires
        level_arcs_shrink(g, f, f2, level),
        level_path(g, f2, level, p, u, t),
    ensures
        level_path(g, f, level, p, u, t),
    decreases p.len(),
{
    if p.len() > 0 {
        let i = p[0];
        assert(rcap(g, f2, i) <= rcap(g, f, i));
        lemma_level_path_shrink(g, f, f2, level, p.drop_first(), g.arc_to(i), t);
    }
}

proof fn lemma_alive_shrink(g: &DiGraph, f: Seq<i64>, f2: Seq<i64>, level: Seq<i64>, u: int, t: int)
    requires
        level_arcs_shrink(g, f, f2, level),
        alive(g, f2, level, u, t),
    ensures
        alive(g, f, level, u, t),
{
    let p = choose|p: Seq<int>| level_path(g, f2, level, p, u, t);
    lemma_level_path_shrink(g, f, f2, level, p, u, t);
}

proof fn lemma_blocked_shrink(
    g: &DiGraph,
    f: Seq<i64>,
    f2: Seq<i64>,
    level: Seq<i64>,
    iter: Seq<usize>,
    t: int,
)
    requires
        g.wf(),
        blocked(g, f, level, iter, t),
        level_arcs_shrink(g, f, f2, level),
    ensures
        blocked(g, f2, level, iter, t),
{
    assert forall|w: int, j: int|
        0 <= w < g.n() && 0 <= j < iter[w] implies !usable(g, f2, level, #[trigger] g.adj[w][j] as int, t) by {
        let i = g.adj[w][j] as int;
        g.lemma_adj(w, j);
        if usable(g, f2, level, i, t) {
            lemma_alive_shrink(g, f, f2, level, g.arc_to(i), t);
            assert(usable(g, f, level, i, t));
        }
    }
}

/// A node all of whose arcs are blocked is dead.
proof fn lemma_all_blocked_dead(
    g: &DiGraph,
    f: Seq<i64>,
    level: Seq<i64>,
    iter: Seq<usize>,
    u: int,
    t: int,
)
    requires
        g.wf(),
        blocked(g, f, level, iter, t),
        0 <= u < g.n(),
        iter[u] == g.adj[u].len(),
        u != t,
    ensures
        !alive(g, f, level, u, t),
{
    if alive(g, f, level, u, t) {
        let p = choose|p: Seq<int>| level_path(g, f, level, p, u, t);
        let i = p[0];
        g.lemma_arc(i);
        assert(g.adj[u]@.contains(i as usize));
        let j = choose|j: int| 0 <= j < g.adj[u].len() && g.adj[u][j] == i as usize;
        assert(level_path(g, f, level, p.drop_first(), g.arc_to(i), t));
        assert(usable(g, f, level, g.adj[u][j] as int, t));
    }
}

impl MaxFlowSolver for Dinic {
    fn max_flow(&self, graph: &DiGraph, source: NodeId, sink: NodeId) -> (r: Result<
        FlowResult,
        StanchionError,
    >) {
        let n = graph.node_count();
        let s = source.0 as usize;
        let t = sink.0 as usize;
        let mut residual = ResidualGraph::new(graph);
        let mut level: Vec<i64> = Vec::new();
        let mut iter: Vec<usize> = Vec::new();
        let mut k: usize = 0;
        while k < n
            invariant
                k <= n,
                level.len() == k,
                iter.len() == k,
                forall|w: int| 0 <= w < k ==> iter@[w] == 0,
            decreases n - k,
        {
            level.push(-1);
            iter.push(0);
            k += 1;
        }
        let mut total: i128 = 0;
        proof {
            assert(is_flow(graph, residual.flow@, s as int, t as int));
            assert(net_out(graph, residual.flow@, s as int) == 0);
            lemma_value_le_source_capacity(graph, residual.flow@, s as int);
        }
        loop
            invariant
                max_flow_input(graph, source, sink),
                n == graph.nodes.len(),
                s == source.0,
                t == sink.0,
                residual.graph == graph,
                is_flow(graph, residual.flow@, s as int, t as int),
                total == flow_value(graph, residual.flow@, s as int),
                level.len() == n,
                iter.len() == n,
                source_capacity(graph, s as int) >= 0,
            ensures
                is_max_flow(graph, residual.flow@, s as int, t as int),
                total == flow_value(graph, residual.flow@, s as int),
                residual.graph == graph,
            decreases source_capacity(graph, s as int) - total,
        {
            if !bfs_level(&residual, source, sink, &mut level) {
                break;
            }
            let mut w: usize = 0;
            while w < n
                invariant
                    w <= n,
                    iter.len() == n,
                    forall|x: int| 0 <= x < w ==> iter@[x] == 0,
                decreases n - w,
            {
                iter.set(w, 0);
                w += 1;
            }
            let ghost phase_flow = residual.flow@;
            let ghost phase_total = total;
            proof {
                lemma_levels_reach(graph, residual.flow@, level@, s as int, t as int);
                assert forall|x: int| 0 <= x < n implies #[trigger] iter@[x] <= graph.adj[x].len() by {}
                lemma_value_le_source_capacity(graph, residual.flow@, s as int);
            }
            loop
                invariant
                    max_flow_input(graph, source, sink),
                    n == graph.nodes.len(),
                    s == source.0,
                    t == sink.0,
                    residual.graph == graph,
                    is_flow(graph, residual.flow@, s as int, t as int),
                    total == flow_value(graph, residual.flow@, s as int),
                    levels_ok(graph, phase_flow, level@, s as int),
                    alive(graph, phase_flow, level@, s as int, t as int),
                    level_arcs_shrink(graph, phase_flow, residual.flow@, level@),
                    blocked(graph, residual.flow@, level@, iter@, t as int),
                    total >= phase_total,
                    total == phase_total ==> residual.flow@ == phase_flow,
                    total <= source_capacity(graph, s as int),
                ensures
                    is_flow(graph, residual.flow@, s as int, t as int),
                    total == flow_value(graph, residual.flow@, s as int),
                    total > phase_total,
                    residual.graph == graph,
                    level.len() == n,
                    iter.len() == n,
                decreases source_capacity(graph, s as int) - total,
            {
                let pushed = dfs_blocking(&mut residual, s, t, i64::MAX, &level, &mut iter);
                if pushed == 0 {
                    proof {
                        if total == phase_total {
                            assert(alive(graph, residual.flow@, level@, s as int, t as int));
                        }
                    }
                    break;
                }
                proof {
                    assert(net_out(graph, residual.flow@, s as int) == total + pushed);
                    lemma_value_le_source_capacity(graph, residual.flow@, s as int);
                    lemma_source_capacity_bound(graph, s as int);
                    assert forall|v: int| 0 <= v < n && v != s && v != t implies #[trigger] net_out(
                        graph,
                        residual.flow@,
                        v,
                    ) == 0 by {}
                }
                total = total + pushed as i128;
            }
        }
        let flow_on_edge = residual.flow;
        Ok(FlowResult { max_flow: total, flow_on_edge })
    }
}

/// BFS to compute level labels in the residual graph.
/// Returns true if the sink is reachable from the source; otherwise the
/// labelled nodes form a cut that no residual arc leaves.
fn bfs_level(residual: &ResidualGraph<'_>, source: NodeId, sink: NodeId, level: &mut Vec<i64>) -> (r:
    bool)
    requires
        max_flow_input(residual.graph, source, sink),
        is_flow(residual.graph, residual.flow@, source.0 as int, sink.0 as int),
        old(level).len() == residual.graph.n(),
    ensures
        final(level).len() == residual.graph.n(),
        levels_ok(residual.graph, residual.flow@, final(level)@, source.0 as int),
        r == (final(level)@[sink.0 as int] >= 0),
        !r ==> no_augmenting_path(residual.graph, residual.flow@, source.0 as int, sink.0 as int),
{
    let g = residual.graph();
    let ghost f = residual.flow@;
    let n = level.len();
    let s = source.0 as usize;
    let mut k: usize = 0;
    while k < n
        invariant
            k <= n,
            level.len() == n,
            forall|w: int| 0 <= w < k ==> level@[w] == -1,
        decreases n - k,
    {
        level.set(k, -1);
        k += 1;
    }
    let ghost unset = |x: i64| x < 0;
    proof {
        lemma_count_all(level@, unset);
        lemma_count_update(level@, unset, s as int, 0);
    }
    level.set(s, 0);
    let mut queue: VecDeque<usize> = VecDeque::new();
    queue.push_back(s);
    proof {
        assert(queue@[0] == s);
        assert forall|v: int|
            0 <= v < n && level@[v] >= 0 && !queue@.contains(v as usize) implies #[trigger] processed(
            g,
            f,
            level@,
            v,
        ) by {
            assert(v != s as int);
        }
        lemma_count_le(level@, unset);
    }
    loop
        invariant
            max_flow_input(g, source, sink),
            g == residual.graph,
            f == residual.flow@,
            is_flow(g, f, source.0 as int, sink.0 as int),
            n == g.n(),
            s == source.0,
            level.len() == n,
            unset == (|x: i64| x < 0),
            level@[s as int] == 0,
            forall|v: int| 0 <= v < n ==> -1 <= #[trigger] level@[v] < n - count_where(level@, unset),
            forall|v: int| 0 <= v < n && level@[v] == 0 ==> v == s,
            forall|v: int| 0 <= v < n && #[trigger] level@[v] > 0 ==> has_level_pred(g, f, level@, v),
            forall|j: int|
                0 <= j < queue@.len() ==> 0 <= #[trigger] queue@[j] < n && level@[queue@[j] as int]
                    >= 0,
            forall|v: int|
                0 <= v < n && level@[v] >= 0 && !queue@.contains(v as usize) ==> #[trigger] processed(
                    g,
                    f,
                    level@,
                    v,
                ),
            count_where(level@, unset) <= n,
        ensures
            level.len() == n,
            levels_ok(g, f, level@, s as int),
            forall|v: int| 0 <= v < n && #[trigger] level@[v] >= 0 ==> processed(g, f, level@, v),
        decreases 2 * count_where(level@, unset) + queue@.len(),
    {
        let ghost q0 = queue@;
        let ghost c0 = count_where(level@, unset);
        let ghost lv0 = level@;
        match queue.pop_front() {
            None => {
                proof {
                    assert forall|v: int| 0 <= v < n && #[trigger] level@[v] >= 0 implies processed(
                        g,
                        f,
                        level@,
                        v,
                    ) by {
                        assert(!queue@.contains(v as usize));
                    }
                }
                break;
            },
            Some(u) => {
                let lu = level[u];
                let a = &g.adj[u];
                let mut j: usize = 0;
                while j < a.len()
                    invariant
                        max_flow_input(g, source, sink),
                        g == residual.graph,
                        f == residual.flow@,
                        is_flow(g, f, source.0 as int, sink.0 as int),
                        n == g.n(),
                        s == source.0,
                        level.len() == n,
                        unset == (|x: i64| x < 0),
                        u < n,
                        a == &g.adj[u as int],
                        j <= a.len(),
                        lu == level@[u as int],
                        0 <= lu < n - c0,
                        level@[s as int] == 0,
                        forall|v: int|
                            0 <= v < n ==> -1 <= #[trigger] level@[v] < n - count_where(level@, unset),
                        forall|v: int| 0 <= v < n && level@[v] == 0 ==> v == s,
                        forall|v: int|
                            0 <= v < n && #[trigger] level@[v] > 0 ==> has_level_pred(g, f, level@, v),
                        forall|v: int| 0 <= v < n && lv0[v] >= 0 ==> #[trigger] level@[v] == lv0[v],
                        forall|x: int|
                            0 <= x < queue@.len() ==> 0 <= #[trigger] queue@[x] < n && level@[queue@[
                                x
                            ] as int] >= 0,
                        forall|x: int| 0 <= x < q0.len() - 1 ==> #[trigger] queue@[x] == q0[x + 1],
                        queue@.len() >= q0.len() - 1,
                        forall|v: int|
                            0 <= v < n && level@[v] >= 0 && lv0[v] < 0 ==> queue@.contains(v as usize),
                        forall|x: int|
                            0 <= x < j ==> #[trigger] level@[g.arc_to(a[x] as int)] >= 0 || rcap(
                                g,
                                f,
                                a[x] as int,
                            ) <= 0,
                        2 * count_where(level@, unset) + queue@.len() <= 2 * c0 + q0.len() - 1,
                        count_where(level@, unset) <= c0,
                    decreases a.len() - j,
                {
                    proof {
                        g.lemma_adj(u as int, j as int);
                        g.lemma_arc(a[j as int] as int);
                        lemma_rcap_range(g, f, a[j as int] as int);
                    }
                    let idx = a[j];
                    let v = g.edges[idx].to.0 as usize;
                    let ghost lvj = level@;
                    let ghost qj = queue@;
                    if level[v] < 0 && residual.residual_capacity(idx) > 0 {
                        proof {
                            lemma_count_update(level@, unset, v as int, (lu + 1) as i64);
                            lemma_count_le(level@, unset);
                        }
                        level.set(v, lu + 1);
                        queue.push_back(v);
                        proof {
                            assert(has_level_pred(g, f, level@, v as int)) by {
                                assert(g.arc_to(idx as int) == v);
                            }
                            assert(queue@.last() == v);
                            assert forall|w: int|
                                0 <= w < n && #[trigger] level@[w] > 0 implies has_level_pred(
                                g,
                                f,
                                level@,
                                w,
                            ) by {
                                if w != v as int {
                                    assert(lvj[w] > 0);
                                    assert(has_level_pred(g, f, lvj, w));
                                    let i = choose|i: int|
                                        0 <= i < g.m() && #[trigger] g.arc_to(i) == w && lvj[g.arc_from(
                                            i,
                                        )] == lvj[w] - 1 && rcap(g, f, i) > 0;
                                    g.lemma_arc(i);
                                    assert(level@[g.arc_from(i)] == level@[w] - 1);
                                }
                            }
                            assert forall|w: int|
                                0 <= w < n && level@[w] >= 0 && lv0[w] < 0 implies queue@.contains(
                                w as usize,
                            ) by {
                                if w != v as int {
                                    assert(qj.contains(w as usize));
                                    let x = choose|x: int| 0 <= x < qj.len() && qj[x] == w as usize;
                                    assert(queue@[x] == w as usize);
                                } else {
                                    assert(queue@[queue@.len() - 1] == w as usize);
                                }
                            }
                        }
                    }
                    proof {
                        assert forall|x: int|
                            0 <= x < j + 1 implies #[trigger] level@[g.arc_to(a[x] as int)] >= 0 || rcap(
                            g,
                            f,
                            a[x] as int,
                        ) <= 0 by {
                            g.lemma_adj(u as int, x);
                            g.lemma_arc(a[x] as int);
                            if x < j {
                                assert(lvj[g.arc_to(a[x] as int)] >= 0 || rcap(g, f, a[x] as int) <= 0);
                            }
                        }
                    }
                    j += 1;
                }
                proof {
                    assert forall|v: int|
                        0 <= v < n && level@[v] >= 0 && !queue@.contains(v as usize) implies #[trigger] processed(
                        g,
                        f,
                        level@,
                        v,
                    ) by {
                        if v == u as int {
                            assert forall|i: int|
                                0 <= i < g.m() && #[trigger] g.arc_from(i) == v && rcap(g, f, i)
                                    > 0 implies level@[g.arc_to(i)] >= 0 by {
                                g.lemma_arc(i);
                                assert(g.adj[v]@.contains(i as usize));
                                let x = choose|x: int| 0 <= x < a.len() && a[x] == i as usize;
                                assert(level@[g.arc_to(a[x] as int)] >= 0 || rcap(g, f, a[x] as int)
                                    <= 0);
                            }
                        } else {
                            assert(lv0[v] >= 0);
                            if q0.contains(v as usize) {
                                let x = choose|x: int| 0 <= x < q0.len() && q0[x] == v as usize;
                                if x > 0 {
                                    assert(queue@[x - 1] == q0[x]);
                                }
                            }
                            assert(processed(g, f, lv0, v));
                            assert forall|i: int|
                                0 <= i < g.m() && #[trigger] g.arc_from(i) == v && rcap(g, f, i)
                                    > 0 implies level@[g.arc_to(i)] >= 0 by {
                                g.lemma_arc(i);
                            }
                        }
                    }
                }
            },
        }
    }
    proof {
        if level@[sink.0 as int] < 0 {
            let side = Seq::new(n as nat, |v: int| level@[v] >= 0);
            assert forall|i: int|
                0 <= i < g.m() && #[trigger] side[g.arc_from(i)] && rcap(g, f, i) > 0 implies side[g.arc_to(
                i,
            )] by {
                g.lemma_arc(i);
                assert(processed(g, f, level@, g.arc_from(i)));
            }
            assert(closed_cut(g, f, side, source.0 as int, sink.0 as int));
        }
    }
    level[sink.0 as usize] >= 0
}

/// Every residual arc leaving `v` reaches a labelled node.
pub open spec fn processed(g: &DiGraph, f: Seq<i64>, level: Seq<i64>, v: int) -> bool {
    forall|i: int|
        0 <= i < g.m() && #[trigger] g.arc_from(i) == v && rcap(g, f, i) > 0 ==> level[g.arc_to(i)]
            >= 0
}

/// DFS blocking flow with current-arc (iter pointer) optimisation.
/// Returns the flow pushed along one level path from `u` to the sink, 0 if
/// `u` no longer reaches the sink in the level graph.
fn dfs_blocking(
    residual: &mut ResidualGraph<'_>,
    u: usize,
    sink: usize,
    pushed: i64,
    level: &Vec<i64>,
    iter: &mut Vec<usize>,
) -> (d: i64)
    requires
        old(residual).graph.wf(),
        flow_bounded(old(residual).graph, old(residual).flow@),
        u < old(residual).graph.n(),
        sink < old(residual).graph.n(),
        level.len() == old(residual).graph.n(),
        0 <= level@[u as int],
        forall|v: int| 0 <= v < level.len() ==> #[trigger] level@[v] < level.len(),
        pushed > 0,
        blocked(old(residual).graph, old(residual).flow@, level@, old(iter)@, sink as int),
    ensures
        final(residual).graph == old(residual).graph,
        0 <= d <= pushed,
        flow_bounded(final(residual).graph, final(residual).flow@),
        forall|v: int|
            #[trigger] net_out(final(residual).graph, final(residual).flow@, v) == net_out(
                old(residual).graph,
                old(residual).flow@,
                v,
            ) + (if v == u {
                d as int
            } else {
                0
            }) - (if v == sink {
                d as int
            } else {
                0
            }),
        d == 0 ==> final(residual).flow@ == old(residual).flow@,
        d == 0 ==> u != sink && !alive(
            old(residual).graph,
            old(residual).flow@,
            level@,
            u as int,
            sink as int,
        ),
        level_arcs_shrink(old(residual).graph, old(residual).flow@, final(residual).flow@, level@),
        forall|k: int|
            0 <= k < old(residual).graph.m() && (level@[old(residual).graph.arc_from(k)] < level@[u as int]
                || level@[old(residual).graph.arc_to(k)] < level@[u as int]) ==> #[trigger] final(residual).flow@[k] == old(residual).flow@[k],
        final(iter).len() == old(iter).len(),
        forall|w: int|
            0 <= w < level.len() && level@[w] < level@[u as int] ==> #[trigger] final(iter)@[w] == old(iter)@[w],
        blocked(final(residual).graph, final(residual).flow@, level@, final(iter)@, sink as int),
    decreases level.len() - level@[u as int],
{
    let ghost g = residual.graph;
    let ghost f0 = residual.flow@;
    assert(g == old(residual).graph);
    assert(f0 == old(residual).flow@);
    if u == sink {
        return pushed;
    }
    let adj_len = residual.graph.adj[u].len();
    while iter[u] < adj_len
        invariant
            residual.graph == g,
            residual.flow@ == f0,
            g == old(residual).graph,
            f0 == old(residual).flow@,
            g.wf(),
            flow_bounded(g, f0),
            u < g.n(),
            u != sink,
            sink < g.n(),
            level.len() == g.n(),
            0 <= level@[u as int],
            forall|v: int| 0 <= v < level.len() ==> #[trigger] level@[v] < level.len(),
            pushed > 0,
            adj_len == g.adj[u as int].len(),
            blocked(g, f0, level@, iter@, sink as int),
            iter.len() == old(iter).len(),
            forall|w: int|
                0 <= w < level.len() && level@[w] < level@[u as int] ==> #[trigger] iter@[w] == old(iter)@[w],
        decreases adj_len - iter@[u as int],
    {
        let pos = iter[u];
        proof {
            g.lemma_adj(u as int, pos as int);
        }
        let edge_idx = residual.graph.adj[u][pos];
        proof {
            g.lemma_arc(edge_idx as int);
            lemma_rcap_range(g, f0, edge_idx as int);
        }
        let v = residual.graph.edges[edge_idx].to.0 as usize;
        let res_cap = residual.residual_capacity(edge_idx);
        if level[v] == level[u] + 1 && res_cap > 0 {
            let amount = if pushed < res_cap {
                pushed
            } else {
                res_cap
            };
            let ghost iter0 = iter@;
            let d = dfs_blocking(residual, v, sink, amount, level, iter);
            assert(residual.graph == g);
            if d > 0 {
                let ghost f1 = residual.flow@;
                proof {
                    assert(f1[edge_idx as int] == f0[edge_idx as int]);
                    lemma_push(g, f1, edge_idx as int, d as int);
                    lemma_rcap_range(g, f1, edge_idx as int);
                    lemma_rcap_range(g, f1, twin(edge_idx as int));
                    assert(f1[twin(edge_idx as int)] == -f1[edge_idx as int]);
                }
                residual.push_flow(edge_idx, d);
                assert(residual.graph == g);
                assert(residual.graph == old(residual).graph);
                proof {
                    let f2 = residual.flow@;
                    assert forall|w: int|
                        #[trigger] net_out(g, f2, w) == net_out(g, f0, w) + (if w == u {
                            d as int
                        } else {
                            0
                        }) - (if w == sink {
                            d as int
                        } else {
                            0
                        }) by {
                        assert(net_out(g, f1, w) == net_out(g, f0, w) + (if w == v {
                            d as int
                        } else {
                            0
                        }) - (if w == sink {
                            d as int
                        } else {
                            0
                        }));
                        assert(net_out(g, crate::graph::residual::pushed(f1, edge_idx as int, d as int), w) == net_out(g, f1, w)
                            + (if w == g.arc_from(edge_idx as int) {
                            d as int
                        } else {
                            0
                        }) - (if w == g.arc_to(edge_idx as int) {
                            d as int
                        } else {
                            0
                        }));
                    }
                    assert forall|i: int|
                        0 <= i < g.m() && level@[g.arc_to(i)] == level@[g.arc_from(i)] + 1 implies #[trigger] rcap(
                        g,
                        f2,
                        i,
                    ) <= rcap(g, f0, i) by {
                        g.lemma_arc(edge_idx as int);
                        if i == twin(edge_idx as int) {
                            assert(level@[g.arc_to(i)] == level@[u as int]);
                        } else if i != edge_idx as int {
                            assert(f2[i] == f1[i]);
                            assert(level_arcs_shrink(g, f0, f1, level@));
                            assert(rcap(g, f1, i) <= rcap(g, f0, i));
                        } else {
                            assert(rcap(g, f2, i) == rcap(g, f1, i) - d);
                        }
                    }
                    lemma_blocked_shrink(g, f1, f2, level@, iter@, sink as int);
                    assert forall|k: int|
                        0 <= k < g.m() && (level@[g.arc_from(k)] < level@[u as int] || level@[g.arc_to(
                            k,
                        )] < level@[u as int]) implies #[trigger] f2[k] == f0[k] by {
                        g.lemma_arc(edge_idx as int);
                        if k != edge_idx as int && k != twin(edge_idx as int) {
                            assert(f2[k] == f1[k]);
                        }
                    }
                }
                return d;
            }
            proof {
                assert(!usable(g, f0, level@, edge_idx as int, sink as int));
            }
        }
        let next = pos + 1;
        proof {
            assert(next <= adj_len);
        }
        iter.set(u, next);
        proof {
            assert forall|w: int, j: int|
                0 <= w < g.n() && 0 <= j < iter@[w] implies !usable(
                g,
                f0,
                level@,
                #[trigger] g.adj[w][j] as int,
                sink as int,
            ) by {
                if w != u as int || j < pos {
                }
            }
        }
    }
    proof {
        lemma_all_blocked_dead(g, f0, level@, iter@, u as int, sink as int);
        assert forall|i: int|
            0 <= i < g.m() && level@[g.arc_to(i)] == level@[g.arc_from(i)] + 1 implies #[trigger] rcap(
            g,
            f0,
            i,
        ) <= rcap(g, f0, i) by {}
    }
    0
}

} // verus!
