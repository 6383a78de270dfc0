//! Capacity-scaling maximum flow.
use std::collections::VecDeque;
use vstd::prelude::*;
use crate::error::StanchionError;
use crate::graph::{DiGraph, NodeId, ResidualGraph};
use crate::graph::residual::{
    rcap, flow_bounded, net_out, is_flow, flow_value, closed_cut, no_augmenting_path,
    source_capacity, pushed, lemma_push, lemma_rcap_range, lemma_value_le_source_capacity,
    lemma_source_capacity_bound, lemma_zero_flow,
};
use crate::sums::{twin, count_where, lemma_count_update, lemma_count_le, lemma_count_all};
use super::{FlowResult, MaxFlowSolver, max_flow_input};

verus! {

/// Capacity-scaling max-flow (Gabow 1985; Ahuja-Magnanti-Orlin).
///
/// Maintains a scaling parameter `delta`, halved each phase, from the
/// largest power of two not above the largest capacity down to 1.  Each
/// phase augments only along arcs with residual capacity at least `delta`.
pub struct CapacityScaling;

/// Sentinel parent of an unvisited node.
pub open spec fn unvisited() -> usize {
    usize::MAX
}

/// Node `v` was reached by the search.
pub open spec fn visited(parent: Seq<usize>, v: int) -> bool {
    parent[v] != usize::MAX
}

/// The parent arc of `v` enters `v` from a visited node of lower rank and
/// has residual capacity at least `delta`.
pub open spec fn parent_arc_ok(
    g: &DiGraph,
    f: Seq<i64>,
    parent: Seq<usize>,
    rank: Seq<int>,
    v: int,
    delta: int,
) -> bool {
    let i = parent[v] as int;
    &&& 0 <= i < g.m()
    &&& g.arc_to(i) == v
    &&& rcap(g, f, i) >= delta
    &&& visited(parent, g.arc_from(i))
    &&& 0 <= rank[g.arc_from(i)] < rank[v]
}

/// The parent pointers form a search tree rooted at `s`.
pub open spec fn tree_ok(
    g: &DiGraph,
    f: Seq<i64>,
    parent: Seq<usize>,
    rank: Seq<int>,
    s: int,
    delta: int,
) -> bool {
    &&& parent.len() == g.n()
    &&& rank.len() == g.n()
    &&& parent[s] == usize::MAX - 1
    &&& rank[s] == 0
    &&& forall|v: int|
        0 <= v < g.n() && v != s && #[trigger] visited(parent, v) ==> parent_arc_ok(
            g,
            f,
            parent,
            rank,
            v,
            delta,
        )
}

/// Every arc leaving `v` with residual capacity at least `delta` reaches a
/// visited node.
pub open spec fn processed_delta(
    g: &DiGraph,
    f: Seq<i64>,
    parent: Seq<usize>,
    v: int,
    delta: int,
) -> bool {
    forall|i: int|
        0 <= i < g.m() && #[trigger] g.arc_from(i) == v && rcap(g, f, i) >= delta ==> visited(
            parent,
            g.arc_to(i),
        )
}

impl MaxFlowSolver for CapacityScaling {
    fn max_flow(&self, graph: &DiGraph, source: NodeId, sink: NodeId) -> (r: Result<
        FlowResult,
        StanchionError,
    >) {
        let n_edges = graph.edges.len();
        let n = graph.node_count();
        let s = source.0 as usize;
        let t = sink.0 as usize;
        let mut res = ResidualGraph::new(graph);
        proof {
            lemma_zero_flow(graph, res.flow@, s as int, t as int);
        }
        // largest forward capacity
        let mut u_max: i64 = 0;
        let mut i: usize = 0;
        while i < n_edges
            invariant
                graph.wf(),
                n_edges == graph.edges.len(),
                i <= n_edges + 1,
                i % 2 == 0,
                u_max >= 0,
                forall|k: int| 0 <= k < i && k < n_edges ==> #[trigger] graph.cap(k) <= u_max,
            decreases n_edges + 2 - i,
        {
            proof {
                graph.lemma_arc(i as int);
            }
            let c = graph.edges[i].capacity.0;
            if c > u_max {
                u_max = c;
            }
            proof {
                graph.lemma_arc(i as int + 1);
            }
            i += 2;
        }
        if u_max <= 0 {
            proof {
                let side = Seq::new(n as nat, |v: int| v == s as int);
                assert forall|k: int|
                    0 <= k < graph.m() && #[trigger] side[graph.arc_from(k)] && rcap(
                        graph,
                        res.flow@,
                        k,
                    ) > 0 implies side[graph.arc_to(k)] by {
                    graph.lemma_arc(k);
                    if k % 2 == 0 {
                        assert(graph.cap(k) <= u_max);
                    }
                }
                assert(closed_cut(graph, res.flow@, side, s as int, t as int));
            }
            return Ok(FlowResult { max_flow: 0, flow_on_edge: res.flow });
        }
        // largest power of two that does not exceed u_max
        let mut delta: i64 = 1;
        while delta <= u_max / 2
            invariant
                1 <= delta <= u_max,
            decreases u_max - delta,
        {
            delta = delta * 2;
        }
        let mut total: i128 = 0;
        let mut parent: Vec<usize> = Vec::new();
        let mut k: usize = 0;
        while k < n
            invariant
                k <= n,
                parent.len() == k,
            decreases n - k,
        {
            parent.push(usize::MAX);
            k += 1;
        }
        proof {
            lemma_value_le_source_capacity(graph, res.flow@, s as int);
        }
        while delta >= 1
            invariant
                max_flow_input(graph, source, sink),
                n == graph.nodes.len(),
                s == source.0,
                t == sink.0,
                res.graph == graph,
                is_flow(graph, res.flow@, s as int, t as int),
                total == flow_value(graph, res.flow@, s as int),
                parent.len() == n,
                delta >= 0,
                delta == 0 ==> no_augmenting_path(graph, res.flow@, s as int, t as int),
                total <= source_capacity(graph, s as int),
            decreases delta,
        {
            loop
                invariant
                    max_flow_input(graph, source, sink),
                    n == graph.nodes.len(),
                    s == source.0,
                    t == sink.0,
                    res.graph == graph,
                    is_flow(graph, res.flow@, s as int, t as int),
                    total == flow_value(graph, res.flow@, s as int),
                    parent.len() == n,
                    delta >= 1,
                    total <= source_capacity(graph, s as int),
                ensures
                    is_flow(graph, res.flow@, s as int, t as int),
                    total == flow_value(graph, res.flow@, s as int),
                    parent.len() == n,
                    delta == 1 ==> no_augmenting_path(graph, res.flow@, s as int, t as int),
                    total <= source_capacity(graph, s as int),
                decreases source_capacity(graph, s as int) - total,
            {
                let (found, Ghost(rank)) = bfs_delta(&res, source, sink, delta, &mut parent);
                if !found {
                    break;
                }
                let b = augment(&mut res, &parent, Ghost(rank), s, t, delta);
                proof {
                    lemma_value_le_source_capacity(graph, res.flow@, s as int);
                    lemma_source_capacity_bound(graph, s as int);
                    assert(net_out(graph, res.flow@, s as int) == total + b);
                }
                total = total + b as i128;
            }
            delta = delta / 2;
        }
        Ok(FlowResult { max_flow: total, flow_on_edge: res.flow })
    }
}

/// BFS over arcs with residual capacity at least `delta`.  Stores the
/// arriving arc index in `parent[v]` for each reached node.  Returns true
/// as soon as the sink is reached; otherwise the reached nodes form a set
/// that no such arc leaves.
fn bfs_delta(
    res: &ResidualGraph<'_>,
    source: NodeId,
    sink: NodeId,
    delta: i64,
    parent: &mut Vec<usize>,
) -> (r: (bool, Ghost<Seq<int>>))
    requires
        max_flow_input(res.graph, source, sink),
        is_flow(res.graph, res.flow@, source.0 as int, sink.0 as int),
        old(parent).len() == res.graph.n(),
        delta >= 1,
    ensures
        tree_ok(res.graph, res.flow@, final(parent)@, r.1@, source.0 as int, delta as int),
        r.0 ==> visited(final(parent)@, sink.0 as int),
        !r.0 ==> forall|v: int|
            0 <= v < res.graph.n() && #[trigger] visited(final(parent)@, v) ==> processed_delta(
                res.graph,
                res.flow@,
                final(parent)@,
                v,
                delta as int,
            ),
        !r.0 ==> !visited(final(parent)@, sink.0 as int),
        !r.0 && delta == 1 ==> no_augmenting_path(
            res.graph,
            res.flow@,
            source.0 as int,
            sink.0 as int,
        ),
{
    let g = res.graph();
    let ghost f = res.flow@;
    let n = parent.len();
    let src = source.0 as usize;
    let snk = sink.0 as usize;
    let mut k: usize = 0;
    while k < n
        invariant
            k <= n,
            parent.len() == n,
            forall|w: int| 0 <= w < k ==> parent@[w] == usize::MAX,
        decreases n - k,
    {
        parent.set(k, usize::MAX);
        k += 1;
    }
    let ghost unv = |x: usize| x == usize::MAX;
    proof {
        lemma_count_all(parent@, unv);
        lemma_count_update(parent@, unv, src as int, (usize::MAX - 1) as usize);
    }
    parent.set(src, usize::MAX - 1);
    let ghost mut rank: Seq<int> = Seq::new(n as nat, |v: int| 0int);
    let mut queue: VecDeque<usize> = VecDeque::new();
    queue.push_back(src);
    proof {
        assert(queue@[0] == src);
        lemma_count_le(parent@, unv);
        assert forall|v: int|
            0 <= v < n && v != src && #[trigger] visited(parent@, v) implies parent_arc_ok(
            g,
            f,
            parent@,
            rank,
            v,
            delta as int,
        ) by {
            assert(false);
        }
    }
    loop
        invariant_except_break
            forall|j: int|
                0 <= j < queue@.len() ==> 0 <= #[trigger] queue@[j] < n && visited(
                    parent@,
                    queue@[j] as int,
                ),
            forall|v: int|
                0 <= v < n && visited(parent@, v) && !queue@.contains(v as usize) ==> #[trigger] processed_delta(
                    g,
                    f,
                    parent@,
                    v,
                    delta as int,
                ),
            count_where(parent@, unv) <= n,
        invariant
            max_flow_input(g, source, sink),
            g == res.graph,
            f == res.flow@,
            is_flow(g, f, source.0 as int, sink.0 as int),
            n == g.n(),
            src == source.0,
            snk == sink.0,
            delta >= 1,
            parent.len() == n,
            unv == (|x: usize| x == usize::MAX),
            tree_ok(g, f, parent@, rank, src as int, delta as int),
            forall|v: int| 0 <= v < n && visited(parent@, v) ==> 0 <= #[trigger] rank[v],
        ensures
            tree_ok(g, f, parent@, rank, src as int, delta as int),
            visited(parent@, snk as int) || forall|v: int|
                0 <= v < n && #[trigger] visited(parent@, v) ==> processed_delta(
                    g,
                    f,
                    parent@,
                    v,
                    delta as int,
                ),
        decreases 2 * count_where(parent@, unv) + queue@.len(),
    {
        let ghost q0 = queue@;
        let ghost c0 = count_where(parent@, unv);
        let ghost p0 = parent@;
        match queue.pop_front() {
            None => {
                proof {
                    assert forall|v: int| 0 <= v < n && #[trigger] visited(parent@, v) implies processed_delta(
                        g,
                        f,
                        parent@,
                        v,
                        delta as int,
                    ) by {
                        assert(!queue@.contains(v as usize));
                    }
                }
                break;
            },
            Some(u) => {
                if u == snk {
                    proof {
                        assert(q0[0] == u);
                    }
                    break;
                }
                let a = &g.adj[u];
                let mut j: usize = 0;
                while j < a.len()
                    invariant
                        max_flow_input(g, source, sink),
                        g == res.graph,
                        f == res.flow@,
                        is_flow(g, f, source.0 as int, sink.0 as int),
                        n == g.n(),
                        src == source.0,
                        delta >= 1,
                        parent.len() == n,
                        unv == (|x: usize| x == usize::MAX),
                        u < n,
                        visited(parent@, u as int),
                        a == &g.adj[u as int],
                        j <= a.len(),
                        tree_ok(g, f, parent@, rank, src as int, delta as int),
                        forall|v: int| 0 <= v < n && visited(parent@, v) ==> 0 <= #[trigger] rank[v],
                        forall|v: int| 0 <= v < n && visited(p0, v) ==> #[trigger] parent@[v] == p0[v],
                        forall|x: int|
                            0 <= x < queue@.len() ==> 0 <= #[trigger] queue@[x] < n && visited(
                                parent@,
                                queue@[x] as int,
                            ),
                        forall|x: int| 0 <= x < q0.len() - 1 ==> #[trigger] queue@[x] == q0[x + 1],
                        queue@.len() >= q0.len() - 1,
                        forall|v: int|
                            0 <= v < n && visited(parent@, v) && !visited(p0, v) ==> queue@.contains(
                                v as usize,
                            ),
                        forall|x: int|
                            0 <= x < j ==> #[trigger] visited(parent@, g.arc_to(a[x] as int)) || rcap(
                                g,
                                f,
                                a[x] as int,
                            ) < delta,
                        2 * count_where(parent@, unv) + queue@.len() <= 2 * c0 + q0.len() - 1,
                        count_where(parent@, unv) <= c0,
                    decreases a.len() - j,
                {
                    proof {
                        g.lemma_adj(u as int, j as int);
                        g.lemma_arc(a[j as int] as int);
                        lemma_rcap_range(g, f, a[j as int] as int);
                    }
                    let idx = a[j];
                    let v = g.edges[idx].to.0 as usize;
                    let ghost pj = parent@;
                    let ghost qj = queue@;
                    if parent[v] == usize::MAX && res.residual_capacity(idx) >= delta {
                        proof {
                            lemma_count_update(parent@, unv, v as int, idx);
                            lemma_count_le(parent@, unv);
                        }
                        let ghost rj = rank;
                        parent.set(v, idx);
                        proof {
                            rank = rank.update(v as int, rank[u as int] + 1);
                        }
                        queue.push_back(v);
                        proof {
                            assert(queue@.last() == v);
                            assert forall|w: int|
                                0 <= w < n && w != src && #[trigger] visited(parent@, w) implies parent_arc_ok(
                                g,
                                f,
                                parent@,
                                rank,
                                w,
                                delta as int,
                            ) by {
                                if w != v as int {
                                    assert(visited(pj, w));
                                    assert(parent_arc_ok(g, f, pj, rj, w, delta as int));
                                    let i = pj[w] as int;
                                    g.lemma_arc(i);
                                    assert(g.arc_from(i) != v as int);
                                    assert(parent@[w] == pj[w]);
                                    assert(visited(parent@, g.arc_from(i)));
                                    assert(rank[g.arc_from(i)] == rj[g.arc_from(i)]);
                                    assert(rank[w] == rj[w]);
                                } else {
                                    assert(g.arc_to(idx as int) == v);
                                    assert(g.arc_from(idx as int) == u);
                                    assert(u != v);
                                    assert(visited(parent@, u as int));
                                    assert(rank[u as int] == rj[u as int]);
                                    assert(0 <= rj[u as int]);
                                    assert(rcap(g, f, idx as int) >= delta);
                                    assert(parent@[w] == idx);
                                }
                            }
                            assert forall|w: int|
                                0 <= w < n && visited(parent@, w) && !visited(p0, w) implies queue@.contains(
                                w as usize,
                            ) by {
                                if w != v as int {
                                    assert(qj.contains(w as usize));
                                    let x = choose|x: int| 0 <= x < qj.len() && qj[x] == w as usize;
                                    assert(queue@[x] == w as usize);
                                } else {
                                    assert(queue@[queue@.len() - 1] == w as usize);
                                }
                            }
                        }
                    }
                    proof {
                        assert forall|x: int|
                            0 <= x < j + 1 implies #[trigger] visited(parent@, g.arc_to(a[x] as int)) || rcap(
                                g,
                                f,
                                a[x] as int,
                            ) < delta by {
                            g.lemma_adj(u as int, x);
                            g.lemma_arc(a[x] as int);
                            if x < j {
                                assert(visited(pj, g.arc_to(a[x] as int)) || rcap(g, f, a[x] as int) < delta);
                            }
                        }
                    }
                    j += 1;
                }
                proof {
                    assert forall|v: int|
                        0 <= v < n && visited(parent@, v) && !queue@.contains(v as usize) implies #[trigger] processed_delta(
                        g,
                        f,
                        parent@,
                        v,
                        delta as int,
                    ) by {
                        if v == u as int {
                            assert forall|i: int|
                                0 <= i < g.m() && #[trigger] g.arc_from(i) == v && rcap(g, f, i)
                                    >= delta implies visited(parent@, g.arc_to(i)) by {
                                g.lemma_arc(i);
                                assert(g.adj[v]@.contains(i as usize));
                                let x = choose|x: int| 0 <= x < a.len() && a[x] == i as usize;
                                assert(visited(parent@, g.arc_to(a[x] as int)) || rcap(g, f, a[x] as int)
                                    < delta);
                            }
                        } else {
                            assert(visited(p0, v));
                            if q0.contains(v as usize) {
                                let x = choose|x: int| 0 <= x < q0.len() && q0[x] == v as usize;
                                if x > 0 {
                                    assert(queue@[x - 1] == q0[x]);
                                }
                            }
                            assert(processed_delta(g, f, p0, v, delta as int));
                            assert forall|i: int|
                                0 <= i < g.m() && #[trigger] g.arc_from(i) == v && rcap(g, f, i)
                                    >= delta implies visited(parent@, g.arc_to(i)) by {
                                g.lemma_arc(i);
                                assert(visited(p0, g.arc_to(i)));
                            }
                        }
                    }
                }
            },
        }
    }
    let found = parent[snk] != usize::MAX;
    proof {
        if !found && delta == 1 {
            let side = Seq::new(n as nat, |v: int| visited(parent@, v));
            assert forall|i: int|
                0 <= i < g.m() && #[trigger] side[g.arc_from(i)] && rcap(g, f, i) > 0 implies side[g.arc_to(
                i,
            )] by {
                g.lemma_arc(i);
                assert(processed_delta(g, f, parent@, g.arc_from(i), delta as int));
            }
            assert(closed_cut(g, f, side, source.0 as int, sink.0 as int));
        }
    }
    (found, Ghost(rank))
}

/// Consecutive nodes of a path walked back from the sink along parent arcs.
pub open spec fn path_link(g: &DiGraph, p: Seq<usize>, path: Seq<int>, source: int, k: int) -> bool {
    path[k] != source && path[k + 1] == g.arc_from(p[path[k]] as int)
}

/// Trace the path from the sink back to the source via `parent`, find its
/// bottleneck and push it.  Returns the amount pushed.
fn augment(
    res: &mut ResidualGraph<'_>,
    parent: &Vec<usize>,
    rank: Ghost<Seq<int>>,
    source: usize,
    sink: usize,
    delta: i64,
) -> (b: i64)
    requires
        old(res).graph.wf(),
        flow_bounded(old(res).graph, old(res).flow@),
        source < old(res).graph.n(),
        sink < old(res).graph.n(),
        source != sink,
        delta >= 1,
        tree_ok(old(res).graph, old(res).flow@, parent@, rank@, source as int, delta as int),
        visited(parent@, sink as int),
    ensures
        final(res).graph == old(res).graph,
        b >= delta,
        flow_bounded(final(res).graph, final(res).flow@),
        forall|v: int|
            #[trigger] net_out(final(res).graph, final(res).flow@, v) == net_out(
                old(res).graph,
                old(res).flow@,
                v,
            ) + (if v == source {
                b as int
            } else {
                0
            }) - (if v == sink {
                b as int
            } else {
                0
            }),
{
    let ghost g = res.graph;
    let ghost f0 = res.flow@;
    let ghost p = parent@;
    let ghost rk = rank@;
    // find bottleneck
    let mut bottleneck: i64 = i64::MAX;
    let mut v = sink;
    let ghost mut path: Seq<int> = seq![sink as int];
    while v != source
        invariant
            res.graph == g,
            res.flow@ == f0,
            g == old(res).graph,
            f0 == old(res).flow@,
            g.wf(),
            flow_bounded(g, f0),
            p == parent@,
            rk == rank@,
            tree_ok(g, f0, p, rk, source as int, delta as int),
            source < g.n(),
            v < g.n(),
            visited(p, v as int),
            path.len() >= 1,
            path[0] == sink,
            path.last() == v,
            forall|k: int| 0 <= k < path.len() ==> 0 <= #[trigger] path[k] < g.n() && visited(p, path[k]),
            forall|k: int| 0 <= k < path.len() - 1 ==> #[trigger] path_link(g, p, path, source as int, k),
            forall|k: int|
                0 <= k < path.len() - 1 ==> bottleneck <= #[trigger] rcap(g, f0, p[path[k]] as int),
            bottleneck >= delta,
            delta >= 1,
        decreases rk[v as int],
    {
        let idx = parent[v];
        proof {
            assert(parent_arc_ok(g, f0, p, rk, v as int, delta as int));
            lemma_rcap_range(g, f0, idx as int);
            g.lemma_arc(idx as int);
        }
        let c = res.residual_capacity(idx);
        if c < bottleneck {
            bottleneck = c;
        }
        let prev = res.graph.edges[idx].from.0 as usize;
        proof {
            let old_path = path;
            path = path.push(prev as int);
            assert forall|k: int| 0 <= k < path.len() - 1 implies #[trigger] path_link(
                g,
                p,
                path,
                source as int,
                k,
            ) by {
                if k < old_path.len() - 1 {
                    assert(path_link(g, p, old_path, source as int, k));
                } else {
                    assert(path[k] == v);
                    assert(path[k + 1] == prev);
                }
            }
            assert forall|k: int| 0 <= k < path.len() - 1 implies bottleneck <= #[trigger] rcap(
                g,
                f0,
                p[path[k]] as int,
            ) by {
                if k < old_path.len() - 1 {
                    assert(old_path[k] == path[k]);
                }
            }
        }
        v = prev;
    }
    // push along path
    let mut v = sink;
    let ghost mut pos: int = 0;
    while v != source
        invariant
            res.graph == g,
            g == old(res).graph,
            f0 == old(res).flow@,
            g.wf(),
            flow_bounded(g, f0),
            flow_bounded(g, res.flow@),
            p == parent@,
            rk == rank@,
            tree_ok(g, f0, p, rk, source as int, delta as int),
            source < g.n(),
            sink < g.n(),
            source != sink,
            path.len() >= 1,
            path[0] == sink,
            path.last() == source,
            forall|k: int| 0 <= k < path.len() ==> 0 <= #[trigger] path[k] < g.n() && visited(p, path[k]),
            forall|k: int| 0 <= k < path.len() - 1 ==> #[trigger] path_link(g, p, path, source as int, k),
            forall|k: int|
                0 <= k < path.len() - 1 ==> bottleneck <= #[trigger] rcap(g, f0, p[path[k]] as int),
            bottleneck >= delta,
            delta >= 1,
            0 <= pos < path.len(),
            v == path[pos],
            forall|k: int|
                0 <= k < g.m() && visited(p, g.arc_from(k)) && visited(p, g.arc_to(k)) && rk[g.arc_from(
                    k,
                )] <= rk[v as int] && rk[g.arc_to(k)] <= rk[v as int] ==> #[trigger] res.flow@[k]
                    == f0[k],
            forall|w: int|
                #[trigger] net_out(g, res.flow@, w) == net_out(g, f0, w) + (if w == v {
                    bottleneck as int
                } else {
                    0
                }) - (if w == sink {
                    bottleneck as int
                } else {
                    0
                }),
        decreases rk[v as int],
    {
        let idx = parent[v];
        let ghost f1 = res.flow@;
        proof {
            assert(parent_arc_ok(g, f0, p, rk, v as int, delta as int));
            g.lemma_arc(idx as int);
            assert(pos != path.len() - 1);
            assert(pos < path.len() - 1);
            assert(bottleneck <= rcap(g, f0, p[path[pos]] as int));
            assert(path_link(g, p, path, source as int, pos));
            assert(f1[idx as int] == f0[idx as int]);
            lemma_rcap_range(g, f1, idx as int);
            lemma_rcap_range(g, f1, twin(idx as int));
            lemma_push(g, f1, idx as int, bottleneck as int);
        }
        res.push_flow(idx, bottleneck);
        let prev = res.graph.edges[idx].from.0 as usize;
        proof {
            let f2 = res.flow@;
            let tw = twin(idx as int);
            assert forall|k: int|
                0 <= k < g.m() && visited(p, g.arc_from(k)) && visited(p, g.arc_to(k)) && rk[g.arc_from(
                    k,
                )] <= rk[prev as int] && rk[g.arc_to(k)] <= rk[prev as int] implies #[trigger] f2[k]
                == f0[k] by {
                if k != idx as int && k != tw {
                    assert(f2[k] == f1[k]);
                }
            }
            assert forall|w: int|
                #[trigger] net_out(g, f2, w) == net_out(g, f0, w) + (if w == prev {
                    bottleneck as int
                } else {
                    0
                }) - (if w == sink {
                    bottleneck as int
                } else {
                    0
                }) by {
                assert(net_out(g, f1, w) == net_out(g, f0, w) + (if w == v {
                    bottleneck as int
                } else {
                    0
                }) - (if w == sink {
                    bottleneck as int
                } else {
                    0
                }));
                assert(net_out(g, pushed(f1, idx as int, bottleneck as int), w) == net_out(g, f1, w) + (
                if w == g.arc_from(idx as int) {
                    bottleneck as int
                } else {
                    0
                }) - (if w == g.arc_to(idx as int) {
                    bottleneck as int
                } else {
                    0
                }));
            }
            pos = pos + 1;
        }
        v = prev;
    }
    bottleneck
}

} // verus!
