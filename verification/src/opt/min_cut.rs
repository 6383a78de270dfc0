//! Minimum cut from a maximum flow.
use std::collections::VecDeque;
use vstd::prelude::*;
use crate::flow::{FlowResult, max_flow_result, lemma_max_flow_min_cut};
use crate::graph::residual::{rcap, closed_cut, cut_capacity};
use crate::graph::{DiGraph, EdgeId, NodeId};
use crate::sums::{count_where, lemma_count_update, lemma_count_le, lemma_count_all};

verus! {

/// Flow on arc `i`, zero where the flow list is too short.
pub open spec fn ext_flow(f: Seq<i64>, i: int) -> int {
    if 0 <= i < f.len() {
        f[i] as int
    } else {
        0
    }
}

/// Arc `i` has positive residual capacity under `f`.
pub open spec fn open_arc(g: &DiGraph, f: Seq<i64>, i: int) -> bool {
    g.cap(i) - ext_flow(f, i) > 0
}

/// `p` is a walk of open arcs from `u` to `v`.
pub open spec fn open_walk(g: &DiGraph, f: Seq<i64>, p: Seq<int>, u: int, v: int) -> bool
    decreases p.len(),
{
    if p.len() == 0 {
        u == v
    } else {
        &&& 0 <= p[0] < g.m()
        &&& g.arc_from(p[0]) == u
        &&& open_arc(g, f, p[0])
        &&& open_walk(g, f, p.drop_first(), g.arc_to(p[0]), v)
    }
}

/// `v` is reachable from `u` in the residual graph of `f`.
pub open spec fn reaches(g: &DiGraph, f: Seq<i64>, u: int, v: int) -> bool {
    exists|p: Seq<int>| open_walk(g, f, p, u, v)
}

/// Arc `i` is a forward arc from the residual-reachable side to the rest.
pub open spec fn crosses_cut(g: &DiGraph, f: Seq<i64>, s: int, i: int) -> bool {
    &&& i % 2 == 0
    &&& reaches(g, f, s, g.arc_from(i))
    &&& !reaches(g, f, s, g.arc_to(i))
}

proof fn lemma_walk_extend(g: &DiGraph, f: Seq<i64>, p: Seq<int>, a: int, b: int, i: int)
    requires
        open_walk(g, f, p, a, b),
        0 <= i < g.m(),
        g.arc_from(i) == b,
        open_arc(g, f, i),
    ensures
        open_walk(g, f, p.push(i), a, g.arc_to(i)),
    decreases p.len(),
{
    if p.len() == 0 {
        assert(p.push(i).drop_first() =~= Seq::<int>::empty());
        assert(open_walk(g, f, Seq::<int>::empty(), g.arc_to(i), g.arc_to(i)));
        assert(p.push(i)[0] == i);
    } else {
        assert(p.push(i).drop_first() =~= p.drop_first().push(i));
        assert(p.push(i)[0] == p[0]);
        lemma_walk_extend(g, f, p.drop_first(), g.arc_to(p[0]), b, i);
    }
}

/// A node set that holds `u` and that no open arc leaves holds every node
/// that `u` reaches.
proof fn lemma_closed_holds_reach(g: &DiGraph, f: Seq<i64>, side: Seq<bool>, p: Seq<int>, u: int, v: int)
    requires
        g.wf(),
        side.len() == g.n(),
        0 <= u < g.n(),
        side[u],
        forall|i: int| 0 <= i < g.m() && #[trigger] side[g.arc_from(i)] && open_arc(g, f, i) ==> side[g.arc_to(i)],
        open_walk(g, f, p, u, v),
    ensures
        side[v],
    decreases p.len(),
{
    if p.len() > 0 {
        g.lemma_arc(p[0]);
        lemma_closed_holds_reach(g, f, side, p.drop_first(), g.arc_to(p[0]), v);
    }
}

/// Some open arc from an earlier-found node enters `v`.
pub open spec fn has_open_pred(g: &DiGraph, f: Seq<i64>, seen: Seq<bool>, rank: Seq<int>, v: int) -> bool {
    exists|i: int|
        0 <= i < g.m() && #[trigger] g.arc_to(i) == v && seen[g.arc_from(i)] && 0 <= rank[g.arc_from(i)]
            < rank[v] && open_arc(g, f, i)
}

proof fn lemma_seen_reached(g: &DiGraph, f: Seq<i64>, seen: Seq<bool>, rank: Seq<int>, s: int, v: int)
    requires
        g.wf(),
        seen.len() == g.n(),
        rank.len() == g.n(),
        0 <= v < g.n(),
        seen[v],
        0 <= rank[v],
        forall|w: int| 0 <= w < g.n() && w != s && #[trigger] seen[w] ==> has_open_pred(g, f, seen, rank, w),
    ensures
        reaches(g, f, s, v),
    decreases rank[v],
{
    if v == s {
        assert(open_walk(g, f, Seq::<int>::empty(), s, s));
    } else {
        assert(has_open_pred(g, f, seen, rank, v));
        let i = choose|i: int|
            0 <= i < g.m() && #[trigger] g.arc_to(i) == v && seen[g.arc_from(i)] && 0 <= rank[g.arc_from(
                i,
            )] < rank[v] && open_arc(g, f, i);
        g.lemma_arc(i);
        lemma_seen_reached(g, f, seen, rank, s, g.arc_from(i));
        let p = choose|p: Seq<int>| open_walk(g, f, p, s, g.arc_from(i));
        lemma_walk_extend(g, f, p, s, g.arc_from(i), i);
    }
}

/// Find all forward edges that form the min-cut.
///
/// BFS on the residual graph from the source, traversing only arcs with
/// positive residual capacity.  The min-cut consists of the forward edges
/// `(u, v)` where `u` is reachable and `v` is not, in increasing order.
pub fn find_min_cut(graph: &DiGraph, result: &FlowResult, source: NodeId) -> (cut: Vec<EdgeId>)
    requires
        graph.wf(),
        (source.0 as int) < graph.n(),
    ensures
        cut@.map_values(|e: EdgeId| e.0 as int) == cut_arcs(graph, result.flow_on_edge@, source.0 as int),
{
    let ghost f = result.flow_on_edge@;
    let n = graph.node_count();
    let s = source.0 as usize;
    let mut reachable: Vec<bool> = Vec::new();
    let mut k: usize = 0;
    while k < n
        invariant
            k <= n,
            reachable.len() == k,
            forall|w: int| 0 <= w < k ==> !reachable@[w],
        decreases n - k,
    {
        reachable.push(false);
        k += 1;
    }
    let ghost unseen = |b: bool| !b;
    proof {
        lemma_count_all(reachable@, unseen);
        lemma_count_update(reachable@, unseen, s as int, true);
    }
    reachable.set(s, true);
    let ghost mut rank: Seq<int> = Seq::new(n as nat, |v: int| 0int);
    let mut queue: VecDeque<usize> = VecDeque::new();
    queue.push_back(s);
    proof {
        assert(queue@[0] == s);
        lemma_count_le(reachable@, unseen);
    }
    loop
        invariant
            graph.wf(),
            f == result.flow_on_edge@,
            n == graph.n(),
            s == source.0,
            s < n,
            reachable.len() == n,
            rank.len() == n,
            unseen == (|b: bool| !b),
            reachable@[s as int],
            forall|v: int| 0 <= v < n ==> 0 <= #[trigger] rank[v],
            forall|w: int|
                0 <= w < n && w != s && #[trigger] reachable@[w] ==> has_open_pred(
                    graph,
                    f,
                    reachable@,
                    rank,
                    w,
                ),
            forall|j: int|
                0 <= j < queue@.len() ==> 0 <= #[trigger] queue@[j] < n && reachable@[queue@[j] as int],
            forall|v: int|
                0 <= v < n && reachable@[v] && !queue@.contains(v as usize) ==> #[trigger] out_done(
                    graph,
                    f,
                    reachable@,
                    v,
                ),
            count_where(reachable@, unseen) <= n,
        ensures
            reachable.len() == n,
            forall|w: int|
                0 <= w < n && w != s && #[trigger] reachable@[w] ==> has_open_pred(
                    graph,
                    f,
                    reachable@,
                    rank,
                    w,
                ),
            forall|v: int| 0 <= v < n ==> 0 <= #[trigger] rank[v],
            forall|v: int| 0 <= v < n && #[trigger] reachable@[v] ==> out_done(graph, f, reachable@, v),
        decreases 2 * count_where(reachable@, unseen) + queue@.len(),
    {
        let ghost q0 = queue@;
        let ghost c0 = count_where(reachable@, unseen);
        let ghost r0 = reachable@;
        match queue.pop_front() {
            None => {
                proof {
                    assert forall|v: int| 0 <= v < n && #[trigger] reachable@[v] implies out_done(
                        graph,
                        f,
                        reachable@,
                        v,
                    ) by {
                        assert(!queue@.contains(v as usize));
                    }
                }
                break;
            },
            Some(u) => {
                let a = &graph.adj[u];
                let mut j: usize = 0;
                while j < a.len()
                    invariant
                        graph.wf(),
                        f == result.flow_on_edge@,
                        n == graph.n(),
                        s == source.0,
                        s < n,
                        reachable.len() == n,
                        rank.len() == n,
                        unseen == (|b: bool| !b),
                        u < n,
                        r0[u as int],
                        a == &graph.adj[u as int],
                        j <= a.len(),
                        reachable@[s as int],
                        forall|v: int| 0 <= v < n ==> 0 <= #[trigger] rank[v],
                        forall|w: int|
                            0 <= w < n && w != s && #[trigger] reachable@[w] ==> has_open_pred(
                                graph,
                                f,
                                reachable@,
                                rank,
                                w,
                            ),
                        forall|v: int| 0 <= v < n && r0[v] ==> #[trigger] reachable@[v],
                        forall|x: int|
                            0 <= x < queue@.len() ==> 0 <= #[trigger] queue@[x] < n && reachable@[queue@[
                                x
                            ] as int],
                        forall|x: int| 0 <= x < q0.len() - 1 ==> #[trigger] queue@[x] == q0[x + 1],
                        queue@.len() >= q0.len() - 1,
                        forall|v: int|
                            0 <= v < n && reachable@[v] && !r0[v] ==> queue@.contains(v as usize),
                        forall|x: int|
                            0 <= x < j ==> #[trigger] reachable@[graph.arc_to(a[x] as int)] || !open_arc(
                                graph,
                                f,
                                a[x] as int,
                            ),
                        2 * count_where(reachable@, unseen) + queue@.len() <= 2 * c0 + q0.len() - 1,
                        count_where(reachable@, unseen) <= c0,
                    decreases a.len() - j,
                {
                    proof {
                        graph.lemma_adj(u as int, j as int);
                        graph.lemma_arc(a[j as int] as int);
                    }
                    let idx = a[j];
                    let v = graph.edges[idx].to.0 as usize;
                    let cap = graph.edges[idx].capacity.0;
                    let flow: i64 = if idx < result.flow_on_edge.len() {
                        result.flow_on_edge[idx]
                    } else {
                        0
                    };
                    let res_cap: i128 = cap as i128 - flow as i128;
                    let ghost rj = reachable@;
                    let ghost qj = queue@;
                    let ghost rkj = rank;
                    if !reachable[v] && res_cap > 0 {
                        proof {
                            lemma_count_update(reachable@, unseen, v as int, true);
                            lemma_count_le(reachable@, unseen);
                        }
                        reachable.set(v, true);
                        proof {
                            rank = rank.update(v as int, rank[u as int] + 1);
                        }
                        queue.push_back(v);
                        proof {
                            assert(queue@.last() == v);
                            assert forall|w: int|
                                0 <= w < n && w != s && #[trigger] reachable@[w] implies has_open_pred(
                                graph,
                                f,
                                reachable@,
                                rank,
                                w,
                            ) by {
                                if w != v as int {
                                    assert(rj[w]);
                                    assert(has_open_pred(graph, f, rj, rkj, w));
                                    let i = choose|i: int|
                                        0 <= i < graph.m() && #[trigger] graph.arc_to(i) == w && rj[graph.arc_from(
                                            i,
                                        )] && 0 <= rkj[graph.arc_from(i)] < rkj[w] && open_arc(graph, f, i);
                                    graph.lemma_arc(i);
                                    assert(graph.arc_from(i) != v as int);
                                    assert(reachable@[graph.arc_from(i)]);
                                } else {
                                    assert(graph.arc_to(idx as int) == v);
                                    assert(graph.arc_from(idx as int) == u);
                                    assert(u != v);
                                    assert(reachable@[u as int]);
                                    assert(rank[u as int] == rkj[u as int]);
                                }
                            }
                            assert forall|w: int|
                                0 <= w < n && reachable@[w] && !r0[w] implies queue@.contains(
                                w as usize,
                            ) by {
                                if w != v as int {
                                    assert(qj.contains(w as usize));
                                    let x = choose|x: int| 0 <= x < qj.len() && qj[x] == w as usize;
                                    assert(queue@[x] == w as usize);
                                } else {
                                    assert(queue@[queue@.len() - 1] == w as usize);
                                }
                            }
                        }
                    }
                    proof {
                        assert forall|x: int|
                            0 <= x < j + 1 implies #[trigger] reachable@[graph.arc_to(a[x] as int)] || !open_arc(
                                graph,
                                f,
                                a[x] as int,
                            ) by {
                            graph.lemma_adj(u as int, x);
                            graph.lemma_arc(a[x] as int);
                            if x < j {
                                assert(rj[graph.arc_to(a[x] as int)] || !open_arc(graph, f, a[x] as int));
                            }
                        }
                    }
                    j += 1;
                }
                proof {
                    assert forall|v: int|
                        0 <= v < n && reachable@[v] && !queue@.contains(v as usize) implies #[trigger] out_done(
                        graph,
                        f,
                        reachable@,
                        v,
                    ) by {
                        if v == u as int {
                            assert forall|i: int|
                                0 <= i < graph.m() && #[trigger] graph.arc_from(i) == v && open_arc(graph, f, i)
                                    implies reachable@[graph.arc_to(i)] by {
                                graph.lemma_arc(i);
                                assert(graph.adj[v]@.contains(i as usize));
                                let x = choose|x: int| 0 <= x < a.len() && a[x] == i as usize;
                                assert(reachable@[graph.arc_to(a[x] as int)] || !open_arc(graph, f, a[x] as int));
                            }
                        } else {
                            assert(r0[v]);
                            if q0.contains(v as usize) {
                                let x = choose|x: int| 0 <= x < q0.len() && q0[x] == v as usize;
                                if x > 0 {
                                    assert(queue@[x - 1] == q0[x]);
                                }
                            }
                            assert(out_done(graph, f, r0, v));
                            assert forall|i: int|
                                0 <= i < graph.m() && #[trigger] graph.arc_from(i) == v && open_arc(graph, f, i)
                                    implies reachable@[graph.arc_to(i)] by {
                                graph.lemma_arc(i);
                                assert(r0[graph.arc_to(i)]);
                            }
                        }
                    }
                }
            },
        }
    }
    proof {
        assert forall|v: int| 0 <= v < n implies #[trigger] reachable@[v] == reaches(graph, f, s as int, v) by {
            if reachable@[v] {
                lemma_seen_reached(graph, f, reachable@, rank, s as int, v);
            }
            if reaches(graph, f, s as int, v) {
                let p = choose|p: Seq<int>| open_walk(graph, f, p, s as int, v);
                assert forall|i: int|
                    0 <= i < graph.m() && #[trigger] reachable@[graph.arc_from(i)] && open_arc(graph, f, i)
                        implies reachable@[graph.arc_to(i)] by {
                    graph.lemma_arc(i);
                    assert(out_done(graph, f, reachable@, graph.arc_from(i)));
                }
                lemma_closed_holds_reach(graph, f, reachable@, p, s as int, v);
            }
        }
    }
    // Collect forward edges crossing from the reachable side to the rest.
    let m = graph.edges.len();
    let mut cut: Vec<EdgeId> = Vec::new();
    let mut idx: usize = 0;
    while idx < m
        invariant
            graph.wf(),
            f == result.flow_on_edge@,
            n == graph.n(),
            m == graph.m(),
            s == source.0,
            reachable.len() == n,
            forall|v: int| 0 <= v < n ==> #[trigger] reachable@[v] == reaches(graph, f, s as int, v),
            idx % 2 == 0,
            idx <= m,
            cut@.map_values(|e: EdgeId| e.0 as int) == fwd_arcs(idx as int).filter(
                |i: int| crosses_cut(graph, f, s as int, i),
            ),
        decreases m - idx,
    {
        proof {
            graph.lemma_arc(idx as int);
            lemma_fwd_arcs_step(idx as int);
            fwd_arcs(idx as int).lemma_filter_push(idx as int, |i: int| crosses_cut(graph, f, s as int, i));
        }
        let e = &graph.edges[idx];
        let ghost c0 = cut@;
        if reachable[e.from.0 as usize] && !reachable[e.to.0 as usize] {
            cut.push(EdgeId(idx as u32));
            proof {
                c0.lemma_push_map_commute(|e: EdgeId| e.0 as int, EdgeId(idx as u32));
                assert(cut@ == c0.push(EdgeId(idx as u32)));
            }
        }
        idx = idx + 2;
    }
    proof {
        assert(idx == m);
    }
    cut
}

/// Forward arc indices below `k`, in increasing order.
pub open spec fn fwd_arcs(k: int) -> Seq<int> {
    Seq::new((k / 2) as nat, |j: int| 2 * j)
}

pub proof fn lemma_fwd_arcs_step(k: int)
    requires
        k >= 0,
        k % 2 == 0,
    ensures
        fwd_arcs(k + 2) == fwd_arcs(k).push(k),
{
    assert(fwd_arcs(k + 2) =~= fwd_arcs(k).push(k));
}

/// Forward arcs crossing from the residual-reachable side, in increasing
/// order.
pub open spec fn cut_arcs(g: &DiGraph, f: Seq<i64>, s: int) -> Seq<int> {
    fwd_arcs(g.m()).filter(|i: int| crosses_cut(g, f, s, i))
}

/// Every open arc leaving `v` reaches a node of `seen`.
pub open spec fn out_done(g: &DiGraph, f: Seq<i64>, seen: Seq<bool>, v: int) -> bool {
    forall|i: int| 0 <= i < g.m() && #[trigger] g.arc_from(i) == v && open_arc(g, f, i) ==> seen[g.arc_to(i)]
}

/// Every entry of a filtered sequence comes from the sequence.
proof fn lemma_filter_from(s: Seq<int>, p: spec_fn(int) -> bool)
    ensures
        forall|k: int| 0 <= k < s.filter(p).len() ==> s.contains(#[trigger] s.filter(p)[k]),
    decreases s.len(),
{
    reveal(Seq::filter);
    if s.len() > 0 {
        lemma_filter_from(s.drop_last(), p);
        let sub = s.drop_last().filter(p);
        assert forall|k: int| 0 <= k < s.filter(p).len() implies s.contains(#[trigger] s.filter(p)[k]) by {
            if k < sub.len() {
                assert(s.filter(p)[k] == sub[k]);
                assert(s.drop_last().contains(sub[k]));
                let j = choose|j: int| 0 <= j < s.drop_last().len() && s.drop_last()[j] == sub[k];
                assert(s[j] == sub[k]);
            } else {
                assert(s.filter(p)[k] == s.last());
                assert(s[s.len() - 1] == s.last());
            }
        }
    }
}

/// The nodes the source reaches in the residual graph of `f`.
pub open spec fn source_side(g: &DiGraph, f: Seq<i64>, s: int) -> Seq<bool> {
    Seq::new(g.n() as nat, |v: int| reaches(g, f, s, v))
}

/// Max-flow/min-cut for the belts `find_min_cut` reports: under a maximum
/// flow every reported belt is saturated, the sink lies outside the source's
/// residual side, and the flow value equals the capacity of the arcs leaving
/// that side.
pub proof fn lemma_min_cut_saturated(g: &DiGraph, r: FlowResult, s: int, t: int)
    requires
        g.wf(),
        0 <= s < g.n(),
        0 <= t < g.n(),
        max_flow_result(g, r, s, t),
    ensures
        forall|k: int|
            0 <= k < cut_arcs(g, r.flow_on_edge@, s).len() ==> r.flow_on_edge@[#[trigger] cut_arcs(
                g,
                r.flow_on_edge@,
                s,
            )[k]] == g.cap(cut_arcs(g, r.flow_on_edge@, s)[k]),
        !source_side(g, r.flow_on_edge@, s)[t],
        r.max_flow == cut_capacity(g, source_side(g, r.flow_on_edge@, s)),
{
    let f = r.flow_on_edge@;
    let side = source_side(g, f, s);
    // the reachable side is closed under residual arcs
    assert forall|i: int|
        0 <= i < g.m() && #[trigger] side[g.arc_from(i)] && rcap(g, f, i) > 0 implies side[g.arc_to(i)] by {
        g.lemma_arc(i);
        let p = choose|p: Seq<int>| open_walk(g, f, p, s, g.arc_from(i));
        lemma_walk_extend(g, f, p, s, g.arc_from(i), i);
    }
    assert(open_walk(g, f, Seq::<int>::empty(), s, s));
    // the sink is unreachable: some closed cut separates it
    let other = choose|o: Seq<bool>| closed_cut(g, f, o, s, t);
    if side[t] {
        let p = choose|p: Seq<int>| open_walk(g, f, p, s, t);
        assert forall|i: int|
            0 <= i < g.m() && #[trigger] other[g.arc_from(i)] && open_arc(g, f, i) implies other[g.arc_to(i)] by {
            assert(rcap(g, f, i) > 0);
        }
        lemma_closed_holds_reach(g, f, other, p, s, t);
    }
    assert(closed_cut(g, f, side, s, t));
    lemma_max_flow_min_cut(g, f, s, t, side);
    // reported belts are saturated
    let pred = |i: int| crosses_cut(g, f, s, i);
    assert forall|k: int| 0 <= k < cut_arcs(g, f, s).len() implies f[#[trigger] cut_arcs(g, f, s)[k]] == g.cap(
        cut_arcs(g, f, s)[k],
    ) by {
        fwd_arcs(g.m()).lemma_filter_pred(pred, k);
        let i = cut_arcs(g, f, s)[k];
        assert(crosses_cut(g, f, s, i));
        lemma_filter_from(fwd_arcs(g.m()), pred);
        assert(fwd_arcs(g.m()).contains(i));
        g.lemma_arc(i);
        assert(f[i] <= g.cap(i));
        if rcap(g, f, i) > 0 {
            assert(side[g.arc_from(i)]);
            assert(side[g.arc_to(i)]);
        }
    }
}

} // verus!
