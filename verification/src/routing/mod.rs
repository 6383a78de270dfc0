//! Shortest-path and routing algorithms over `DiGraph`.
//!
//! All algorithms here work on the *input* graph: forward arcs only,
//! costs are arc weights, capacities are ignored.
pub mod walks;
pub mod all_pairs;
pub mod paths;

use vstd::prelude::*;
use crate::graph::{DiGraph, NodeId};
use crate::sums::{count_where, lemma_count_update, lemma_count_le, lemma_count_all, lemma_count_pos, lemma_count_replace};
use walks::{
    fwd_walk, walk_cost, lemma_walk_extend, lemma_walk_lower_bound, neg_cycle_reachable,
    lemma_short_walk, lemma_walk_cost_bound, lemma_walk_split, walk_node, lemma_walk_arcs,
};
use crate::graph::residual::lemma_adj_len_bound;
pub use all_pairs::{AllPairsResult, floyd_warshall};
pub use paths::all_simple_paths;

verus! {

/// Result of a single-source shortest-path query.
#[derive(Debug, Clone)]
pub struct RouteResult {
    /// `distances[v]` = cheapest path cost from the source to node v;
    /// `None` if unreachable.
    pub distances: Vec<Option<i128>>,
    /// `predecessors[v]` = arc index of the arc that last updated node v,
    /// used to reconstruct the path via `reconstruct_path`.
    pub predecessors: Vec<Option<usize>>,
}

/// Every predecessor arc enters its node from a node of lower rank.
pub open spec fn pred_forest(g: &DiGraph, r: RouteResult, rank: Seq<int>) -> bool {
    &&& rank.len() == g.n()
    &&& r.predecessors.len() == g.n()
    &&& r.distances.len() == g.n()
    &&& forall|v: int|
        0 <= v < g.n() && #[trigger] r.predecessors@[v] is Some ==> {
            let i = r.predecessors@[v]->0 as int;
            &&& 0 <= i < g.m()
            &&& i % 2 == 0
            &&& g.arc_to(i) == v
            &&& 0 <= rank[g.arc_from(i)] < rank[v]
        }
}

/// The predecessor arc of `v` is tight: the distance of `v` is the distance
/// of its tail plus the arc cost.
pub open spec fn pred_tight(g: &DiGraph, r: RouteResult, v: int) -> bool {
    r.predecessors@[v] matches Some(i) ==> {
        &&& r.distances@[g.arc_from(i as int)] is Some
        &&& r.distances@[v] is Some
        &&& r.distances@[v]->0 == r.distances@[g.arc_from(i as int)]->0 + g.cost(i as int)
    }
}

/// `r` holds exact shortest-path distances from `s`.
pub open spec fn shortest_from(g: &DiGraph, r: RouteResult, s: int) -> bool {
    &&& r.distances.len() == g.n()
    &&& r.predecessors.len() == g.n()
    &&& r.distances@[s] == Some(0i128)
    &&& forall|v: int|
        0 <= v < g.n() && #[trigger] r.distances@[v] is Some ==> exists|p: Seq<int>|
            fwd_walk(g, p, s, v) && walk_cost(g, p) == r.distances@[v]->0
    &&& forall|v: int, p: Seq<int>|
        0 <= v < g.n() && #[trigger] fwd_walk(g, p, s, v) ==> r.distances@[v] is Some && walk_cost(g, p)
            >= r.distances@[v]->0
}

/// A graph with non-negative forward costs and a source.
pub open spec fn nonneg_costs(g: &DiGraph, s: NodeId) -> bool {
    &&& g.wf()
    &&& (s.0 as int) < g.n()
    &&& forall|i: int| 0 <= i < g.m() && i % 2 == 0 ==> 0 <= #[trigger] g.cost(i)
}

/// Any `i64` cost times the number of nodes fits an `i128`.
pub proof fn lemma_cost_fits(n: int, c: int, k: int)
    requires
        1 <= n,
        k >= 1,
        n * k <= 0x1_0000_0000_0000_0000,
        c <= i64::MAX,
    ensures
        c <= (i128::MAX as int) / (n * k),
{
    assert(n * k >= 1) by (nonlinear_arith)
        requires
            1 <= n,
            k >= 1,
    ;
    assert(i64::MAX * (n * k) <= i128::MAX) by (nonlinear_arith)
        requires
            1 <= n * k <= 0x1_0000_0000_0000_0000,
    ;
    assert(c <= (i128::MAX as int) / (n * k)) by (nonlinear_arith)
        requires
            c <= i64::MAX,
            i64::MAX * (n * k) <= i128::MAX,
            n * k >= 1,
    ;
}

/// Non-negative forward costs small enough that no path cost overflows
/// (every `i64` cost is).
pub open spec fn dijkstra_input(g: &DiGraph, s: NodeId) -> bool {
    &&& g.wf()
    &&& (s.0 as int) < g.n()
    &&& forall|i: int|
        0 <= i < g.m() && i % 2 == 0 ==> 0 <= #[trigger] g.cost(i) <= (i128::MAX as int) / g.n()
}

/// Dijkstra's algorithm.  Requires all arc costs >= 0.
///
/// Nodes are settled in order of (distance, node index); the predecessor
/// of a node is the last forward arc that strictly improved it.
pub fn dijkstra(graph: &DiGraph, source: NodeId) -> (r: RouteResult)
    requires
        nonneg_costs(graph, source),
    ensures
        shortest_from(graph, r, source.0 as int),
        exists|rank: Seq<int>| pred_forest(graph, r, rank),
        forall|v: int| 0 <= v < graph.n() ==> #[trigger] pred_tight(graph, r, v),
        forall|v: int|
            0 <= v < graph.n() ==> (#[trigger] r.predecessors@[v] is None <==> (v == source.0
                || r.distances@[v] is None)),
{
    proof {
        assert forall|i: int| 0 <= i < graph.m() && i % 2 == 0 implies #[trigger] graph.cost(i) <= (
        i128::MAX as int) / graph.n() by {
            lemma_cost_fits(graph.n(), graph.cost(i), 1);
        }
    }
    let n = graph.node_count();
    let s = source.0 as usize;
    let ghost kk: int = (i128::MAX as int) / (n as int);
    let mut dist: Vec<Option<i128>> = Vec::new();
    let mut pred: Vec<Option<usize>> = Vec::new();
    let mut done: Vec<bool> = Vec::new();
    let mut k: usize = 0;
    while k < n
        invariant
            k <= n,
            dist.len() == k,
            pred.len() == k,
            done.len() == k,
            forall|w: int| 0 <= w < k ==> #[trigger] dist@[w] is None,
            forall|w: int| 0 <= w < k ==> #[trigger] pred@[w] is None,
            forall|w: int| 0 <= w < k ==> !#[trigger] done@[w],
        decreases n - k,
    {
        dist.push(None);
        pred.push(None);
        done.push(false);
        k += 1;
    }
    dist.set(s, Some(0));
    let ghost undone = |b: bool| !b;
    proof {
        assert(n >= 1);
        assert(pred@[s as int] is None);
        assert forall|v: int| 0 <= v < n && v != s && #[trigger] dist@[v] is Some implies pred@[v] is Some by {
            assert(dist@[v] is None);
        }
        assert forall|i: int|
            0 <= i < graph.m() && i % 2 == 0 && #[trigger] done@[graph.arc_from(i)] implies dist@[graph.arc_to(
                i,
            )] is Some && dist@[graph.arc_to(i)]->0 <= dist@[graph.arc_from(i)]->0 + graph.cost(i) by {
            graph.lemma_arc(i);
        }
    }
    let ghost mut rank: Seq<int> = Seq::new(n as nat, |v: int| 0int);
    proof {
        lemma_count_all(done@, undone);
    }
    loop
        invariant
            dijkstra_input(graph, source),
            n == graph.n(),
            s == source.0,
            kk == (i128::MAX as int) / (n as int),
            n >= 1,
            dist.len() == n,
            pred.len() == n,
            done.len() == n,
            rank.len() == n,
            undone == (|b: bool| !b),
            dist@[s as int] == Some(0i128),
            pred@[s as int] is None,
            count_where(done@, undone) <= n,
            // settled nodes have known distances no larger than unsettled ones
            forall|a: int| 0 <= a < n && #[trigger] done@[a] ==> dist@[a] is Some,
            forall|a: int, b: int|
                0 <= a < n && 0 <= b < n && #[trigger] done@[a] && !done@[b] && #[trigger] dist@[b] is Some
                    ==> dist@[a]->0 <= dist@[b]->0,
            // settled nodes have relaxed all their forward arcs
            forall|i: int|
                0 <= i < graph.m() && i % 2 == 0 && #[trigger] done@[graph.arc_from(i)] ==> dist@[graph.arc_to(
                    i,
                )] is Some && dist@[graph.arc_to(i)]->0 <= dist@[graph.arc_from(i)]->0 + graph.cost(i),
            // predecessor arcs come from settled nodes and are tight
            forall|v: int|
                0 <= v < n && #[trigger] pred@[v] is Some ==> {
                    let i = pred@[v]->0 as int;
                    &&& 0 <= i < graph.m()
                    &&& i % 2 == 0
                    &&& graph.arc_to(i) == v
                    &&& done@[graph.arc_from(i)]
                    &&& 0 <= rank[graph.arc_from(i)] < rank[v]
                    &&& dist@[v] is Some
                    &&& dist@[v]->0 == dist@[graph.arc_from(i)]->0 + graph.cost(i)
                },
            forall|v: int| 0 <= v < n && v != s && #[trigger] dist@[v] is Some ==> pred@[v] is Some,
            forall|v: int| 0 <= v < n ==> #[trigger] rank[v] >= 0,
            forall|v: int|
                0 <= v < n && #[trigger] dist@[v] is Some ==> 0 <= dist@[v]->0 <= (n - count_where(
                    done@,
                    undone,
                )) * kk,
        ensures
            forall|w: int| 0 <= w < n && #[trigger] dist@[w] is Some ==> done@[w],
        decreases count_where(done@, undone),
    {
        // select the unsettled node of least distance (lowest index on ties)
        let mut best: Option<usize> = None;
        let mut v: usize = 0;
        while v < n
            invariant
                n == dist.len(),
                n == done.len(),
                v <= n,
                best matches Some(b) ==> b < v && !done@[b as int] && dist@[b as int] is Some,
                best is None ==> forall|w: int| 0 <= w < v ==> done@[w] || dist@[w] is None,
                best matches Some(b) ==> forall|w: int|
                    0 <= w < v && !done@[w] && #[trigger] dist@[w] is Some ==> dist@[b as int]->0
                        <= dist@[w]->0,
            decreases n - v,
        {
            if !done[v] {
                match dist[v] {
                    Some(d) => {
                        match best {
                            None => {
                                best = Some(v);
                            },
                            Some(b) => {
                                let db = dist[b].unwrap();
                                if d < db {
                                    best = Some(v);
                                }
                            },
                        }
                    },
                    None => {},
                }
            }
            v += 1;
        }
        match best {
            None => {
                break;
            },
            Some(u) => {
                let du = dist[u].unwrap();
                let ghost c0 = count_where(done@, undone);
                proof {
                    lemma_count_update(done@, undone, u as int, true);
                    lemma_count_le(done@, undone);
                    assert(du <= (n - c0) * kk);
                    assert((n - c0 + 1) * kk <= n * kk) by (nonlinear_arith)
                        requires
                            c0 >= 1,
                            kk >= 0,
                    ;
                    assert(n * kk <= i128::MAX) by (nonlinear_arith)
                        requires
                            kk == (i128::MAX as int) / (n as int),
                            n >= 1,
                    ;
                    assert((n - (c0 - 1)) * kk == (n - c0) * kk + kk) by (nonlinear_arith);
                }
                let ghost dn0 = done@;
                done.set(u, true);
                proof {
                    assert forall|i: int|
                        0 <= i < graph.m() && i % 2 == 0 && #[trigger] done@[graph.arc_from(i)]
                            && graph.arc_from(i) != u implies dist@[graph.arc_to(i)] is Some
                            && dist@[graph.arc_to(i)]->0 <= dist@[graph.arc_from(i)]->0 + graph.cost(i) by {
                        graph.lemma_arc(i);
                        assert(dn0[graph.arc_from(i)]);
                    }
                    assert forall|v2: int| 0 <= v2 < n && #[trigger] pred@[v2] is Some implies done@[graph.arc_from(
                        pred@[v2]->0 as int,
                    )] by {
                        let i = pred@[v2]->0 as int;
                        graph.lemma_arc(i);
                        assert(dn0[graph.arc_from(i)]);
                    }
                }
                let a = &graph.adj[u];
                let mut j: usize = 0;
                while j < a.len()
                    invariant
                        dijkstra_input(graph, source),
                        n == graph.n(),
                        s == source.0,
                        kk == (i128::MAX as int) / (n as int),
                        n >= 1,
                        dist.len() == n,
                        pred.len() == n,
                        done.len() == n,
                        rank.len() == n,
                        u < n,
                        done@[u as int],
                        dist@[u as int] == Some(du),
                        a == &graph.adj[u as int],
                        j <= a.len(),
                        undone == (|b: bool| !b),
                        dist@[s as int] == Some(0i128),
                        pred@[s as int] is None,
                        0 <= du,
                        (du as int) + kk <= (n - count_where(done@, undone)) * kk,
                        (n - count_where(done@, undone)) * kk <= i128::MAX,
                        count_where(done@, undone) <= n,
                        forall|a2: int| 0 <= a2 < n && #[trigger] done@[a2] ==> dist@[a2] is Some,
                        forall|a2: int| 0 <= a2 < n && #[trigger] done@[a2] ==> dist@[a2]->0 <= du,
                        forall|b: int|
                            0 <= b < n && !done@[b] && #[trigger] dist@[b] is Some ==> du <= dist@[b]->0,
                        forall|i: int|
                            0 <= i < graph.m() && i % 2 == 0 && #[trigger] done@[graph.arc_from(i)]
                                && graph.arc_from(i) != u ==> dist@[graph.arc_to(i)] is Some
                                && dist@[graph.arc_to(i)]->0 <= dist@[graph.arc_from(i)]->0 + graph.cost(i),
                        forall|x: int|
                            0 <= x < j && #[trigger] a[x] % 2 == 0 ==> dist@[graph.arc_to(a[x] as int)] is Some
                                && dist@[graph.arc_to(a[x] as int)]->0 <= du + graph.cost(a[x] as int),
                        forall|v2: int|
                            0 <= v2 < n && #[trigger] pred@[v2] is Some ==> {
                                let i = pred@[v2]->0 as int;
                                &&& 0 <= i < graph.m()
                                &&& i % 2 == 0
                                &&& graph.arc_to(i) == v2
                                &&& done@[graph.arc_from(i)]
                                &&& 0 <= rank[graph.arc_from(i)] < rank[v2]
                                &&& dist@[v2] is Some
                                &&& dist@[v2]->0 == dist@[graph.arc_from(i)]->0 + graph.cost(i)
                            },
                        forall|v2: int| 0 <= v2 < n && v2 != s && #[trigger] dist@[v2] is Some ==> pred@[v2] is Some,
                        forall|v2: int| 0 <= v2 < n ==> #[trigger] rank[v2] >= 0,
                        forall|v2: int|
                            0 <= v2 < n && #[trigger] dist@[v2] is Some ==> 0 <= dist@[v2]->0 <= (n
                                - count_where(done@, undone)) * kk,
                    decreases a.len() - j,
                {
                    proof {
                        graph.lemma_adj(u as int, j as int);
                        graph.lemma_arc(a[j as int] as int);
                    }
                    let idx = a[j];
                    if idx % 2 == 0 {
                        let v = graph.edges[idx].to.0 as usize;
                        let w = graph.edges[idx].cost.0 as i128;
                        proof {
                            assert(w <= kk);
                        }
                        let nd = du + w;
                        let improve = match dist[v] {
                            None => true,
                            Some(dv) => nd < dv,
                        };
                        if improve {
                            let ghost d0 = dist@;
                            let ghost p0 = pred@;
                            proof {
                                assert(!done@[v as int]);
                                assert(v != s);
                            }
                            dist.set(v, Some(nd));
                            pred.set(v, Some(idx));
                            proof {
                                rank = rank.update(v as int, rank[u as int] + 1);
                                assert forall|v2: int|
                                    0 <= v2 < n && #[trigger] pred@[v2] is Some implies {
                                        let i = pred@[v2]->0 as int;
                                        &&& 0 <= i < graph.m()
                                        &&& i % 2 == 0
                                        &&& graph.arc_to(i) == v2
                                        &&& done@[graph.arc_from(i)]
                                        &&& 0 <= rank[graph.arc_from(i)] < rank[v2]
                                        &&& dist@[v2] is Some
                                        &&& dist@[v2]->0 == dist@[graph.arc_from(i)]->0 + graph.cost(i)
                                    } by {
                                    if v2 != v as int {
                                        assert(p0[v2] is Some);
                                        let i = p0[v2]->0 as int;
                                        graph.lemma_arc(i);
                                        assert(graph.arc_from(i) != v as int);
                                    }
                                }
                                assert forall|i: int|
                                    0 <= i < graph.m() && i % 2 == 0 && #[trigger] done@[graph.arc_from(i)]
                                        && graph.arc_from(i) != u implies dist@[graph.arc_to(i)] is Some
                                        && dist@[graph.arc_to(i)]->0 <= dist@[graph.arc_from(i)]->0
                                        + graph.cost(i) by {
                                    graph.lemma_arc(i);
                                    assert(graph.arc_from(i) != v as int);
                                    assert(d0[graph.arc_to(i)] is Some);
                                }
                                assert forall|x: int|
                                    0 <= x < j + 1 && #[trigger] a[x] % 2 == 0 implies dist@[graph.arc_to(
                                        a[x] as int,
                                    )] is Some && dist@[graph.arc_to(a[x] as int)]->0 <= du + graph.cost(
                                        a[x] as int,
                                    ) by {
                                    graph.lemma_adj(u as int, x);
                                    graph.lemma_arc(a[x] as int);
                                    if x < j {
                                        assert(d0[graph.arc_to(a[x] as int)] is Some);
                                        assert(d0[graph.arc_to(a[x] as int)]->0 <= du + graph.cost(a[x] as int));
                                        if graph.arc_to(a[x] as int) == v as int {
                                            assert(nd < d0[v as int]->0);
                                        }
                                    }
                                }
                            }
                        } else {
                            proof {
                                assert forall|x: int|
                                    0 <= x < j + 1 && #[trigger] a[x] % 2 == 0 implies dist@[graph.arc_to(
                                        a[x] as int,
                                    )] is Some && dist@[graph.arc_to(a[x] as int)]->0 <= du + graph.cost(
                                        a[x] as int,
                                    ) by {
                                    graph.lemma_adj(u as int, x);
                                }
                            }
                        }
                    }
                    j += 1;
                }
                proof {
                    assert forall|i: int|
                        0 <= i < graph.m() && i % 2 == 0 && #[trigger] done@[graph.arc_from(i)] implies dist@[graph.arc_to(
                            i,
                        )] is Some && dist@[graph.arc_to(i)]->0 <= dist@[graph.arc_from(i)]->0 + graph.cost(i) by {
                        if graph.arc_from(i) == u as int {
                            graph.lemma_arc(i);
                            assert(graph.adj[u as int]@.contains(i as usize));
                            let x = choose|x: int| 0 <= x < a.len() && a[x] == i as usize;
                            assert(a[x] % 2 == 0);
                        }
                    }
                    assert forall|a2: int, b: int|
                        0 <= a2 < n && 0 <= b < n && #[trigger] done@[a2] && !done@[b] && #[trigger] dist@[b] is Some
                            implies dist@[a2]->0 <= dist@[b]->0 by {
                    }
                }
            },
        }
    }
    proof {
        let r = RouteResult { distances: dist, predecessors: pred };
        assert(pred_forest(graph, r, rank));
        assert forall|v: int| 0 <= v < n implies #[trigger] pred_tight(graph, r, v) by {
            assert(r.predecessors@[v] == pred@[v]);
            if pred@[v] is Some {
                let i = pred@[v]->0 as int;
                graph.lemma_arc(i);
                assert(done@[graph.arc_from(i)]);
                assert(dist@[graph.arc_from(i)] is Some);
                assert(r.distances@[graph.arc_from(i)] == dist@[graph.arc_from(i)]);
            }
        }
        assert forall|i: int|
            0 <= i < graph.m() && i % 2 == 0 && #[trigger] dist@[graph.arc_from(i)] is Some implies dist@[graph.arc_to(i)] is Some
                && dist@[graph.arc_to(i)]->0 <= dist@[graph.arc_from(i)]->0 + graph.cost(i) by {
            graph.lemma_arc(i);
            assert(done@[graph.arc_from(i)]);
        }
        assert forall|v: int| 0 <= v < n && #[trigger] dist@[v] is Some implies exists|p: Seq<int>|
            fwd_walk(graph, p, s as int, v) && walk_cost(graph, p) == dist@[v]->0 by {
            lemma_pred_walk(graph, r, rank, s as int, v);
        }
        assert forall|v: int, p: Seq<int>|
            0 <= v < n && #[trigger] fwd_walk(graph, p, s as int, v) implies dist@[v] is Some && walk_cost(
            graph,
            p,
        ) >= dist@[v]->0 by {
            assert forall|w: int| 0 <= w < n && #[trigger] dist@[w] is Some implies done@[w] by {}
            lemma_walk_lower_bound(graph, dist@, p, s as int, v);
        }
    }
    RouteResult { distances: dist, predecessors: pred }
}

/// A graph with a source.
pub open spec fn bf_graph(g: &DiGraph, s: NodeId) -> bool {
    &&& g.wf()
    &&& (s.0 as int) < g.n()
}

/// `dist` is a valid labelling built from walks out of `s`: each label is
/// the cost of a walk recorded in `wit`.
pub open spec fn witnessed(g: &DiGraph, dist: Seq<Option<i128>>, wit: Seq<Seq<int>>, s: int) -> bool {
    &&& dist.len() == g.n()
    &&& wit.len() == g.n()
    &&& forall|v: int|
        0 <= v < g.n() && #[trigger] dist[v] is Some ==> fwd_walk(g, wit[v], s, v) && walk_cost(g, wit[v])
            == dist[v]->0
}

/// Holds of a label that is present.
pub open spec fn is_labelled() -> spec_fn(Option<i128>) -> bool {
    |o: Option<i128>| o is Some
}

/// How many nodes carry a label.
pub open spec fn labelled_count(d: Seq<Option<i128>>) -> nat {
    count_where(d, is_labelled())
}

/// No label exceeds the largest arc cost times one less than the number of
/// labelled nodes: each node is first labelled one arc past a node labelled
/// before it, and labels only drop.
pub open spec fn labels_capped(d: Seq<Option<i128>>) -> bool {
    forall|v: int| 0 <= v < d.len() && #[trigger] d[v] is Some ==> d[v]->0 <= (labelled_count(d) - 1) * (i64::MAX as int)
}

/// The source alone labelled, at zero, satisfies the cap.
proof fn lemma_labels_capped_start(d: Seq<Option<i128>>, s: int)
    requires
        0 <= s < d.len(),
        d[s] == Some(0i128),
        forall|v: int| 0 <= v < d.len() && v != s ==> #[trigger] d[v] is None,
    ensures
        labels_capped(d),
{
    lemma_count_pos(d, is_labelled(), s);
}

/// Relabelling `v` one arc past `u`, lower than before, keeps the cap.
proof fn lemma_labels_capped_set(d: Seq<Option<i128>>, u: int, v: int, nd: int)
    requires
        labels_capped(d),
        0 <= u < d.len(),
        0 <= v < d.len(),
        d[u] is Some,
        nd <= d[u]->0 + i64::MAX,
        d[v] is Some ==> nd < d[v]->0,
        i128::MIN <= nd <= i128::MAX,
    ensures
        labels_capped(d.update(v, Some(nd as i128))),
{
    let d1 = d.update(v, Some(nd as i128));
    lemma_count_replace(d, is_labelled(), v, Some(nd as i128));
    let c0 = labelled_count(d);
    let c1 = labelled_count(d1);
    lemma_count_pos(d, is_labelled(), u);
    assert(c1 >= c0);
    assert forall|x: int| 0 <= x < d1.len() && #[trigger] d1[x] is Some implies d1[x]->0 <= (c1 - 1) * (i64::MAX as int) by {
        if x != v {
            assert(d[x] is Some);
            assert(d[x]->0 <= (c0 - 1) * (i64::MAX as int));
        } else {
            assert(d[u]->0 <= (c0 - 1) * (i64::MAX as int));
        }
    }
}

/// Labels stay below `2^95`; without a negative cycle reachable from `s`
/// they also stay above `-2^95`, since a walk as cheap exists with fewer than
/// `n` arcs.
proof fn lemma_label_bounds(g: &DiGraph, s: int, d: Seq<Option<i128>>, wit: Seq<Seq<int>>, u: int)
    requires
        g.wf(),
        0 <= s < g.n(),
        0 <= u < g.n(),
        witnessed(g, d, wit, s),
        labels_capped(d),
        d[u] is Some,
    ensures
        d[u]->0 <= 0x8000_0000_0000_0000_0000_0000,
        !neg_cycle_reachable(g, s) ==> d[u]->0 >= -0x8000_0000_0000_0000_0000_0000,
{
    let c = labelled_count(d);
    lemma_count_le(d, is_labelled());
    assert(g.n() <= u32::MAX);
    assert((c - 1) * (i64::MAX as int) <= 0x8000_0000_0000_0000_0000_0000) by (nonlinear_arith)
        requires
            c <= 0x1_0000_0000,
    ;
    if !neg_cycle_reachable(g, s) {
        lemma_short_walk(g, s, wit[u], u);
        let q = choose|q: Seq<int>| fwd_walk(g, q, s, u) && q.len() < g.n() && walk_cost(g, q) <= walk_cost(g, wit[u]);
        lemma_walk_cost_bound(g, q, s, u, 0x8000_0000_0000_0000);
        assert(q.len() * 0x8000_0000_0000_0000 <= 0x8000_0000_0000_0000_0000_0000) by (nonlinear_arith)
            requires
                q.len() <= 0x1_0000_0000,
        ;
    }
}

/// Every walk from `s` of at most `r` arcs costs at least the label of its end.
pub open spec fn covers_walks(g: &DiGraph, dist: Seq<Option<i128>>, s: int, r: int) -> bool {
    forall|v: int, q: Seq<int>|
        0 <= v < g.n() && #[trigger] fwd_walk(g, q, s, v) && q.len() <= r ==> dist[v] is Some && dist[v]->0
            <= walk_cost(g, q)
}

/// Labels satisfy the triangle inequality on every forward arc from a
/// labelled node.
pub open spec fn triangle(g: &DiGraph, dist: Seq<Option<i128>>) -> bool {
    forall|i: int|
        0 <= i < g.m() && i % 2 == 0 && #[trigger] dist[g.arc_from(i)] is Some ==> dist[g.arc_to(i)] is Some
            && dist[g.arc_to(i)]->0 <= dist[g.arc_from(i)]->0 + g.cost(i)
}

/// Predecessor arcs enter their node and are no better than its label;
/// every labelled node but `s` has one; and where a predecessor arc is
/// tight, its tail was last relabelled earlier (`stamp`, all below `clock`).
pub open spec fn preds_ok(
    g: &DiGraph,
    dist: Seq<Option<i128>>,
    pred: Seq<Option<usize>>,
    stamp: Seq<int>,
    clock: int,
    s: int,
) -> bool {
    &&& pred.len() == g.n()
    &&& stamp.len() == g.n()
    &&& forall|v: int| 0 <= v < g.n() ==> 0 <= #[trigger] stamp[v] < clock
    &&& forall|v: int| 0 <= v < g.n() && v != s && #[trigger] dist[v] is Some ==> pred[v] is Some
    &&& forall|v: int|
        0 <= v < g.n() && #[trigger] pred[v] is Some ==> {
            let i = pred[v]->0 as int;
            &&& 0 <= i < g.m()
            &&& i % 2 == 0
            &&& g.arc_to(i) == v
            &&& dist[g.arc_from(i)] is Some
            &&& dist[v] is Some
            &&& dist[v]->0 >= dist[g.arc_from(i)]->0 + g.cost(i)
            &&& dist[v]->0 == dist[g.arc_from(i)]->0 + g.cost(i) ==> stamp[g.arc_from(i)] < stamp[v]
        }
}

/// Bellman-Ford algorithm.  Handles negative arc costs.
///
/// Returns `None` exactly when a negative-cost cycle is reachable from
/// `source`; otherwise the exact shortest-path distances.
pub fn bellman_ford(graph: &DiGraph, source: NodeId) -> (r: Option<RouteResult>)
    requires
        bf_graph(graph, source),
    ensures
        r is None <==> neg_cycle_reachable(graph, source.0 as int),
        r matches Some(rr) ==> {
            &&& shortest_from(graph, rr, source.0 as int)
            &&& exists|rank: Seq<int>| pred_forest(graph, rr, rank)
            &&& forall|v: int| 0 <= v < graph.n() ==> #[trigger] pred_tight(graph, rr, v)
            &&& forall|v: int|
                0 <= v < graph.n() ==> (#[trigger] rr.predecessors@[v] is None <==> (v == source.0
                    || rr.distances@[v] is None))
        },
{
    let n = graph.node_count();
    let s = source.0 as usize;
    let ghost m = graph.m();
    let mut dist: Vec<Option<i128>> = Vec::new();
    let mut pred: Vec<Option<usize>> = Vec::new();
    let mut k: usize = 0;
    while k < n
        invariant
            k <= n,
            dist.len() == k,
            pred.len() == k,
            forall|w: int| 0 <= w < k ==> #[trigger] dist@[w] is None,
            forall|w: int| 0 <= w < k ==> #[trigger] pred@[w] is None,
        decreases n - k,
    {
        dist.push(None);
        pred.push(None);
        k += 1;
    }
    dist.set(s, Some(0));
    let ghost mut wit: Seq<Seq<int>> = Seq::new(n as nat, |v: int| Seq::<int>::empty());
    let ghost mut stamp: Seq<int> = Seq::new(n as nat, |v: int| 0int);
    let ghost mut clock: int = 1;
    proof {
        assert(fwd_walk(graph, Seq::<int>::empty(), s as int, s as int));
        assert(walk_cost(graph, Seq::<int>::empty()) == 0);
        assert forall|v: int, q: Seq<int>|
            0 <= v < n && #[trigger] fwd_walk(graph, q, s as int, v) && q.len() <= 0 implies dist@[v] is Some
                && dist@[v]->0 <= walk_cost(graph, q) by {
            assert(q.len() == 0);
        }
        lemma_labels_capped_start(dist@, s as int);
    }
    let rounds = n - 1;
    let mut r: usize = 0;
    let mut settled = false;
    while r < rounds && !settled
        invariant
            bf_graph(graph, source),
            labels_capped(dist@),
            n == graph.n(),
            m == graph.m(),
            s == source.0,
            n >= 1,
            rounds == n - 1,
            r <= rounds,
            dist.len() == n,
            pred.len() == n,
            dist@[s as int] is Some,
            dist@[s as int]->0 <= 0,
            pred@[s as int] is Some ==> dist@[s as int]->0 < 0,
            witnessed(graph, dist@, wit, s as int),
            preds_ok(graph, dist@, pred@, stamp, clock, s as int),
            settled ==> triangle(graph, dist@),
            !settled ==> covers_walks(graph, dist@, s as int, r as int),
        decreases rounds - r,
    {
        let ghost prev = dist@;
        let mut updated = false;
        let mut u: usize = 0;
        while u < n
            invariant
                bf_graph(graph, source),
                labels_capped(dist@),
                n == graph.n(),
                m == graph.m(),
                s == source.0,
                n >= 1,
                r < rounds,
                rounds == n - 1,
                u <= n,
                dist.len() == n,
                pred.len() == n,
                prev.len() == n,
                dist@[s as int] is Some,
                dist@[s as int]->0 <= 0,
                pred@[s as int] is Some ==> dist@[s as int]->0 < 0,
                witnessed(graph, dist@, wit, s as int),
                preds_ok(graph, dist@, pred@, stamp, clock, s as int),
                covers_walks(graph, prev, s as int, r as int),
                forall|v: int| 0 <= v < n && #[trigger] prev[v] is Some ==> dist@[v] is Some && dist@[v]->0 <= prev[v]->0,
                !updated ==> dist@ == prev,
                forall|i: int|
                    0 <= i < m && i % 2 == 0 && graph.arc_from(i) < u && #[trigger] prev[graph.arc_from(i)] is Some
                        ==> dist@[graph.arc_to(i)] is Some && dist@[graph.arc_to(i)]->0 <= prev[graph.arc_from(i)]->0 + graph.cost(i),
                forall|i: int|
                    0 <= i < m && i % 2 == 0 && graph.arc_from(i) < u && #[trigger] dist@[graph.arc_from(i)] is Some
                        && !updated ==> dist@[graph.arc_to(i)] is Some && dist@[graph.arc_to(i)]->0 <= dist@[graph.arc_from(i)]->0 + graph.cost(i),
            decreases n - u,
        {
            match dist[u] {
                None => {
                    proof {
                        assert(prev[u as int] is None);
                    }
                },
                Some(du0) => {
                    let a = &graph.adj[u];
                    proof {
                        lemma_adj_len_bound(graph, u as int);
                    }
                    let mut j: usize = 0;
                    while j < a.len()
                        invariant
                            bf_graph(graph, source),
                            labels_capped(dist@),
                            n == graph.n(),
                            m == graph.m(),
                            s == source.0,
                            n >= 1,
                            r < rounds,
                            rounds == n - 1,
                            u < n,
                            a == &graph.adj[u as int],
                            a.len() <= m,
                            j <= a.len(),
                            dist.len() == n,
                            pred.len() == n,
                            prev.len() == n,
                            dist@[u as int] is Some,
                            dist@[u as int]->0 <= du0,
                            !updated ==> dist@[u as int] == Some(du0),
                            covers_walks(graph, prev, s as int, r as int),
                            dist@[s as int] is Some,
                            dist@[s as int]->0 <= 0,
                            pred@[s as int] is Some ==> dist@[s as int]->0 < 0,
                            witnessed(graph, dist@, wit, s as int),
                            preds_ok(graph, dist@, pred@, stamp, clock, s as int),
                            forall|v: int| 0 <= v < n && #[trigger] prev[v] is Some ==> dist@[v] is Some && dist@[v]->0 <= prev[v]->0,
                            !updated ==> dist@ == prev,
                            forall|i: int|
                                0 <= i < m && i % 2 == 0 && graph.arc_from(i) < u && #[trigger] prev[graph.arc_from(i)] is Some
                                    ==> dist@[graph.arc_to(i)] is Some && dist@[graph.arc_to(i)]->0 <= prev[graph.arc_from(i)]->0 + graph.cost(i),
                            forall|i: int|
                                0 <= i < m && i % 2 == 0 && graph.arc_from(i) < u && #[trigger] dist@[graph.arc_from(i)] is Some
                                    && !updated ==> dist@[graph.arc_to(i)] is Some && dist@[graph.arc_to(i)]->0 <= dist@[graph.arc_from(i)]->0 + graph.cost(i),
                            forall|x: int|
                                0 <= x < j && #[trigger] a[x] % 2 == 0 ==> dist@[graph.arc_to(a[x] as int)] is Some
                                    && dist@[graph.arc_to(a[x] as int)]->0 <= du0 + graph.cost(a[x] as int),
                            prev[u as int] is Some ==> du0 <= prev[u as int]->0,
                        decreases a.len() - j,
                    {
                        proof {
                            graph.lemma_adj(u as int, j as int);
                            graph.lemma_arc(a[j as int] as int);
                        }
                        let idx = a[j];
                        if idx % 2 == 0 {
                            let v = graph.edges[idx].to.0 as usize;
                            let w = graph.edges[idx].cost.0 as i128;
                            let du = match dist[u] {
                                Some(x) => x,
                                None => du0,
                            };
                            proof {
                                lemma_label_bounds(graph, s as int, dist@, wit, u as int);
                            }
                            let nd = match du.checked_add(w) {
                                Some(x) => x,
                                None => {
                                    return None;
                                },
                            };
                            let improve = match dist[v] {
                                None => true,
                                Some(dv) => nd < dv,
                            };
                            if improve {
                                let ghost d0 = dist@;
                                let ghost p0 = pred@;
                                let ghost st0 = stamp;
                                dist.set(v, Some(nd));
                                pred.set(v, Some(idx));
                                updated = true;
                                proof {
                                    lemma_labels_capped_set(d0, u as int, v as int, nd as int);
                                    assert(dist@ == d0.update(v as int, Some(nd)));
                                    stamp = stamp.update(v as int, clock);
                                    clock = clock + 1;
                                    assert forall|vv: int| 0 <= vv < n implies 0 <= #[trigger] stamp[vv] < clock by {
                                        if vv != v as int {
                                            assert(stamp[vv] == st0[vv]);
                                        }
                                    }
                                    assert forall|vv: int| 0 <= vv < n && vv != s && #[trigger] dist@[vv] is Some implies pred@[vv] is Some by {
                                        if vv != v as int {
                                            assert(d0[vv] is Some);
                                        }
                                    }
                                    lemma_walk_extend(graph, wit[u as int], s as int, u as int, idx as int);
                                    wit = wit.update(v as int, wit[u as int].push(idx as int));
                                    assert forall|x: int|
                                        0 <= x < j + 1 && #[trigger] a[x] % 2 == 0 implies dist@[graph.arc_to(
                                            a[x] as int,
                                        )] is Some && dist@[graph.arc_to(a[x] as int)]->0 <= du0 + graph.cost(
                                            a[x] as int,
                                        ) by {
                                        graph.lemma_adj(u as int, x);
                                        graph.lemma_arc(a[x] as int);
                                        if x < j {
                                            assert(d0[graph.arc_to(a[x] as int)] is Some);
                                            if graph.arc_to(a[x] as int) == v as int {
                                                assert(nd < d0[v as int]->0);
                                            }
                                        }
                                    }
                                    assert forall|i: int|
                                        0 <= i < m && i % 2 == 0 && graph.arc_from(i) < u && #[trigger] prev[graph.arc_from(i)] is Some
                                            implies dist@[graph.arc_to(i)] is Some && dist@[graph.arc_to(i)]->0 <= prev[graph.arc_from(i)]->0 + graph.cost(i) by {
                                        graph.lemma_arc(i);
                                        assert(d0[graph.arc_to(i)] is Some);
                                    }
                                    assert forall|vv: int| 0 <= vv < n && #[trigger] prev[vv] is Some implies dist@[vv] is Some && dist@[vv]->0 <= prev[vv]->0 by {
                                        assert(d0[vv] is Some);
                                    }
                                    assert forall|vv: int|
                                        0 <= vv < n && #[trigger] dist@[vv] is Some implies fwd_walk(graph, wit[vv], s as int, vv)
                                            && walk_cost(graph, wit[vv]) == dist@[vv]->0 by {
                                        if vv != v as int {
                                            assert(d0[vv] is Some);
                                        }
                                    }
                                    assert forall|vv: int| 0 <= vv < n && #[trigger] pred@[vv] is Some implies {
                                        let i = pred@[vv]->0 as int;
                                        &&& 0 <= i < graph.m()
                                        &&& i % 2 == 0
                                        &&& graph.arc_to(i) == vv
                                        &&& dist@[graph.arc_from(i)] is Some
                                        &&& dist@[vv] is Some
                                        &&& dist@[vv]->0 >= dist@[graph.arc_from(i)]->0 + graph.cost(i)
                                        &&& dist@[vv]->0 == dist@[graph.arc_from(i)]->0 + graph.cost(i) ==> stamp[graph.arc_from(i)] < stamp[vv]
                                    } by {
                                        if vv != v as int {
                                            assert(p0[vv] is Some);
                                            let i = p0[vv]->0 as int;
                                            graph.lemma_arc(i);
                                            assert(d0[graph.arc_from(i)] is Some);
                                            if graph.arc_from(i) == v as int {
                                                assert(nd < d0[v as int]->0);
                                            } else {
                                                assert(stamp[graph.arc_from(i)] == st0[graph.arc_from(i)]);
                                                assert(stamp[vv] == st0[vv]);
                                            }
                                        } else {
                                            assert(graph.arc_from(idx as int) == u);
                                            if u != v {
                                                assert(stamp[u as int] == st0[u as int]);
                                            }
                                        }
                                    }
                                }
                            } else {
                                proof {
                                    assert forall|x: int|
                                        0 <= x < j + 1 && #[trigger] a[x] % 2 == 0 implies dist@[graph.arc_to(
                                            a[x] as int,
                                        )] is Some && dist@[graph.arc_to(a[x] as int)]->0 <= du0 + graph.cost(
                                            a[x] as int,
                                        ) by {
                                        graph.lemma_adj(u as int, x);
                                    }
                                }
                            }
                        }
                        j += 1;
                    }
                    proof {
                        assert forall|i: int|
                            0 <= i < m && i % 2 == 0 && graph.arc_from(i) < u + 1 && #[trigger] prev[graph.arc_from(i)] is Some
                                implies dist@[graph.arc_to(i)] is Some && dist@[graph.arc_to(i)]->0 <= prev[graph.arc_from(i)]->0 + graph.cost(i) by {
                            if graph.arc_from(i) == u as int {
                                graph.lemma_arc(i);
                                assert(graph.adj[u as int]@.contains(i as usize));
                                let x = choose|x: int| 0 <= x < a.len() && a[x] == i as usize;
                                assert(a[x] % 2 == 0);
                            }
                        }
                        assert forall|i: int|
                            0 <= i < m && i % 2 == 0 && graph.arc_from(i) < u + 1 && #[trigger] dist@[graph.arc_from(i)] is Some
                                && !updated implies dist@[graph.arc_to(i)] is Some && dist@[graph.arc_to(i)]->0 <= dist@[graph.arc_from(i)]->0 + graph.cost(i) by {
                            if graph.arc_from(i) == u as int {
                                graph.lemma_arc(i);
                                assert(graph.adj[u as int]@.contains(i as usize));
                                let x = choose|x: int| 0 <= x < a.len() && a[x] == i as usize;
                                assert(a[x] % 2 == 0);
                            }
                        }
                    }
                },
            }
            u += 1;
        }
        proof {
            if !updated {
                assert(triangle(graph, dist@)) by {
                    assert forall|i: int|
                        0 <= i < m && i % 2 == 0 && #[trigger] dist@[graph.arc_from(i)] is Some implies dist@[graph.arc_to(i)] is Some
                            && dist@[graph.arc_to(i)]->0 <= dist@[graph.arc_from(i)]->0 + graph.cost(i) by {
                        graph.lemma_arc(i);
                    }
                }
            } else {
                assert forall|v: int, q: Seq<int>|
                    0 <= v < n && #[trigger] fwd_walk(graph, q, s as int, v) && q.len() <= r + 1 implies dist@[v] is Some
                        && dist@[v]->0 <= walk_cost(graph, q) by {
                    if q.len() <= r {
                        assert(prev[v] is Some);
                    } else {
                        let l = q.len() - 1;
                        lemma_walk_split(graph, q, s as int, v, l);
                        lemma_walk_arcs(graph, q, s as int, v);
                        let w = walk_node(graph, q, s as int, l);
                        let q1 = q.subrange(0, l);
                        let q2 = q.subrange(l, q.len() as int);
                        assert(fwd_walk(graph, q1, s as int, w));
                        assert(q1.len() <= r);
                        if l > 0 {
                            graph.lemma_arc(q[l - 1]);
                        }
                        assert(prev[w] is Some);
                        assert(q2[0] == q[l]);
                        let i = q[l];
                        graph.lemma_arc(i);
                        assert(graph.arc_from(i) == w);
                        assert(q2.drop_first().len() == 0);
                        assert(graph.arc_to(i) == v);
                        assert(walk_cost(graph, q2) == graph.cost(i) + walk_cost(graph, q2.drop_first()));
                    }
                }
            }
        }
        settled = !updated;
        r += 1;
    }
    // Negative cycle check: one more relaxation round
    let mut u: usize = 0;
    while u < n
        invariant
            bf_graph(graph, source),
            labels_capped(dist@),
            n == graph.n(),
            m == graph.m(),
            s == source.0,
            n >= 1,
            u <= n,
            dist.len() == n,
            pred.len() == n,
            dist@[s as int] is Some,
            dist@[s as int]->0 <= 0,
            pred@[s as int] is Some ==> dist@[s as int]->0 < 0,
            witnessed(graph, dist@, wit, s as int),
            preds_ok(graph, dist@, pred@, stamp, clock, s as int),
            settled ==> triangle(graph, dist@),
            !settled ==> covers_walks(graph, dist@, s as int, n - 1),
            forall|i: int|
                0 <= i < m && i % 2 == 0 && graph.arc_from(i) < u && #[trigger] dist@[graph.arc_from(i)] is Some
                    ==> dist@[graph.arc_to(i)] is Some && dist@[graph.arc_to(i)]->0 <= dist@[graph.arc_from(i)]->0 + graph.cost(i),
        decreases n - u,
    {
        match dist[u] {
            None => {},
            Some(du) => {
                let a = &graph.adj[u];
                let mut j: usize = 0;
                while j < a.len()
                    invariant
                        bf_graph(graph, source),
                        labels_capped(dist@),
                        n == graph.n(),
                        m == graph.m(),
                        s == source.0,
                        n >= 1,
                        u < n,
                        a == &graph.adj[u as int],
                        j <= a.len(),
                        dist.len() == n,
                        dist@[u as int] == Some(du),
                        witnessed(graph, dist@, wit, s as int),
                        settled ==> triangle(graph, dist@),
                        !settled ==> covers_walks(graph, dist@, s as int, n - 1),
                        forall|x: int|
                            0 <= x < j && #[trigger] a[x] % 2 == 0 ==> dist@[graph.arc_to(a[x] as int)] is Some
                                && dist@[graph.arc_to(a[x] as int)]->0 <= du + graph.cost(a[x] as int),
                    decreases a.len() - j,
                {
                    proof {
                        graph.lemma_adj(u as int, j as int);
                        graph.lemma_arc(a[j as int] as int);
                    }
                    let idx = a[j];
                    if idx % 2 == 0 {
                        let v = graph.edges[idx].to.0 as usize;
                        let w = graph.edges[idx].cost.0 as i128;
                        proof {
                            lemma_label_bounds(graph, s as int, dist@, wit, u as int);
                        }
                        let nd = match du.checked_add(w) {
                            Some(x) => x,
                            None => {
                                return None;
                            },
                        };
                        let violated = match dist[v] {
                            None => true,
                            Some(dv) => nd < dv,
                        };
                        if violated {
                            proof {
                                assert(!settled) by {
                                    if settled {
                                        assert(dist@[graph.arc_from(idx as int)] is Some);
                                    }
                                }
                                if !neg_cycle_reachable(graph, s as int) {
                                    lemma_walk_extend(graph, wit[u as int], s as int, u as int, idx as int);
                                    let pw = wit[u as int].push(idx as int);
                                    lemma_short_walk(graph, s as int, pw, v as int);
                                    let q = choose|q: Seq<int>|
                                        fwd_walk(graph, q, s as int, v as int) && q.len() < graph.n() && walk_cost(graph, q)
                                            <= walk_cost(graph, pw);
                                    assert(q.len() <= n - 1);
                                    assert(dist@[v as int] is Some);
                                }
                            }
                            return None;
                        }
                    }
                    proof {
                        assert forall|x: int|
                            0 <= x < j + 1 && #[trigger] a[x] % 2 == 0 implies dist@[graph.arc_to(a[x] as int)] is Some
                                && dist@[graph.arc_to(a[x] as int)]->0 <= du + graph.cost(a[x] as int) by {
                            graph.lemma_adj(u as int, x);
                        }
                    }
                    j += 1;
                }
                proof {
                    assert forall|i: int|
                        0 <= i < m && i % 2 == 0 && graph.arc_from(i) < u + 1 && #[trigger] dist@[graph.arc_from(i)] is Some
                            implies dist@[graph.arc_to(i)] is Some && dist@[graph.arc_to(i)]->0 <= dist@[graph.arc_from(i)]->0 + graph.cost(i) by {
                        if graph.arc_from(i) == u as int {
                            graph.lemma_arc(i);
                            assert(graph.adj[u as int]@.contains(i as usize));
                            let x = choose|x: int| 0 <= x < a.len() && a[x] == i as usize;
                            assert(a[x] % 2 == 0);
                        }
                    }
                }
            },
        }
        u += 1;
    }
    let rr = RouteResult { distances: dist, predecessors: pred };
    proof {
        assert(triangle(graph, dist@)) by {
            assert forall|i: int|
                0 <= i < m && i % 2 == 0 && #[trigger] dist@[graph.arc_from(i)] is Some implies dist@[graph.arc_to(i)] is Some
                    && dist@[graph.arc_to(i)]->0 <= dist@[graph.arc_from(i)]->0 + graph.cost(i) by {
                graph.lemma_arc(i);
            }
        }
        // no negative cycle is reachable
        if neg_cycle_reachable(graph, s as int) {
            let (p, c, w) = choose|p: Seq<int>, c: Seq<int>, w: int|
                #[trigger] fwd_walk(graph, p, s as int, w) && #[trigger] fwd_walk(graph, c, w, w) && walk_cost(graph, c) < 0;
            lemma_walk_arcs(graph, p, s as int, w);
            if p.len() > 0 {
                graph.lemma_arc(p[p.len() - 1]);
            }
            lemma_walk_lower_bound(graph, dist@, p, s as int, w);
            lemma_walk_lower_bound(graph, dist@, c, w, w);
        }
        // the source keeps label zero
        let ws = wit[s as int];
        if dist@[s as int]->0 < 0 {
            assert(fwd_walk(graph, ws, s as int, s as int));
            assert(fwd_walk(graph, Seq::<int>::empty(), s as int, s as int));
            assert(neg_cycle_reachable(graph, s as int));
        }
        assert forall|v: int, p: Seq<int>|
            0 <= v < n && #[trigger] fwd_walk(graph, p, s as int, v) implies dist@[v] is Some && walk_cost(graph, p)
                >= dist@[v]->0 by {
            lemma_walk_lower_bound(graph, dist@, p, s as int, v);
        }
        assert forall|v: int| 0 <= v < n && #[trigger] dist@[v] is Some implies exists|p: Seq<int>|
            fwd_walk(graph, p, s as int, v) && walk_cost(graph, p) == dist@[v]->0 by {
            assert(fwd_walk(graph, wit[v], s as int, v));
        }
        assert forall|v: int| 0 <= v < n implies #[trigger] pred_tight(graph, rr, v) by {
            if pred@[v] is Some {
                let i = pred@[v]->0 as int;
                graph.lemma_arc(i);
                assert(dist@[graph.arc_from(i)] is Some);
            }
        }
        assert forall|v: int| 0 <= v < n && #[trigger] rr.predecessors@[v] is Some implies {
            let i = rr.predecessors@[v]->0 as int;
            &&& 0 <= i < graph.m()
            &&& i % 2 == 0
            &&& graph.arc_to(i) == v
            &&& 0 <= stamp[graph.arc_from(i)] < stamp[v]
        } by {
            let i = pred@[v]->0 as int;
            graph.lemma_arc(i);
            assert(pred_tight(graph, rr, v));
        }
        assert(pred_forest(graph, rr, stamp));
        assert forall|v: int| 0 <= v < n implies (#[trigger] rr.predecessors@[v] is None <==> (v == source.0
            || rr.distances@[v] is None)) by {
            if v == s as int {
                assert(dist@[s as int] == Some(0i128));
            }
        }
    }
    Some(rr)
}

/// Following tight predecessor arcs back from `v` yields a walk from `s`
/// whose cost is the distance of `v`.
proof fn lemma_pred_walk(g: &DiGraph, r: RouteResult, rank: Seq<int>, s: int, v: int)
    requires
        g.wf(),
        pred_forest(g, r, rank),
        0 <= s < g.n(),
        0 <= v < g.n(),
        r.distances@[v] is Some,
        r.distances@[s] == Some(0i128),
        forall|w: int| 0 <= w < g.n() ==> #[trigger] pred_tight(g, r, w),
        forall|w: int| 0 <= w < g.n() && w != s && #[trigger] r.distances@[w] is Some ==> r.predecessors@[w] is Some,
    ensures
        exists|p: Seq<int>| fwd_walk(g, p, s, v) && walk_cost(g, p) == r.distances@[v]->0,
    decreases rank[v],
{
    if v == s {
        assert(fwd_walk(g, Seq::<int>::empty(), s, s));
        assert(walk_cost(g, Seq::<int>::empty()) == 0);
    } else {
        assert(r.predecessors@[v] is Some);
        let i = r.predecessors@[v]->0 as int;
        assert(pred_tight(g, r, v));
        g.lemma_arc(i);
        let u = g.arc_from(i);
        lemma_pred_walk(g, r, rank, s, u);
        let p = choose|p: Seq<int>| fwd_walk(g, p, s, u) && walk_cost(g, p) == r.distances@[u]->0;
        lemma_walk_extend(g, p, s, u, i);
    }
}


/// The predecessor arc of `v` leaves `u`.
pub open spec fn pred_step(g: &DiGraph, r: RouteResult, v: int, u: int) -> bool {
    match r.predecessors@[v] {
        Some(i) => g.arc_from(i as int) == u,
        None => false,
    }
}

/// The node sequence of `path` follows predecessor arcs back from its last
/// node to a node without a predecessor.
pub open spec fn follows_preds(g: &DiGraph, r: RouteResult, path: Seq<NodeId>) -> bool {
    &&& path.len() >= 1
    &&& r.predecessors@[path[0].0 as int] is None
    &&& forall|k: int|
        0 <= k < path.len() - 1 ==> #[trigger] pred_step(g, r, path[k + 1].0 as int, path[k].0 as int)
}

/// Reconstruct the node sequence of the shortest path from the source to
/// `sink` using the predecessor arcs of a `RouteResult`.
///
/// Returns an empty vec if `sink` is unreachable.
pub fn reconstruct_path(result: &RouteResult, graph: &DiGraph, sink: NodeId) -> (path: Vec<NodeId>)
    requires
        graph.wf(),
        (sink.0 as int) < graph.n(),
        exists|rank: Seq<int>| pred_forest(graph, *result, rank),
    ensures
        result.distances@[sink.0 as int] is None ==> path@.len() == 0,
        result.distances@[sink.0 as int] is Some ==> path@.last() == sink && follows_preds(graph, *result, path@),
{
    let ghost rank = choose|rank: Seq<int>| pred_forest(graph, *result, rank);
    if result.distances[sink.0 as usize].is_none() {
        return Vec::new();
    }
    // collected from the sink backwards
    let mut back: Vec<NodeId> = Vec::new();
    back.push(sink);
    let mut cur = sink;
    loop
        invariant
            graph.wf(),
            pred_forest(graph, *result, rank),
            (cur.0 as int) < graph.n(),
            back@.len() >= 1,
            back@[0] == sink,
            back@.last() == cur,
            forall|k: int|
                0 <= k < back@.len() - 1 ==> #[trigger] pred_step(graph, *result, back@[k].0 as int, back@[k + 1].0 as int),
        ensures
            back@.len() >= 1,
            back@[0] == sink,
            result.predecessors@[back@.last().0 as int] is None,
            forall|k: int|
                0 <= k < back@.len() - 1 ==> #[trigger] pred_step(graph, *result, back@[k].0 as int, back@[k + 1].0 as int),
        decreases rank[cur.0 as int],
    {
        match result.predecessors[cur.0 as usize] {
            None => break,
            Some(idx) => {
                proof {
                    graph.lemma_arc(idx as int);
                }
                let prev = graph.edges[idx].from;
                let ghost b0 = back@;
                back.push(prev);
                proof {
                    assert forall|k: int| 0 <= k < back@.len() - 1 implies #[trigger] pred_step(
                        graph,
                        *result,
                        back@[k].0 as int,
                        back@[k + 1].0 as int,
                    ) by {
                        if k < b0.len() - 1 {
                            assert(back@[k] == b0[k] && back@[k + 1] == b0[k + 1]);
                        } else {
                            assert(back@[k] == cur && back@[k + 1] == prev);
                            assert(result.predecessors@[cur.0 as int] == Some(idx));
                            assert(graph.arc_from(idx as int) == prev.0 as int);
                            assert(pred_step(graph, *result, cur.0 as int, prev.0 as int));
                        }
                    }
                }
                cur = prev;
            },
        }
    }
    let len = back.len();
    let mut path: Vec<NodeId> = Vec::new();
    let mut j: usize = 0;
    while j < len
        invariant
            len == back@.len(),
            j <= len,
            path@.len() == j,
            forall|k: int| 0 <= k < j ==> #[trigger] path@[k] == back@[len - 1 - k],
        decreases len - j,
    {
        path.push(back[len - 1 - j]);
        j += 1;
    }
    proof {
        assert forall|k: int| 0 <= k < path@.len() - 1 implies #[trigger] pred_step(graph, *result, path@[k + 1].0 as int, path@[k].0 as int) by {
            assert(path@[k + 1] == back@[len - 1 - (k + 1)]);
            assert(path@[k] == back@[(len - 1 - (k + 1)) + 1]);
        }
        assert(path@[0] == back@[len - 1]);
        assert(path@[len - 1] == back@[0]);
    }
    path
}


/// The arcs a predecessor path follows: for each node after the first, its
/// predecessor arc.
pub open spec fn pred_arcs(r: RouteResult, path: Seq<NodeId>) -> Seq<int> {
    Seq::new((path.len() - 1) as nat, |k: int| r.predecessors@[path[k + 1].0 as int]->0 as int)
}

/// Along a chain of tight predecessor arcs ending at a reached node, the
/// chain starts at the source, ranks rise, and the arcs form a walk whose
/// cost is the distance of the last node.
proof fn lemma_pred_chain(g: &DiGraph, r: RouteResult, rank: Seq<int>, s: int, path: Seq<NodeId>)
    requires
        g.wf(),
        0 <= s < g.n(),
        r.distances@[s] == Some(0i128),
        pred_forest(g, r, rank),
        forall|v: int| 0 <= v < g.n() ==> #[trigger] pred_tight(g, r, v),
        forall|v: int|
            0 <= v < g.n() ==> (#[trigger] r.predecessors@[v] is None <==> (v == s || r.distances@[v] is None)),
        follows_preds(g, r, path),
        0 <= path.last().0 < g.n(),
        r.distances@[path.last().0 as int] is Some,
    ensures
        path[0].0 == s,
        forall|a: int, b: int| 0 <= a < b < path.len() ==> rank[path[a].0 as int] < rank[path[b].0 as int],
        fwd_walk(g, pred_arcs(r, path), s, path.last().0 as int),
        walk_cost(g, pred_arcs(r, path)) == r.distances@[path.last().0 as int]->0,
    decreases path.len(),
{
    let l = path.len() - 1;
    let last = path.last().0 as int;
    if l == 0 {
        assert(pred_arcs(r, path) =~= Seq::<int>::empty());
        assert(last == s);
    } else {
        let pp = path.drop_last();
        assert(follows_preds(g, r, pp)) by {
            assert forall|k: int| 0 <= k < pp.len() - 1 implies #[trigger] pred_step(g, r, pp[k + 1].0 as int, pp[k].0 as int) by {
                assert(pred_step(g, r, path[k + 1].0 as int, path[k].0 as int));
            }
        }
        let k = l - 1;
        assert(pred_step(g, r, path[k + 1].0 as int, path[k].0 as int));
        assert(k + 1 == l);
        assert(r.predecessors@[last] is Some);
        let i = r.predecessors@[last]->0 as int;
        assert(pred_tight(g, r, last));
        g.lemma_arc(i);
        let prev = pp.last().0 as int;
        assert(g.arc_from(i) == prev);
        lemma_pred_chain(g, r, rank, s, pp);
        assert(pred_arcs(r, path) =~= pred_arcs(r, pp).push(i));
        lemma_walk_extend(g, pred_arcs(r, pp), s, prev, i);
        assert forall|a: int, b: int| 0 <= a < b < path.len() implies rank[path[a].0 as int] < rank[path[b].0 as int] by {
            if b < l {
                assert(path[a] == pp[a] && path[b] == pp[b]);
            } else if a < l - 1 {
                assert(path[a] == pp[a]);
                assert(rank[pp[a].0 as int] < rank[pp[l - 1].0 as int]);
            }
        }
    }
}

/// The path `reconstruct_path` gives for a reached sink, on a result with
/// exact distances from `s`, a forest of tight predecessor arcs and a
/// predecessor at every reached node but the source (as `dijkstra` and
/// `bellman_ford` return), starts at the source, repeats no node, follows
/// forward arcs, and costs exactly the sink's distance.
pub proof fn lemma_reconstructed_path(g: &DiGraph, r: RouteResult, s: int, sink: NodeId, path: Seq<NodeId>)
    requires
        g.wf(),
        0 <= s < g.n(),
        (sink.0 as int) < g.n(),
        shortest_from(g, r, s),
        exists|rank: Seq<int>| pred_forest(g, r, rank),
        forall|v: int| 0 <= v < g.n() ==> #[trigger] pred_tight(g, r, v),
        forall|v: int|
            0 <= v < g.n() ==> (#[trigger] r.predecessors@[v] is None <==> (v == s || r.distances@[v] is None)),
        r.distances@[sink.0 as int] is Some,
        path.last() == sink,
        follows_preds(g, r, path),
    ensures
        path[0].0 == s,
        forall|a: int, b: int| 0 <= a < b < path.len() ==> path[a] != path[b],
        fwd_walk(g, pred_arcs(r, path), s, sink.0 as int),
        walk_cost(g, pred_arcs(r, path)) == r.distances@[sink.0 as int]->0,
{
    let rank = choose|rank: Seq<int>| pred_forest(g, r, rank);
    lemma_pred_chain(g, r, rank, s, path);
}

/// Exact shortest distances are unique: two results that both hold them
/// from `s` agree on every node.
pub proof fn lemma_shortest_unique(g: &DiGraph, r1: RouteResult, r2: RouteResult, s: int)
    requires
        shortest_from(g, r1, s),
        shortest_from(g, r2, s),
    ensures
        forall|v: int| 0 <= v < g.n() ==> #[trigger] r1.distances@[v] == r2.distances@[v],
{
    assert forall|v: int| 0 <= v < g.n() implies #[trigger] r1.distances@[v] == r2.distances@[v] by {
        if r1.distances@[v] is Some {
            let p = choose|p: Seq<int>| fwd_walk(g, p, s, v) && walk_cost(g, p) == r1.distances@[v]->0;
            assert(fwd_walk(g, p, s, v));
        }
        if r2.distances@[v] is Some {
            let p = choose|p: Seq<int>| fwd_walk(g, p, s, v) && walk_cost(g, p) == r2.distances@[v]->0;
            assert(fwd_walk(g, p, s, v));
        }
    }
}

/// Under non-negative forward costs no walk costs less than zero.
proof fn lemma_walk_cost_nonneg(g: &DiGraph, p: Seq<int>, u: int, v: int)
    requires
        forall|i: int| 0 <= i < g.m() && i % 2 == 0 ==> 0 <= #[trigger] g.cost(i),
        fwd_walk(g, p, u, v),
    ensures
        walk_cost(g, p) >= 0,
    decreases p.len(),
{
    if p.len() > 0 {
        lemma_walk_cost_nonneg(g, p.drop_first(), g.arc_to(p[0]), v);
    }
}

/// Bellman-Ford agrees with Dijkstra where both apply: on a graph with
/// non-negative costs Bellman-Ford finds no negative cycle and reports the
/// distances Dijkstra reports.
pub proof fn lemma_bellman_ford_matches_dijkstra(g: &DiGraph, s: NodeId, dij: RouteResult, bf: Option<RouteResult>)
    requires
        nonneg_costs(g, s),
        shortest_from(g, dij, s.0 as int),
        bf is None <==> neg_cycle_reachable(g, s.0 as int),
        bf matches Some(rr) ==> shortest_from(g, rr, s.0 as int),
    ensures
        bf matches Some(rr) && forall|v: int| 0 <= v < g.n() ==> #[trigger] rr.distances@[v] == dij.distances@[v],
{
    if neg_cycle_reachable(g, s.0 as int) {
        let (p, c, w) = choose|p: Seq<int>, c: Seq<int>, w: int|
            #[trigger] fwd_walk(g, p, s.0 as int, w) && #[trigger] fwd_walk(g, c, w, w) && walk_cost(g, c) < 0;
        lemma_walk_cost_nonneg(g, c, w, w);
    }
    let rr = bf->0;
    lemma_shortest_unique(g, rr, dij, s.0 as int);
}

/// The all-pairs distances of row `u` are the exact shortest distances
/// from `u`: they agree with every single-source result from `u`.
pub proof fn lemma_all_pairs_matches_single_source(g: &DiGraph, ap: AllPairsResult, u: int, rr: RouteResult)
    requires
        0 <= u < g.n(),
        all_pairs::square(ap.dist@, g.n()),
        forall|a: int, b: int|
            0 <= a < g.n() && 0 <= b < g.n() && (#[trigger] ap.dist@[a]@[b]) is Some ==> exists|p: Seq<int>|
                fwd_walk(g, p, a, b) && walk_cost(g, p) == ap.dist@[a]@[b]->0,
        forall|a: int, b: int, p: Seq<int>|
            0 <= a < g.n() && 0 <= b < g.n() && #[trigger] fwd_walk(g, p, a, b) ==> ap.dist@[a]@[b] is Some
                && walk_cost(g, p) >= ap.dist@[a]@[b]->0,
        shortest_from(g, rr, u),
    ensures
        forall|v: int| 0 <= v < g.n() ==> #[trigger] ap.dist@[u]@[v] == rr.distances@[v],
{
    assert forall|v: int| 0 <= v < g.n() implies #[trigger] ap.dist@[u]@[v] == rr.distances@[v] by {
        if ap.dist@[u]@[v] is Some {
            let p = choose|p: Seq<int>| fwd_walk(g, p, u, v) && walk_cost(g, p) == ap.dist@[u]@[v]->0;
            assert(fwd_walk(g, p, u, v));
        }
        if rr.distances@[v] is Some {
            let p = choose|p: Seq<int>| fwd_walk(g, p, u, v) && walk_cost(g, p) == rr.distances@[v]->0;
            assert(fwd_walk(g, p, u, v));
        }
    }
}

} // verus!
