//! Network simplex pivots on top of a successive-shortest-paths solution.
use std::collections::VecDeque;
use vstd::prelude::*;
use crate::error::StanchionError;
use crate::graph::DiGraph;
use crate::graph::NodeId;
use crate::graph::residual::{linear_cost, pushed, lemma_linear_cost, rcap, flow_bounded, net_out, is_flow, flow_value, lemma_push, lemma_rcap_range};
use super::cycle_canceling::pushed_before;
use super::optimality::{feasible_potentials, certifies, lemma_potential_certificate};
use crate::sums::{lemma_sum_point};
use crate::sums::{
    count_where, lemma_count_update, lemma_count_le, lemma_count_all, twin, lemma_xor_one,
};
use crate::flow::{MinCostFlowResult, MinCostFlowSolver};
use super::rwalk::{walk_by, cost_by, arc_costs, reach_by, lemma_extend_by, lemma_cost_bound_by};
use super::successive_shortest::{SuccessiveShortest, cost_cap, ssp_outcome};

verus! {

/// Network Simplex algorithm for min-cost flow.
///
/// Starts from the successive-shortest-paths solution and then pivots:
///   1. Compute node potentials along the arcs that carry flow.
///   2. Find an entering arc (most negative reduced cost).
///   3. Augment along the cycle found for the entering arc, when that
///      lowers the cost.
/// It stops when no arc has a negative reduced cost, when no cycle is found,
/// no flow can be moved around it or moving it would not lower the cost, or
/// after `1000 * n` pivots.
pub struct NetworkSimplex;

/// Arcs carrying positive flow.
pub open spec fn pos_flow(f: Seq<i64>) -> spec_fn(int) -> bool {
    |i: int| f[i] > 0
}

/// Node potentials consistent with the current flow: a breadth-first search
/// from `source` along arcs carrying flow gives each reached node the cost
/// of the search path to it; unreached nodes get zero.
fn compute_potentials(graph: &DiGraph, flow: &Vec<i64>, n: usize, source: NodeId) -> (pi: Vec<i128>)
    requires
        graph.wf(),
        n == graph.n(),
        flow@.len() == graph.m(),
        (source.0 as int) < n,
    ensures
        pi@.len() == n,
        pi@[source.0 as int] == 0,
        forall|v: int|
            0 <= v < n && #[trigger] pi@[v] != 0 ==> exists|p: Seq<int>|
                walk_by(graph, pos_flow(flow@), p, source.0 as int, v) && p.len() <= n - 1 && cost_by(arc_costs(graph), p)
                    == pi@[v],
        forall|v: int| 0 <= v < n ==> -((n - 1) * cost_cap()) <= #[trigger] pi@[v] <= (n - 1) * cost_cap(),
{
    let s = source.0 as usize;
    let ghost ok = pos_flow(flow@);
    let ghost cst = arc_costs(graph);
    let ghost kk = cost_cap();
    let mut pi: Vec<i128> = Vec::new();
    let mut visited: Vec<bool> = Vec::new();
    let mut k: usize = 0;
    while k < n
        invariant
            k <= n,
            pi@.len() == k,
            visited@.len() == k,
            forall|w: int| 0 <= w < k ==> #[trigger] pi@[w] == 0,
            forall|w: int| 0 <= w < k ==> !#[trigger] visited@[w],
        decreases n - k,
    {
        pi.push(0);
        visited.push(false);
        k += 1;
    }
    let ghost unv = |b: bool| !b;
    proof {
        lemma_count_all(visited@, unv);
        lemma_count_update(visited@, unv, s as int, true);
    }
    visited.set(s, true);
    let ghost mut wit: Seq<Seq<int>> = Seq::new(n as nat, |v: int| Seq::<int>::empty());
    let mut queue: VecDeque<usize> = VecDeque::new();
    queue.push_back(s);
    proof {
        assert(queue@[0] == s);
        assert(walk_by(graph, ok, Seq::<int>::empty(), s as int, s as int));
        assert(cost_by(cst, Seq::<int>::empty()) == 0);
        lemma_count_le(visited@, unv);
        super::successive_shortest::lemma_costs_capped(graph, ok);
    }
    loop
        invariant
            graph.wf(),
            n == graph.n(),
            flow@.len() == graph.m(),
            s == source.0,
            s < n,
            ok == pos_flow(flow@),
            cst == arc_costs(graph),
            kk == cost_cap(),
            unv == (|b: bool| !b),
            forall|i: int| 0 <= i < graph.m() && ok(i) ==> -cost_cap() <= #[trigger] arc_costs(graph)(i) <= cost_cap(),
            pi@.len() == n,
            visited@.len() == n,
            wit.len() == n,
            visited@[s as int],
            pi@[s as int] == 0,
            count_where(visited@, unv) <= n - 1,
            forall|j: int| 0 <= j < queue@.len() ==> 0 <= #[trigger] queue@[j] < n && visited@[queue@[j] as int],
            forall|v: int| 0 <= v < n && !#[trigger] visited@[v] ==> pi@[v] == 0,
            forall|v: int|
                0 <= v < n && #[trigger] visited@[v] ==> walk_by(graph, ok, wit[v], s as int, v) && cost_by(cst, wit[v])
                    == pi@[v] && wit[v].len() <= n - 1 - count_where(visited@, unv),
        decreases 2 * count_where(visited@, unv) + queue@.len(),
    {
        let ghost q0 = queue@;
        let ghost c0 = count_where(visited@, unv);
        match queue.pop_front() {
            None => {
                break;
            },
            Some(u) => {
                proof {
                    assert(q0[0] == u);
                }
                let a = &graph.adj[u];
                let mut j: usize = 0;
                while j < a.len()
                    invariant
                        graph.wf(),
                        n == graph.n(),
                        flow@.len() == graph.m(),
                        s == source.0,
                        s < n,
                        ok == pos_flow(flow@),
                        cst == arc_costs(graph),
                        kk == cost_cap(),
                        unv == (|b: bool| !b),
                        forall|i: int| 0 <= i < graph.m() && ok(i) ==> -cost_cap() <= #[trigger] arc_costs(graph)(i) <= cost_cap(),
                        pi@.len() == n,
                        visited@.len() == n,
                        wit.len() == n,
                        visited@[s as int],
                        pi@[s as int] == 0,
                        u < n,
                        visited@[u as int],
                        a == &graph.adj[u as int],
                        j <= a.len(),
                        count_where(visited@, unv) <= c0,
                        count_where(visited@, unv) <= n - 1,
                        wit[u as int].len() <= n - 1 - c0,
                        forall|x: int| 0 <= x < queue@.len() ==> 0 <= #[trigger] queue@[x] < n && visited@[queue@[x] as int],
                        2 * count_where(visited@, unv) + queue@.len() <= 2 * c0 + q0.len() - 1,
                        forall|v: int| 0 <= v < n && !#[trigger] visited@[v] ==> pi@[v] == 0,
                        forall|v: int|
                            0 <= v < n && #[trigger] visited@[v] ==> walk_by(graph, ok, wit[v], s as int, v) && cost_by(
                                cst,
                                wit[v],
                            ) == pi@[v] && wit[v].len() <= n - 1 - count_where(visited@, unv),
                    decreases a.len() - j,
                {
                    proof {
                        graph.lemma_adj(u as int, j as int);
                        graph.lemma_arc(a[j as int] as int);
                    }
                    let idx = a[j];
                    let v = graph.edges[idx].to.0 as usize;
                    if !visited[v] && flow[idx] > 0 {
                        proof {
                            lemma_cost_bound_by(graph, ok, cst, wit[u as int], s as int, u as int, kk);
                            lemma_count_update(visited@, unv, v as int, true);
                            lemma_count_le(visited@, unv);
                            assert(wit[u as int].len() * kk <= (n - 1) * kk) by (nonlinear_arith)
                                requires
                                    wit[u as int].len() <= n - 1,
                                    kk >= 0,
                            ;
                            assert((n - 1) * kk <= 0x1_0000_0000 * 0x8000_0000_0000_0000) by (nonlinear_arith)
                                requires
                                    1 <= n <= 0x1_0000_0000,
                                    0 <= kk <= 0x8000_0000_0000_0000,
                            ;
                        }
                        let x = pi[u] + graph.edges[idx].cost.0 as i128;
                        let ghost vis0 = visited@;
                        pi.set(v, x);
                        visited.set(v, true);
                        queue.push_back(v);
                        proof {
                            lemma_extend_by(graph, ok, cst, wit[u as int], s as int, u as int, idx as int);
                            wit = wit.update(v as int, wit[u as int].push(idx as int));
                            assert forall|v2: int|
                                0 <= v2 < n && #[trigger] visited@[v2] implies walk_by(graph, ok, wit[v2], s as int, v2) && cost_by(
                                    cst,
                                    wit[v2],
                                ) == pi@[v2] && wit[v2].len() <= n - 1 - count_where(visited@, unv) by {
                                if v2 != v as int {
                                    assert(vis0[v2]);
                                }
                            }
                            assert forall|x2: int| 0 <= x2 < queue@.len() implies 0 <= #[trigger] queue@[x2] < n && visited@[queue@[x2] as int] by {
                                if x2 < queue@.len() - 1 {
                                    assert(vis0[queue@[x2] as int]);
                                }
                            }
                        }
                    }
                    j += 1;
                }
            },
        }
    }
    proof {
        assert forall|v: int|
            0 <= v < n && #[trigger] pi@[v] != 0 implies exists|p: Seq<int>|
                walk_by(graph, pos_flow(flow@), p, source.0 as int, v) && p.len() <= n - 1 && cost_by(arc_costs(graph), p)
                    == pi@[v] by {
            assert(visited@[v]);
            assert(walk_by(graph, ok, wit[v], s as int, v));
        }
        assert forall|v: int| 0 <= v < n implies -((n - 1) * cost_cap()) <= #[trigger] pi@[v] <= (n - 1) * cost_cap() by {
            if visited@[v] {
                lemma_cost_bound_by(graph, ok, cst, wit[v], s as int, v, kk);
                assert(wit[v].len() * kk <= (n - 1) * kk) by (nonlinear_arith)
                    requires
                        wit[v].len() <= n - 1,
                        kk >= 0,
                ;
            } else {
                assert((n - 1) * kk >= 0) by (nonlinear_arith)
                    requires
                        n >= 1,
                        kk >= 0,
                ;
            }
        }
    }
    pi
}


/// Potentials within the bound that `compute_potentials` guarantees.
pub open spec fn bounded_potentials(g: &DiGraph, pi: Seq<i128>) -> bool {
    &&& pi.len() == g.n()
    &&& forall|v: int| 0 <= v < g.n() ==> -((g.n() - 1) * cost_cap()) <= #[trigger] pi[v] <= (g.n() - 1) * cost_cap()
}

/// Reduced cost of arc `i` under potentials `pi`.
pub open spec fn red_cost(g: &DiGraph, pi: Seq<i128>, i: int) -> int {
    g.cost(i) + pi[g.arc_from(i)] - pi[g.arc_to(i)]
}

/// Reduced cost of an arc.
fn reduced_cost(graph: &DiGraph, pi: &Vec<i128>, idx: usize) -> (r: i128)
    requires
        graph.wf(),
        idx < graph.m(),
        bounded_potentials(graph, pi@),
    ensures
        r == red_cost(graph, pi@, idx as int),
{
    proof {
        graph.lemma_arc(idx as int);
        let n = graph.n();
        assert((n - 1) * cost_cap() <= 0x1_0000_0000 * 0x8000_0000_0000_0000) by (nonlinear_arith)
            requires
                1 <= n <= 0x1_0000_0000,
        ;
    }
    let e = &graph.edges[idx];
    e.cost.0 as i128 + pi[e.from.0 as usize] - pi[e.to.0 as usize]
}

/// Forward arc `i` (even) can enter: it has room and a negative reduced
/// cost, or carries flow and has a positive one.
pub open spec fn can_enter(g: &DiGraph, f: Seq<i64>, pi: Seq<i128>, i: int) -> bool {
    (f[i] < g.cap(i) && red_cost(g, pi, i) < 0) || (f[i] > 0 && red_cost(g, pi, i) > 0)
}

/// Find the non-tree arc with most negative reduced cost.  Returns
/// `(arc, reduced_cost)` — the forward arc, or its partner when flow is to
/// be sent back — or `None` if no arc can enter.
fn most_negative_reduced_cost(graph: &DiGraph, flow: &Vec<i64>, pi: &Vec<i128>) -> (r: Option<(usize, i128)>)
    requires
        graph.wf(),
        flow@.len() == graph.m(),
        bounded_potentials(graph, pi@),
    ensures
        r is None <==> forall|i: int| 0 <= i < graph.m() && i % 2 == 0 ==> !#[trigger] can_enter(graph, flow@, pi@, i),
        r matches Some(x) ==> {
            let (a, c) = x;
            &&& (a as int) < graph.m()
            &&& c < 0
            &&& (a % 2 == 0 && flow@[a as int] < graph.cap(a as int) && c == red_cost(graph, pi@, a as int)) || (a % 2 == 1
                && flow@[a - 1] > 0 && c == -red_cost(graph, pi@, a - 1))
            &&& forall|i: int|
                0 <= i < graph.m() && i % 2 == 0 && #[trigger] can_enter(graph, flow@, pi@, i) ==> c <= if flow@[i]
                    < graph.cap(i) && red_cost(graph, pi@, i) < 0 {
                    red_cost(graph, pi@, i)
                } else {
                    -red_cost(graph, pi@, i)
                }
        },
{
    let m = flow.len();
    let mut best_arc: Option<(usize, i128)> = None;
    let mut best_rc: i128 = 0;
    let mut idx: usize = 0;
    while idx < m
        invariant
            graph.wf(),
            m == graph.m(),
            flow@.len() == m,
            bounded_potentials(graph, pi@),
            idx % 2 == 0,
            idx <= m,
            best_arc is None <==> best_rc == 0,
            best_rc <= 0,
            best_arc is None ==> forall|i: int| 0 <= i < idx && i % 2 == 0 ==> !#[trigger] can_enter(graph, flow@, pi@, i),
            best_arc matches Some(x) ==> {
                let (a, c) = x;
                &&& (a as int) < m
                &&& c == best_rc
                &&& c < 0
                &&& (a % 2 == 0 && flow@[a as int] < graph.cap(a as int) && c == red_cost(graph, pi@, a as int)) || (a % 2
                    == 1 && flow@[a - 1] > 0 && c == -red_cost(graph, pi@, a - 1))
            },
            forall|i: int|
                0 <= i < idx && i % 2 == 0 && #[trigger] can_enter(graph, flow@, pi@, i) ==> best_rc <= if flow@[i]
                    < graph.cap(i) && red_cost(graph, pi@, i) < 0 {
                    red_cost(graph, pi@, i)
                } else {
                    -red_cost(graph, pi@, i)
                },
        decreases m - idx,
    {
        proof {
            graph.lemma_arc(idx as int);
            lemma_xor_one(idx);
        }
        let rc = reduced_cost(graph, pi, idx);
        let cap = graph.edges[idx].capacity.0;
        let f = flow[idx];
        if f < cap && rc < best_rc {
            best_rc = rc;
            best_arc = Some((idx, rc));
        }
        let rc_back = -rc;
        if f > 0 && rc_back < best_rc {
            best_rc = rc_back;
            best_arc = Some((idx ^ 1, rc_back));
        }
        idx += 2;
    }
    proof {
        if best_arc is Some {
            let (a, c) = best_arc->0;
            if a % 2 == 0 {
                assert(can_enter(graph, flow@, pi@, a as int));
            } else {
                assert(can_enter(graph, flow@, pi@, a - 1));
            }
        }
    }
    best_arc
}


/// The search parent of `v` is an arc of the flow tree into `v` (it carries
/// flow one way or the other), from a node reached earlier by the same
/// search.
pub open spec fn search_parent(g: &DiGraph, f: Seq<i64>, vis: Seq<bool>, par: Seq<Option<(usize, bool)>>, rank: Seq<int>, v: int) -> bool {
    match par[v] {
        Some(x) => {
            &&& x.1
            &&& (x.0 as int) < g.m()
            &&& g.arc_to(x.0 as int) == v
            &&& f[x.0 as int] != 0
            &&& vis[g.arc_from(x.0 as int)]
            &&& 0 <= rank[g.arc_from(x.0 as int)] < rank[v]
        },
        None => false,
    }
}

/// A breadth-first search from `root` along arcs carrying flow: every
/// reached node other than the root has a search parent.
pub open spec fn search_ok(g: &DiGraph, f: Seq<i64>, vis: Seq<bool>, par: Seq<Option<(usize, bool)>>, rank: Seq<int>, root: int) -> bool {
    &&& vis.len() == g.n()
    &&& par.len() == g.n()
    &&& rank.len() == g.n()
    &&& vis[root]
    &&& forall|v: int| 0 <= v < g.n() ==> #[trigger] rank[v] >= 0
    &&& forall|v: int| 0 <= v < g.n() && v != root && #[trigger] vis[v] ==> search_parent(g, f, vis, par, rank, v)
}

/// Arcs of the flow tree: arcs that carry flow one way or the other.
pub open spec fn flow_arc(f: Seq<i64>) -> spec_fn(int) -> bool {
    |i: int| f[i] != 0
}

/// Every node a search from `root` has reached can be reached from `root`
/// along arcs that carry flow.
pub open spec fn reach_ok(g: &DiGraph, f: Seq<i64>, vis: Seq<bool>, root: int) -> bool {
    forall|w: int| 0 <= w < g.n() && #[trigger] vis[w] ==> reach_by(g, flow_arc(f), root, w)
}

/// Every arc carrying flow out of `w` leads to a reached node.
pub open spec fn closed_at(g: &DiGraph, f: Seq<i64>, vis: Seq<bool>, w: int) -> bool {
    forall|i: int| 0 <= i < g.m() && g.arc_from(i) == w && f[i] != 0 ==> #[trigger] vis[g.arc_to(i)]
}

/// The reached nodes are closed under arcs carrying flow, but for those
/// still queued and for `u`, of whose arcs the first `j` are handled.
pub open spec fn closed_but(g: &DiGraph, f: Seq<i64>, vis: Seq<bool>, q: Seq<usize>, u: int, j: int) -> bool {
    &&& forall|w: int| 0 <= w < g.n() && #[trigger] vis[w] ==> closed_at(g, f, vis, w) || q.contains(w as usize) || w == u
    &&& forall|k: int| 0 <= k < j ==> f[g.adj[u][k] as int] != 0 ==> vis[g.arc_to(#[trigger] g.adj[u][k] as int)]
}

/// Nodes reached by both searches are only a shared root.
pub open spec fn apart(g: &DiGraph, vf: Seq<bool>, vb: Seq<bool>, a: int, b: int) -> bool {
    forall|w: int| 0 <= w < g.n() && #[trigger] vf[w] && vb[w] ==> w == a && w == b
}

/// Some node other than a shared start can be reached along arcs carrying
/// flow both from `a` and from `b`: the searches from `a` and `b` meet.
pub open spec fn searches_meet(g: &DiGraph, f: Seq<i64>, a: int, b: int) -> bool {
    exists|v: int|
        0 <= v < g.n() && #[trigger] reach_by(g, flow_arc(f), a, v) && reach_by(g, flow_arc(f), b, v) && !(v == a
            && v == b)
}

/// `c` lists distinct arcs, each entering the node the next one leaves and
/// the last entering the node the first leaves: a closed walk.
pub open spec fn closed_walk(g: &DiGraph, c: Seq<(usize, bool)>) -> bool {
    &&& c.len() >= 1
    &&& forall|k: int| 0 <= k < c.len() ==> ((#[trigger] c[k]).0 as int) < g.m()
    &&& forall|k: int| 0 <= k < c.len() - 1 ==> g.arc_to((#[trigger] c[k]).0 as int) == g.arc_from(c[k + 1].0 as int)
    &&& g.arc_to(c[c.len() - 1].0 as int) == g.arc_from(c[0].0 as int)
    &&& forall|a: int, b: int| 0 <= a < b < c.len() ==> (#[trigger] c[a]).0 != (#[trigger] c[b]).0
}

/// Taking the first queued node off the queue.
proof fn lemma_closed_pop(g: &DiGraph, f: Seq<i64>, vis: Seq<bool>, q0: Seq<usize>, q: Seq<usize>, u: usize)
    requires
        closed_but(g, f, vis, q0, -1, 0),
        q0.len() > 0,
        q0[0] == u,
        q == q0.subrange(1, q0.len() as int),
    ensures
        closed_but(g, f, vis, q, u as int, 0),
{
    assert forall|w: int| 0 <= w < g.n() && #[trigger] vis[w] implies closed_at(g, f, vis, w) || q.contains(w as usize)
        || w == u by {
        if !closed_at(g, f, vis, w) && q0.contains(w as usize) {
            let k = choose|k: int| 0 <= k < q0.len() && q0[k] == w as usize;
            if k > 0 {
                assert(q[k - 1] == q0[k]);
            }
        }
    }
}

/// Reaching a new node `v` and queueing it.
proof fn lemma_closed_visit(
    g: &DiGraph,
    f: Seq<i64>,
    vis0: Seq<bool>,
    q0: Seq<usize>,
    u: int,
    j: int,
    v: usize,
    vis: Seq<bool>,
    q: Seq<usize>,
)
    requires
        g.wf(),
        closed_but(g, f, vis0, q0, u, j),
        vis0.len() == g.n(),
        j <= 0 || (0 <= u < g.n() && j <= g.adj[u].len()),
        (v as int) < vis0.len(),
        vis == vis0.update(v as int, true),
        q == q0.push(v),
    ensures
        closed_but(g, f, vis, q, u, j),
{
    assert forall|w: int| 0 <= w < g.n() && #[trigger] vis[w] implies closed_at(g, f, vis, w) || q.contains(w as usize)
        || w == u by {
        if w == v as int {
            assert(q[q.len() - 1] == v);
        } else {
            assert(vis0[w]);
            if closed_at(g, f, vis0, w) {
                assert forall|i: int| 0 <= i < g.m() && g.arc_from(i) == w && f[i] != 0 implies #[trigger] vis[g.arc_to(
                    i,
                )] by {
                    g.lemma_arc(i);
                    assert(vis0[g.arc_to(i)]);
                }
            } else if q0.contains(w as usize) {
                let k = choose|k: int| 0 <= k < q0.len() && q0[k] == w as usize;
                assert(q[k] == q0[k]);
            }
        }
    }
    assert forall|k: int| 0 <= k < j implies f[g.adj[u][k] as int] != 0 ==> vis[g.arc_to(#[trigger] g.adj[u][k] as int)] by {
        g.lemma_adj(u, k);
        g.lemma_arc(g.adj[u][k] as int);
        if f[g.adj[u][k] as int] != 0 {
            assert(vis0[g.arc_to(g.adj[u][k] as int)]);
        }
    }
}

/// Once every arc of `u` is handled, `u` is closed.
proof fn lemma_closed_done(g: &DiGraph, f: Seq<i64>, vis: Seq<bool>, q: Seq<usize>, u: int)
    requires
        g.wf(),
        0 <= u < g.n(),
        closed_but(g, f, vis, q, u, g.adj[u].len() as int),
    ensures
        closed_but(g, f, vis, q, -1, 0),
{
    assert(closed_at(g, f, vis, u)) by {
        assert forall|i: int| 0 <= i < g.m() && g.arc_from(i) == u && f[i] != 0 implies #[trigger] vis[g.arc_to(i)] by {
            g.lemma_arc(i);
            let k = choose|k: int| 0 <= k < g.adj[u]@.len() && g.adj[u]@[k] == i as usize;
            assert(g.adj[u][k] as int == i);
        }
    }
}

/// A search that is closed everywhere has reached every node that can be
/// reached from a reached node along arcs carrying flow.
proof fn lemma_closed_reach(g: &DiGraph, f: Seq<i64>, vis: Seq<bool>, p: Seq<int>, a: int, v: int)
    requires
        g.wf(),
        vis.len() == g.n(),
        closed_but(g, f, vis, Seq::<usize>::empty(), -1, 0),
        0 <= a < g.n(),
        vis[a],
        walk_by(g, flow_arc(f), p, a, v),
    ensures
        vis[v],
    decreases p.len(),
{
    if p.len() > 0 {
        g.lemma_arc(p[0]);
        assert(closed_at(g, f, vis, a));
        assert(vis[g.arc_to(p[0])]);
        lemma_closed_reach(g, f, vis, p.drop_first(), g.arc_to(p[0]), v);
    }
}

/// Handling arc `j` of `u`: when it carries flow, its head is reached.
proof fn lemma_closed_step(g: &DiGraph, f: Seq<i64>, vis: Seq<bool>, q: Seq<usize>, u: int, j: int)
    requires
        closed_but(g, f, vis, q, u, j),
        f[g.adj[u][j] as int] != 0 ==> vis[g.arc_to(g.adj[u][j] as int)],
    ensures
        closed_but(g, f, vis, q, u, j + 1),
{
    assert forall|k: int| 0 <= k < j + 1 implies f[g.adj[u][k] as int] != 0 ==> vis[g.arc_to(
        #[trigger] g.adj[u][k] as int,
    )] by {
        if k < j {
            assert(f[g.adj[u][k] as int] != 0 ==> vis[g.arc_to(g.adj[u][k] as int)]);
        }
    }
}

/// Two searches that ran to the end without meeting: no node other than a
/// shared start is reachable from both roots.
proof fn lemma_no_meeting(g: &DiGraph, f: Seq<i64>, vf: Seq<bool>, vb: Seq<bool>, a: int, b: int)
    requires
        g.wf(),
        vf.len() == g.n(),
        vb.len() == g.n(),
        0 <= a < g.n(),
        0 <= b < g.n(),
        vf[a],
        vb[b],
        closed_but(g, f, vf, Seq::<usize>::empty(), -1, 0),
        closed_but(g, f, vb, Seq::<usize>::empty(), -1, 0),
        apart(g, vf, vb, a, b),
    ensures
        !searches_meet(g, f, a, b),
{
    if searches_meet(g, f, a, b) {
        let ok = flow_arc(f);
        let v = choose|v: int|
            0 <= v < g.n() && #[trigger] reach_by(g, ok, a, v) && reach_by(g, ok, b, v) && !(v == a && v == b);
        let p = choose|p: Seq<int>| #[trigger] walk_by(g, ok, p, a, v);
        let p2 = choose|p: Seq<int>| #[trigger] walk_by(g, ok, p, b, v);
        lemma_closed_reach(g, f, vf, p, a, v);
        lemma_closed_reach(g, f, vb, p2, b, v);
    }
}

/// Reaching `v` from a reached `u` along an arc carrying flow.
proof fn lemma_reach_visit(g: &DiGraph, f: Seq<i64>, vis0: Seq<bool>, root: int, idx: int, v: int, vis: Seq<bool>)
    requires
        g.wf(),
        vis0.len() == g.n(),
        reach_ok(g, f, vis0, root),
        0 <= idx < g.m(),
        f[idx] != 0,
        vis0[g.arc_from(idx)],
        g.arc_to(idx) == v,
        vis == vis0.update(v, true),
    ensures
        reach_ok(g, f, vis, root),
{
    g.lemma_arc(idx);
    let ok = flow_arc(f);
    assert(reach_by(g, ok, root, g.arc_from(idx)));
    let p = choose|p: Seq<int>| #[trigger] walk_by(g, ok, p, root, g.arc_from(idx));
    lemma_extend_by(g, ok, arc_costs(g), p, root, g.arc_from(idx), idx);
    assert forall|w: int| 0 <= w < g.n() && #[trigger] vis[w] implies reach_by(g, ok, root, w) by {
        if w == v {
            assert(walk_by(g, ok, p.push(idx), root, v));
        } else {
            assert(vis0[w]);
        }
    }
}

/// The arcs `find_cycle` lays out — the entering arc, the arcs the search
/// from the head took (in the order that leads from the head to the meeting
/// node), then the partners of the arcs the search from the tail took (from
/// the meeting node back to the tail) — form a closed walk of distinct arcs.
proof fn lemma_cycle_shape(
    g: &DiGraph,
    f: Seq<i64>,
    c: Seq<(usize, bool)>,
    e: int,
    meet: int,
    second: Seq<usize>,
    cb: Seq<int>,
    cf: Seq<int>,
    vf: Seq<bool>,
    vb: Seq<bool>,
    rb: Seq<int>,
    rf: Seq<int>,
)
    requires
        g.wf(),
        0 <= e < g.m(),
        vf.len() == g.n(),
        vb.len() == g.n(),
        forall|w: int|
            0 <= w < g.n() && #[trigger] vf[w] && #[trigger] vb[w] ==> w == meet || (w == g.arc_from(e) && w == g.arc_to(e)),
        cb.len() == second.len() + 1,
        cb[0] == meet,
        cb[second.len() as int] == g.arc_to(e),
        forall|x: int|
            0 <= x < second.len() ==> (#[trigger] second[x] as int) < g.m() && f[second[x] as int] != 0 && g.arc_to(
                second[x] as int,
            ) == cb[x] && g.arc_from(second[x] as int) == cb[x + 1],
        forall|x: int| 0 <= x < cb.len() ==> 0 <= #[trigger] cb[x] < g.n() && vb[cb[x]],
        forall|x: int| 0 <= x < cb.len() - 1 ==> #[trigger] cb[x] != g.arc_to(e),
        forall|x: int, y: int| 0 <= x < y < cb.len() ==> rb[#[trigger] cb[y]] < rb[#[trigger] cb[x]],
        cf.len() >= 1,
        cf[0] == meet,
        cf[cf.len() - 1] == g.arc_from(e),
        forall|x: int| 0 <= x < cf.len() ==> 0 <= #[trigger] cf[x] < g.n() && vf[cf[x]],
        forall|x: int| 0 <= x < cf.len() - 1 ==> #[trigger] cf[x] != g.arc_from(e),
        forall|x: int, y: int| 0 <= x < y < cf.len() ==> rf[#[trigger] cf[y]] < rf[#[trigger] cf[x]],
        c.len() == second.len() + cf.len(),
        c[0] == (e as usize, e % 2 == 0),
        forall|x: int|
            1 <= x <= second.len() ==> #[trigger] c[x] == (second[second.len() - x] as usize, second[second.len() - x] % 2
                == 0),
        forall|z: int|
            0 <= z < cf.len() - 1 ==> (#[trigger] c[second.len() + 1 + z]).0 < g.m() && f[c[second.len() + 1 + z].0 as int]
                != 0 && c[second.len() + 1 + z].1 == (c[second.len() + 1 + z].0 % 2 == 0) && g.arc_from(
                c[second.len() + 1 + z].0 as int,
            ) == cf[z] && g.arc_to(c[second.len() + 1 + z].0 as int) == cf[z + 1],
    ensures
        forall|k: int| 0 <= k < c.len() ==> (#[trigger] c[k]).0 < g.m() && c[k].1 == (c[k].0 % 2 == 0),
        c[0].0 == e,
        closed_walk(g, c),
        forall|k: int| 1 <= k < c.len() ==> f[(#[trigger] c[k]).0 as int] != 0,
{
    let l2 = second.len() as int;
    let base = l2 + 1;
    // node left by position k of the walk
    let ns = |k: int| if k == 0 { g.arc_from(e) } else if k <= l2 { cb[l2 + 1 - k] } else { cf[k - base] };
    assert forall|k: int| 0 <= k < c.len() implies (#[trigger] c[k]).0 < g.m() && c[k].1 == (c[k].0 % 2 == 0)
        && g.arc_from(c[k].0 as int) == ns(k) && g.arc_to(c[k].0 as int) == ns(k + 1) && (k >= 1 ==> f[c[k].0 as int]
        != 0) by {
        if k == 0 {
            if l2 == 0 {
                assert(ns(1) == cf[0]);
            }
        } else if k <= l2 {
            let i = l2 - k;
            assert(c[k] == (second[i] as usize, second[i] % 2 == 0));
            assert((second[i] as int) < g.m());
            if k == l2 {
                assert(ns(k + 1) == cf[0]);
            }
        } else {
            let z = k - base;
            assert(c[base + z] == c[k]);
        }
    }
    assert(ns(c.len() as int) == g.arc_from(e));
    assert forall|k: int| 0 <= k < c.len() - 1 implies g.arc_to((#[trigger] c[k]).0 as int) == g.arc_from(c[k + 1].0 as int) by {
        assert(g.arc_to(c[k].0 as int) == ns(k + 1));
        assert(g.arc_from(c[k + 1].0 as int) == ns(k + 1));
    }
    assert(g.arc_to(c[c.len() - 1].0 as int) == ns(c.len() as int));
    assert(g.arc_from(c[0].0 as int) == ns(0));
    assert forall|a: int, b: int| 0 <= a < b < c.len() implies (#[trigger] c[a]).0 != (#[trigger] c[b]).0 by {
        if c[a].0 == c[b].0 {
            let arc = c[a].0 as int;
            assert(g.arc_from(arc) == ns(a) && g.arc_to(arc) == ns(a + 1));
            assert(g.arc_from(arc) == ns(b) && g.arc_to(arc) == ns(b + 1));
            if a == 0 {
                if b <= l2 {
                    assert(cb[l2 - b] != g.arc_to(e));
                } else {
                    assert(cf[b - base] != g.arc_from(e));
                }
            } else if b <= l2 {
                // two arcs of the search from the head enter different nodes
                assert(rb[cb[l2 - b]] < rb[cb[l2 - a]]);
            } else if a >= base {
                assert(rf[cf[b - base]] < rf[cf[a - base]]);
            } else {
                // an arc of each part: both its ends were reached by both searches
                let i = l2 - a;
                let z = b - base;
                assert(cb[i] == cf[z + 1]);
                assert(cb[i + 1] == cf[z]);
                assert(vf[cb[i]] && vb[cb[i]]);
                assert(vf[cb[i + 1]] && vb[cb[i + 1]]);
                assert(cb[i] != g.arc_to(e));
                assert(cf[z] != g.arc_from(e));
                assert(rb[cb[i + 1]] < rb[cb[i]]);
            }
        }
    }
}

/// Find the cycle formed by adding `entering_arc` to the tree implied by
/// the arcs that carry flow.  Returns `Vec<(arc_idx, forward)>`: the arcs
/// of the cycle in order, oriented along the entering arc, each flagged
/// with whether it is a forward arc (a back-arc stands for moving flow
/// against its partner).
///
/// Searches breadth-first from both endpoints of the entering arc, in turn,
/// along the arcs of the flow tree; the cycle is the entering arc, the path
/// from its head to the meeting node, and the path from the meeting node
/// back to its tail.  Returns an empty vec when the searches do not meet.
#[verifier::rlimit(50)]
fn find_cycle(graph: &DiGraph, flow: &Vec<i64>, entering_arc: usize, n: usize) -> (cycle: Vec<(usize, bool)>)
    requires
        graph.wf(),
        n == graph.n(),
        flow@.len() == graph.m(),
        antisymmetric(graph, flow@),
        entering_arc < graph.m(),
    ensures
        forall|k: int| 0 <= k < cycle@.len() ==> (#[trigger] cycle@[k]).0 < graph.m() && cycle@[k].1 == (cycle@[k].0 % 2
            == 0),
        cycle@.len() > 0 <==> searches_meet(
            graph,
            flow@,
            graph.arc_from(entering_arc as int),
            graph.arc_to(entering_arc as int),
        ),
        cycle@.len() > 0 ==> cycle@[0].0 == entering_arc && closed_walk(graph, cycle@) && forall|k: int|
            1 <= k < cycle@.len() ==> flow@[(#[trigger] cycle@[k]).0 as int] != 0,
{
    proof {
        graph.lemma_arc(entering_arc as int);
    }
    let from = graph.edges[entering_arc].from.0 as usize;
    let to = graph.edges[entering_arc].to.0 as usize;
    let ghost f = flow@;
    let ghost unv = |b: bool| !b;
    let mut parent_fwd: Vec<Option<(usize, bool)>> = Vec::new();
    let mut parent_bwd: Vec<Option<(usize, bool)>> = Vec::new();
    let mut vis_fwd: Vec<bool> = Vec::new();
    let mut vis_bwd: Vec<bool> = Vec::new();
    let mut k: usize = 0;
    while k < n
        invariant
            k <= n,
            parent_fwd@.len() == k,
            parent_bwd@.len() == k,
            vis_fwd@.len() == k,
            vis_bwd@.len() == k,
            forall|w: int| 0 <= w < k ==> !#[trigger] vis_fwd@[w],
            forall|w: int| 0 <= w < k ==> !#[trigger] vis_bwd@[w],
        decreases n - k,
    {
        parent_fwd.push(None);
        parent_bwd.push(None);
        vis_fwd.push(false);
        vis_bwd.push(false);
        k += 1;
    }
    proof {
        lemma_count_all(vis_fwd@, unv);
        lemma_count_all(vis_bwd@, unv);
        lemma_count_update(vis_fwd@, unv, from as int, true);
        lemma_count_update(vis_bwd@, unv, to as int, true);
    }
    vis_fwd.set(from, true);
    vis_bwd.set(to, true);
    let ghost mut rank_f: Seq<int> = Seq::new(n as nat, |v: int| 0int);
    let ghost mut rank_b: Seq<int> = Seq::new(n as nat, |v: int| 0int);
    let mut qf: VecDeque<usize> = VecDeque::new();
    let mut qb: VecDeque<usize> = VecDeque::new();
    qf.push_back(from);
    qb.push_back(to);
    let mut meet: usize = n;
    proof {
        assert(qf@[0] == from);
        assert(qb@[0] == to);
        lemma_count_le(vis_fwd@, unv);
        lemma_count_le(vis_bwd@, unv);
        let ok = flow_arc(f);
        assert(walk_by(graph, ok, Seq::<int>::empty(), from as int, from as int));
        assert(walk_by(graph, ok, Seq::<int>::empty(), to as int, to as int));
        assert(reach_ok(graph, f, vis_fwd@, from as int));
        assert(reach_ok(graph, f, vis_bwd@, to as int));
        assert(qf@.contains(from));
        assert(qb@.contains(to));
        assert(closed_but(graph, f, vis_fwd@, qf@, -1, 0));
        assert(closed_but(graph, f, vis_bwd@, qb@, -1, 0));
        assert(apart(graph, vis_fwd@, vis_bwd@, from as int, to as int));
    }
    loop
        invariant_except_break
            forall|j: int| 0 <= j < qf@.len() ==> 0 <= #[trigger] qf@[j] < n && vis_fwd@[qf@[j] as int],
            forall|j: int| 0 <= j < qb@.len() ==> 0 <= #[trigger] qb@[j] < n && vis_bwd@[qb@[j] as int],
            count_where(vis_fwd@, unv) <= n,
            count_where(vis_bwd@, unv) <= n,
            meet == n,
            closed_but(graph, f, vis_fwd@, qf@, -1, 0),
            closed_but(graph, f, vis_bwd@, qb@, -1, 0),
            apart(graph, vis_fwd@, vis_bwd@, from as int, to as int),
        invariant
            graph.wf(),
            n == graph.n(),
            f == flow@,
            f.len() == graph.m(),
            from < n,
            to < n,
            unv == (|b: bool| !b),
            search_ok(graph, f, vis_fwd@, parent_fwd@, rank_f, from as int),
            search_ok(graph, f, vis_bwd@, parent_bwd@, rank_b, to as int),
            reach_ok(graph, f, vis_fwd@, from as int),
            reach_ok(graph, f, vis_bwd@, to as int),
            from as int == graph.arc_from(entering_arc as int),
            to as int == graph.arc_to(entering_arc as int),
        ensures
            meet < n,
            vis_fwd@[meet as int],
            vis_bwd@[meet as int],
            meet != from || meet != to,
            forall|w: int| 0 <= w < n && #[trigger] vis_fwd@[w] && #[trigger] vis_bwd@[w] ==> w == meet || (w == from && w == to),
            search_ok(graph, f, vis_fwd@, parent_fwd@, rank_f, from as int),
            search_ok(graph, f, vis_bwd@, parent_bwd@, rank_b, to as int),
            reach_ok(graph, f, vis_fwd@, from as int),
            reach_ok(graph, f, vis_bwd@, to as int),
        decreases 2 * (count_where(vis_fwd@, unv) + count_where(vis_bwd@, unv)) + qf@.len() + qb@.len(),
    {
        let ghost m0 = 2 * (count_where(vis_fwd@, unv) + count_where(vis_bwd@, unv)) + qf@.len() + qb@.len();
        let ghost popped = qf@.len() > 0 || qb@.len() > 0;
        // Step the search from `from`.
        let ghost qf0 = qf@;
        match qf.pop_front() {
            Some(u) => {
                proof {
                    assert(qf0[0] == u);
                    lemma_closed_pop(graph, f, vis_fwd@, qf0, qf@, u);
                }
                let ghost c0 = count_where(vis_fwd@, unv);
                let ghost rest = qf@.len() + qb@.len();
                let a = &graph.adj[u];
                let mut j: usize = 0;
                while j < a.len()
                    invariant_except_break
                        meet == n,
                        forall|x: int| 0 <= x < qf@.len() ==> 0 <= #[trigger] qf@[x] < n && vis_fwd@[qf@[x] as int],
                        count_where(vis_fwd@, unv) <= c0,
                        2 * count_where(vis_fwd@, unv) + qf@.len() + qb@.len() <= 2 * c0 + rest,
                        closed_but(graph, f, vis_fwd@, qf@, u as int, j as int),
                        apart(graph, vis_fwd@, vis_bwd@, from as int, to as int),
                    invariant
                        reach_ok(graph, f, vis_fwd@, from as int),
                        reach_ok(graph, f, vis_bwd@, to as int),
                        closed_but(graph, f, vis_bwd@, qb@, -1, 0),
                        graph.wf(),
                        n == graph.n(),
                        f == flow@,
                        f.len() == graph.m(),
                        from < n,
                        to < n,
                        unv == (|b: bool| !b),
                        u < n,
                        vis_fwd@[u as int],
                        a == &graph.adj[u as int],
                        j <= a.len(),
                        search_ok(graph, f, vis_fwd@, parent_fwd@, rank_f, from as int),
                        search_ok(graph, f, vis_bwd@, parent_bwd@, rank_b, to as int),
                        forall|x: int| 0 <= x < qb@.len() ==> 0 <= #[trigger] qb@[x] < n && vis_bwd@[qb@[x] as int],
                        count_where(vis_bwd@, unv) <= n,
                        c0 <= n,
                    ensures
                        meet <= n,
                        meet < n ==> vis_fwd@[meet as int] && vis_bwd@[meet as int],
                        meet == n ==> forall|x: int| 0 <= x < qf@.len() ==> 0 <= #[trigger] qf@[x] < n && vis_fwd@[qf@[x] as int],
                        meet == n ==> 2 * count_where(vis_fwd@, unv) + qf@.len() + qb@.len() <= 2 * c0 + rest,
                        meet == n ==> count_where(vis_fwd@, unv) <= c0,
                        meet == n ==> closed_but(graph, f, vis_fwd@, qf@, u as int, a.len() as int),
                        meet == n ==> apart(graph, vis_fwd@, vis_bwd@, from as int, to as int),
                        meet < n ==> meet != from,
                        meet < n ==> (forall|w: int| 0 <= w < n && #[trigger] vis_fwd@[w] && #[trigger] vis_bwd@[w] ==> w == meet || (w == from && w == to)),
                        reach_ok(graph, f, vis_fwd@, from as int),
                        reach_ok(graph, f, vis_bwd@, to as int),
                        closed_but(graph, f, vis_bwd@, qb@, -1, 0),
                        search_ok(graph, f, vis_fwd@, parent_fwd@, rank_f, from as int),
                        search_ok(graph, f, vis_bwd@, parent_bwd@, rank_b, to as int),
                    decreases a.len() - j,
                {
                    proof {
                        graph.lemma_adj(u as int, j as int);
                        graph.lemma_arc(a[j as int] as int);
                        lemma_xor_one(a[j as int]);
                    }
                    let idx = a[j];
                    let v = graph.edges[idx].to.0 as usize;
                    // Traverse the arc if it carries flow.
                    if !vis_fwd[v] && flow[idx] != 0 {
                        proof {
                            lemma_count_update(vis_fwd@, unv, v as int, true);
                            lemma_count_le(vis_fwd@, unv);
                        }
                        let ghost vis0 = vis_fwd@;
                        let ghost par0 = parent_fwd@;
                        let ghost rk0 = rank_f;
                        vis_fwd.set(v, true);
                        parent_fwd.set(v, Some((idx, true)));
                        proof {
                            assert(u != v);
                            assert(graph.arc_from(idx as int) == u);
                            rank_f = rank_f.update(v as int, rank_f[u as int] + 1);
                            assert(search_parent(graph, f, vis_fwd@, parent_fwd@, rank_f, v as int));
                            assert forall|w: int|
                                0 <= w < n && w != from && #[trigger] vis_fwd@[w] implies search_parent(graph, f, vis_fwd@, parent_fwd@, rank_f, w) by {
                                if w != v as int {
                                    assert(vis0[w]);
                                    assert(search_parent(graph, f, vis0, par0, rk0, w));
                                    let x = par0[w]->0;
                                    graph.lemma_arc(x.0 as int);
                                    assert(graph.arc_from(x.0 as int) != v as int);
                                    assert(parent_fwd@[w] == par0[w]);
                                    assert(rank_f[w] == rk0[w]);
                                    assert(rank_f[graph.arc_from(x.0 as int)] == rk0[graph.arc_from(x.0 as int)]);
                                    assert(vis_fwd@[graph.arc_from(x.0 as int)]);
                                }
                            }
                        }
                        proof {
                            lemma_reach_visit(graph, f, vis0, from as int, idx as int, v as int, vis_fwd@);
                        }
                        if vis_bwd[v] {
                            meet = v;
                            proof {
                                assert forall|w: int| 0 <= w < n && #[trigger] vis_fwd@[w] && #[trigger] vis_bwd@[w] implies w
                                    == meet || (w == from && w == to) by {
                                    if w != v as int {
                                        assert(vis0[w]);
                                    }
                                }
                            }
                            break;
                        }
                        let ghost q0 = qf@;
                        qf.push_back(v);
                        proof {
                            assert(apart(graph, vis_fwd@, vis_bwd@, from as int, to as int));
                            lemma_closed_visit(graph, f, vis0, q0, u as int, j as int, v, vis_fwd@, qf@);
                        }
                        proof {
                            assert forall|x: int| 0 <= x < qf@.len() implies 0 <= #[trigger] qf@[x] < n && vis_fwd@[qf@[x] as int] by {
                                if x < qf@.len() - 1 {
                                    assert(vis0[qf@[x] as int]);
                                }
                            }
                        }
                    }
                    proof {
                        lemma_closed_step(graph, f, vis_fwd@, qf@, u as int, j as int);
                    }
                    j += 1;
                }
                proof {
                    if meet == n {
                        lemma_closed_done(graph, f, vis_fwd@, qf@, u as int);
                    }
                }
            },
            None => {},
        }
        if meet < n {
            break;
        }
        // Step the search from `to`.
        let ghost qb0 = qb@;
        match qb.pop_front() {
            Some(u) => {
                proof {
                    assert(qb0[0] == u);
                    lemma_closed_pop(graph, f, vis_bwd@, qb0, qb@, u);
                }
                let ghost c0 = count_where(vis_bwd@, unv);
                let ghost rest = qf@.len() + qb@.len();
                let a = &graph.adj[u];
                let mut j: usize = 0;
                while j < a.len()
                    invariant_except_break
                        meet == n,
                        forall|x: int| 0 <= x < qb@.len() ==> 0 <= #[trigger] qb@[x] < n && vis_bwd@[qb@[x] as int],
                        count_where(vis_bwd@, unv) <= c0,
                        2 * count_where(vis_bwd@, unv) + qf@.len() + qb@.len() <= 2 * c0 + rest,
                        closed_but(graph, f, vis_bwd@, qb@, u as int, j as int),
                        apart(graph, vis_fwd@, vis_bwd@, from as int, to as int),
                    invariant
                        reach_ok(graph, f, vis_fwd@, from as int),
                        reach_ok(graph, f, vis_bwd@, to as int),
                        closed_but(graph, f, vis_fwd@, qf@, -1, 0),
                        graph.wf(),
                        n == graph.n(),
                        f == flow@,
                        f.len() == graph.m(),
                        from < n,
                        to < n,
                        unv == (|b: bool| !b),
                        u < n,
                        vis_bwd@[u as int],
                        a == &graph.adj[u as int],
                        j <= a.len(),
                        search_ok(graph, f, vis_fwd@, parent_fwd@, rank_f, from as int),
                        search_ok(graph, f, vis_bwd@, parent_bwd@, rank_b, to as int),
                        forall|x: int| 0 <= x < qf@.len() ==> 0 <= #[trigger] qf@[x] < n && vis_fwd@[qf@[x] as int],
                        count_where(vis_fwd@, unv) <= n,
                        c0 <= n,
                    ensures
                        meet <= n,
                        meet < n ==> vis_fwd@[meet as int] && vis_bwd@[meet as int],
                        meet == n ==> forall|x: int| 0 <= x < qb@.len() ==> 0 <= #[trigger] qb@[x] < n && vis_bwd@[qb@[x] as int],
                        meet == n ==> 2 * count_where(vis_bwd@, unv) + qf@.len() + qb@.len() <= 2 * c0 + rest,
                        meet == n ==> count_where(vis_bwd@, unv) <= c0,
                        meet == n ==> closed_but(graph, f, vis_bwd@, qb@, u as int, a.len() as int),
                        meet == n ==> apart(graph, vis_fwd@, vis_bwd@, from as int, to as int),
                        meet < n ==> meet != to,
                        meet < n ==> (forall|w: int| 0 <= w < n && #[trigger] vis_fwd@[w] && #[trigger] vis_bwd@[w] ==> w == meet || (w == from && w == to)),
                        reach_ok(graph, f, vis_fwd@, from as int),
                        reach_ok(graph, f, vis_bwd@, to as int),
                        closed_but(graph, f, vis_fwd@, qf@, -1, 0),
                        search_ok(graph, f, vis_fwd@, parent_fwd@, rank_f, from as int),
                        search_ok(graph, f, vis_bwd@, parent_bwd@, rank_b, to as int),
                    decreases a.len() - j,
                {
                    proof {
                        graph.lemma_adj(u as int, j as int);
                        graph.lemma_arc(a[j as int] as int);
                        lemma_xor_one(a[j as int]);
                    }
                    let idx = a[j];
                    let v = graph.edges[idx].to.0 as usize;
                    if !vis_bwd[v] && flow[idx] != 0 {
                        proof {
                            lemma_count_update(vis_bwd@, unv, v as int, true);
                            lemma_count_le(vis_bwd@, unv);
                        }
                        let ghost vis0 = vis_bwd@;
                        let ghost par0 = parent_bwd@;
                        let ghost rk0 = rank_b;
                        vis_bwd.set(v, true);
                        parent_bwd.set(v, Some((idx, true)));
                        proof {
                            assert(u != v);
                            assert(graph.arc_from(idx as int) == u);
                            rank_b = rank_b.update(v as int, rank_b[u as int] + 1);
                            assert(search_parent(graph, f, vis_bwd@, parent_bwd@, rank_b, v as int));
                            assert forall|w: int|
                                0 <= w < n && w != to && #[trigger] vis_bwd@[w] implies search_parent(graph, f, vis_bwd@, parent_bwd@, rank_b, w) by {
                                if w != v as int {
                                    assert(vis0[w]);
                                    assert(search_parent(graph, f, vis0, par0, rk0, w));
                                    let x = par0[w]->0;
                                    graph.lemma_arc(x.0 as int);
                                    assert(graph.arc_from(x.0 as int) != v as int);
                                    assert(parent_bwd@[w] == par0[w]);
                                    assert(rank_b[w] == rk0[w]);
                                    assert(rank_b[graph.arc_from(x.0 as int)] == rk0[graph.arc_from(x.0 as int)]);
                                    assert(vis_bwd@[graph.arc_from(x.0 as int)]);
                                }
                            }
                        }
                        proof {
                            lemma_reach_visit(graph, f, vis0, to as int, idx as int, v as int, vis_bwd@);
                        }
                        if vis_fwd[v] {
                            meet = v;
                            proof {
                                assert forall|w: int| 0 <= w < n && #[trigger] vis_fwd@[w] && #[trigger] vis_bwd@[w] implies w
                                    == meet || (w == from && w == to) by {
                                    if w != v as int {
                                        assert(vis0[w]);
                                    }
                                }
                            }
                            break;
                        }
                        let ghost q0 = qb@;
                        qb.push_back(v);
                        proof {
                            assert(apart(graph, vis_fwd@, vis_bwd@, from as int, to as int));
                            lemma_closed_visit(graph, f, vis0, q0, u as int, j as int, v, vis_bwd@, qb@);
                        }
                        proof {
                            assert forall|x: int| 0 <= x < qb@.len() implies 0 <= #[trigger] qb@[x] < n && vis_bwd@[qb@[x] as int] by {
                                if x < qb@.len() - 1 {
                                    assert(vis0[qb@[x] as int]);
                                }
                            }
                        }
                    }
                    proof {
                        lemma_closed_step(graph, f, vis_bwd@, qb@, u as int, j as int);
                    }
                    j += 1;
                }
                proof {
                    if meet == n {
                        lemma_closed_done(graph, f, vis_bwd@, qb@, u as int);
                    }
                }
            },
            None => {},
        }
        if meet < n {
            break;
        }
        if qf.len() == 0 && qb.len() == 0 {
            proof {
                assert(qf@ =~= Seq::<usize>::empty());
                assert(qb@ =~= Seq::<usize>::empty());
                lemma_no_meeting(graph, f, vis_fwd@, vis_bwd@, from as int, to as int);
            }
            return Vec::new();
        }
    }
    // The cycle: the entering arc, then the tree path from its head back to
    // its tail, first from `to` to the meeting node along the arcs the
    // search from `to` took, then from the meeting node to `from` against
    // the arcs the search from `from` took.
    proof {
        assert(searches_meet(graph, f, from as int, to as int)) by {
            assert(reach_by(graph, flow_arc(f), from as int, meet as int));
            assert(reach_by(graph, flow_arc(f), to as int, meet as int));
        }
    }
    let mut second: Vec<usize> = Vec::new();
    let mut cur = meet;
    let ghost mut cb: Seq<int> = seq![meet as int];
    while cur != to
        invariant
            graph.wf(),
            n == graph.n(),
            f == flow@,
            cur < n,
            to < n,
            vis_bwd@[cur as int],
            search_ok(graph, f, vis_bwd@, parent_bwd@, rank_b, to as int),
            cb.len() == second@.len() + 1,
            cb[0] == meet,
            cb[cb.len() - 1] == cur,
            forall|x: int|
                0 <= x < second@.len() ==> (#[trigger] second@[x] as int) < graph.m() && f[second@[x] as int] != 0
                    && graph.arc_to(second@[x] as int) == cb[x] && graph.arc_from(second@[x] as int) == cb[x + 1],
            forall|x: int| 0 <= x < cb.len() ==> 0 <= #[trigger] cb[x] < n && vis_bwd@[cb[x]],
            forall|x: int| 0 <= x < cb.len() - 1 ==> #[trigger] cb[x] != to,
            forall|x: int, y: int| 0 <= x < y < cb.len() ==> rank_b[#[trigger] cb[y]] < rank_b[#[trigger] cb[x]],
        decreases rank_b[cur as int],
    {
        proof {
            assert(search_parent(graph, f, vis_bwd@, parent_bwd@, rank_b, cur as int));
        }
        match parent_bwd[cur] {
            None => {
                return Vec::new();
            },
            Some((arc, _)) => {
                proof {
                    graph.lemma_arc(arc as int);
                }
                let ghost s0 = second@;
                let ghost cb0 = cb;
                second.push(arc);
                cur = graph.edges[arc].from.0 as usize;
                proof {
                    cb = cb.push(cur as int);
                    assert forall|x: int|
                        0 <= x < second@.len() implies (#[trigger] second@[x] as int) < graph.m() && f[second@[x] as int]
                        != 0 && graph.arc_to(second@[x] as int) == cb[x] && graph.arc_from(second@[x] as int) == cb[x
                        + 1] by {
                        if x < s0.len() {
                            assert(second@[x] == s0[x]);
                            assert(cb[x] == cb0[x]);
                            assert(cb[x + 1] == cb0[x + 1]);
                        }
                    }
                    assert forall|x: int, y: int| 0 <= x < y < cb.len() implies rank_b[#[trigger] cb[y]] < rank_b[#[trigger] cb[x]] by {
                        if y < cb0.len() {
                            assert(cb[x] == cb0[x] && cb[y] == cb0[y]);
                        } else if x < cb0.len() - 1 {
                            assert(cb[x] == cb0[x]);
                            assert(rank_b[cb0[cb0.len() - 1]] < rank_b[cb0[x]]);
                        }
                    }
                    assert forall|x: int| 0 <= x < cb.len() implies 0 <= #[trigger] cb[x] < n && vis_bwd@[cb[x]] by {
                        if x < cb0.len() {
                            assert(cb[x] == cb0[x]);
                        }
                    }
                    assert forall|x: int| 0 <= x < cb.len() - 1 implies #[trigger] cb[x] != to by {
                        if x < cb0.len() - 1 {
                            assert(cb[x] == cb0[x]);
                        }
                    }
                }
            },
        }
    }
    let mut cycle: Vec<(usize, bool)> = Vec::new();
    cycle.push((entering_arc, entering_arc % 2 == 0));
    let len2 = second.len();
    let mut j: usize = 0;
    while j < len2
        invariant
            graph.wf(),
            n == graph.n(),
            f == flow@,
            from < n,
            to < n,
            from as int == graph.arc_from(entering_arc as int),
            to as int == graph.arc_to(entering_arc as int),
            entering_arc < graph.m(),
            len2 == second@.len(),
            cb.len() == len2 + 1,
            cb[len2 as int] == to,
            cycle@.len() == j + 1,
            j <= len2,
            cycle@[0] == (entering_arc, entering_arc % 2 == 0),
            forall|x: int|
                0 <= x < second@.len() ==> (#[trigger] second@[x] as int) < graph.m() && f[second@[x] as int] != 0
                    && graph.arc_to(second@[x] as int) == cb[x] && graph.arc_from(second@[x] as int) == cb[x + 1],
            forall|x: int| 0 <= x < cb.len() - 1 ==> #[trigger] cb[x] != to,
            forall|x: int, y: int| 0 <= x < y < cb.len() ==> rank_b[#[trigger] cb[y]] < rank_b[#[trigger] cb[x]],
            forall|x: int| 1 <= x < cycle@.len() ==> #[trigger] cycle@[x] == (second@[len2 - x] as usize, second@[len2 - x] % 2 == 0),
        decreases len2 - j,
    {
        let a = second[len2 - 1 - j];
        let ghost c0 = cycle@;
        cycle.push((a, a % 2 == 0));
        proof {
            assert forall|x: int| 1 <= x < cycle@.len() implies #[trigger] cycle@[x] == (second@[len2 - x] as usize, second@[len2 - x] % 2 == 0) by {
                if x < c0.len() {
                    assert(cycle@[x] == c0[x]);
                }
            }
        }
        j += 1;
    }
    cur = meet;
    let ghost base = cycle@.len() as int;
    let ghost cmid = cycle@;
    let ghost mut cf: Seq<int> = seq![meet as int];
    while cur != from
        invariant
            graph.wf(),
            n == graph.n(),
            f == flow@,
            cur < n,
            from < n,
            to < n,
            vis_fwd@[cur as int],
            search_ok(graph, f, vis_fwd@, parent_fwd@, rank_f, from as int),
            base == len2 + 1,
            cycle@.len() == base + cf.len() - 1,
            cf[0] == meet,
            cf[cf.len() - 1] == cur,
            forall|x: int| 0 <= x < cf.len() ==> 0 <= #[trigger] cf[x] < n && vis_fwd@[cf[x]],
            forall|x: int| 0 <= x < cf.len() - 1 ==> #[trigger] cf[x] != from,
            forall|x: int, y: int| 0 <= x < y < cf.len() ==> rank_f[#[trigger] cf[y]] < rank_f[#[trigger] cf[x]],
            forall|z: int|
                0 <= z < cf.len() - 1 ==> (#[trigger] cycle@[base + z]).0 < graph.m() && f[cycle@[base + z].0 as int]
                    != 0 && cycle@[base + z].1 == (cycle@[base + z].0 % 2 == 0) && graph.arc_from(
                    cycle@[base + z].0 as int,
                ) == cf[z] && graph.arc_to(cycle@[base + z].0 as int) == cf[z + 1],
            forall|x: int| 0 <= x < base ==> #[trigger] cycle@[x] == cmid[x],
            antisymmetric(graph, f),
            cf.len() >= 1,
            entering_arc < graph.m(),
            from as int == graph.arc_from(entering_arc as int),
            to as int == graph.arc_to(entering_arc as int),
            searches_meet(graph, f, from as int, to as int),
            forall|w: int| 0 <= w < n && #[trigger] vis_fwd@[w] && #[trigger] vis_bwd@[w] ==> w == meet || (w == from && w == to),
            vis_fwd@.len() == n,
            vis_bwd@.len() == n,
            len2 == second@.len(),
            cb.len() == len2 + 1,
            cb[0] == meet,
            cb[len2 as int] == to,
            forall|x: int|
                0 <= x < second@.len() ==> (#[trigger] second@[x] as int) < graph.m() && f[second@[x] as int] != 0
                    && graph.arc_to(second@[x] as int) == cb[x] && graph.arc_from(second@[x] as int) == cb[x + 1],
            forall|x: int| 0 <= x < cb.len() ==> 0 <= #[trigger] cb[x] < n && vis_bwd@[cb[x]],
            forall|x: int| 0 <= x < cb.len() - 1 ==> #[trigger] cb[x] != to,
            forall|x: int, y: int| 0 <= x < y < cb.len() ==> rank_b[#[trigger] cb[y]] < rank_b[#[trigger] cb[x]],
            cmid.len() == base,
            cmid[0] == (entering_arc, entering_arc % 2 == 0),
            forall|x: int| 1 <= x < cmid.len() ==> #[trigger] cmid[x] == (second@[len2 - x] as usize, second@[len2 - x] % 2 == 0),
        decreases rank_f[cur as int],
    {
        proof {
            assert(search_parent(graph, f, vis_fwd@, parent_fwd@, rank_f, cur as int));
        }
        match parent_fwd[cur] {
            None => {
                return Vec::new();
            },
            Some((arc, _)) => {
                proof {
                    graph.lemma_arc(arc as int);
                    lemma_xor_one(arc);
                }
                let back = arc ^ 1;
                let ghost c0 = cycle@;
                let ghost cf0 = cf;
                cycle.push((back, back % 2 == 0));
                cur = graph.edges[arc].from.0 as usize;
                proof {
                    cf = cf.push(cur as int);
                    assert(cf[0] == cf0[0]);
                    assert forall|x: int| 0 <= x < base implies #[trigger] cycle@[x] == cmid[x] by {
                        assert(cycle@[x] == c0[x]);
                    }
                    assert forall|z: int|
                        0 <= z < cf.len() - 1 implies (#[trigger] cycle@[base + z]).0 < graph.m() && f[cycle@[base
                        + z].0 as int] != 0 && cycle@[base + z].1 == (cycle@[base + z].0 % 2 == 0) && graph.arc_from(
                        cycle@[base + z].0 as int,
                    ) == cf[z] && graph.arc_to(cycle@[base + z].0 as int) == cf[z + 1] by {
                        if z < cf0.len() - 1 {
                            assert(cycle@[base + z] == c0[base + z]);
                            assert(cf[z] == cf0[z]);
                            assert(cf[z + 1] == cf0[z + 1]);
                        } else {
                            assert(cycle@[base + z] == (back, back % 2 == 0));
                            assert(f[twin(arc as int)] == -f[arc as int]);
                        }
                    }
                    assert forall|x: int, y: int| 0 <= x < y < cf.len() implies rank_f[#[trigger] cf[y]] < rank_f[#[trigger] cf[x]] by {
                        if y < cf0.len() {
                            assert(cf[x] == cf0[x] && cf[y] == cf0[y]);
                        } else if x < cf0.len() - 1 {
                            assert(cf[x] == cf0[x]);
                            assert(rank_f[cf0[cf0.len() - 1]] < rank_f[cf0[x]]);
                        }
                    }
                    assert forall|x: int| 0 <= x < cf.len() implies 0 <= #[trigger] cf[x] < n && vis_fwd@[cf[x]] by {
                        if x < cf0.len() {
                            assert(cf[x] == cf0[x]);
                        }
                    }
                    assert forall|x: int| 0 <= x < cf.len() - 1 implies #[trigger] cf[x] != from by {
                        if x < cf0.len() - 1 {
                            assert(cf[x] == cf0[x]);
                        }
                    }
                }
            },
        }
    }
    proof {
        lemma_cycle_shape(
            graph,
            f,
            cycle@,
            entering_arc as int,
            meet as int,
            second@,
            cb,
            cf,
            vis_fwd@,
            vis_bwd@,
            rank_b,
            rank_f,
        );
    }
    cycle
}


/// Paired arcs carry opposite flow.
pub open spec fn antisymmetric(g: &DiGraph, f: Seq<i64>) -> bool {
    &&& f.len() == g.m()
    &&& forall|i: int| 0 <= i < g.m() ==> #[trigger] f[twin(i)] == -f[i]
}

/// Moving `d` units along an arc changes the cost of the forward flow by
/// `d` times the cost of the arc, and keeps paired arcs opposite.
proof fn lemma_linear_push(g: &DiGraph, f: Seq<i64>, e: int, d: int)
    requires
        g.wf(),
        antisymmetric(g, f),
        0 <= e < g.m(),
        i64::MIN <= f[e] + d <= i64::MAX,
        i64::MIN <= f[twin(e)] - d <= i64::MAX,
    ensures
        antisymmetric(g, pushed(f, e, d)),
        linear_cost(g, pushed(f, e, d)) == linear_cost(g, f) + d * g.cost(e),
{
    g.lemma_arc(e);
    let f2 = pushed(f, e, d);
    let te = twin(e);
    assert(te != e);
    assert forall|i: int| 0 <= i < g.m() implies #[trigger] f2[twin(i)] == -f2[i] by {
        g.lemma_arc(i);
        if i != e && i != te {
            assert(twin(i) != e && twin(i) != te);
        }
    }
    let k = if e % 2 == 0 { e } else { te };
    let t1 = |i: int| if i % 2 == 0 { f[i] * g.cost(i) } else { 0 };
    let t2 = |i: int| if i % 2 == 0 { f2[i] * g.cost(i) } else { 0 };
    assert forall|i: int| 0 <= i < g.m() && i != k implies #[trigger] t1(i) == t2(i) by {
        if i != e && i != te {
            assert(f2[i] == f[i]);
        }
    }
    lemma_sum_point(g.m(), t1, t2, k);
    if e % 2 == 0 {
        assert(f2[e] * g.cost(e) == f[e] * g.cost(e) + d * g.cost(e)) by (nonlinear_arith)
            requires
                f2[e] == f[e] + d,
        ;
    } else {
        assert(g.cost(e) == -g.cost(k));
        assert(f2[k] * g.cost(k) == f[k] * g.cost(k) + d * g.cost(e)) by (nonlinear_arith)
            requires
                f2[k] == f[k] - d,
                g.cost(e) == -g.cost(k),
        ;
    }
}

/// What network simplex delivers: the successive-shortest-paths outcome,
/// improved by pivots: a feasible flow of the same value, its cost, no more
/// than the successive-shortest-paths cost, and equal to it when that flow
/// is certified cheapest (no negative-cost cycle in the graph).
pub open spec fn ns_outcome(g: &DiGraph, s: int, t: int, demand: Option<i128>, r: Result<MinCostFlowResult, StanchionError>) -> bool {
    exists|q: Result<MinCostFlowResult, StanchionError>| #[trigger] ssp_outcome(g, s, t, demand, q) && match q {
        Err(e) => r == Err::<MinCostFlowResult, StanchionError>(e),
        Ok(x) => r matches Ok(res) && {
            &&& res.max_flow == x.max_flow
            &&& is_flow(g, res.flow_on_edge@, s, t)
            &&& flow_value(g, res.flow_on_edge@, s) == flow_value(g, x.flow_on_edge@, s)
            &&& res.min_cost == linear_cost(g, res.flow_on_edge@)
            &&& res.min_cost <= x.min_cost
            &&& (feasible_potentials(g) ==> res.min_cost == x.min_cost)
        },
    }
}

/// The arcs of a cycle listing.
pub open spec fn cycle_arcs(c: Seq<(usize, bool)>) -> Seq<usize> {
    c.map_values(|p: (usize, bool)| p.0)
}

/// `next` is `f` after pushing `d` along each of the first `k` arcs of `c`.
pub open spec fn pushed_prefix(g: &DiGraph, f: Seq<i64>, next: Seq<i64>, c: Seq<usize>, k: int, d: int) -> bool {
    forall|i: int|
        0 <= i < g.m() ==> #[trigger] next[i] == f[i] + (if pushed_before(c, k, i) {
            d
        } else {
            0
        }) - (if pushed_before(c, k, twin(i)) {
            d
        } else {
            0
        })
}

/// Before arc `k` of a list of distinct arcs is pushed, it has not been
/// pushed yet, so at least its residual capacity under `f` is left.
proof fn lemma_ns_push_room(g: &DiGraph, f: Seq<i64>, next: Seq<i64>, c: Seq<usize>, k: int, d: int)
    requires
        g.wf(),
        0 <= k < c.len(),
        (c[k] as int) < g.m(),
        forall|a: int, b: int| 0 <= a < b < c.len() ==> #[trigger] c[a] != #[trigger] c[b],
        pushed_prefix(g, f, next, c, k, d),
        0 <= d <= rcap(g, f, c[k] as int),
    ensures
        !pushed_before(c, k, c[k] as int),
        d <= rcap(g, next, c[k] as int),
{
    if pushed_before(c, k, c[k] as int) {
        let j = choose|j: int| 0 <= j < k && c[j] == c[k] as int;
        assert(c[j] != c[k]);
    }
    assert(next[c[k] as int] == f[c[k] as int] + 0 - (if pushed_before(c, k, twin(c[k] as int)) {
        d
    } else {
        0
    }));
}

/// Pushing arc `k` extends the pushed prefix by one arc.
proof fn lemma_ns_push_step(g: &DiGraph, f: Seq<i64>, n0: Seq<i64>, n1: Seq<i64>, c: Seq<usize>, k: int, d: int)
    requires
        g.wf(),
        0 <= k < c.len(),
        (c[k] as int) < g.m(),
        pushed_prefix(g, f, n0, c, k, d),
        !pushed_before(c, k, c[k] as int),
        n1.len() == n0.len(),
        n1[c[k] as int] == n0[c[k] as int] + d,
        n1[twin(c[k] as int)] == n0[twin(c[k] as int)] - d,
        forall|i: int| 0 <= i < g.m() && i != c[k] && i != twin(c[k] as int) ==> #[trigger] n1[i] == n0[i],
    ensures
        pushed_prefix(g, f, n1, c, k + 1, d),
{
    let e = c[k] as int;
    g.lemma_arc(e);
    assert forall|i: int|
        0 <= i < g.m() implies #[trigger] n1[i] == f[i] + (if pushed_before(c, k + 1, i) {
            d
        } else {
            0
        }) - (if pushed_before(c, k + 1, twin(i)) {
            d
        } else {
            0
        }) by {
        g.lemma_arc(i);
        if pushed_before(c, k, i) {
            assert(pushed_before(c, k + 1, i));
        }
        if pushed_before(c, k, twin(i)) {
            assert(pushed_before(c, k + 1, twin(i)));
        }
        if i == e {
            assert(pushed_before(c, k + 1, i));
        }
        if twin(i) == e {
            assert(pushed_before(c, k + 1, twin(i)));
            assert(i == twin(e));
        }
        if pushed_before(c, k + 1, i) && !pushed_before(c, k, i) {
            let j = choose|j: int| 0 <= j < k + 1 && c[j] == i;
            assert(j == k);
        }
        if pushed_before(c, k + 1, twin(i)) && !pushed_before(c, k, twin(i)) {
            let j = choose|j: int| 0 <= j < k + 1 && c[j] == twin(i);
            assert(j == k);
        }
    }
}

impl MinCostFlowSolver for NetworkSimplex {
    /// The successive-shortest-paths phase needs no negative-cost cycle of
    /// positive-capacity arcs reachable from the source.
    open spec fn mcf_accepts(&self, g: &DiGraph, s: NodeId, t: NodeId) -> bool {
        SuccessiveShortest.mcf_accepts(g, s, t)
    }

    fn min_cost_flow(&self, graph: &DiGraph, source: NodeId, sink: NodeId, demand: Option<i128>) -> (r: Result<
        MinCostFlowResult,
        StanchionError,
    >)
        ensures
            ns_outcome(graph, source.0 as int, sink.0 as int, demand, r),
    {
        let n = graph.node_count();
        // Phase 1: an initial solution from successive shortest paths.
        let ssp_r = SuccessiveShortest.min_cost_flow(graph, source, sink, demand);
        let ghost q = ssp_r;
        let ssp = match ssp_r {
            Ok(x) => x,
            Err(e) => {
                return Err(e);
            },
        };
        let ssp_max_flow = ssp.max_flow;
        let mut flow = ssp.flow_on_edge;
        let mut total_cost = ssp.min_cost;
        proof {
            lemma_linear_cost(graph, flow@);
            assert forall|i: int| 0 <= i < graph.m() implies #[trigger] flow@[twin(i)] == -flow@[i] by {
                graph.lemma_arc(i);
            }
        }
        // Phase 2: simplex pivots.
        let ghost f0 = flow@;
        let max_iter: u64 = 1000 * n as u64;
        let mut it: u64 = 0;
        while it < max_iter
            invariant
                graph.wf(),
                n == graph.n(),
                (source.0 as int) < n,
                antisymmetric(graph, flow@),
                total_cost == linear_cost(graph, flow@),
                flow_bounded(graph, flow@),
                forall|v: int| #[trigger] net_out(graph, flow@, v) == net_out(graph, f0, v),
                linear_cost(graph, flow@) <= linear_cost(graph, f0),
            decreases max_iter - it,
        {
            let pi = compute_potentials(graph, &flow, n, source);
            let entering = most_negative_reduced_cost(graph, &flow, &pi);
            let arc_idx = match entering {
                None => {
                    break;
                },
                Some(x) => x.0,
            };
            let cycle = find_cycle(graph, &flow, arc_idx, n);
            if cycle.len() == 0 {
                break;
            }
            // the flow that can be moved around the cycle
            let mut delta: i128 = i128::MAX;
            let mut k: usize = 0;
            while k < cycle.len()
                invariant
                    graph.wf(),
                    antisymmetric(graph, flow@),
                    flow_bounded(graph, flow@),
                    forall|x: int|
                        0 <= x < cycle@.len() ==> (#[trigger] cycle@[x]).0 < graph.m() && cycle@[x].1 == (cycle@[x].0 % 2
                            == 0),
                    k <= cycle.len(),
                    forall|x: int| 0 <= x < k ==> delta <= rcap(graph, flow@, (#[trigger] cycle@[x]).0 as int),
                decreases cycle.len() - k,
            {
                let (e, fwd) = cycle[k];
                proof {
                    graph.lemma_arc(e as int);
                }
                let room: i128 = if fwd {
                    graph.edges[e].capacity.0 as i128 - flow[e] as i128
                } else {
                    proof {
                        assert(e & !1usize < e + 1) by (bit_vector);
                        assert(e % 2 == 1 ==> e & !1usize == e - 1) by (bit_vector);
                        assert(twin(e as int) == e - 1);
                    }
                    flow[e & !1usize] as i128
                };
                proof {
                    assert(room == rcap(graph, flow@, e as int));
                }
                if room < delta {
                    delta = room;
                }
                k += 1;
            }
            if delta <= 0 {
                break;
            }
            // apply the pivot, unless a value would leave its range
            if delta > i64::MAX as i128 {
                break;
            }
            let d = delta as i64;
            let mut next: Vec<i64> = Vec::new();
            let mut i: usize = 0;
            while i < flow.len()
                invariant
                    i <= flow.len(),
                    next@ == flow@.subrange(0, i as int),
                decreases flow.len() - i,
            {
                next.push(flow[i]);
                i += 1;
            }
            proof {
                assert(next@ =~= flow@);
            }
            let mut cost_delta: i128 = 0;
            let mut fits = true;
            let ghost carcs = cycle_arcs(cycle@);
            let ghost l = cycle@.len() as int;
            let mut k: usize = 0;
            while k < cycle.len()
                invariant
                    graph.wf(),
                    antisymmetric(graph, flow@),
                    antisymmetric(graph, next@),
                    flow_bounded(graph, flow@),
                    flow_bounded(graph, next@),
                    forall|x: int| 0 <= x < cycle@.len() ==> (#[trigger] cycle@[x]).0 < graph.m(),
                    closed_walk(graph, cycle@),
                    carcs == cycle_arcs(cycle@),
                    l == cycle@.len(),
                    k <= cycle.len(),
                    1 <= d,
                    forall|x: int| 0 <= x < l ==> d <= rcap(graph, flow@, (#[trigger] cycle@[x]).0 as int),
                    fits ==> linear_cost(graph, next@) == linear_cost(graph, flow@) + cost_delta,
                    pushed_prefix(graph, flow@, next@, carcs, k as int, d as int),
                    forall|v: int|
                        #[trigger] net_out(graph, next@, v) == net_out(graph, flow@, v) + (if k > 0 && v == graph.arc_from(
                            cycle@[0].0 as int,
                        ) {
                            d as int
                        } else {
                            0
                        }) - (if k > 0 && v == graph.arc_to(cycle@[k - 1].0 as int) {
                            d as int
                        } else {
                            0
                        }),
                ensures
                    fits ==> k == cycle.len(),
                decreases cycle.len() - k,
            {
                let (e, fwd) = cycle[k];
                proof {
                    graph.lemma_arc(e as int);
                    lemma_xor_one(e);
                    lemma_ns_push_room(graph, flow@, next@, carcs, k as int, d as int);
                }
                let te = e ^ 1;
                match (next[e].checked_add(d), next[te].checked_sub(d)) {
                    (Some(a), Some(b)) => {
                        let c = graph.edges[e].cost.0 as i128;
                        proof {
                            assert(d * c <= 0x8000_0000_0000_0000 * 0x8000_0000_0000_0000) by (nonlinear_arith)
                                requires
                                    1 <= d <= 0x7FFF_FFFF_FFFF_FFFF,
                                    -0x8000_0000_0000_0000 <= c <= 0x7FFF_FFFF_FFFF_FFFF,
                            ;
                            assert(d * c >= -0x8000_0000_0000_0000 * 0x8000_0000_0000_0000) by (nonlinear_arith)
                                requires
                                    1 <= d <= 0x7FFF_FFFF_FFFF_FFFF,
                                    -0x8000_0000_0000_0000 <= c <= 0x7FFF_FFFF_FFFF_FFFF,
                            ;
                        }
                        match cost_delta.checked_add(d as i128 * c) {
                            Some(cd) => {
                                let ghost n0 = next@;
                                proof {
                                    lemma_linear_push(graph, n0, e as int, d as int);
                                }
                                if fwd {
                                    next.set(e, a);
                                    next.set(te, b);
                                } else {
                                    next.set(te, b);
                                    next.set(e, a);
                                }
                                proof {
                                    assert(next@ =~= pushed(n0, e as int, d as int));
                                    lemma_push(graph, n0, e as int, d as int);
                                    lemma_ns_push_step(graph, flow@, n0, next@, carcs, k as int, d as int);
                                    if k > 0 {
                                        assert(graph.arc_to(cycle@[k - 1].0 as int) == graph.arc_from(cycle@[k as int].0 as int));
                                    }
                                }
                                cost_delta = cd;
                            },
                            None => {
                                fits = false;
                                break;
                            },
                        }
                    },
                    _ => {
                        fits = false;
                        break;
                    },
                }
                k += 1;
            }
            if !fits {
                break;
            }
            // a pivot that would not lower the cost is not taken
            if cost_delta >= 0 {
                break;
            }
            proof {
                assert forall|v: int| #[trigger] net_out(graph, next@, v) == net_out(graph, f0, v) by {
                    assert(graph.arc_to(cycle@[l - 1].0 as int) == graph.arc_from(cycle@[0].0 as int));
                }
            }
            match total_cost.checked_add(cost_delta) {
                Some(tc) => {
                    flow = next;
                    total_cost = tc;
                },
                None => {
                    break;
                },
            }
            it += 1;
        }
        proof {
            let si = source.0 as int;
            let ti = sink.0 as int;
            assert(ssp_outcome(graph, si, ti, demand, q));
            assert(q == Ok::<MinCostFlowResult, StanchionError>(ssp));
            assert(is_flow(graph, f0, si, ti));
            assert(is_flow(graph, flow@, si, ti)) by {
                assert forall|v: int| 0 <= v < graph.n() && v != si && v != ti implies #[trigger] net_out(graph, flow@, v)
                    == 0 by {
                    assert(net_out(graph, f0, v) == 0);
                }
            }
            assert(flow_value(graph, flow@, si) == flow_value(graph, f0, si));
            lemma_linear_cost(graph, f0);
            if feasible_potentials(graph) {
                let p = choose|p: Seq<int>| #[trigger] certifies(graph, f0, p);
                lemma_potential_certificate(graph, f0, flow@, si, ti, p);
            }
        }
        Ok(MinCostFlowResult { max_flow: ssp_max_flow, min_cost: total_cost, flow_on_edge: flow })
    }
}

} // verus!
