//! Successive shortest paths for minimum-cost flow.
use vstd::prelude::*;
use crate::error::StanchionError;
use crate::graph::{DiGraph, NodeId, ResidualGraph};
use crate::sums::{count_where, lemma_count_update, lemma_count_le, twin};
use super::rwalk::{
    pos_fwd, resid, arc_costs, rc, reduced, walk_by, cost_by, reach_by, neg_cycle_by,
    lemma_extend_by, lemma_short_by, lemma_cost_bound_by, lemma_split_by, lemma_arcs_by,
    lemma_reduced_walk,
};
use crate::graph::residual::{
    rcap, flow_bounded, lemma_rcap_range, is_flow, flow_value, flow_cost, is_max_flow, net_out,
    closed_cut, no_augmenting_path, pushed, lemma_push, source_capacity,
    lemma_value_le_source_capacity, lemma_source_capacity_bound, lemma_flow_cost_push,
    lemma_flow_cost_bound,
};
use crate::flow::{MinCostFlowResult, MinCostFlowSolver, mcf_input};
use crate::routing::walks::walk_node;
use super::optimality::{certifies, certified, feasible_potentials, reduced_cost};

verus! {

/// Largest magnitude of an arc cost.
pub open spec fn cost_cap() -> int {
    i64::MAX as int
}

/// Number of nodes without a label.
pub open spec fn unlabelled(d: Seq<Option<i128>>) -> nat {
    count_where(d, |x: Option<i128>| x is None)
}

/// Each label is the cost of the recorded walk from `s` along forward arcs
/// of positive capacity.
pub open spec fn bf_witnessed(g: &DiGraph, d: Seq<Option<i128>>, wit: Seq<Seq<int>>, s: int) -> bool {
    &&& d.len() == g.n()
    &&& wit.len() == g.n()
    &&& forall|v: int|
        0 <= v < g.n() && #[trigger] d[v] is Some ==> walk_by(g, pos_fwd(g), wit[v], s, v) && cost_by(
            arc_costs(g),
            wit[v],
        ) == d[v]->0
}

/// Labels stay below the number of labelled nodes times the cost cap.
pub open spec fn bf_capped(d: Seq<Option<i128>>) -> bool {
    forall|v: int| 0 <= v < d.len() && #[trigger] d[v] is Some ==> d[v]->0 <= (d.len() - unlabelled(d) - 1) * cost_cap()
}

/// Every walk of at most `r` arcs from `s` costs at least the label of its end.
pub open spec fn bf_covers(g: &DiGraph, d: Seq<Option<i128>>, s: int, r: int) -> bool {
    forall|v: int, q: Seq<int>|
        0 <= v < g.n() && #[trigger] walk_by(g, pos_fwd(g), q, s, v) && q.len() <= r ==> d[v] is Some && d[v]->0
            <= cost_by(arc_costs(g), q)
}

/// Labels satisfy the triangle inequality on every forward arc of positive
/// capacity leaving a labelled node.
pub open spec fn bf_triangle(g: &DiGraph, d: Seq<Option<i128>>) -> bool {
    forall|i: int|
        0 <= i < g.m() && i % 2 == 0 && g.cap(i) > 0 && #[trigger] d[g.arc_from(i)] is Some ==> d[g.arc_to(i)] is Some
            && d[g.arc_to(i)]->0 <= d[g.arc_from(i)]->0 + g.cost(i)
}

/// Without a negative cycle, every walk from `s` costs at least
/// `-(n - 1)` times the cost cap.
proof fn lemma_walk_floor(g: &DiGraph, s: int, p: Seq<int>, v: int)
    requires
        g.wf(),
        0 <= s < g.n(),
        walk_by(g, pos_fwd(g), p, s, v),
        !neg_cycle_by(g, pos_fwd(g), arc_costs(g), s),
    ensures
        cost_by(arc_costs(g), p) >= -((g.n() - 1) * cost_cap()),
{
    lemma_short_by(g, pos_fwd(g), arc_costs(g), s, p, v);
    let q = choose|q: Seq<int>|
        #[trigger] walk_by(g, pos_fwd(g), q, s, v) && q.len() < g.n() && cost_by(arc_costs(g), q) <= cost_by(
            arc_costs(g),
            p,
        );
    assert forall|i: int| 0 <= i < g.m() && pos_fwd(g)(i) implies -cost_cap() <= #[trigger] arc_costs(g)(i)
        <= cost_cap() by {
        g.lemma_arc(i);
    }
    lemma_cost_bound_by(g, pos_fwd(g), arc_costs(g), q, s, v, cost_cap());
    assert(q.len() * cost_cap() <= (g.n() - 1) * cost_cap()) by (nonlinear_arith)
        requires
            q.len() <= g.n() - 1,
    ;
}

/// Labelling a node that had none lowers the unlabelled count by one.
proof fn lemma_label_one(d: Seq<Option<i128>>, v: int, x: i128)
    requires
        0 <= v < d.len(),
        d[v] is None,
    ensures
        unlabelled(d.update(v, Some(x))) + 1 == unlabelled(d),
{
    lemma_count_update(d, |y: Option<i128>| y is None, v, Some(x));
}

/// With one node labelled, fewer than all nodes are unlabelled.
proof fn lemma_one_labelled(d: Seq<Option<i128>>, v: int)
    requires
        0 <= v < d.len(),
        d[v] is Some,
    ensures
        unlabelled(d) + 1 <= d.len(),
{
    let e = d.update(v, None);
    lemma_count_update(e, |y: Option<i128>| y is None, v, d[v]);
    assert(e.update(v, d[v]) =~= d);
    lemma_count_le(e, |y: Option<i128>| y is None);
}


/// Relabelling a labelled node keeps the unlabelled count.
proof fn lemma_relabel(d: Seq<Option<i128>>, v: int, x: i128)
    requires
        0 <= v < d.len(),
        d[v] is Some,
    ensures
        unlabelled(d.update(v, Some(x))) == unlabelled(d),
{
    let e = d.update(v, None);
    let d2 = d.update(v, Some(x));
    lemma_count_update(e, |y: Option<i128>| y is None, v, d[v]);
    assert(e.update(v, d[v]) =~= d);
    lemma_count_update(e, |y: Option<i128>| y is None, v, Some(x));
    assert(e.update(v, Some(x)) =~= d2);
}

/// Node potentials for the first shortest-path search: Bellman-Ford
/// distances from `source` over forward arcs of positive capacity, zero for
/// the nodes it does not reach.
fn bellman_ford(graph: &DiGraph, source: NodeId, n: usize) -> (pi: Vec<i128>)
    requires
        graph.wf(),
        n == graph.n(),
        (source.0 as int) < n,
        !neg_cycle_by(graph, pos_fwd(graph), arc_costs(graph), source.0 as int),
    ensures
        pi@.len() == n,
        pi@[source.0 as int] == 0,
        forall|v: int| 0 <= v < n ==> -((n - 1) * cost_cap()) <= #[trigger] pi@[v] <= (n - 1) * cost_cap(),
        forall|i: int|
            0 <= i < graph.m() && i % 2 == 0 && graph.cap(i) > 0 && #[trigger] reach_by(
                graph,
                pos_fwd(graph),
                source.0 as int,
                graph.arc_from(i),
            ) ==> pi@[graph.arc_to(i)] <= pi@[graph.arc_from(i)] + graph.cost(i),
{
    let s = source.0 as usize;
    let ghost m = graph.m();
    let ghost ok = pos_fwd(graph);
    let ghost cst = arc_costs(graph);
    let ghost kk = cost_cap();
    let mut d: Vec<Option<i128>> = Vec::new();
    let mut k: usize = 0;
    while k < n
        invariant
            k <= n,
            d@.len() == k,
            forall|w: int| 0 <= w < k ==> #[trigger] d@[w] is None,
        decreases n - k,
    {
        d.push(None);
        k += 1;
    }
    let ghost d00 = d@;
    d.set(s, Some(0));
    let ghost mut wit: Seq<Seq<int>> = Seq::new(n as nat, |v: int| Seq::<int>::empty());
    proof {
        assert(walk_by(graph, ok, Seq::<int>::empty(), s as int, s as int));
        assert(cost_by(cst, Seq::<int>::empty()) == 0);
        lemma_label_one(d00, s as int, 0);
        assert(unlabelled(d00) == n) by {
            crate::sums::lemma_count_all(d00, |y: Option<i128>| y is None);
        }
        assert(bf_capped(d@)) by {
            assert forall|v: int| 0 <= v < n && #[trigger] d@[v] is Some implies d@[v]->0 <= (n - unlabelled(d@) - 1)
                * kk by {
                assert(v == s);
                assert(0 * kk == 0) by (nonlinear_arith);
            }
        }
        assert forall|v: int, q: Seq<int>|
            0 <= v < n && #[trigger] walk_by(graph, pos_fwd(graph), q, s as int, v) && q.len() <= 0 implies d@[v] is Some
                && d@[v]->0 <= cost_by(arc_costs(graph), q) by {
            assert(q.len() == 0);
        }
    }
    let rounds = n - 1;
    let mut r: usize = 0;
    let mut settled = false;
    while r < rounds && !settled
        invariant
            graph.wf(),
            n == graph.n(),
            m == graph.m(),
            ok == pos_fwd(graph),
            cst == arc_costs(graph),
            kk == cost_cap(),
            s == source.0,
            s < n,
            rounds == n - 1,
            r <= rounds,
            !neg_cycle_by(graph, ok, cst, s as int),
            d@.len() == n,
            d@[s as int] is Some,
            d@[s as int]->0 <= 0,
            bf_witnessed(graph, d@, wit, s as int),
            bf_capped(d@),
            settled ==> bf_triangle(graph, d@),
            !settled ==> bf_covers(graph, d@, s as int, r as int),
        decreases rounds - r,
    {
        let ghost prev = d@;
        let mut updated = false;
        let mut u: usize = 0;
        while u < n
            invariant
                graph.wf(),
                n == graph.n(),
                m == graph.m(),
                ok == pos_fwd(graph),
                cst == arc_costs(graph),
                kk == cost_cap(),
                s == source.0,
                s < n,
                r < rounds,
                rounds == n - 1,
                !neg_cycle_by(graph, ok, cst, s as int),
                u <= n,
                d@.len() == n,
                prev.len() == n,
                d@[s as int] is Some,
                d@[s as int]->0 <= 0,
                bf_witnessed(graph, d@, wit, s as int),
                bf_capped(d@),
                bf_covers(graph, prev, s as int, r as int),
                forall|v: int| 0 <= v < n && #[trigger] prev[v] is Some ==> d@[v] is Some && d@[v]->0 <= prev[v]->0,
                !updated ==> d@ == prev,
                forall|i: int|
                    0 <= i < m && i % 2 == 0 && graph.cap(i) > 0 && graph.arc_from(i) < u && #[trigger] prev[graph.arc_from(i)] is Some
                        ==> d@[graph.arc_to(i)] is Some && d@[graph.arc_to(i)]->0 <= prev[graph.arc_from(i)]->0 + graph.cost(i),
                forall|i: int|
                    0 <= i < m && i % 2 == 0 && graph.cap(i) > 0 && graph.arc_from(i) < u && #[trigger] d@[graph.arc_from(i)] is Some
                        && !updated ==> d@[graph.arc_to(i)] is Some && d@[graph.arc_to(i)]->0 <= d@[graph.arc_from(i)]->0 + graph.cost(i),
            decreases n - u,
        {
            match d[u] {
                None => {
                    proof {
                        assert(prev[u as int] is None);
                    }
                },
                Some(du0) => {
                    let a = &graph.adj[u];
                    let mut j: usize = 0;
                    while j < a.len()
                        invariant
                            graph.wf(),
                            n == graph.n(),
                            m == graph.m(),
                            ok == pos_fwd(graph),
                            cst == arc_costs(graph),
                            kk == cost_cap(),
                            s == source.0,
                            s < n,
                            r < rounds,
                            rounds == n - 1,
                            !neg_cycle_by(graph, ok, cst, s as int),
                            u < n,
                            a == &graph.adj[u as int],
                            j <= a.len(),
                            d@.len() == n,
                            prev.len() == n,
                            d@[u as int] is Some,
                            d@[u as int]->0 <= du0,
                            !updated ==> d@[u as int] == Some(du0),
                            d@[s as int] is Some,
                            d@[s as int]->0 <= 0,
                            bf_witnessed(graph, d@, wit, s as int),
                            bf_capped(d@),
                            bf_covers(graph, prev, s as int, r as int),
                            forall|v: int| 0 <= v < n && #[trigger] prev[v] is Some ==> d@[v] is Some && d@[v]->0 <= prev[v]->0,
                            !updated ==> d@ == prev,
                            forall|i: int|
                                0 <= i < m && i % 2 == 0 && graph.cap(i) > 0 && graph.arc_from(i) < u && #[trigger] prev[graph.arc_from(i)] is Some
                                    ==> d@[graph.arc_to(i)] is Some && d@[graph.arc_to(i)]->0 <= prev[graph.arc_from(i)]->0 + graph.cost(i),
                            forall|i: int|
                                0 <= i < m && i % 2 == 0 && graph.cap(i) > 0 && graph.arc_from(i) < u && #[trigger] d@[graph.arc_from(i)] is Some
                                    && !updated ==> d@[graph.arc_to(i)] is Some && d@[graph.arc_to(i)]->0 <= d@[graph.arc_from(i)]->0 + graph.cost(i),
                            forall|x: int|
                                0 <= x < j && #[trigger] a[x] % 2 == 0 && graph.cap(a[x] as int) > 0 ==> d@[graph.arc_to(a[x] as int)] is Some
                                    && d@[graph.arc_to(a[x] as int)]->0 <= du0 + graph.cost(a[x] as int),
                            prev[u as int] is Some ==> du0 <= prev[u as int]->0,
                        decreases a.len() - j,
                    {
                        proof {
                            graph.lemma_adj(u as int, j as int);
                            graph.lemma_arc(a[j as int] as int);
                        }
                        let idx = a[j];
                        if graph.edges[idx].capacity.0 > 0 {
                            let v = graph.edges[idx].to.0 as usize;
                            let w = graph.edges[idx].cost.0;
                            let du = match d[u] {
                                Some(x) => x,
                                None => du0,
                            };
                            proof {
                                assert(idx % 2 == 0);
                                lemma_walk_floor(graph, s as int, wit[u as int], u as int);
                                lemma_one_labelled(d@, u as int);
                                assert((n - unlabelled(d@) - 1) * kk <= (n - 1) * kk) by (nonlinear_arith)
                                    requires
                                        unlabelled(d@) >= 0,
                                        kk >= 0,
                                ;
                                assert((n - 1) * kk <= 0x1_0000_0000 * 0x8000_0000_0000_0000) by (nonlinear_arith)
                                    requires
                                        n <= 0x1_0000_0000,
                                        n >= 1,
                                        0 <= kk <= 0x8000_0000_0000_0000,
                                ;
                            }
                            let nd = du + w as i128;
                            let improve = match d[v] {
                                None => true,
                                Some(dv) => nd < dv,
                            };
                            if improve {
                                let ghost d0 = d@;
                                proof {
                                    if d0[v as int] is None {
                                        lemma_label_one(d0, v as int, nd);
                                        assert(nd <= (n - unlabelled(d0) - 1) * kk + kk);
                                        assert((n - unlabelled(d0) - 1) * kk + kk == (n - (unlabelled(d0) - 1) - 1) * kk)
                                            by (nonlinear_arith);
                                    } else {
                                        lemma_relabel(d0, v as int, nd);
                                    }
                                }
                                d.set(v, Some(nd));
                                updated = true;
                                proof {
                                    lemma_extend_by(graph, ok, cst, wit[u as int], s as int, u as int, idx as int);
                                    wit = wit.update(v as int, wit[u as int].push(idx as int));
                                    assert forall|x: int|
                                        0 <= x < j + 1 && #[trigger] a[x] % 2 == 0 && graph.cap(a[x] as int) > 0 implies d@[graph.arc_to(
                                            a[x] as int,
                                        )] is Some && d@[graph.arc_to(a[x] as int)]->0 <= du0 + graph.cost(
                                            a[x] as int,
                                        ) by {
                                        graph.lemma_adj(u as int, x);
                                        graph.lemma_arc(a[x] as int);
                                        if x < j {
                                            assert(d0[graph.arc_to(a[x] as int)] is Some);
                                        }
                                    }
                                    assert forall|i: int|
                                        0 <= i < m && i % 2 == 0 && graph.cap(i) > 0 && graph.arc_from(i) < u && #[trigger] prev[graph.arc_from(i)] is Some
                                            implies d@[graph.arc_to(i)] is Some && d@[graph.arc_to(i)]->0 <= prev[graph.arc_from(i)]->0 + graph.cost(i) by {
                                        graph.lemma_arc(i);
                                        assert(d0[graph.arc_to(i)] is Some);
                                    }
                                    assert forall|vv: int| 0 <= vv < n && #[trigger] prev[vv] is Some implies d@[vv] is Some && d@[vv]->0 <= prev[vv]->0 by {
                                        assert(d0[vv] is Some);
                                    }
                                    assert forall|vv: int|
                                        0 <= vv < n && #[trigger] d@[vv] is Some implies walk_by(graph, pos_fwd(graph), wit[vv], s as int, vv)
                                            && cost_by(arc_costs(graph), wit[vv]) == d@[vv]->0 by {
                                        if vv != v as int {
                                            assert(d0[vv] is Some);
                                        }
                                    }
                                    assert forall|vv: int| 0 <= vv < n && #[trigger] d@[vv] is Some implies d@[vv]->0 <= (n - unlabelled(d@) - 1) * kk by {
                                        if vv != v as int {
                                            assert(d0[vv] is Some);
                                            if d0[v as int] is None {
                                                assert((n - unlabelled(d0) - 1) * kk <= (n - unlabelled(d@) - 1) * kk) by (nonlinear_arith)
                                                    requires
                                                        unlabelled(d@) + 1 == unlabelled(d0),
                                                        kk >= 0,
                                                ;
                                            }
                                        }
                                    }
                                }
                            } else {
                                proof {
                                    assert forall|x: int|
                                        0 <= x < j + 1 && #[trigger] a[x] % 2 == 0 && graph.cap(a[x] as int) > 0 implies d@[graph.arc_to(
                                            a[x] as int,
                                        )] is Some && d@[graph.arc_to(a[x] as int)]->0 <= du0 + graph.cost(
                                            a[x] as int,
                                        ) by {
                                        graph.lemma_adj(u as int, x);
                                    }
                                }
                            }
                        } else {
                            proof {
                                assert forall|x: int|
                                    0 <= x < j + 1 && #[trigger] a[x] % 2 == 0 && graph.cap(a[x] as int) > 0 implies d@[graph.arc_to(
                                        a[x] as int,
                                    )] is Some && d@[graph.arc_to(a[x] as int)]->0 <= du0 + graph.cost(
                                        a[x] as int,
                                    ) by {
                                    graph.lemma_adj(u as int, x);
                                }
                            }
                        }
                        j += 1;
                    }
                    proof {
                        assert forall|i: int|
                            0 <= i < m && i % 2 == 0 && graph.cap(i) > 0 && graph.arc_from(i) < u + 1 && #[trigger] prev[graph.arc_from(i)] is Some
                                implies d@[graph.arc_to(i)] is Some && d@[graph.arc_to(i)]->0 <= prev[graph.arc_from(i)]->0 + graph.cost(i) by {
                            if graph.arc_from(i) == u as int {
                                graph.lemma_arc(i);
                                assert(graph.adj[u as int]@.contains(i as usize));
                                let x = choose|x: int| 0 <= x < a.len() && a[x] == i as usize;
                                assert(a[x] % 2 == 0);
                            }
                        }
                        assert forall|i: int|
                            0 <= i < m && i % 2 == 0 && graph.cap(i) > 0 && graph.arc_from(i) < u + 1 && #[trigger] d@[graph.arc_from(i)] is Some
                                && !updated implies d@[graph.arc_to(i)] is Some && d@[graph.arc_to(i)]->0 <= d@[graph.arc_from(i)]->0 + graph.cost(i) by {
                            if graph.arc_from(i) == u as int {
                                graph.lemma_arc(i);
                                assert(graph.adj[u as int]@.contains(i as usize));
                                let x = choose|x: int| 0 <= x < a.len() && a[x] == i as usize;
                                assert(a[x] % 2 == 0);
                            }
                        }
                    }
                },
            }
            u += 1;
        }
        proof {
            if !updated {
                assert(bf_triangle(graph, d@)) by {
                    assert forall|i: int|
                        0 <= i < m && i % 2 == 0 && graph.cap(i) > 0 && #[trigger] d@[graph.arc_from(i)] is Some implies d@[graph.arc_to(i)] is Some
                            && d@[graph.arc_to(i)]->0 <= d@[graph.arc_from(i)]->0 + graph.cost(i) by {
                        graph.lemma_arc(i);
                    }
                }
            } else {
                assert forall|v: int, q: Seq<int>|
                    0 <= v < n && #[trigger] walk_by(graph, pos_fwd(graph), q, s as int, v) && q.len() <= r + 1 implies d@[v] is Some
                        && d@[v]->0 <= cost_by(arc_costs(graph), q) by {
                    if q.len() <= r {
                        assert(prev[v] is Some);
                    } else {
                        let l = q.len() - 1;
                        lemma_split_by(graph, ok, cst, q, s as int, v, l);
                        lemma_arcs_by(graph, ok, q, s as int, v);
                        let w = walk_node(graph, q, s as int, l);
                        let q1 = q.subrange(0, l);
                        let q2 = q.subrange(l, q.len() as int);
                        assert(walk_by(graph, ok, q1, s as int, w));
                        assert(q1.len() <= r);
                        if l > 0 {
                            graph.lemma_arc(q[l - 1]);
                        }
                        assert(prev[w] is Some);
                        assert(q2[0] == q[l]);
                        let i = q[l];
                        graph.lemma_arc(i);
                        assert(graph.arc_from(i) == w);
                        assert(q2.drop_first().len() == 0);
                        assert(graph.arc_to(i) == v);
                        assert(cost_by(cst, q2) == cst(i) + cost_by(cst, q2.drop_first()));
                    }
                }
            }
        }
        settled = !updated;
        r += 1;
    }
    proof {
        if !settled {
            assert(r == rounds);
        }
        // the triangle inequality holds in either case
        assert(bf_triangle(graph, d@)) by {
            if !settled {
                assert forall|i: int|
                    0 <= i < m && i % 2 == 0 && graph.cap(i) > 0 && #[trigger] d@[graph.arc_from(i)] is Some implies d@[graph.arc_to(i)] is Some
                        && d@[graph.arc_to(i)]->0 <= d@[graph.arc_from(i)]->0 + graph.cost(i) by {
                    graph.lemma_arc(i);
                    let u = graph.arc_from(i);
                    let v = graph.arc_to(i);
                    lemma_extend_by(graph, ok, cst, wit[u], s as int, u, i);
                    let pw = wit[u].push(i);
                    lemma_short_by(graph, ok, cst, s as int, pw, v);
                    let q = choose|q: Seq<int>|
                        #[trigger] walk_by(graph, ok, q, s as int, v) && q.len() < graph.n() && cost_by(cst, q) <= cost_by(cst, pw);
                    assert(q.len() <= n - 1);
                }
            }
        }
        // the source keeps label zero
        assert(walk_by(graph, ok, wit[s as int], s as int, s as int));
        if d@[s as int]->0 < 0 {
            assert(walk_by(graph, ok, Seq::<int>::empty(), s as int, s as int));
            assert(neg_cycle_by(graph, ok, cst, s as int));
        }
    }
    let mut pi: Vec<i128> = Vec::new();
    let mut v: usize = 0;
    while v < n
        invariant
            graph.wf(),
            n == graph.n(),
            s == source.0,
            s < n,
            ok == pos_fwd(graph),
            cst == arc_costs(graph),
            kk == cost_cap(),
            !neg_cycle_by(graph, ok, cst, s as int),
            d@.len() == n,
            bf_witnessed(graph, d@, wit, s as int),
            bf_capped(d@),
            v <= n,
            pi@.len() == v,
            forall|w: int| 0 <= w < v ==> #[trigger] pi@[w] == match d@[w] {
                Some(x) => x,
                None => 0,
            },
        decreases n - v,
    {
        let x = match d[v] {
            Some(x) => x,
            None => 0,
        };
        pi.push(x);
        v += 1;
    }
    proof {
        assert forall|w: int| 0 <= w < n implies -((n - 1) * cost_cap()) <= #[trigger] pi@[w] <= (n - 1) * cost_cap() by {
            if d@[w] is Some {
                lemma_walk_floor(graph, s as int, wit[w], w);
                lemma_one_labelled(d@, w);
                assert((n - unlabelled(d@) - 1) * kk <= (n - 1) * kk) by (nonlinear_arith)
                    requires
                        unlabelled(d@) >= 0,
                        kk >= 0,
                ;
            } else {
                assert((n - 1) * kk >= 0) by (nonlinear_arith)
                    requires
                        n >= 1,
                        kk >= 0,
                ;
            }
        }
        assert forall|i: int|
            0 <= i < graph.m() && i % 2 == 0 && graph.cap(i) > 0 && #[trigger] reach_by(
                graph,
                pos_fwd(graph),
                source.0 as int,
                graph.arc_from(i),
            ) implies pi@[graph.arc_to(i)] <= pi@[graph.arc_from(i)] + graph.cost(i) by {
            graph.lemma_arc(i);
            let u = graph.arc_from(i);
            let p = choose|p: Seq<int>| #[trigger] walk_by(graph, pos_fwd(graph), p, s as int, u);
            lemma_walk_floor_label(graph, d@, s as int, p, u);
            assert(d@[u] is Some);
        }
    }
    pi
}

/// Along a walk from `s`, the triangle inequality carries a label from `s`
/// to the end of the walk.
proof fn lemma_walk_floor_label(g: &DiGraph, d: Seq<Option<i128>>, s: int, p: Seq<int>, v: int)
    requires
        g.wf(),
        d.len() == g.n(),
        0 <= s < g.n(),
        d[s] is Some,
        walk_by(g, pos_fwd(g), p, s, v),
        bf_triangle(g, d),
    ensures
        d[v] is Some,
    decreases p.len(),
{
    if p.len() > 0 {
        let i = p[0];
        g.lemma_arc(i);
        assert(d[g.arc_from(i)] is Some);
        lemma_walk_floor_label(g, d, g.arc_to(i), p.drop_first(), v);
    }
}


/// Potentials bounded by `(n - 1)` times the cost cap, with the source at zero.
pub open spec fn potentials_ok(g: &DiGraph, pi: Seq<i128>, s: int) -> bool {
    &&& pi.len() == g.n()
    &&& pi[s] == 0
    &&& forall|v: int| 0 <= v < g.n() ==> -((g.n() - 1) * cost_cap()) <= #[trigger] pi[v] <= (g.n() - 1) * cost_cap()
}

/// Every residual arc leaving a node reachable from `s` has a non-negative
/// reduced cost.
pub open spec fn reduced_ok(g: &DiGraph, f: Seq<i64>, pi: Seq<i128>, s: int) -> bool {
    forall|i: int|
        0 <= i < g.m() && rcap(g, f, i) > 0 && #[trigger] reach_by(g, resid(g, f), s, g.arc_from(i)) ==> rc(g, pi, i) >= 0
}

/// Arc `i` is the predecessor arc of `v`: a residual arc into `v` from a
/// labelled node built earlier, and tight under the reduced costs.
pub open spec fn tree_arc(g: &DiGraph, f: Seq<i64>, pi: Seq<i128>, dist: Seq<Option<i128>>, rank: Seq<int>, v: int, i: int) -> bool {
    &&& 0 <= i < g.m()
    &&& rcap(g, f, i) > 0
    &&& g.arc_to(i) == v
    &&& dist[g.arc_from(i)] is Some
    &&& 0 <= rank[g.arc_from(i)] < rank[v]
    &&& dist[v] is Some
    &&& dist[v]->0 == dist[g.arc_from(i)]->0 + rc(g, pi, i)
}

/// `dist` holds the shortest reduced-cost distances from `s` in the
/// residual graph of `f`: exactly the reachable nodes are labelled, every
/// label is attained by a walk of at most `n - 1` arcs, and the labels
/// satisfy the triangle inequality on every residual arc.
pub open spec fn sp_labels(g: &DiGraph, f: Seq<i64>, pi: Seq<i128>, s: int, dist: Seq<Option<i128>>) -> bool {
    &&& dist.len() == g.n()
    &&& dist[s] == Some(0i128)
    &&& forall|v: int| 0 <= v < g.n() ==> (#[trigger] dist[v] is Some <==> reach_by(g, resid(g, f), s, v))
    &&& forall|i: int|
        0 <= i < g.m() && rcap(g, f, i) > 0 && #[trigger] dist[g.arc_from(i)] is Some ==> dist[g.arc_to(i)] is Some
            && dist[g.arc_to(i)]->0 <= dist[g.arc_from(i)]->0 + rc(g, pi, i)
    &&& forall|v: int|
        0 <= v < g.n() && #[trigger] dist[v] is Some ==> exists|w: Seq<int>|
            #[trigger] walk_by(g, resid(g, f), w, s, v) && w.len() <= g.n() - 1 && cost_by(reduced(g, pi), w) == dist[v]->0
}

/// `pred` is a shortest-path tree for the labels `dist`, built in the order
/// `rank`.
pub open spec fn sp_tree(g: &DiGraph, f: Seq<i64>, pi: Seq<i128>, s: int, dist: Seq<Option<i128>>, pred: Seq<Option<usize>>, rank: Seq<int>) -> bool {
    &&& pred.len() == g.n()
    &&& rank.len() == g.n()
    &&& pred[s] is None
    &&& forall|v: int| 0 <= v < g.n() && v != s && #[trigger] dist[v] is Some ==> pred[v] is Some
    &&& forall|v: int| 0 <= v < g.n() && #[trigger] pred[v] is Some ==> tree_arc(g, f, pi, dist, rank, v, pred[v]->0 as int)
    &&& forall|v: int| 0 <= v < g.n() ==> #[trigger] rank[v] >= 0
}

/// Labels propagate along residual arcs, so every node on a residual walk
/// from a labelled node is labelled.
proof fn lemma_reach_labelled(g: &DiGraph, f: Seq<i64>, dist: Seq<Option<i128>>, u: int, p: Seq<int>, v: int)
    requires
        g.wf(),
        dist.len() == g.n(),
        0 <= u < g.n(),
        dist[u] is Some,
        walk_by(g, resid(g, f), p, u, v),
        forall|i: int| 0 <= i < g.m() && rcap(g, f, i) > 0 && #[trigger] dist[g.arc_from(i)] is Some ==> dist[g.arc_to(i)] is Some,
    ensures
        dist[v] is Some,
    decreases p.len(),
{
    if p.len() > 0 {
        let i = p[0];
        g.lemma_arc(i);
        assert(dist[g.arc_from(i)] is Some);
        lemma_reach_labelled(g, f, dist, g.arc_to(i), p.drop_first(), v);
    }
}

/// Arc costs lie within the cost cap.
pub proof fn lemma_costs_capped(g: &DiGraph, ok: spec_fn(int) -> bool)
    requires
        g.wf(),
    ensures
        forall|i: int| 0 <= i < g.m() && ok(i) ==> -cost_cap() <= #[trigger] arc_costs(g)(i) <= cost_cap(),
{
    assert forall|i: int| 0 <= i < g.m() && ok(i) implies -cost_cap() <= #[trigger] arc_costs(g)(i) <= cost_cap() by {
        g.lemma_arc(i);
        if i % 2 == 1 {
            g.lemma_arc(i - 1);
            assert(crate::sums::twin(i) == i - 1);
        }
    }
}

/// Dijkstra over the residual graph with reduced costs `pi`.  Returns the
/// labels, the predecessor arcs, and (as a ghost) the order in which the
/// predecessor tree was built.
#[verifier::rlimit(100)]
#[verifier::spinoff_prover]
fn dijkstra(res: &ResidualGraph, source: NodeId, pi: &Vec<i128>, n: usize) -> (r: (
    Vec<Option<i128>>,
    Vec<Option<usize>>,
    Ghost<Seq<int>>,
))
    requires
        res.graph.wf(),
        flow_bounded(res.graph, res.flow@),
        n == res.graph.n(),
        (source.0 as int) < n,
        potentials_ok(res.graph, pi@, source.0 as int),
        reduced_ok(res.graph, res.flow@, pi@, source.0 as int),
    ensures
        sp_labels(res.graph, res.flow@, pi@, source.0 as int, r.0@),
        sp_tree(res.graph, res.flow@, pi@, source.0 as int, r.0@, r.1@, r.2@),
{
    let g = res.graph;
    let s = source.0 as usize;
    let ghost f = res.flow@;
    let ghost ok = resid(g, f);
    let ghost cst = reduced(g, pi@);
    let ghost kk = cost_cap();
    let mut dist: Vec<Option<i128>> = Vec::new();
    let mut pred: Vec<Option<usize>> = Vec::new();
    let mut done: Vec<bool> = Vec::new();
    let mut k: usize = 0;
    while k < n
        invariant
            k <= n,
            dist.len() == k,
            pred.len() == k,
            done.len() == k,
            forall|w: int| 0 <= w < k ==> #[trigger] dist@[w] is None,
            forall|w: int| 0 <= w < k ==> #[trigger] pred@[w] is None,
            forall|w: int| 0 <= w < k ==> !#[trigger] done@[w],
        decreases n - k,
    {
        dist.push(None);
        pred.push(None);
        done.push(false);
        k += 1;
    }
    dist.set(s, Some(0));
    let ghost undone = |b: bool| !b;
    let ghost mut wit: Seq<Seq<int>> = Seq::new(n as nat, |v: int| Seq::<int>::empty());
    let ghost mut rank: Seq<int> = Seq::new(n as nat, |v: int| 0int);
    proof {
        crate::sums::lemma_count_all(done@, undone);
        assert(walk_by(g, ok, Seq::<int>::empty(), s as int, s as int));
        assert(cost_by(cst, Seq::<int>::empty()) == 0);
        assert forall|v: int| 0 <= v < n && v != s && #[trigger] dist@[v] is Some implies pred@[v] is Some by {
            assert(dist@[v] is None);
        }
        assert forall|v: int|
            0 <= v < n && #[trigger] dist@[v] is Some implies walk_by(g, ok, wit[v], s as int, v) && cost_by(cst, wit[v])
                == dist@[v]->0 && wit[v].len() <= n - count_where(done@, undone) by {
            assert(v == s);
        }
        assert forall|i: int|
            0 <= i < g.m() && rcap(g, f, i) > 0 && #[trigger] done@[g.arc_from(i)] implies dist@[g.arc_to(i)] is Some
                && dist@[g.arc_to(i)]->0 <= dist@[g.arc_from(i)]->0 + rc(g, pi@, i) by {
            g.lemma_arc(i);
        }
        lemma_costs_capped(g, ok);
    }
    loop
        invariant
            g.wf(),
            g == res.graph,
            f == res.flow@,
            flow_bounded(g, f),
            ok == resid(g, f),
            cst == reduced(g, pi@),
            kk == cost_cap(),
            n == g.n(),
            s == source.0,
            s < n,
            potentials_ok(g, pi@, s as int),
            reduced_ok(g, f, pi@, s as int),
            forall|i: int| 0 <= i < g.m() && ok(i) ==> -cost_cap() <= #[trigger] arc_costs(g)(i) <= cost_cap(),
            dist.len() == n,
            pred.len() == n,
            done.len() == n,
            rank.len() == n,
            wit.len() == n,
            undone == (|b: bool| !b),
            dist@[s as int] == Some(0i128),
            pred@[s as int] is None,
            count_where(done@, undone) <= n,
            forall|a: int| 0 <= a < n && #[trigger] done@[a] ==> dist@[a] is Some,
            forall|a: int, b: int|
                0 <= a < n && 0 <= b < n && #[trigger] done@[a] && !done@[b] && #[trigger] dist@[b] is Some ==> dist@[a]->0
                    <= dist@[b]->0,
            forall|i: int|
                0 <= i < g.m() && rcap(g, f, i) > 0 && #[trigger] done@[g.arc_from(i)] ==> dist@[g.arc_to(i)] is Some
                    && dist@[g.arc_to(i)]->0 <= dist@[g.arc_from(i)]->0 + rc(g, pi@, i),
            forall|v: int|
                0 <= v < n && #[trigger] pred@[v] is Some ==> tree_arc(g, f, pi@, dist@, rank, v, pred@[v]->0 as int)
                    && done@[g.arc_from(pred@[v]->0 as int)],
            forall|v: int| 0 <= v < n && v != s && #[trigger] dist@[v] is Some ==> pred@[v] is Some,
            forall|v: int| 0 <= v < n ==> #[trigger] rank[v] >= 0,
            forall|v: int|
                0 <= v < n && #[trigger] dist@[v] is Some ==> walk_by(g, ok, wit[v], s as int, v) && cost_by(cst, wit[v])
                    == dist@[v]->0 && wit[v].len() <= n - count_where(done@, undone),
            forall|v: int|
                0 <= v < n && #[trigger] dist@[v] is Some && !done@[v] ==> wit[v].len() <= n - 1,
            forall|v: int| 0 <= v < n && #[trigger] done@[v] ==> wit[v].len() <= n - 1,
            forall|v: int| 0 <= v < n && #[trigger] dist@[v] is Some ==> dist@[v]->0 >= 0,
        ensures
            forall|w: int| 0 <= w < n && #[trigger] dist@[w] is Some ==> done@[w],
        decreases count_where(done@, undone),
    {
        // select the unsettled node of least label (lowest index on ties)
        let mut best: Option<usize> = None;
        let mut v: usize = 0;
        while v < n
            invariant
                n == dist.len(),
                n == done.len(),
                v <= n,
                best matches Some(b) ==> b < v && !done@[b as int] && dist@[b as int] is Some,
                best is None ==> forall|w: int| 0 <= w < v ==> done@[w] || dist@[w] is None,
                best matches Some(b) ==> forall|w: int|
                    0 <= w < v && !done@[w] && #[trigger] dist@[w] is Some ==> dist@[b as int]->0 <= dist@[w]->0,
            decreases n - v,
        {
            if !done[v] {
                match dist[v] {
                    Some(d) => {
                        match best {
                            None => {
                                best = Some(v);
                            },
                            Some(b) => {
                                let db = dist[b].unwrap();
                                if d < db {
                                    best = Some(v);
                                }
                            },
                        }
                    },
                    None => {},
                }
            }
            v += 1;
        }
        match best {
            None => {
                break;
            },
            Some(u) => {
                let du = dist[u].unwrap();
                let ghost c0 = count_where(done@, undone);
                proof {
                    lemma_count_update(done@, undone, u as int, true);
                    lemma_count_le(done@, undone);
                }
                let ghost dn0 = done@;
                done.set(u, true);
                proof {
                    assert forall|i: int|
                        0 <= i < g.m() && rcap(g, f, i) > 0 && #[trigger] done@[g.arc_from(i)] && g.arc_from(i) != u implies dist@[g.arc_to(
                            i,
                        )] is Some && dist@[g.arc_to(i)]->0 <= dist@[g.arc_from(i)]->0 + rc(g, pi@, i) by {
                        g.lemma_arc(i);
                        assert(dn0[g.arc_from(i)]);
                    }
                    assert forall|v2: int| 0 <= v2 < n && #[trigger] pred@[v2] is Some implies done@[g.arc_from(
                        pred@[v2]->0 as int,
                    )] by {
                        let i = pred@[v2]->0 as int;
                        g.lemma_arc(i);
                        assert(dn0[g.arc_from(i)]);
                    }
                    // the settled node is reachable, so its residual arcs have non-negative reduced cost
                    assert(walk_by(g, ok, wit[u as int], s as int, u as int));
                    assert(reach_by(g, resid(g, f), s as int, u as int));
                    lemma_reduced_walk(g, ok, pi@, wit[u as int], s as int, u as int);
                    lemma_cost_bound_by(g, ok, arc_costs(g), wit[u as int], s as int, u as int, kk);
                    assert(wit[u as int].len() * kk <= n * kk) by (nonlinear_arith)
                        requires
                            wit[u as int].len() <= n,
                            kk >= 0,
                    ;
                    assert forall|i: int| 0 <= i < g.m() && rcap(g, f, i) > 0 && g.arc_from(i) == u implies #[trigger] rc(g, pi@, i) >= 0 by {
                        assert(reach_by(g, resid(g, f), s as int, g.arc_from(i)));
                    }
                }
                let a = &g.adj[u];
                let mut j: usize = 0;
                while j < a.len()
                    invariant
                        g.wf(),
                        g == res.graph,
                        f == res.flow@,
                        flow_bounded(g, f),
                        ok == resid(g, f),
                        cst == reduced(g, pi@),
                        kk == cost_cap(),
                        n == g.n(),
                        s == source.0,
                        s < n,
                        potentials_ok(g, pi@, s as int),
                        forall|i: int| 0 <= i < g.m() && rcap(g, f, i) > 0 && g.arc_from(i) == u ==> #[trigger] rc(g, pi@, i) >= 0,
                        dist.len() == n,
                        pred.len() == n,
                        done.len() == n,
                        rank.len() == n,
                        wit.len() == n,
                        u < n,
                        done@[u as int],
                        dist@[u as int] == Some(du),
                        -(n * kk) - 2 * ((n - 1) * kk) <= du <= n * kk + 2 * ((n - 1) * kk),
                        a == &g.adj[u as int],
                        j <= a.len(),
                        undone == (|b: bool| !b),
                        dist@[s as int] == Some(0i128),
                        pred@[s as int] is None,
                        count_where(done@, undone) + 1 == c0,
                        c0 <= n,
                        wit[u as int].len() <= n - c0,
                        forall|a2: int| 0 <= a2 < n && #[trigger] done@[a2] ==> dist@[a2] is Some,
                        forall|a2: int| 0 <= a2 < n && #[trigger] done@[a2] ==> dist@[a2]->0 <= du,
                        forall|b: int| 0 <= b < n && !done@[b] && #[trigger] dist@[b] is Some ==> du <= dist@[b]->0,
                        forall|i: int|
                            0 <= i < g.m() && rcap(g, f, i) > 0 && #[trigger] done@[g.arc_from(i)] && g.arc_from(i) != u
                                ==> dist@[g.arc_to(i)] is Some && dist@[g.arc_to(i)]->0 <= dist@[g.arc_from(i)]->0 + rc(g, pi@, i),
                        forall|x: int|
                            0 <= x < j && rcap(g, f, #[trigger] a[x] as int) > 0 ==> dist@[g.arc_to(a[x] as int)] is Some
                                && dist@[g.arc_to(a[x] as int)]->0 <= du + rc(g, pi@, a[x] as int),
                        forall|v2: int|
                            0 <= v2 < n && #[trigger] pred@[v2] is Some ==> tree_arc(g, f, pi@, dist@, rank, v2, pred@[v2]->0 as int)
                                && done@[g.arc_from(pred@[v2]->0 as int)],
                        forall|v2: int| 0 <= v2 < n && v2 != s && #[trigger] dist@[v2] is Some ==> pred@[v2] is Some,
                        forall|v2: int| 0 <= v2 < n ==> #[trigger] rank[v2] >= 0,
                        forall|v2: int|
                            0 <= v2 < n && #[trigger] dist@[v2] is Some ==> walk_by(g, ok, wit[v2], s as int, v2) && cost_by(
                                cst,
                                wit[v2],
                            ) == dist@[v2]->0 && wit[v2].len() <= n - count_where(done@, undone),
                        forall|v2: int|
                            0 <= v2 < n && #[trigger] dist@[v2] is Some && !done@[v2] ==> wit[v2].len() <= n - 1,
                        forall|v2: int| 0 <= v2 < n && #[trigger] done@[v2] ==> wit[v2].len() <= n - 1,
                        forall|v2: int| 0 <= v2 < n && #[trigger] dist@[v2] is Some ==> dist@[v2]->0 >= 0,
                    decreases a.len() - j,
                {
                    proof {
                        g.lemma_adj(u as int, j as int);
                        g.lemma_arc(a[j as int] as int);
                        lemma_rcap_range(g, f, a[j as int] as int);
                    }
                    let idx = a[j];
                    if res.residual_capacity(idx) > 0 {
                        let v = g.edges[idx].to.0 as usize;
                        proof {
                            assert(rc(g, pi@, idx as int) >= 0);
                        }
                        let red = res.edge_cost(idx) as i128 + pi[u] - pi[v];
                        let nd = du + red;
                        let improve = match dist[v] {
                            None => true,
                            Some(dv) => nd < dv,
                        };
                        if improve {
                            let ghost d0 = dist@;
                            let ghost p0 = pred@;
                            proof {
                                assert(!done@[v as int]) by {
                                    if done@[v as int] {
                                        assert(d0[v as int]->0 <= du);
                                    }
                                }
                                assert(v != s);
                            }
                            dist.set(v, Some(nd));
                            pred.set(v, Some(idx));
                            proof {
                                let ghost rk0 = rank;
                                rank = rank.update(v as int, rank[u as int] + 1);
                                lemma_extend_by(g, ok, cst, wit[u as int], s as int, u as int, idx as int);
                                wit = wit.update(v as int, wit[u as int].push(idx as int));
                                assert forall|v2: int|
                                    0 <= v2 < n && #[trigger] pred@[v2] is Some implies tree_arc(g, f, pi@, dist@, rank, v2, pred@[v2]->0 as int)
                                        && done@[g.arc_from(pred@[v2]->0 as int)] by {
                                    if v2 != v as int {
                                        assert(p0[v2] is Some);
                                        let i = p0[v2]->0 as int;
                                        assert(tree_arc(g, f, pi@, d0, rk0, v2, i));
                                        g.lemma_arc(i);
                                        assert(g.arc_from(i) != v as int);
                                    }
                                }
                                assert forall|i: int|
                                    0 <= i < g.m() && rcap(g, f, i) > 0 && #[trigger] done@[g.arc_from(i)] && g.arc_from(i) != u implies dist@[g.arc_to(
                                        i,
                                    )] is Some && dist@[g.arc_to(i)]->0 <= dist@[g.arc_from(i)]->0 + rc(g, pi@, i) by {
                                    g.lemma_arc(i);
                                    assert(g.arc_from(i) != v as int);
                                    assert(d0[g.arc_to(i)] is Some);
                                }
                                assert forall|x: int|
                                    0 <= x < j + 1 && rcap(g, f, #[trigger] a[x] as int) > 0 implies dist@[g.arc_to(a[x] as int)] is Some
                                        && dist@[g.arc_to(a[x] as int)]->0 <= du + rc(g, pi@, a[x] as int) by {
                                    g.lemma_adj(u as int, x);
                                    g.lemma_arc(a[x] as int);
                                    if x < j {
                                        assert(d0[g.arc_to(a[x] as int)] is Some);
                                        if g.arc_to(a[x] as int) == v as int {
                                            assert(nd < d0[v as int]->0);
                                        }
                                    }
                                }
                                assert forall|v2: int|
                                    0 <= v2 < n && #[trigger] dist@[v2] is Some implies walk_by(g, ok, wit[v2], s as int, v2) && cost_by(
                                        cst,
                                        wit[v2],
                                    ) == dist@[v2]->0 && wit[v2].len() <= n - count_where(done@, undone) by {
                                    if v2 != v as int {
                                        assert(d0[v2] is Some);
                                    }
                                }
                                assert forall|v2: int|
                                    0 <= v2 < n && #[trigger] dist@[v2] is Some && !done@[v2] implies wit[v2].len() <= n - 1 by {
                                    if v2 != v as int {
                                        assert(d0[v2] is Some);
                                    } else {
                                        assert(count_where(done@, undone) >= 1) by {
                                            crate::sums::lemma_count_pos(done@, undone, v as int);
                                        }
                                    }
                                }
                            }
                        } else {
                            proof {
                                assert forall|x: int|
                                    0 <= x < j + 1 && rcap(g, f, #[trigger] a[x] as int) > 0 implies dist@[g.arc_to(a[x] as int)] is Some
                                        && dist@[g.arc_to(a[x] as int)]->0 <= du + rc(g, pi@, a[x] as int) by {
                                    g.lemma_adj(u as int, x);
                                }
                            }
                        }
                    } else {
                        proof {
                            assert forall|x: int|
                                0 <= x < j + 1 && rcap(g, f, #[trigger] a[x] as int) > 0 implies dist@[g.arc_to(a[x] as int)] is Some
                                    && dist@[g.arc_to(a[x] as int)]->0 <= du + rc(g, pi@, a[x] as int) by {
                                g.lemma_adj(u as int, x);
                            }
                        }
                    }
                    j += 1;
                }
                proof {
                    assert forall|i: int|
                        0 <= i < g.m() && rcap(g, f, i) > 0 && #[trigger] done@[g.arc_from(i)] implies dist@[g.arc_to(i)] is Some
                            && dist@[g.arc_to(i)]->0 <= dist@[g.arc_from(i)]->0 + rc(g, pi@, i) by {
                        if g.arc_from(i) == u as int {
                            g.lemma_arc(i);
                            assert(g.adj[u as int]@.contains(i as usize));
                            let x = choose|x: int| 0 <= x < a.len() && a[x] == i as usize;
                            assert(rcap(g, f, a[x] as int) > 0);
                        }
                    }
                }
            },
        }
    }
    proof {
        assert forall|i: int|
            0 <= i < g.m() && rcap(g, f, i) > 0 && #[trigger] dist@[g.arc_from(i)] is Some implies dist@[g.arc_to(i)] is Some
                && dist@[g.arc_to(i)]->0 <= dist@[g.arc_from(i)]->0 + rc(g, pi@, i) by {
            g.lemma_arc(i);
            assert(done@[g.arc_from(i)]);
        }
        assert forall|v: int| 0 <= v < n implies (#[trigger] dist@[v] is Some <==> reach_by(g, resid(g, f), s as int, v)) by {
            if dist@[v] is Some {
                assert(walk_by(g, resid(g, f), wit[v], s as int, v));
            }
            if reach_by(g, resid(g, f), s as int, v) {
                let p = choose|p: Seq<int>| #[trigger] walk_by(g, resid(g, f), p, s as int, v);
                lemma_reach_labelled(g, f, dist@, s as int, p, v);
            }
        }
        assert forall|v: int| 0 <= v < n && #[trigger] dist@[v] is Some implies exists|w: Seq<int>|
            #[trigger] walk_by(g, resid(g, f), w, s as int, v) && w.len() <= n - 1 && cost_by(reduced(g, pi@), w)
                == dist@[v]->0 by {
            assert(done@[v]);
            assert(walk_by(g, resid(g, f), wit[v], s as int, v));
        }
    }
    (dist, pred, Ghost(rank))
}


/// `path` lists, in order from `s` to `t`, the predecessor arcs met when
/// walking back from `t`; the build order `rank` increases along it.
pub open spec fn pred_path(g: &DiGraph, prev: Seq<Option<usize>>, rank: Seq<int>, path: Seq<usize>, s: int, t: int) -> bool {
    &&& path.len() >= 1
    &&& g.arc_from(path[0] as int) == s
    &&& g.arc_to(path[path.len() - 1] as int) == t
    &&& forall|k: int|
        0 <= k < path.len() ==> 0 <= #[trigger] path[k] < g.m() && prev[g.arc_to(path[k] as int)] == Some(path[k])
            && rank[g.arc_from(path[k] as int)] < rank[g.arc_to(path[k] as int)]
    &&& forall|k: int| 0 <= k < path.len() - 1 ==> g.arc_to(#[trigger] path[k] as int) == g.arc_from(path[k + 1] as int)
    &&& forall|k1: int, k2: int|
        0 <= k1 < k2 < path.len() ==> rank[g.arc_to(#[trigger] path[k1] as int)] <= rank[g.arc_from(#[trigger] path[k2] as int)]
}

/// Trace predecessor arcs from sink to source, returning arc indices in
/// forward order.
fn trace_back(
    prev: &Vec<Option<usize>>,
    rank: Ghost<Seq<int>>,
    dist: Ghost<Seq<Option<i128>>>,
    graph: &DiGraph,
    source: NodeId,
    sink: NodeId,
) -> (path: Vec<usize>)
    requires
        graph.wf(),
        prev@.len() == graph.n(),
        rank@.len() == graph.n(),
        dist@.len() == graph.n(),
        (source.0 as int) < graph.n(),
        (sink.0 as int) < graph.n(),
        source != sink,
        dist@[sink.0 as int] is Some,
        forall|v: int| 0 <= v < graph.n() && v != source.0 && #[trigger] dist@[v] is Some ==> prev@[v] is Some,
        forall|v: int|
            0 <= v < graph.n() && #[trigger] prev@[v] is Some ==> {
                let i = prev@[v]->0 as int;
                &&& 0 <= i < graph.m()
                &&& graph.arc_to(i) == v
                &&& dist@[graph.arc_from(i)] is Some
                &&& 0 <= rank@[graph.arc_from(i)] < rank@[v]
            },
    ensures
        pred_path(graph, prev@, rank@, path@, source.0 as int, sink.0 as int),
{
    let s = source.0 as usize;
    let t = sink.0 as usize;
    let ghost rk = rank@;
    let ghost d = dist@;
    // arcs collected from the sink backwards
    let mut back: Vec<usize> = Vec::new();
    let mut cur = t;
    while cur != s
        invariant
            graph.wf(),
            prev@.len() == graph.n(),
            rk.len() == graph.n(),
            d.len() == graph.n(),
            s == source.0,
            t == sink.0,
            s < graph.n(),
            cur < graph.n(),
            d[cur as int] is Some,
            forall|v: int| 0 <= v < graph.n() && v != source.0 && #[trigger] d[v] is Some ==> prev@[v] is Some,
            forall|v: int|
                0 <= v < graph.n() && #[trigger] prev@[v] is Some ==> {
                    let i = prev@[v]->0 as int;
                    &&& 0 <= i < graph.m()
                    &&& graph.arc_to(i) == v
                    &&& d[graph.arc_from(i)] is Some
                    &&& 0 <= rk[graph.arc_from(i)] < rk[v]
                },
            back@.len() == 0 ==> cur == t,
            back@.len() > 0 ==> graph.arc_to(back@[0] as int) == t && graph.arc_from(back@[back@.len() - 1] as int) == cur,
            forall|k: int|
                0 <= k < back@.len() ==> 0 <= #[trigger] back@[k] < graph.m() && prev@[graph.arc_to(back@[k] as int)] == Some(back@[k])
                    && rk[graph.arc_from(back@[k] as int)] < rk[graph.arc_to(back@[k] as int)],
            forall|k: int| 0 <= k < back@.len() - 1 ==> graph.arc_from(#[trigger] back@[k] as int) == graph.arc_to(back@[k + 1] as int),
            forall|k1: int, k2: int|
                0 <= k1 < k2 < back@.len() ==> rk[graph.arc_from(#[trigger] back@[k1] as int)] >= rk[graph.arc_to(#[trigger] back@[k2] as int)],
            forall|k: int| 0 <= k < back@.len() ==> rk[cur as int] <= rk[graph.arc_from(#[trigger] back@[k] as int)],
        decreases rk[cur as int],
    {
        match prev[cur] {
            None => {
                return Vec::new();
            },
            Some(arc) => {
                proof {
                    graph.lemma_arc(arc as int);
                }
                let ghost b0 = back@;
                back.push(arc);
                cur = graph.edges[arc].from.0 as usize;
                proof {
                    assert forall|k1: int, k2: int|
                        0 <= k1 < k2 < back@.len() implies rk[graph.arc_from(#[trigger] back@[k1] as int)] >= rk[graph.arc_to(#[trigger] back@[k2] as int)] by {
                        if k2 == back@.len() - 1 {
                            assert(rk[graph.arc_to(arc as int)] <= rk[graph.arc_from(b0[k1] as int)]);
                        }
                    }
                }
            },
        }
    }
    let len = back.len();
    let mut path: Vec<usize> = Vec::new();
    let mut j: usize = 0;
    while j < len
        invariant
            len == back@.len(),
            j <= len,
            path@.len() == j,
            forall|k: int| 0 <= k < j ==> #[trigger] path@[k] == back@[len - 1 - k],
        decreases len - j,
    {
        path.push(back[len - 1 - j]);
        j += 1;
    }
    proof {
        assert(len >= 1);
        assert forall|k: int|
            0 <= k < path@.len() implies 0 <= #[trigger] path@[k] < graph.m() && prev@[graph.arc_to(path@[k] as int)] == Some(path@[k])
                && rk[graph.arc_from(path@[k] as int)] < rk[graph.arc_to(path@[k] as int)] by {
            assert(path@[k] == back@[len - 1 - k]);
        }
        assert forall|k: int| 0 <= k < path@.len() - 1 implies graph.arc_to(#[trigger] path@[k] as int) == graph.arc_from(path@[k + 1] as int) by {
            assert(path@[k] == back@[len - 1 - k]);
            assert(path@[k + 1] == back@[(len - 1 - (k + 1))]);
            assert(len - 1 - k == (len - 1 - (k + 1)) + 1);
        }
        assert forall|k1: int, k2: int|
            0 <= k1 < k2 < path@.len() implies rk[graph.arc_to(#[trigger] path@[k1] as int)] <= rk[graph.arc_from(#[trigger] path@[k2] as int)] by {
            assert(path@[k1] == back@[len - 1 - k1]);
            assert(path@[k2] == back@[len - 1 - k2]);
        }
        assert(path@[0] == back@[len - 1]);
        assert(path@[len - 1] == back@[0]);
    }
    path
}


/// Arc `i` lies on `path`.
pub open spec fn on_path(path: Seq<usize>, i: int) -> bool {
    exists|k: int| 0 <= k < path.len() && path[k] == i
}

/// The arcs of a predecessor path are distinct, and no arc of it is the
/// partner of another.
proof fn lemma_path_arcs_distinct(g: &DiGraph, prev: Seq<Option<usize>>, rank: Seq<int>, path: Seq<usize>, s: int, t: int, k1: int, k2: int)
    requires
        g.wf(),
        pred_path(g, prev, rank, path, s, t),
        0 <= k1 < path.len(),
        0 <= k2 < path.len(),
    ensures
        k1 != k2 ==> path[k1] != path[k2],
        path[k1] != twin(path[k2] as int),
{
    g.lemma_arc(path[k1] as int);
    g.lemma_arc(path[k2] as int);
    if k1 < k2 {
        assert(rank[g.arc_to(path[k1] as int)] <= rank[g.arc_from(path[k2] as int)]);
    } else if k2 < k1 {
        assert(rank[g.arc_to(path[k2] as int)] <= rank[g.arc_from(path[k1] as int)]);
    } else {
        assert(path[k1] as int != twin(path[k1] as int));
    }
}

/// After pushing along a shortest path and adding the labels to the
/// potentials, the potentials stay bounded and reduced costs stay
/// non-negative on the residual arcs leaving reachable nodes.
proof fn lemma_after_augment(
    g: &DiGraph,
    f: Seq<i64>,
    f2: Seq<i64>,
    pi: Seq<i128>,
    pi2: Seq<i128>,
    dist: Seq<Option<i128>>,
    pred: Seq<Option<usize>>,
    rank: Seq<int>,
    path: Seq<usize>,
    s: int,
    t: int,
    b: int,
)
    requires
        g.wf(),
        flow_bounded(g, f),
        flow_bounded(g, f2),
        0 <= s < g.n(),
        0 <= t < g.n(),
        potentials_ok(g, pi, s),
        reduced_ok(g, f, pi, s),
        sp_labels(g, f, pi, s, dist),
        sp_tree(g, f, pi, s, dist, pred, rank),
        pred_path(g, pred, rank, path, s, t),
        b >= 1,
        forall|i: int| 0 <= i < g.m() && #[trigger] f2[i] < f[i] ==> on_path(path, twin(i)),
        pi2.len() == g.n(),
        forall|v: int|
            0 <= v < g.n() ==> #[trigger] pi2[v] == match dist[v] {
                Some(d) => pi[v] + d,
                None => pi[v] as int,
            },
    ensures
        potentials_ok(g, pi2, s),
        reduced_ok(g, f2, pi2, s),
        forall|i: int|
            0 <= i < g.m() && rcap(g, f2, i) > 0 && #[trigger] dist[g.arc_from(i)] is Some ==> dist[g.arc_to(i)] is Some
                && rc(g, pi2, i) >= 0,
        forall|i: int|
            0 <= i < g.m() && #[trigger] f2[i] != f[i] ==> dist[g.arc_from(i)] is Some && dist[g.arc_to(i)] is Some,
{
    let n = g.n();
    let kk = cost_cap();
    // residual arcs of the new flow lead from labelled nodes to labelled nodes
    assert forall|i: int| 0 <= i < g.m() && rcap(g, f2, i) > 0 && #[trigger] dist[g.arc_from(i)] is Some implies dist[g.arc_to(i)] is Some by {
        g.lemma_arc(i);
        if rcap(g, f, i) <= 0 {
            assert(f2[i] < f[i]);
            let k = choose|k: int| 0 <= k < path.len() && path[k] == twin(i);
            let e = path[k] as int;
            assert(tree_arc(g, f, pi, dist, rank, g.arc_to(e), e));
        }
    }
    assert forall|v: int| 0 <= v < n && #[trigger] reach_by(g, resid(g, f2), s, v) implies dist[v] is Some by {
        let p = choose|p: Seq<int>| #[trigger] walk_by(g, resid(g, f2), p, s, v);
        lemma_reach_labelled(g, f2, dist, s, p, v);
    }
    assert forall|v: int| 0 <= v < n implies -((n - 1) * kk) <= #[trigger] pi2[v] <= (n - 1) * kk by {
        if dist[v] is Some {
            let w = choose|w: Seq<int>|
                #[trigger] walk_by(g, resid(g, f), w, s, v) && w.len() <= n - 1 && cost_by(reduced(g, pi), w) == dist[v]->0;
            lemma_reduced_walk(g, resid(g, f), pi, w, s, v);
            lemma_costs_capped(g, resid(g, f));
            lemma_cost_bound_by(g, resid(g, f), arc_costs(g), w, s, v, kk);
            assert(w.len() * kk <= (n - 1) * kk) by (nonlinear_arith)
                requires
                    w.len() <= n - 1,
                    kk >= 0,
            ;
        }
    }
    assert forall|i: int|
        0 <= i < g.m() && rcap(g, f2, i) > 0 && #[trigger] dist[g.arc_from(i)] is Some implies rc(g, pi2, i) >= 0 by {
        g.lemma_arc(i);
        let u = g.arc_from(i);
        if rcap(g, f, i) > 0 {
            assert(dist[g.arc_to(i)] is Some);
        } else {
            assert(f2[i] < f[i]);
            let k = choose|k: int| 0 <= k < path.len() && path[k] == twin(i);
            let e = path[k] as int;
            g.lemma_arc(e);
            assert(tree_arc(g, f, pi, dist, rank, g.arc_to(e), e));
        }
    }
    assert forall|i: int|
        0 <= i < g.m() && rcap(g, f2, i) > 0 && #[trigger] reach_by(g, resid(g, f2), s, g.arc_from(i)) implies rc(g, pi2, i) >= 0 by {
        g.lemma_arc(i);
        assert(dist[g.arc_from(i)] is Some);
    }
    assert forall|i: int|
        0 <= i < g.m() && #[trigger] f2[i] != f[i] implies dist[g.arc_from(i)] is Some && dist[g.arc_to(i)] is Some by {
        g.lemma_arc(i);
        if f2[i] < f[i] {
            let k = choose|k: int| 0 <= k < path.len() && path[k] == twin(i);
            let e = path[k] as int;
            g.lemma_arc(e);
            assert(tree_arc(g, f, pi, dist, rank, g.arc_to(e), e));
        } else {
            assert(f2[twin(i)] < f[twin(i)]);
            assert(twin(twin(i)) == i);
            let k = choose|k: int| 0 <= k < path.len() && path[k] == twin(twin(i));
            let e = path[k] as int;
            g.lemma_arc(e);
            assert(tree_arc(g, f, pi, dist, rank, g.arc_to(e), e));
        }
    }
}

/// Potentials certifying every residual arc carry over an augmentation:
/// labelled nodes take their new potentials, and the others are lifted
/// far enough that arcs from them into labelled nodes stay non-negative.
proof fn lemma_global_potentials(
    g: &DiGraph,
    f: Seq<i64>,
    f2: Seq<i64>,
    pi2: Seq<i128>,
    dist: Seq<Option<i128>>,
    gp: Seq<int>,
    s: int,
) -> (gp2: Seq<int>)
    requires
        g.wf(),
        0 <= s < g.n(),
        flow_bounded(g, f),
        flow_bounded(g, f2),
        dist.len() == g.n(),
        potentials_ok(g, pi2, s),
        certifies(g, f, gp),
        forall|i: int|
            0 <= i < g.m() && rcap(g, f2, i) > 0 && #[trigger] dist[g.arc_from(i)] is Some ==> dist[g.arc_to(i)] is Some
                && rc(g, pi2, i) >= 0,
        forall|i: int|
            0 <= i < g.m() && #[trigger] f2[i] != f[i] ==> dist[g.arc_from(i)] is Some && dist[g.arc_to(i)] is Some,
    ensures
        certifies(g, f2, gp2),
{
    let n = g.n();
    let floor = lemma_seq_floor(gp);
    let k = floor + cost_cap() + (n - 1) * cost_cap();
    let gp2 = Seq::new(n as nat, |v: int| if dist[v] is Some { pi2[v] as int } else { gp[v] + k });
    assert forall|i: int| 0 <= i < g.m() && rcap(g, f2, i) > 0 implies #[trigger] reduced_cost(g, gp2, i) >= 0 by {
        g.lemma_arc(i);
        let x = g.arc_from(i);
        let y = g.arc_to(i);
        if dist[x] is Some {
            assert(rc(g, pi2, i) >= 0);
        } else if dist[y] is Some {
            assert(gp[x] >= -floor);
            assert(pi2[y] <= (n - 1) * cost_cap());
        } else {
            assert(f2[i] == f[i]);
            assert(reduced_cost(g, gp, i) >= 0);
        }
    }
    gp2
}

/// Some integer lies below every entry of a sequence.
proof fn lemma_seq_floor(p: Seq<int>) -> (floor: int)
    ensures
        floor >= 0,
        forall|i: int| 0 <= i < p.len() ==> #[trigger] p[i] >= -floor,
    decreases p.len(),
{
    if p.len() == 0 {
        0
    } else {
        let r = lemma_seq_floor(p.drop_last());
        let x = p[p.len() - 1];
        let floor = if x < -r { -x } else { r };
        assert forall|i: int| 0 <= i < p.len() implies #[trigger] p[i] >= -floor by {
            if i < p.len() - 1 {
                assert(p.drop_last()[i] == p[i]);
            }
        }
        floor
    }
}


/// Adding a label to its node's potential stays within the potential bound.
proof fn lemma_new_potential(g: &DiGraph, f: Seq<i64>, pi: Seq<i128>, s: int, dist: Seq<Option<i128>>, v: int)
    requires
        g.wf(),
        0 <= s < g.n(),
        0 <= v < g.n(),
        potentials_ok(g, pi, s),
        sp_labels(g, f, pi, s, dist),
        dist[v] is Some,
    ensures
        -((g.n() - 1) * cost_cap()) <= pi[v] + dist[v]->0 <= (g.n() - 1) * cost_cap(),
{
    let n = g.n();
    let kk = cost_cap();
    let w = choose|w: Seq<int>|
        #[trigger] walk_by(g, resid(g, f), w, s, v) && w.len() <= n - 1 && cost_by(reduced(g, pi), w) == dist[v]->0;
    lemma_reduced_walk(g, resid(g, f), pi, w, s, v);
    lemma_costs_capped(g, resid(g, f));
    lemma_cost_bound_by(g, resid(g, f), arc_costs(g), w, s, v, kk);
    assert(w.len() * kk <= (n - 1) * kk) by (nonlinear_arith)
        requires
            w.len() <= n - 1,
            kk >= 0,
    ;
}

/// Arc `i` is among the first `k` arcs of `path`.
pub open spec fn on_prefix(path: Seq<usize>, k: int, i: int) -> bool {
    exists|j: int| 0 <= j < k && path[j] == i
}

/// Some potentials make the reduced cost of every residual arc leaving a
/// node reachable from `s` non-negative.
pub open spec fn reduced_certificate(g: &DiGraph, f: Seq<i64>, s: int) -> bool {
    exists|pi: Seq<i128>| pi.len() == g.n() && #[trigger] reduced_ok(g, f, pi, s)
}

/// What successive shortest paths delivers.  With a demand `d`, a flow of
/// value `d` (none when `d` is not positive), or, when no flow reaches `d`,
/// the error carrying the maximum flow value; without a demand, a maximum
/// flow.  In every case the reported cost is the cost of the flow, and some
/// potentials certify the flow through non-negative reduced costs on the
/// arcs the source reaches; on every arc, when the graph admits feasible
/// potentials at all.
pub open spec fn ssp_outcome(g: &DiGraph, s: int, t: int, demand: Option<i128>, r: Result<MinCostFlowResult, StanchionError>) -> bool {
    match r {
        Ok(res) => {
            &&& is_flow(g, res.flow_on_edge@, s, t)
            &&& res.max_flow == flow_value(g, res.flow_on_edge@, s)
            &&& res.min_cost == flow_cost(g, res.flow_on_edge@)
            &&& reduced_certificate(g, res.flow_on_edge@, s)
            &&& (feasible_potentials(g) ==> certified(g, res.flow_on_edge@))
            &&& match demand {
                None => is_max_flow(g, res.flow_on_edge@, s, t),
                Some(d) => res.max_flow == if d > 0 { d as int } else { 0int },
            }
        },
        Err(e) => demand matches Some(d) && exists|f: Seq<i64>|
            is_max_flow(g, f, s, t) && flow_value(g, f, s) < d && e == (StanchionError::InfeasibleDemand {
                demand: d,
                max_flow: flow_value(g, f, s) as i128,
            }),
    }
}

/// Successive Shortest Paths algorithm for min-cost flow.
///
/// Uses Dijkstra with Johnson's potential reweighting so that all reduced
/// costs on the residual graph are non-negative.  Augments along the
/// cheapest s-t path until demand is met or no path exists.
pub struct SuccessiveShortest;

impl MinCostFlowSolver for SuccessiveShortest {
    /// No negative-cost cycle of positive-capacity arcs is reachable from
    /// the source.
    open spec fn mcf_accepts(&self, g: &DiGraph, s: NodeId, t: NodeId) -> bool {
        !neg_cycle_by(g, pos_fwd(g), arc_costs(g), s.0 as int)
    }

    fn min_cost_flow(&self, graph: &DiGraph, source: NodeId, sink: NodeId, demand: Option<i128>) -> (r: Result<
        MinCostFlowResult,
        StanchionError,
    >)
        ensures
            ssp_outcome(graph, source.0 as int, sink.0 as int, demand, r),
    {
        let n = graph.node_count();
        let s = source.0 as usize;
        let t = sink.0 as usize;
        let mut res = ResidualGraph::new(graph);
        let mut total_flow: i128 = 0;
        let mut total_cost: i128 = 0;
        let mut pi = bellman_ford(graph, source, n);
        proof {
            let f = res.flow@;
            assert forall|i: int| 0 <= i < graph.m() && pos_fwd(graph)(i) implies #[trigger] resid(graph, f)(i) by {}
            assert forall|i: int| 0 <= i < graph.m() && resid(graph, f)(i) implies #[trigger] pos_fwd(graph)(i) by {
                graph.lemma_arc(i);
            }
            assert forall|i: int|
                0 <= i < graph.m() && rcap(graph, f, i) > 0 && #[trigger] reach_by(graph, resid(graph, f), s as int, graph.arc_from(i))
                    implies rc(graph, pi@, i) >= 0 by {
                graph.lemma_arc(i);
                let p = choose|p: Seq<int>| #[trigger] walk_by(graph, resid(graph, f), p, s as int, graph.arc_from(i));
                super::rwalk::lemma_walk_weaken(graph, resid(graph, f), pos_fwd(graph), p, s as int, graph.arc_from(i));
                assert(reach_by(graph, pos_fwd(graph), s as int, graph.arc_from(i)));
            }
            crate::graph::residual::lemma_zero_flow(graph, f, s as int, t as int);
            crate::graph::residual::lemma_flow_cost_bound(graph, f);
            lemma_value_le_source_capacity(graph, f, s as int);
            assert(flow_cost(graph, f) == 0) by {
                crate::sums::lemma_sum_zero(graph.m(), |i: int| crate::graph::residual::arc_cost_term(graph, f, i));
            }
            lemma_source_capacity_bound(graph, s as int);
        }
        let ghost mut gp: Seq<int> = if feasible_potentials(graph) {
            choose|p: Seq<int>|
                p.len() == graph.n() && forall|i: int|
                    0 <= i < graph.m() && #[trigger] pos_fwd(graph)(i) ==> reduced_cost(graph, p, i) >= 0
        } else {
            Seq::empty()
        };
        proof {
            if feasible_potentials(graph) {
                let f = res.flow@;
                assert forall|i: int| 0 <= i < graph.m() && rcap(graph, f, i) > 0 implies #[trigger] reduced_cost(
                    graph,
                    gp,
                    i,
                ) >= 0 by {
                    graph.lemma_arc(i);
                    assert(pos_fwd(graph)(i));
                }
                assert(certifies(graph, f, gp));
            }
        }
        loop
            invariant
                graph.wf(),
                mcf_input(graph, source, sink),
                n == graph.n(),
                s == source.0,
                t == sink.0,
                s < n,
                t < n,
                s != t,
                res.graph == graph,
                is_flow(graph, res.flow@, s as int, t as int),
                total_flow == flow_value(graph, res.flow@, s as int),
                0 <= total_flow <= source_capacity(graph, s as int),
                source_capacity(graph, s as int) <= 0x1_0000_0000 * 0x8000_0000_0000_0000,
                total_cost == flow_cost(graph, res.flow@),
                pi@.len() == n,
                potentials_ok(graph, pi@, s as int),
                reduced_ok(graph, res.flow@, pi@, s as int),
                feasible_potentials(graph) ==> certifies(graph, res.flow@, gp),
                demand matches Some(d) ==> (d > 0 ==> total_flow <= d) && (d <= 0 ==> total_flow == 0),
            ensures
                graph.wf(),
                res.graph == graph,
                is_flow(graph, res.flow@, s as int, t as int),
                total_flow == flow_value(graph, res.flow@, s as int),
                total_cost == flow_cost(graph, res.flow@),
                pi@.len() == n,
                reduced_ok(graph, res.flow@, pi@, s as int),
                feasible_potentials(graph) ==> certifies(graph, res.flow@, gp),
                demand matches Some(d) ==> (d > 0 ==> total_flow <= d) && (d <= 0 ==> total_flow == 0),
                (demand matches Some(d) && total_flow >= d) || is_max_flow(graph, res.flow@, s as int, t as int),
            decreases source_capacity(graph, s as int) - total_flow,
        {
            if let Some(d) = demand {
                if total_flow >= d {
                    break;
                }
            }
            let (dist, prev, rank) = dijkstra(&res, source, &pi, n);
            let ghost f0 = res.flow@;
            if dist[t].is_none() {
                proof {
                    let side = Seq::new(n as nat, |v: int| dist@[v] is Some);
                    assert(closed_cut(graph, f0, side, s as int, t as int)) by {
                        assert forall|i: int|
                            0 <= i < graph.m() && #[trigger] side[graph.arc_from(i)] && rcap(graph, f0, i) > 0 implies side[graph.arc_to(i)] by {
                            graph.lemma_arc(i);
                        }
                    }
                    assert(no_augmenting_path(graph, f0, s as int, t as int));
                }
                break;
            }
            let path = trace_back(&prev, rank, Ghost(dist@), graph, source, sink);
            if path.len() == 0 {
                break;
            }
            // bottleneck of the path, capped by the remaining demand
            let mut bottle: i64 = i64::MAX;
            let mut k: usize = 0;
            while k < path.len()
                invariant
                    graph.wf(),
                    res.graph == graph,
                    res.flow@ == f0,
                    flow_bounded(graph, f0),
                    pred_path(graph, prev@, rank@, path@, s as int, t as int),
                    sp_tree(graph, f0, pi@, s as int, dist@, prev@, rank@),
                    k <= path.len(),
                    1 <= bottle,
                    forall|j: int| 0 <= j < k ==> bottle <= #[trigger] rcap(graph, f0, path@[j] as int),
                decreases path.len() - k,
            {
                let e = path[k];
                proof {
                    lemma_rcap_range(graph, f0, e as int);
                    graph.lemma_arc(e as int);
                    assert(tree_arc(graph, f0, pi@, dist@, rank@, graph.arc_to(e as int), prev@[graph.arc_to(e as int)]->0 as int));
                }
                let c = res.residual_capacity(e);
                if c < bottle {
                    bottle = c;
                }
                k += 1;
            }
            if let Some(d) = demand {
                let rem = d - total_flow;
                if rem < bottle as i128 {
                    bottle = rem as i64;
                }
            }
            // push the bottleneck along the path
            let ghost b = bottle as int;
            let mut k: usize = 0;
            while k < path.len()
                invariant
                    graph.wf(),
                    mcf_input(graph, source, sink),
                    res.graph == graph,
                    flow_bounded(graph, f0),
                    flow_bounded(graph, res.flow@),
                    s < graph.n(),
                    t < graph.n(),
                    pred_path(graph, prev@, rank@, path@, s as int, t as int),
                    k <= path.len(),
                    b == bottle,
                    1 <= bottle,
                    forall|j: int| 0 <= j < path.len() ==> bottle <= #[trigger] rcap(graph, f0, path@[j] as int),
                    forall|i: int|
                        0 <= i < graph.m() ==> #[trigger] res.flow@[i] == f0[i] + (if on_prefix(path@, k as int, i) {
                            b
                        } else {
                            0
                        }) - (if on_prefix(path@, k as int, twin(i)) {
                            b
                        } else {
                            0
                        }),
                    forall|v: int|
                        #[trigger] net_out(graph, res.flow@, v) == net_out(graph, f0, v) + (if v == s {
                            b
                        } else {
                            0
                        }) - (if v == (if k == 0 {
                            s as int
                        } else {
                            graph.arc_to(path@[k - 1] as int)
                        }) {
                            b
                        } else {
                            0
                        }),
                    total_cost == flow_cost(graph, res.flow@),
                decreases path.len() - k,
            {
                let e = path[k];
                let ghost f1 = res.flow@;
                proof {
                    graph.lemma_arc(e as int);
                    assert(!on_prefix(path@, k as int, e as int)) by {
                        if on_prefix(path@, k as int, e as int) {
                            let j = choose|j: int| 0 <= j < k && path@[j] == e as int;
                            lemma_path_arcs_distinct(graph, prev@, rank@, path@, s as int, t as int, j, k as int);
                        }
                    }
                    assert(!on_prefix(path@, k as int, twin(e as int))) by {
                        if on_prefix(path@, k as int, twin(e as int)) {
                            let j = choose|j: int| 0 <= j < k && path@[j] == twin(e as int);
                            lemma_path_arcs_distinct(graph, prev@, rank@, path@, s as int, t as int, j, k as int);
                        }
                    }
                    assert(f1[e as int] == f0[e as int]);
                    assert(bottle <= rcap(graph, f0, path@[k as int] as int));
                    assert(rcap(graph, f1, e as int) >= bottle);
                    lemma_rcap_range(graph, f1, e as int);
                    lemma_rcap_range(graph, f1, twin(e as int));
                    lemma_push(graph, f1, e as int, b);
                    lemma_flow_cost_push(graph, f1, e as int, b);
                    lemma_flow_cost_bound(graph, pushed(f1, e as int, b));
                    assert(b * graph.cost(e as int) <= 0x8000_0000_0000_0000 * 0x8000_0000_0000_0000) by (nonlinear_arith)
                        requires
                            1 <= b <= 0x7FFF_FFFF_FFFF_FFFF,
                            -0x8000_0000_0000_0000 <= graph.cost(e as int) <= 0x7FFF_FFFF_FFFF_FFFF,
                    ;
                    assert(b * graph.cost(e as int) >= -0x8000_0000_0000_0000 * 0x8000_0000_0000_0000) by (nonlinear_arith)
                        requires
                            1 <= b <= 0x7FFF_FFFF_FFFF_FFFF,
                            -0x8000_0000_0000_0000 <= graph.cost(e as int) <= 0x7FFF_FFFF_FFFF_FFFF,
                    ;
                }
                total_cost = total_cost + bottle as i128 * res.edge_cost(e) as i128;
                res.push_flow(e, bottle);
                proof {
                    let f2 = res.flow@;
                    assert forall|i: int|
                        0 <= i < graph.m() implies #[trigger] f2[i] == f0[i] + (if on_prefix(path@, k + 1, i) {
                            b
                        } else {
                            0
                        }) - (if on_prefix(path@, k + 1, twin(i)) {
                            b
                        } else {
                            0
                        }) by {
                        graph.lemma_arc(i);
                        if on_prefix(path@, k as int, i) {
                            assert(on_prefix(path@, k + 1, i));
                        }
                        if on_prefix(path@, k as int, twin(i)) {
                            assert(on_prefix(path@, k + 1, twin(i)));
                        }
                        if i == e as int {
                            assert(on_prefix(path@, k + 1, i));
                        }
                        if twin(i) == e as int {
                            assert(on_prefix(path@, k + 1, twin(i)));
                            assert(i == twin(e as int));
                        }
                        if on_prefix(path@, k + 1, i) && !on_prefix(path@, k as int, i) {
                            let j = choose|j: int| 0 <= j < k + 1 && path@[j] == i;
                            assert(j == k);
                        }
                        if on_prefix(path@, k + 1, twin(i)) && !on_prefix(path@, k as int, twin(i)) {
                            let j = choose|j: int| 0 <= j < k + 1 && path@[j] == twin(i);
                            assert(j == k);
                        }
                        if i != e as int && i != twin(e as int) {
                            assert(f2[i] == f1[i]);
                        }
                    }
                    assert forall|v: int|
                        #[trigger] net_out(graph, f2, v) == net_out(graph, f0, v) + (if v == s {
                            b
                        } else {
                            0
                        }) - (if v == graph.arc_to(path@[k as int] as int) {
                            b
                        } else {
                            0
                        }) by {
                        assert(net_out(graph, f1, v) == net_out(graph, f0, v) + (if v == s {
                            b
                        } else {
                            0
                        }) - (if v == (if k == 0 {
                            s as int
                        } else {
                            graph.arc_to(path@[k - 1] as int)
                        }) {
                            b
                        } else {
                            0
                        }));
                        if k > 0 {
                            assert(graph.arc_to(path@[k - 1] as int) == graph.arc_from(path@[k as int] as int));
                        }
                    }
                }
                k += 1;
            }
            total_flow = total_flow + bottle as i128;
            // add the labels to the potentials
            let ghost pi0 = pi@;
            let ghost f2 = res.flow@;
            let mut v: usize = 0;
            while v < n
                invariant
                    graph.wf(),
                    n == graph.n(),
                    s < n,
                    pi@.len() == n,
                    dist@.len() == n,
                    potentials_ok(graph, pi0, s as int),
                    sp_labels(graph, f0, pi0, s as int, dist@),
                    v <= n,
                    forall|w: int|
                        0 <= w < v ==> #[trigger] pi@[w] == match dist@[w] {
                            Some(dw) => pi0[w] + dw,
                            None => pi0[w] as int,
                        },
                    forall|w: int| v <= w < n ==> #[trigger] pi@[w] == pi0[w],
                decreases n - v,
            {
                match dist[v] {
                    Some(dv) => {
                        proof {
                            lemma_new_potential(graph, f0, pi0, s as int, dist@, v as int);
                            assert((n - 1) * cost_cap() <= 0x1_0000_0000 * 0x8000_0000_0000_0000) by (nonlinear_arith)
                                requires
                                    1 <= n <= 0x1_0000_0000,
                            ;
                        }
                        let x = pi[v] + dv;
                        pi.set(v, x);
                    },
                    None => {},
                }
                v += 1;
            }
            proof {
                assert forall|i: int| 0 <= i < graph.m() && #[trigger] f2[i] < f0[i] implies on_path(path@, twin(i)) by {
                    if on_prefix(path@, path@.len() as int, twin(i)) {
                        let j = choose|j: int| 0 <= j < path@.len() && path@[j] == twin(i);
                        assert(path@[j] == twin(i));
                    }
                }
                lemma_after_augment(graph, f0, f2, pi0, pi@, dist@, prev@, rank@, path@, s as int, t as int, b);
                assert(graph.arc_to(path@[path@.len() - 1] as int) == t);
                lemma_value_le_source_capacity(graph, f2, s as int);
                if feasible_potentials(graph) {
                    gp = lemma_global_potentials(graph, f0, f2, pi@, dist@, gp, s as int);
                }
            }
        }
        if let Some(d) = demand {
            if total_flow < d {
                proof {
                    assert(is_max_flow(graph, res.flow@, s as int, t as int));
                }
                return Err(StanchionError::InfeasibleDemand { demand: d, max_flow: total_flow });
            }
        }
        proof {
            assert(reduced_certificate(graph, res.flow@, s as int));
            if feasible_potentials(graph) {
                assert(certifies(graph, res.flow@, gp));
            }
        }
        proof {
            crate::graph::residual::lemma_linear_cost(graph, res.flow@);
        }
        Ok(MinCostFlowResult { max_flow: total_flow, min_cost: total_cost, flow_on_edge: res.flow })
    }
}

} // verus!
