//! All-pairs shortest paths (Floyd-Warshall).
use vstd::prelude::*;
use crate::graph::{DiGraph, NodeId};
use super::walks::{
    fwd_walk, walk_cost, walk_node, neg_cycle_reachable, lemma_walk_concat, lemma_walk_split,
    lemma_walk_cost_bound, lemma_short_walk, lemma_walk_arcs,
};

verus! {

/// Result of an all-pairs shortest-path query.
#[derive(Debug, Clone)]
pub struct AllPairsResult {
    /// `dist[u][v]` = cheapest path cost from u to v (`None` if unreachable).
    pub dist: Vec<Vec<Option<i128>>>,
    /// `next[u][v]` = first hop node on the shortest path from u to v.
    pub next: Vec<Vec<Option<NodeId>>>,
}

/// No closed walk of forward arcs has negative cost.
pub open spec fn no_neg_cycle(g: &DiGraph) -> bool {
    forall|w: int, c: Seq<int>| #[trigger] fwd_walk(g, c, w, w) ==> walk_cost(g, c) >= 0
}

pub open spec fn fw_cost_limit(g: &DiGraph) -> int {
    (i128::MAX as int) / (2 * g.n())
}

/// Graphs Floyd-Warshall takes: those with no negative cycle.
pub open spec fn fw_graph(g: &DiGraph) -> bool {
    &&& g.wf()
    &&& no_neg_cycle(g)
}

/// Inputs on which Floyd-Warshall is defined: no negative cycle, and arc
/// costs small enough that no path cost overflows (every `i64` cost is).
pub open spec fn fw_input(g: &DiGraph) -> bool {
    &&& g.wf()
    &&& g.n() >= 1
    &&& no_neg_cycle(g)
    &&& forall|i: int|
        0 <= i < g.m() && i % 2 == 0 ==> -fw_cost_limit(g) <= #[trigger] g.cost(i) <= fw_cost_limit(g)
}

/// Some forward arc leads from `u` to `w`.
pub open spec fn has_arc(g: &DiGraph, u: int, w: int) -> bool {
    exists|i: int| 0 <= i < g.m() && i % 2 == 0 && #[trigger] g.arc_from(i) == u && g.arc_to(i) == w
}

/// Every node strictly inside the walk `p` from `x` is below `k`.
pub open spec fn inner_lt(g: &DiGraph, p: Seq<int>, x: int, k: int) -> bool {
    forall|j: int| 0 < j < p.len() ==> #[trigger] walk_node(g, p, x, j) < k
}

/// `d` bounds the cost of every walk whose inner nodes are below `k`.
pub open spec fn bounds_walks(g: &DiGraph, d: Seq<Vec<Option<i128>>>, k: int) -> bool {
    forall|x: int, y: int, p: Seq<int>|
        0 <= x < g.n() && 0 <= y < g.n() && #[trigger] fwd_walk(g, p, x, y) && inner_lt(g, p, x, k)
            ==> d[x]@[y] is Some && d[x]@[y]->0 <= walk_cost(g, p)
}

/// A square table with `n` rows of `n` entries.
pub open spec fn square<T>(d: Seq<Vec<T>>, n: int) -> bool {
    &&& d.len() == n
    &&& forall|x: int| 0 <= x < n ==> (#[trigger] d[x]).len() == n
}

/// Each finite entry is the cost of the recorded walk.
pub open spec fn witnessed2(g: &DiGraph, d: Seq<Vec<Option<i128>>>, wit: Seq<Seq<Seq<int>>>) -> bool {
    forall|x: int, y: int|
        0 <= x < g.n() && 0 <= y < g.n() && (#[trigger] d[x]@[y]) is Some ==> fwd_walk(g, wit[x][y], x, y)
            && walk_cost(g, wit[x][y]) == d[x]@[y]->0
}

/// First hops lead along an arc, and exist exactly for finite off-diagonal
/// entries.
pub open spec fn hops_ok(g: &DiGraph, d: Seq<Vec<Option<i128>>>, nx: Seq<Vec<Option<NodeId>>>) -> bool {
    forall|x: int, y: int|
        0 <= x < g.n() && 0 <= y < g.n() ==> {
            &&& (#[trigger] nx[x]@[y] is Some) <==> (x != y && d[x]@[y] is Some)
            &&& nx[x]@[y] matches Some(w) ==> has_arc(g, x, w.0 as int)
        }
}

/// The node a first-hop entry names (`-1` for none).
pub open spec fn hop_of(o: Option<NodeId>) -> int {
    match o {
        Some(w) => w.0 as int,
        None => -1,
    }
}

/// Each recorded first hop is the head of the first arc of the recorded walk.
pub open spec fn hops_lead(g: &DiGraph, nx: Seq<Vec<Option<NodeId>>>, wit: Seq<Seq<Seq<int>>>) -> bool {
    forall|x: int, y: int|
        0 <= x < g.n() && 0 <= y < g.n() && (#[trigger] nx[x]@[y]) is Some ==> wit[x][y].len() > 0
            && g.arc_to(wit[x][y][0]) == hop_of(nx[x]@[y])
}

/// `w` starts a cheapest path from `u` to `v`: some forward arc `u -> w`
/// plus the cheapest cost from `w` to `v` gives the cheapest cost from `u`.
pub open spec fn hop_starts_shortest(g: &DiGraph, d: Seq<Vec<Option<i128>>>, u: int, v: int, w: int) -> bool {
    exists|i: int|
        0 <= i < g.m() && i % 2 == 0 && #[trigger] g.arc_from(i) == u && g.arc_to(i) == w && d[w]@[v] is Some
            && g.cost(i) + d[w]@[v]->0 == d[u]@[v]->0
}

/// The table entry for the ends of arc `j` is at most its cost.
pub open spec fn arc_bounded(g: &DiGraph, d: Seq<Vec<Option<i128>>>, j: int) -> bool {
    &&& d[g.arc_from(j)]@[g.arc_to(j)] is Some
    &&& d[g.arc_from(j)]@[g.arc_to(j)]->0 <= g.cost(j)
}

/// The diagonal of the table is zero.
pub open spec fn diag_zero(d: Seq<Vec<Option<i128>>>, n: int) -> bool {
    forall|x: int| 0 <= x < n ==> #[trigger] d[x]@[x] == Some(0i128)
}

/// The recorded walks only pass through nodes below `k`.
pub open spec fn wit_inner(g: &DiGraph, d: Seq<Vec<Option<i128>>>, wit: Seq<Seq<Seq<int>>>, k: int) -> bool {
    forall|x: int, y: int|
        0 <= x < g.n() && 0 <= y < g.n() && (#[trigger] d[x]@[y]) is Some ==> inner_lt(g, wit[x][y], x, k)
}

/// Without negative cycles every walk costs at least `-(n - 1)` times the
/// cost limit.
proof fn lemma_walk_floor(g: &DiGraph, p: Seq<int>, u: int, v: int)
    requires
        fw_input(g),
        0 <= u < g.n(),
        fwd_walk(g, p, u, v),
    ensures
        walk_cost(g, p) >= -((g.n() - 1) * fw_cost_limit(g)),
{
    let kk = fw_cost_limit(g);
    if neg_cycle_reachable(g, u) {
        let (p0, c, w) = choose|p0: Seq<int>, c: Seq<int>, w: int|
            #[trigger] fwd_walk(g, p0, u, w) && #[trigger] fwd_walk(g, c, w, w) && walk_cost(g, c) < 0;
        assert(walk_cost(g, c) >= 0);
    }
    lemma_short_walk(g, u, p, v);
    let q = choose|q: Seq<int>| fwd_walk(g, q, u, v) && q.len() < g.n() && walk_cost(g, q) <= walk_cost(g, p);
    assert(kk >= 0);
    lemma_walk_cost_bound(g, q, u, v, kk);
    assert(q.len() * kk <= (g.n() - 1) * kk) by (nonlinear_arith)
        requires
            q.len() <= g.n() - 1,
            kk >= 0,
    ;
}

/// The smallest position at or after `from` where the walk visits `k`.
proof fn first_visit(g: &DiGraph, p: Seq<int>, x: int, k: int, from: int) -> (j: int)
    requires
        0 <= from <= p.len(),
        exists|i: int| from <= i <= p.len() && #[trigger] walk_node(g, p, x, i) == k,
    ensures
        from <= j <= p.len(),
        walk_node(g, p, x, j) == k,
        forall|i: int| from <= i < j ==> #[trigger] walk_node(g, p, x, i) != k,
    decreases p.len() - from,
{
    if walk_node(g, p, x, from) == k {
        from
    } else {
        let i = choose|i: int| from <= i <= p.len() && #[trigger] walk_node(g, p, x, i) == k;
        assert(i > from);
        first_visit(g, p, x, k, from + 1)
    }
}

/// The largest position at or before `to` where the walk visits `k`.
proof fn last_visit(g: &DiGraph, p: Seq<int>, x: int, k: int, to: int) -> (j: int)
    requires
        0 <= to <= p.len(),
        exists|i: int| 0 <= i <= to && #[trigger] walk_node(g, p, x, i) == k,
    ensures
        0 <= j <= to,
        walk_node(g, p, x, j) == k,
        forall|i: int| j < i <= to ==> #[trigger] walk_node(g, p, x, i) != k,
    decreases to,
{
    if walk_node(g, p, x, to) == k {
        to
    } else {
        let i = choose|i: int| 0 <= i <= to && #[trigger] walk_node(g, p, x, i) == k;
        assert(i < to);
        last_visit(g, p, x, k, to - 1)
    }
}

/// The nodes of a concatenated walk are those of its parts.
proof fn lemma_concat_inner(g: &DiGraph, p1: Seq<int>, p2: Seq<int>, u: int, w: int, v: int, k: int)
    requires
        fwd_walk(g, p1, u, w),
        fwd_walk(g, p2, w, v),
        inner_lt(g, p1, u, k),
        inner_lt(g, p2, w, k),
        w <= k,
    ensures
        inner_lt(g, p1 + p2, u, k + 1),
{
    lemma_walk_arcs(g, p1, u, w);
    let q = p1 + p2;
    assert forall|j: int| 0 < j < q.len() implies #[trigger] walk_node(g, q, u, j) < k + 1 by {
        if j < p1.len() {
            assert(q[j - 1] == p1[j - 1]);
            assert(walk_node(g, p1, u, j) < k);
        } else if j == p1.len() {
            assert(q[j - 1] == p1[j - 1]);
        } else {
            assert(q[j - 1] == p2[j - p1.len() - 1]);
            assert(walk_node(g, p2, w, j - p1.len()) < k);
        }
    }
}

/// Cutting closed sub-walks out of a walk leaves a walk of at most `n - 1`
/// arcs through a subset of its nodes.
proof fn lemma_shortcut(g: &DiGraph, s: int, p: Seq<int>, v: int, k: int)
    requires
        g.wf(),
        0 <= s < g.n(),
        fwd_walk(g, p, s, v),
        inner_lt(g, p, s, k),
    ensures
        exists|q: Seq<int>| #[trigger] fwd_walk(g, q, s, v) && q.len() < g.n() && inner_lt(g, q, s, k),
    decreases p.len(),
{
    if p.len() < g.n() {
        assert(fwd_walk(g, p, s, v) && p.len() < g.n() && inner_lt(g, p, s, k));
    } else {
        lemma_walk_arcs(g, p, s, v);
        let ns = Seq::new((p.len() + 1) as nat, |j: int| walk_node(g, p, s, j));
        assert forall|j: int| 0 <= j < ns.len() implies 0 <= #[trigger] ns[j] < g.n() by {
            if j > 0 {
                g.lemma_arc(p[j - 1]);
            }
        }
        super::walks::lemma_pigeonhole(ns, g.n());
        let (a, b) = choose|a: int, b: int| 0 <= a < b < ns.len() && ns[a] == ns[b];
        let w = walk_node(g, p, s, a);
        assert(ns[a] == w && ns[b] == walk_node(g, p, s, b));
        lemma_walk_split(g, p, s, v, a);
        let p1 = p.subrange(0, a);
        let rest = p.subrange(a, p.len() as int);
        lemma_walk_split(g, rest, w, v, b - a);
        assert(walk_node(g, rest, w, b - a) == w) by {
            assert(rest[b - a - 1] == p[b - 1]);
        }
        let p3 = rest.subrange(b - a, rest.len() as int);
        lemma_walk_concat(g, p1, p3, s, w, v);
        let p2 = p1 + p3;
        assert(inner_lt(g, p2, s, k)) by {
            assert forall|j: int| 0 < j < p2.len() implies #[trigger] walk_node(g, p2, s, j) < k by {
                if j <= a {
                    assert(p2[j - 1] == p[j - 1]);
                    assert(walk_node(g, p, s, j) < k);
                } else {
                    assert(p2[j - 1] == p[b + j - a - 1]);
                    assert(walk_node(g, p, s, b + j - a) < k);
                }
            }
        }
        lemma_shortcut(g, s, p2, v, k);
    }
}

/// An entry recorded with a walk through nodes below `k` is at most
/// `(n - 1)` times the cost limit, when `d` bounds all such walks.
proof fn lemma_entry_cap(g: &DiGraph, d: Seq<Vec<Option<i128>>>, wit: Seq<Seq<Seq<int>>>, x: int, y: int, k: int)
    requires
        fw_input(g),
        0 <= x < g.n(),
        0 <= y < g.n(),
        d[x]@[y] is Some,
        bounds_walks(g, d, k),
        witnessed2(g, d, wit),
        wit_inner(g, d, wit, k),
    ensures
        d[x]@[y]->0 <= (g.n() - 1) * fw_cost_limit(g),
{
    let kk = fw_cost_limit(g);
    lemma_shortcut(g, x, wit[x][y], y, k);
    let q = choose|q: Seq<int>| #[trigger] fwd_walk(g, q, x, y) && q.len() < g.n() && inner_lt(g, q, x, k);
    assert(kk >= 0);
    lemma_walk_cost_bound(g, q, x, y, kk);
    assert(q.len() * kk <= (g.n() - 1) * kk) by (nonlinear_arith)
        requires
            q.len() <= g.n() - 1,
            kk >= 0,
    ;
}

/// One phase of Floyd-Warshall: if `d0` bounds walks through nodes below
/// `k`, and `d1` is no larger than `d0` and no larger than any route through
/// `k`, then `d1` bounds walks through nodes below `k + 1`.
proof fn lemma_phase(g: &DiGraph, d0: Seq<Vec<Option<i128>>>, d1: Seq<Vec<Option<i128>>>, k: int)
    requires
        fw_input(g),
        0 <= k < g.n(),
        bounds_walks(g, d0, k),
        forall|x: int, y: int|
            0 <= x < g.n() && 0 <= y < g.n() && (#[trigger] d0[x]@[y]) is Some ==> d1[x]@[y] is Some
                && d1[x]@[y]->0 <= d0[x]@[y]->0,
        forall|x: int, y: int|
            0 <= x < g.n() && 0 <= y < g.n() && d0[x]@[k] is Some && d0[k]@[y] is Some ==> (#[trigger] d1[x]@[y]) is Some
                && d1[x]@[y]->0 <= d0[x]@[k]->0 + d0[k]@[y]->0,
    ensures
        bounds_walks(g, d1, k + 1),
{
    assert forall|x: int, y: int, p: Seq<int>|
        0 <= x < g.n() && 0 <= y < g.n() && #[trigger] fwd_walk(g, p, x, y) && inner_lt(g, p, x, k + 1) implies d1[x]@[y] is Some
            && d1[x]@[y]->0 <= walk_cost(g, p) by {
        if exists|i: int| 0 <= i <= p.len() && #[trigger] walk_node(g, p, x, i) == k {
            let len = p.len() as int;
            let j1 = first_visit(g, p, x, k, 0);
            let j2 = last_visit(g, p, x, k, len);
            assert(j1 <= j2);
            lemma_walk_split(g, p, x, y, j1);
            let p1 = p.subrange(0, j1);
            let rest = p.subrange(j1, len);
            lemma_walk_split(g, rest, k, y, j2 - j1);
            assert(walk_node(g, rest, k, j2 - j1) == k) by {
                if j2 - j1 > 0 {
                    assert(rest[j2 - j1 - 1] == p[j2 - 1]);
                }
            }
            let mid = rest.subrange(0, j2 - j1);
            let p3 = rest.subrange(j2 - j1, rest.len() as int);
            assert(walk_cost(g, mid) >= 0);
            assert(inner_lt(g, p1, x, k)) by {
                assert forall|i: int| 0 < i < p1.len() implies #[trigger] walk_node(g, p1, x, i) < k by {
                    assert(p1[i - 1] == p[i - 1]);
                    assert(walk_node(g, p, x, i) < k + 1);
                    assert(walk_node(g, p, x, i) != k);
                }
            }
            assert(inner_lt(g, p3, k, k)) by {
                assert forall|i: int| 0 < i < p3.len() implies #[trigger] walk_node(g, p3, k, i) < k by {
                    assert(p3[i - 1] == p[j2 + i - 1]);
                    assert(walk_node(g, p, x, j2 + i) < k + 1);
                    assert(walk_node(g, p, x, j2 + i) != k);
                }
            }
            assert(d0[x]@[k] is Some);
            assert(d0[k]@[y] is Some);
            assert(d1[x]@[y] is Some);
        } else {
            assert(inner_lt(g, p, x, k)) by {
                assert forall|i: int| 0 < i < p.len() implies #[trigger] walk_node(g, p, x, i) < k by {
                    assert(walk_node(g, p, x, i) != k);
                }
            }
            assert(d0[x]@[y] is Some);
        }
    }
}


/// Floyd-Warshall all-pairs shortest paths.
///
/// `dist[u][v]` is the cheapest walk cost from u to v, `None` if v is
/// unreachable; `next[u][v]` is the first hop of a cheapest path (`None` on
/// the diagonal and where v is unreachable).  Requires that no negative-cost
/// cycle exists.
pub fn floyd_warshall(graph: &DiGraph) -> (r: AllPairsResult)
    requires
        fw_graph(graph),
    ensures
        square(r.dist@, graph.n()),
        square(r.next@, graph.n()),
        forall|u: int, v: int|
            0 <= u < graph.n() && 0 <= v < graph.n() && (#[trigger] r.dist@[u]@[v]) is Some ==> exists|p: Seq<int>|
                fwd_walk(graph, p, u, v) && walk_cost(graph, p) == r.dist@[u]@[v]->0,
        forall|u: int, v: int, p: Seq<int>|
            0 <= u < graph.n() && 0 <= v < graph.n() && #[trigger] fwd_walk(graph, p, u, v) ==> r.dist@[u]@[v] is Some
                && walk_cost(graph, p) >= r.dist@[u]@[v]->0,
        hops_ok(graph, r.dist@, r.next@),
        forall|u: int, v: int|
            0 <= u < graph.n() && 0 <= v < graph.n() && (#[trigger] r.next@[u]@[v]) is Some ==> hop_starts_shortest(
                graph,
                r.dist@,
                u,
                v,
                hop_of(r.next@[u]@[v]),
            ),
{
    if graph.node_count() == 0 {
        return AllPairsResult { dist: Vec::new(), next: Vec::new() };
    }
    proof {
        assert forall|i: int| 0 <= i < graph.m() && i % 2 == 0 implies -fw_cost_limit(graph) <= #[trigger] graph.cost(
            i,
        ) <= fw_cost_limit(graph) by {
            graph.lemma_arc(i);
            super::lemma_cost_fits(graph.n(), graph.cost(i), 2);
            super::lemma_cost_fits(graph.n(), -graph.cost(i), 2);
            assert(2 * graph.n() == graph.n() * 2);
        }
    }
    let n = graph.node_count();
    let m = graph.edges.len();
    let ghost kk = fw_cost_limit(graph);
    proof {
        assert(2 * n * kk <= i128::MAX) by (nonlinear_arith)
            requires
                kk == (i128::MAX as int) / (2 * n),
                n >= 1,
        ;
        assert(kk >= 0);
    }
    let mut dist: Vec<Vec<Option<i128>>> = Vec::new();
    let mut next: Vec<Vec<Option<NodeId>>> = Vec::new();
    let mut i: usize = 0;
    while i < n
        invariant
            i <= n,
            dist@.len() == i,
            next@.len() == i,
            forall|x: int| 0 <= x < i ==> (#[trigger] dist@[x]).len() == n,
            forall|x: int| 0 <= x < i ==> (#[trigger] next@[x]).len() == n,
            forall|x: int, y: int| 0 <= x < i && 0 <= y < n ==> #[trigger] dist@[x]@[y] == (if x == y { Some(0i128) } else { None::<i128> }),
            forall|x: int, y: int| 0 <= x < i && 0 <= y < n ==> (#[trigger] next@[x]@[y]) is None,
        decreases n - i,
    {
        let mut drow: Vec<Option<i128>> = Vec::new();
        let mut nrow: Vec<Option<NodeId>> = Vec::new();
        let mut j: usize = 0;
        while j < n
            invariant
                j <= n,
                i < n,
                drow@.len() == j,
                nrow@.len() == j,
                forall|y: int| 0 <= y < j ==> #[trigger] drow@[y] == (if i == y { Some(0i128) } else { None::<i128> }),
                forall|y: int| 0 <= y < j ==> (#[trigger] nrow@[y]) is None,
            decreases n - j,
        {
            if i == j {
                drow.push(Some(0));
            } else {
                drow.push(None);
            }
            nrow.push(None);
            j += 1;
        }
        dist.push(drow);
        next.push(nrow);
        i += 1;
    }
    let ghost mut wit: Seq<Seq<Seq<int>>> = Seq::new(n as nat, |x: int| Seq::new(n as nat, |y: int| Seq::<int>::empty()));
    proof {
        assert forall|x: int, y: int|
            0 <= x < n && 0 <= y < n && (#[trigger] dist@[x]@[y]) is Some implies fwd_walk(graph, wit[x][y], x, y)
                && walk_cost(graph, wit[x][y]) == dist@[x]@[y]->0 by {
            assert(x == y);
        }
    }
    // direct arcs (forward arcs only)
    let mut idx: usize = 0;
    while idx < m
        invariant
            fw_input(graph),
            n == graph.n(),
            m == graph.m(),
            kk == fw_cost_limit(graph),
            kk >= 0,
            idx % 2 == 0,
            idx <= m,
            square(dist@, n as int),
            square(next@, n as int),
            witnessed2(graph, dist@, wit),
            wit.len() == n,
            forall|x: int| 0 <= x < n ==> (#[trigger] wit[x]).len() == n,
            hops_ok(graph, dist@, next@),
            hops_lead(graph, next@, wit),
            diag_zero(dist@, n as int),
            wit_inner(graph, dist@, wit, 0),
            forall|j: int| 0 <= j < idx && j % 2 == 0 ==> #[trigger] arc_bounded(graph, dist@, j),
        decreases m - idx,
    {
        proof {
            graph.lemma_arc(idx as int);
        }
        let u = graph.edges[idx].from.0 as usize;
        let v = graph.edges[idx].to.0 as usize;
        let c = graph.edges[idx].cost.0 as i128;
        assert(graph.arc_from(idx as int) == u as int && graph.arc_to(idx as int) == v as int && graph.cost(idx as int) == c as int);
        let cur = dist[u][v];
        let better = match cur {
            None => true,
            Some(d) => c < d,
        };
        if better {
            proof {
                if u == v {
                    let c1 = seq![idx as int];
                    assert(c1.drop_first() =~= Seq::<int>::empty());
                    assert(c1[0] == idx as int);
                    assert(fwd_walk(graph, c1.drop_first(), u as int, u as int));
                    assert(fwd_walk(graph, c1, u as int, u as int));
                    assert(walk_cost(graph, c1) == graph.cost(idx as int) + walk_cost(graph, c1.drop_first()));
                    assert(walk_cost(graph, c1) >= 0);
                }
                assert(u != v);
            }
            let ghost d0 = dist@;
            let ghost nx0 = next@;
            let mut row = dist[u].clone();
            row.set(v, Some(c));
            dist.set(u, row);
            let mut nrow = next[u].clone();
            nrow.set(v, Some(graph.edges[idx].to));
            next.set(u, nrow);
            proof {
                assert(d0[u as int]@ =~= dist@[u as int]@.update(v as int, d0[u as int]@[v as int]));
                let w1 = seq![idx as int];
                assert(w1.drop_first() =~= Seq::<int>::empty());
                assert(w1[0] == idx as int);
                assert(fwd_walk(graph, w1.drop_first(), v as int, v as int));
                assert(fwd_walk(graph, w1, u as int, v as int));
                assert(walk_cost(graph, w1) == graph.cost(idx as int) + walk_cost(graph, w1.drop_first()));
                let wprev = wit;
                wit = wit.update(u as int, wit[u as int].update(v as int, w1));
                assert forall|x: int, y: int|
                    0 <= x < n && 0 <= y < n && (#[trigger] next@[x]@[y]) is Some implies wit[x][y].len() > 0
                        && graph.arc_to(wit[x][y][0]) == hop_of(next@[x]@[y]) by {
                    if !(x == u && y == v) {
                        assert(next@[x]@[y] == nx0[x]@[y]);
                        assert(wit[x][y] == wprev[x][y]);
                    }
                }
                assert forall|x: int, y: int|
                    0 <= x < n && 0 <= y < n && (#[trigger] dist@[x]@[y]) is Some implies fwd_walk(graph, wit[x][y], x, y)
                        && walk_cost(graph, wit[x][y]) == dist@[x]@[y]->0 by {
                    if !(x == u && y == v) {
                        assert(d0[x]@[y] is Some);
                    }
                }
                assert forall|x: int, y: int| 0 <= x < n && 0 <= y < n implies {
                    &&& (#[trigger] next@[x]@[y] is Some) <==> (x != y && dist@[x]@[y] is Some)
                    &&& next@[x]@[y] matches Some(w) ==> has_arc(graph, x, w.0 as int)
                } by {
                    if x == u && y == v {
                        assert(graph.arc_from(idx as int) == x && graph.arc_to(idx as int) == y);
                    } else {
                        assert(next@[x]@[y] == nx0[x]@[y]);
                        assert(dist@[x]@[y] == d0[x]@[y]);
                    }
                }
                assert forall|x: int, y: int|
                    0 <= x < n && 0 <= y < n && (#[trigger] dist@[x]@[y]) is Some implies inner_lt(graph, wit[x][y], x, 0) by {
                    if !(x == u && y == v) {
                        assert(d0[x]@[y] is Some);
                    }
                }
                assert forall|x: int| 0 <= x < n implies #[trigger] dist@[x]@[x] == Some(0i128) by {
                    assert(d0[x]@[x] == Some(0i128));
                }
                assert forall|j: int| 0 <= j < idx + 2 && j % 2 == 0 implies #[trigger] arc_bounded(graph, dist@, j) by {
                    if j < idx {
                        graph.lemma_arc(j);
                        let a = graph.arc_from(j);
                        let b = graph.arc_to(j);
                        assert(arc_bounded(graph, d0, j));
                        if a == u && b == v {
                            assert(dist@[a]@[b] == Some(c));
                        } else {
                            assert(dist@[a]@[b] == d0[a]@[b]);
                        }
                    } else {
                        assert(dist@[u as int]@[v as int] == Some(c));
                    }
                }
            }
        } else {
            proof {
                assert forall|j: int| 0 <= j < idx + 2 && j % 2 == 0 implies #[trigger] arc_bounded(graph, dist@, j) by {
                    if j == idx {
                        assert(cur == dist@[u as int]@[v as int]);
                    }
                }
            }
        }
        idx += 2;
    }
    proof {
        assert forall|x: int, y: int, p: Seq<int>|
            0 <= x < n && 0 <= y < n && #[trigger] fwd_walk(graph, p, x, y) && inner_lt(graph, p, x, 0) implies dist@[x]@[y] is Some
                && dist@[x]@[y]->0 <= walk_cost(graph, p) by {
            if p.len() == 0 {
                assert(dist@[x]@[x] == Some(0i128));
            } else {
                if p.len() >= 2 {
                    assert(walk_node(graph, p, x, 1) < 0);
                }
                assert(p.drop_first().len() == 0);
                let i0 = p[0];
                assert(fwd_walk(graph, p.drop_first(), graph.arc_to(i0), y));
                assert(graph.arc_to(i0) == y);
                assert(graph.arc_from(i0) == x);
                assert(arc_bounded(graph, dist@, i0));
                assert(walk_cost(graph, p) == graph.cost(i0) + walk_cost(graph, p.drop_first()));
            }
        }
    }
    // relax via intermediate nodes
    let mut k: usize = 0;
    while k < n
        invariant
            fw_input(graph),
            n == graph.n(),
            kk == fw_cost_limit(graph),
            kk >= 0,
            2 * n * kk <= i128::MAX,
            k <= n,
            square(dist@, n as int),
            square(next@, n as int),
            witnessed2(graph, dist@, wit),
            wit.len() == n,
            forall|x: int| 0 <= x < n ==> (#[trigger] wit[x]).len() == n,
            hops_ok(graph, dist@, next@),
            hops_lead(graph, next@, wit),
            diag_zero(dist@, n as int),
            wit_inner(graph, dist@, wit, k as int),
            bounds_walks(graph, dist@, k as int),
        decreases n - k,
    {
        let ghost d0 = dist@;
        let ghost wit0 = wit;
        let mut u: usize = 0;
        while u < n
            invariant
                fw_input(graph),
                n == graph.n(),
                kk == fw_cost_limit(graph),
                kk >= 0,
                2 * n * kk <= i128::MAX,
                k < n,
                u <= n,
                square(dist@, n as int),
                square(next@, n as int),
                square(d0, n as int),
                witnessed2(graph, dist@, wit),
                wit.len() == n,
                forall|x: int| 0 <= x < n ==> (#[trigger] wit[x]).len() == n,
                hops_ok(graph, dist@, next@),
                hops_lead(graph, next@, wit),
                forall|x: int| 0 <= x < n ==> #[trigger] wit[x][k as int] == wit0[x][k as int],
                diag_zero(dist@, n as int),
                bounds_walks(graph, d0, k as int),
                witnessed2(graph, d0, wit0),
                wit_inner(graph, d0, wit0, k as int),
                wit_inner(graph, dist@, wit, k + 1),
                forall|x: int| 0 <= x < n ==> #[trigger] dist@[x]@[k as int] == d0[x]@[k as int],
                forall|y: int| 0 <= y < n ==> #[trigger] dist@[k as int]@[y] == d0[k as int]@[y],
                forall|x: int, y: int|
                    0 <= x < n && 0 <= y < n && (#[trigger] d0[x]@[y]) is Some ==> dist@[x]@[y] is Some
                        && dist@[x]@[y]->0 <= d0[x]@[y]->0,
                forall|x: int, y: int|
                    0 <= x < u && 0 <= y < n && d0[x]@[k as int] is Some && d0[k as int]@[y] is Some ==> (#[trigger] dist@[x]@[y]) is Some
                        && dist@[x]@[y]->0 <= d0[x]@[k as int]->0 + d0[k as int]@[y]->0,
            decreases n - u,
        {
            let mut v: usize = 0;
            while v < n
                invariant
                    fw_input(graph),
                    n == graph.n(),
                    kk == fw_cost_limit(graph),
                    kk >= 0,
                    2 * n * kk <= i128::MAX,
                    k < n,
                    u < n,
                    v <= n,
                    square(dist@, n as int),
                    square(next@, n as int),
                    square(d0, n as int),
                    witnessed2(graph, dist@, wit),
                    wit.len() == n,
                    forall|x: int| 0 <= x < n ==> (#[trigger] wit[x]).len() == n,
                    hops_ok(graph, dist@, next@),
                    hops_lead(graph, next@, wit),
                    forall|x: int| 0 <= x < n ==> #[trigger] wit[x][k as int] == wit0[x][k as int],
                    diag_zero(dist@, n as int),
                    bounds_walks(graph, d0, k as int),
                    witnessed2(graph, d0, wit0),
                    wit_inner(graph, d0, wit0, k as int),
                    wit_inner(graph, dist@, wit, k + 1),
                    forall|x: int| 0 <= x < n ==> #[trigger] dist@[x]@[k as int] == d0[x]@[k as int],
                    forall|y: int| 0 <= y < n ==> #[trigger] dist@[k as int]@[y] == d0[k as int]@[y],
                    forall|x: int, y: int|
                        0 <= x < n && 0 <= y < n && (#[trigger] d0[x]@[y]) is Some ==> dist@[x]@[y] is Some
                            && dist@[x]@[y]->0 <= d0[x]@[y]->0,
                    forall|x: int, y: int|
                        ((0 <= x < u && 0 <= y < n) || (x == u && 0 <= y < v)) && d0[x]@[k as int] is Some
                            && d0[k as int]@[y] is Some ==> (#[trigger] dist@[x]@[y]) is Some && dist@[x]@[y]->0
                            <= d0[x]@[k as int]->0 + d0[k as int]@[y]->0,
                decreases n - v,
            {
                let duk = dist[u][k];
                let dkv = dist[k][v];
                if let (Some(a), Some(b)) = (duk, dkv) {
                    proof {
                        assert(d0[u as int]@[k as int] == Some(a));
                        assert(d0[k as int]@[v as int] == Some(b));
                        lemma_walk_floor(graph, wit0[u as int][k as int], u as int, k as int);
                        lemma_walk_floor(graph, wit0[k as int][v as int], k as int, v as int);
                        lemma_entry_cap(graph, d0, wit0, u as int, k as int, k as int);
                        lemma_entry_cap(graph, d0, wit0, k as int, v as int, k as int);
                        assert(2 * ((n - 1) * kk) <= 2 * n * kk) by (nonlinear_arith)
                            requires
                                kk >= 0,
                                n >= 1,
                        ;
                    }
                    let via = a + b;
                    let better = match dist[u][v] {
                        None => true,
                        Some(d) => via < d,
                    };
                    if better {
                        proof {
                            lemma_walk_concat(graph, wit0[u as int][k as int], wit0[k as int][v as int], u as int, k as int, v as int);
                            lemma_concat_inner(graph, wit0[u as int][k as int], wit0[k as int][v as int], u as int, k as int, v as int, k as int);
                            if u == v {
                                assert(walk_cost(graph, wit0[u as int][k as int] + wit0[k as int][v as int]) >= 0);
                            }
                            assert(u != v);
                            if u == k {
                                assert(a == 0);
                            }
                            assert(u != k);
                            if v == k {
                                assert(b == 0);
                            }
                            assert(v != k);
                            assert(next@[u as int]@[k as int] is Some);
                        }
                        let ghost dd = dist@;
                        let ghost nx0 = next@;
                        let hop = next[u][k];
                        let mut row = dist[u].clone();
                        row.set(v, Some(via));
                        dist.set(u, row);
                        let mut nrow = next[u].clone();
                        nrow.set(v, hop);
                        next.set(u, nrow);
                        proof {
                            assert(dd[u as int]@ =~= dist@[u as int]@.update(v as int, dd[u as int]@[v as int]));
                            assert(nx0[u as int]@ =~= next@[u as int]@.update(v as int, nx0[u as int]@[v as int]));
                            let wp = wit0[u as int][k as int] + wit0[k as int][v as int];
                            let wprev = wit;
                            assert(wprev[u as int][k as int] == wit0[u as int][k as int]);
                            wit = wit.update(u as int, wit[u as int].update(v as int, wp));
                            assert forall|x: int, y: int|
                                0 <= x < n && 0 <= y < n && (#[trigger] next@[x]@[y]) is Some implies wit[x][y].len() > 0
                                    && graph.arc_to(wit[x][y][0]) == hop_of(next@[x]@[y]) by {
                                if x == u && y == v {
                                    assert(next@[x]@[y] == nx0[u as int]@[k as int]);
                                    assert(wp[0] == wit0[u as int][k as int][0]);
                                } else {
                                    assert(next@[x]@[y] == nx0[x]@[y]);
                                    assert(wit[x][y] == wprev[x][y]);
                                }
                            }
                            assert forall|x: int| 0 <= x < n implies #[trigger] wit[x][k as int] == wit0[x][k as int] by {
                                assert(wit[x][k as int] == wprev[x][k as int]);
                            }
                            assert forall|x: int, y: int|
                                0 <= x < n && 0 <= y < n && (#[trigger] dist@[x]@[y]) is Some implies fwd_walk(graph, wit[x][y], x, y)
                                    && walk_cost(graph, wit[x][y]) == dist@[x]@[y]->0 by {
                                if !(x == u && y == v) {
                                    assert(dd[x]@[y] is Some);
                                }
                            }
                            assert forall|x: int, y: int| 0 <= x < n && 0 <= y < n implies {
                                &&& (#[trigger] next@[x]@[y] is Some) <==> (x != y && dist@[x]@[y] is Some)
                                &&& next@[x]@[y] matches Some(w) ==> has_arc(graph, x, w.0 as int)
                            } by {
                                if x == u && y == v {
                                    assert(next@[x]@[y] == nx0[u as int]@[k as int]);
                                } else {
                                    assert(next@[x]@[y] == nx0[x]@[y]);
                                    assert(dist@[x]@[y] == dd[x]@[y]);
                                }
                            }
                            assert forall|x: int, y: int|
                                0 <= x < n && 0 <= y < n && (#[trigger] dist@[x]@[y]) is Some implies inner_lt(graph, wit[x][y], x, k + 1) by {
                                if !(x == u && y == v) {
                                    assert(dd[x]@[y] is Some);
                                }
                            }
                            assert forall|x: int| 0 <= x < n implies #[trigger] dist@[x]@[x] == Some(0i128) by {
                                assert(dd[x]@[x] == Some(0i128));
                            }
                            assert forall|x: int| 0 <= x < n implies #[trigger] dist@[x]@[k as int] == d0[x]@[k as int] by {
                                assert(dd[x]@[k as int] == d0[x]@[k as int]);
                            }
                            assert forall|y: int| 0 <= y < n implies #[trigger] dist@[k as int]@[y] == d0[k as int]@[y] by {
                                assert(dd[k as int]@[y] == d0[k as int]@[y]);
                            }
                            assert forall|x: int, y: int|
                                0 <= x < n && 0 <= y < n && (#[trigger] d0[x]@[y]) is Some implies dist@[x]@[y] is Some
                                    && dist@[x]@[y]->0 <= d0[x]@[y]->0 by {
                                assert(dd[x]@[y] is Some);
                            }
                            assert forall|x: int, y: int|
                                ((0 <= x < u && 0 <= y < n) || (x == u && 0 <= y < v + 1)) && d0[x]@[k as int] is Some
                                    && d0[k as int]@[y] is Some implies (#[trigger] dist@[x]@[y]) is Some && dist@[x]@[y]->0
                                    <= d0[x]@[k as int]->0 + d0[k as int]@[y]->0 by {
                                if !(x == u && y == v) {
                                    assert(dd[x]@[y] is Some);
                                }
                            }
                        }
                    } else {
                        proof {
                            assert(dist@[u as int]@[v as int] is Some);
                        }
                    }
                }
                proof {
                    assert(d0[u as int]@[k as int] is Some ==> dist@[u as int]@[k as int] is Some);
                }
                v += 1;
            }
            u += 1;
        }
        proof {
            lemma_phase(graph, d0, dist@, k as int);
        }
        k += 1;
    }
    proof {
        assert forall|u: int, v: int|
            0 <= u < n && 0 <= v < n && (#[trigger] dist@[u]@[v]) is Some implies exists|p: Seq<int>|
                fwd_walk(graph, p, u, v) && walk_cost(graph, p) == dist@[u]@[v]->0 by {
            assert(fwd_walk(graph, wit[u][v], u, v));
        }
        assert forall|u: int, v: int, p: Seq<int>|
            0 <= u < n && 0 <= v < n && #[trigger] fwd_walk(graph, p, u, v) implies dist@[u]@[v] is Some
                && walk_cost(graph, p) >= dist@[u]@[v]->0 by {
            lemma_walk_arcs(graph, p, u, v);
            assert forall|j: int| 0 < j < p.len() implies #[trigger] walk_node(graph, p, u, j) < n by {
                graph.lemma_arc(p[j - 1]);
            }
        }
        assert forall|x: int, y: int|
            0 <= x < n && 0 <= y < n && (#[trigger] next@[x]@[y]) is Some implies hop_starts_shortest(
                graph,
                dist@,
                x,
                y,
                hop_of(next@[x]@[y]),
            ) by {
            let p = wit[x][y];
            let i = p[0];
            let w = graph.arc_to(i);
            assert(dist@[x]@[y] is Some);
            assert(fwd_walk(graph, p, x, y));
            graph.lemma_arc(i);
            let rest = p.drop_first();
            assert(fwd_walk(graph, rest, w, y));
            assert(walk_cost(graph, p) == graph.cost(i) + walk_cost(graph, rest));
            assert(dist@[w]@[y] is Some && walk_cost(graph, rest) >= dist@[w]@[y]->0);
            let q = wit[w][y];
            assert(fwd_walk(graph, q, w, y) && walk_cost(graph, q) == dist@[w]@[y]->0);
            let one = seq![i];
            assert(one.drop_first() =~= Seq::<int>::empty());
            assert(one[0] == i);
            assert(fwd_walk(graph, one.drop_first(), w, w));
            assert(fwd_walk(graph, one, x, w));
            assert(walk_cost(graph, one) == graph.cost(i) + walk_cost(graph, one.drop_first()));
            lemma_walk_concat(graph, one, q, x, w, y);
            assert(fwd_walk(graph, one + q, x, y));
            assert(graph.arc_from(i) == x && graph.arc_to(i) == w);
        }
    }
    AllPairsResult { dist, next }
}

} // verus!
