//! Walks along forward arcs and their costs.
use vstd::prelude::*;
use crate::graph::DiGraph;

verus! {

/// `p` is a walk of forward arcs from `u` to `v`.
pub open spec fn fwd_walk(g: &DiGraph, p: Seq<int>, u: int, v: int) -> bool
    decreases p.len(),
{
    if p.len() == 0 {
        u == v
    } else {
        &&& 0 <= p[0] < g.m()
        &&& p[0] % 2 == 0
        &&& g.arc_from(p[0]) == u
        &&& fwd_walk(g, p.drop_first(), g.arc_to(p[0]), v)
    }
}

/// Total cost of the arcs of `p`.
pub open spec fn walk_cost(g: &DiGraph, p: Seq<int>) -> int
    decreases p.len(),
{
    if p.len() == 0 {
        0
    } else {
        g.cost(p[0]) + walk_cost(g, p.drop_first())
    }
}

pub proof fn lemma_walk_extend(g: &DiGraph, p: Seq<int>, a: int, b: int, i: int)
    requires
        fwd_walk(g, p, a, b),
        0 <= i < g.m(),
        i % 2 == 0,
        g.arc_from(i) == b,
    ensures
        fwd_walk(g, p.push(i), a, g.arc_to(i)),
        walk_cost(g, p.push(i)) == walk_cost(g, p) + g.cost(i),
    decreases p.len(),
{
    if p.len() == 0 {
        assert(p.push(i).drop_first() =~= Seq::<int>::empty());
        assert(fwd_walk(g, Seq::<int>::empty(), g.arc_to(i), g.arc_to(i)));
        assert(p.push(i)[0] == i);
        assert(walk_cost(g, p.push(i)) == g.cost(i) + walk_cost(g, Seq::<int>::empty()));
    } else {
        assert(p.push(i).drop_first() =~= p.drop_first().push(i));
        assert(p.push(i)[0] == p[0]);
        lemma_walk_extend(g, p.drop_first(), g.arc_to(p[0]), b, i);
        assert(walk_cost(g, p.push(i)) == g.cost(p[0]) + walk_cost(g, p.drop_first().push(i)));
    }
}

/// With distances satisfying the triangle inequality on every forward arc
/// from a node with a distance, every walk from `u` costs at least the
/// difference of the distances of its ends.
pub proof fn lemma_walk_lower_bound(g: &DiGraph, dist: Seq<Option<i128>>, p: Seq<int>, u: int, v: int)
    requires
        g.wf(),
        dist.len() == g.n(),
        0 <= u < g.n(),
        dist[u] is Some,
        fwd_walk(g, p, u, v),
        forall|i: int|
            0 <= i < g.m() && i % 2 == 0 && #[trigger] dist[g.arc_from(i)] is Some ==> dist[g.arc_to(i)] is Some
                && dist[g.arc_to(i)]->0 <= dist[g.arc_from(i)]->0 + g.cost(i),
    ensures
        dist[v] is Some,
        walk_cost(g, p) >= dist[v]->0 - dist[u]->0,
    decreases p.len(),
{
    if p.len() > 0 {
        let i = p[0];
        g.lemma_arc(i);
        assert(dist[g.arc_from(i)] is Some);
        lemma_walk_lower_bound(g, dist, p.drop_first(), g.arc_to(i), v);
    }
}

/// Node reached after the first `k` arcs of a walk starting at `u`.
pub open spec fn walk_node(g: &DiGraph, p: Seq<int>, u: int, k: int) -> int {
    if k == 0 {
        u
    } else {
        g.arc_to(p[k - 1])
    }
}

/// The graph has a negative-cost cycle reachable from `s`.
pub open spec fn neg_cycle_reachable(g: &DiGraph, s: int) -> bool {
    exists|p: Seq<int>, c: Seq<int>, w: int|
        #[trigger] fwd_walk(g, p, s, w) && #[trigger] fwd_walk(g, c, w, w) && walk_cost(g, c) < 0
}

/// The arcs of a walk, one by one.
pub proof fn lemma_walk_arcs(g: &DiGraph, p: Seq<int>, u: int, v: int)
    requires
        fwd_walk(g, p, u, v),
    ensures
        forall|k: int|
            0 <= k < p.len() ==> 0 <= #[trigger] p[k] < g.m() && p[k] % 2 == 0 && g.arc_from(p[k])
                == walk_node(g, p, u, k),
        walk_node(g, p, u, p.len() as int) == v,
    decreases p.len(),
{
    if p.len() > 0 {
        lemma_walk_arcs(g, p.drop_first(), g.arc_to(p[0]), v);
        assert forall|k: int| 0 <= k < p.len() implies 0 <= #[trigger] p[k] < g.m() && p[k] % 2 == 0
            && g.arc_from(p[k]) == walk_node(g, p, u, k) by {
            if k > 0 {
                assert(p[k] == p.drop_first()[k - 1]);
                if k > 1 {
                    assert(p[k - 1] == p.drop_first()[k - 2]);
                }
            }
        }
        if p.len() > 1 {
            assert(p[p.len() - 1] == p.drop_first()[p.len() - 2]);
        }
    }
}

/// Concatenating walks.
pub proof fn lemma_walk_concat(g: &DiGraph, p1: Seq<int>, p2: Seq<int>, u: int, w: int, v: int)
    requires
        fwd_walk(g, p1, u, w),
        fwd_walk(g, p2, w, v),
    ensures
        fwd_walk(g, p1 + p2, u, v),
        walk_cost(g, p1 + p2) == walk_cost(g, p1) + walk_cost(g, p2),
    decreases p1.len(),
{
    if p1.len() == 0 {
        assert(p1 + p2 =~= p2);
    } else {
        lemma_walk_concat(g, p1.drop_first(), p2, g.arc_to(p1[0]), w, v);
        assert((p1 + p2).drop_first() =~= p1.drop_first() + p2);
        assert((p1 + p2)[0] == p1[0]);
    }
}

/// Splitting a walk after its first `k` arcs.
pub proof fn lemma_walk_split(g: &DiGraph, p: Seq<int>, u: int, v: int, k: int)
    requires
        fwd_walk(g, p, u, v),
        0 <= k <= p.len(),
    ensures
        fwd_walk(g, p.subrange(0, k), u, walk_node(g, p, u, k)),
        fwd_walk(g, p.subrange(k, p.len() as int), walk_node(g, p, u, k), v),
        walk_cost(g, p) == walk_cost(g, p.subrange(0, k)) + walk_cost(g, p.subrange(k, p.len() as int)),
    decreases p.len(),
{
    if k == 0 {
        assert(p.subrange(0, 0) =~= Seq::<int>::empty());
        assert(p.subrange(0, p.len() as int) =~= p);
        assert(walk_cost(g, Seq::<int>::empty()) == 0);
    } else {
        let q = p.drop_first();
        lemma_walk_split(g, q, g.arc_to(p[0]), v, k - 1);
        assert(walk_node(g, q, g.arc_to(p[0]), k - 1) == walk_node(g, p, u, k)) by {
            if k > 1 {
                assert(q[k - 2] == p[k - 1]);
            }
        }
        assert(p.subrange(0, k).drop_first() =~= q.subrange(0, k - 1));
        assert(p.subrange(0, k)[0] == p[0]);
        assert(p.subrange(k, p.len() as int) =~= q.subrange(k - 1, q.len() as int));
    }
}

/// Walk costs are bounded by the length times the largest arc cost.
pub proof fn lemma_walk_cost_bound(g: &DiGraph, p: Seq<int>, u: int, v: int, c: int)
    requires
        fwd_walk(g, p, u, v),
        forall|i: int| 0 <= i < g.m() && i % 2 == 0 ==> -c <= #[trigger] g.cost(i) <= c,
    ensures
        -(p.len() * c) <= walk_cost(g, p) <= p.len() * c,
    decreases p.len(),
{
    if p.len() > 0 {
        lemma_walk_cost_bound(g, p.drop_first(), g.arc_to(p[0]), v, c);
        assert((p.len() - 1) * c + c == p.len() * c) by (nonlinear_arith);
    } else {
        assert(0 * c == 0) by (nonlinear_arith);
    }
}

/// A sequence longer than `n` with entries below `n` repeats an entry.
pub proof fn lemma_pigeonhole(s: Seq<int>, n: int)
    requires
        n >= 0,
        s.len() > n,
        forall|i: int| 0 <= i < s.len() ==> 0 <= #[trigger] s[i] < n,
    ensures
        exists|a: int, b: int| 0 <= a < b < s.len() && s[a] == s[b],
{
    if s.no_duplicates() {
        s.unique_seq_to_set();
        vstd::set_lib::lemma_int_range(0, n);
        assert(s.to_set().subset_of(vstd::set_lib::set_int_range(0, n))) by {
            assert forall|x: int| s.to_set().contains(x) implies vstd::set_lib::set_int_range(0, n).contains(x) by {
                assert(s.contains(x));
            }
        }
        vstd::set_lib::lemma_len_subset(s.to_set(), vstd::set_lib::set_int_range(0, n));
    } else {
        let (a, b) = choose|a: int, b: int| 0 <= a < s.len() && 0 <= b < s.len() && a != b && s[a] == s[b];
        if a < b {
            assert(s[a] == s[b]);
        } else {
            assert(s[b] == s[a]);
        }
    }
}

/// Without a negative cycle reachable from `s`, every walk from `s` can be
/// replaced by one of at most `n - 1` arcs that costs no more.
pub proof fn lemma_short_walk(g: &DiGraph, s: int, p: Seq<int>, v: int)
    requires
        g.wf(),
        0 <= s < g.n(),
        fwd_walk(g, p, s, v),
        !neg_cycle_reachable(g, s),
    ensures
        exists|q: Seq<int>| fwd_walk(g, q, s, v) && q.len() < g.n() && walk_cost(g, q) <= walk_cost(g, p),
    decreases p.len(),
{
    if p.len() < g.n() {
        assert(fwd_walk(g, p, s, v) && p.len() < g.n() && walk_cost(g, p) <= walk_cost(g, p));
    } else {
        lemma_walk_arcs(g, p, s, v);
        let ns = Seq::new((p.len() + 1) as nat, |k: int| walk_node(g, p, s, k));
        assert forall|k: int| 0 <= k < ns.len() implies 0 <= #[trigger] ns[k] < g.n() by {
            if k > 0 {
                g.lemma_arc(p[k - 1]);
            }
        }
        lemma_pigeonhole(ns, g.n());
        let (a, b) = choose|a: int, b: int| 0 <= a < b < ns.len() && ns[a] == ns[b];
        let w = walk_node(g, p, s, a);
        lemma_walk_split(g, p, s, v, a);
        let p1 = p.subrange(0, a);
        let rest = p.subrange(a, p.len() as int);
        lemma_walk_split(g, rest, w, v, b - a);
        assert(walk_node(g, rest, w, b - a) == w) by {
            assert(rest[b - a - 1] == p[b - 1]);
        }
        let cyc = rest.subrange(0, b - a);
        let p3 = rest.subrange(b - a, rest.len() as int);
        if walk_cost(g, cyc) < 0 {
            assert(fwd_walk(g, p1, s, w) && fwd_walk(g, cyc, w, w) && walk_cost(g, cyc) < 0);
            assert(neg_cycle_reachable(g, s));
        }
        lemma_walk_concat(g, p1, p3, s, w, v);
        let p2 = p1 + p3;
        lemma_short_walk(g, s, p2, v);
    }
}

} // verus!
