//! Walks along the arcs of a graph that satisfy a predicate, with costs
//! given by a cost function: the forward arcs of positive capacity, or the
//! arcs of a residual graph, under arc costs or reduced costs.
use vstd::prelude::*;
use crate::graph::DiGraph;
use crate::graph::residual::rcap;
use crate::routing::walks::{walk_node, lemma_pigeonhole};

verus! {

/// Forward arcs of positive capacity.
pub open spec fn pos_fwd(g: &DiGraph) -> spec_fn(int) -> bool {
    |i: int| i % 2 == 0 && g.cap(i) > 0
}

/// Arcs with positive residual capacity under flow `f`.
pub open spec fn resid(g: &DiGraph, f: Seq<i64>) -> spec_fn(int) -> bool {
    |i: int| rcap(g, f, i) > 0
}

/// Arc costs.
pub open spec fn arc_costs(g: &DiGraph) -> spec_fn(int) -> int {
    |i: int| g.cost(i)
}

/// Reduced cost of an arc under node potentials `pi`.
pub open spec fn rc(g: &DiGraph, pi: Seq<i128>, i: int) -> int {
    g.cost(i) + pi[g.arc_from(i)] - pi[g.arc_to(i)]
}

/// Reduced costs under node potentials `pi`.
pub open spec fn reduced(g: &DiGraph, pi: Seq<i128>) -> spec_fn(int) -> int {
    |i: int| rc(g, pi, i)
}

/// `p` is a walk from `u` to `v` along arcs satisfying `ok`.
pub open spec fn walk_by(g: &DiGraph, ok: spec_fn(int) -> bool, p: Seq<int>, u: int, v: int) -> bool
    decreases p.len(),
{
    if p.len() == 0 {
        u == v
    } else {
        &&& 0 <= p[0] < g.m()
        &&& ok(p[0])
        &&& g.arc_from(p[0]) == u
        &&& walk_by(g, ok, p.drop_first(), g.arc_to(p[0]), v)
    }
}

/// Total cost of the arcs of `p` under `c`.
pub open spec fn cost_by(c: spec_fn(int) -> int, p: Seq<int>) -> int
    decreases p.len(),
{
    if p.len() == 0 {
        0
    } else {
        c(p[0]) + cost_by(c, p.drop_first())
    }
}

/// `v` can be reached from `s` along arcs satisfying `ok`.
pub open spec fn reach_by(g: &DiGraph, ok: spec_fn(int) -> bool, s: int, v: int) -> bool {
    exists|p: Seq<int>| #[trigger] walk_by(g, ok, p, s, v)
}

/// A closed walk of negative cost under `c` can be reached from `s`.
pub open spec fn neg_cycle_by(g: &DiGraph, ok: spec_fn(int) -> bool, c: spec_fn(int) -> int, s: int) -> bool {
    exists|p: Seq<int>, cy: Seq<int>, w: int|
        #[trigger] walk_by(g, ok, p, s, w) && #[trigger] walk_by(g, ok, cy, w, w) && cost_by(c, cy) < 0
}

pub proof fn lemma_extend_by(g: &DiGraph, ok: spec_fn(int) -> bool, c: spec_fn(int) -> int, p: Seq<int>, a: int, b: int, i: int)
    requires
        walk_by(g, ok, p, a, b),
        0 <= i < g.m(),
        ok(i),
        g.arc_from(i) == b,
    ensures
        walk_by(g, ok, p.push(i), a, g.arc_to(i)),
        cost_by(c, p.push(i)) == cost_by(c, p) + c(i),
    decreases p.len(),
{
    if p.len() == 0 {
        assert(p.push(i).drop_first() =~= Seq::<int>::empty());
        assert(walk_by(g, ok, Seq::<int>::empty(), g.arc_to(i), g.arc_to(i)));
        assert(p.push(i)[0] == i);
        assert(cost_by(c, p.push(i)) == c(i) + cost_by(c, Seq::<int>::empty()));
    } else {
        assert(p.push(i).drop_first() =~= p.drop_first().push(i));
        assert(p.push(i)[0] == p[0]);
        lemma_extend_by(g, ok, c, p.drop_first(), g.arc_to(p[0]), b, i);
        assert(cost_by(c, p.push(i)) == c(p[0]) + cost_by(c, p.drop_first().push(i)));
    }
}

/// The arcs of a walk, one by one.
pub proof fn lemma_arcs_by(g: &DiGraph, ok: spec_fn(int) -> bool, p: Seq<int>, u: int, v: int)
    requires
        walk_by(g, ok, p, u, v),
    ensures
        forall|k: int|
            0 <= k < p.len() ==> 0 <= #[trigger] p[k] < g.m() && ok(p[k]) && g.arc_from(p[k]) == walk_node(g, p, u, k),
        walk_node(g, p, u, p.len() as int) == v,
    decreases p.len(),
{
    if p.len() > 0 {
        lemma_arcs_by(g, ok, p.drop_first(), g.arc_to(p[0]), v);
        assert forall|k: int| 0 <= k < p.len() implies 0 <= #[trigger] p[k] < g.m() && ok(p[k]) && g.arc_from(p[k])
            == walk_node(g, p, u, k) by {
            if k > 0 {
                assert(p[k] == p.drop_first()[k - 1]);
                if k > 1 {
                    assert(p[k - 1] == p.drop_first()[k - 2]);
                }
            }
        }
        if p.len() > 1 {
            assert(p[p.len() - 1] == p.drop_first()[p.len() - 2]);
        }
    }
}

/// Concatenating walks.
pub proof fn lemma_concat_by(g: &DiGraph, ok: spec_fn(int) -> bool, c: spec_fn(int) -> int, p1: Seq<int>, p2: Seq<int>, u: int, w: int, v: int)
    requires
        walk_by(g, ok, p1, u, w),
        walk_by(g, ok, p2, w, v),
    ensures
        walk_by(g, ok, p1 + p2, u, v),
        cost_by(c, p1 + p2) == cost_by(c, p1) + cost_by(c, p2),
    decreases p1.len(),
{
    if p1.len() == 0 {
        assert(p1 + p2 =~= p2);
    } else {
        lemma_concat_by(g, ok, c, p1.drop_first(), p2, g.arc_to(p1[0]), w, v);
        assert((p1 + p2).drop_first() =~= p1.drop_first() + p2);
        assert((p1 + p2)[0] == p1[0]);
    }
}

/// Splitting a walk after its first `k` arcs.
pub proof fn lemma_split_by(g: &DiGraph, ok: spec_fn(int) -> bool, c: spec_fn(int) -> int, p: Seq<int>, u: int, v: int, k: int)
    requires
        walk_by(g, ok, p, u, v),
        0 <= k <= p.len(),
    ensures
        walk_by(g, ok, p.subrange(0, k), u, walk_node(g, p, u, k)),
        walk_by(g, ok, p.subrange(k, p.len() as int), walk_node(g, p, u, k), v),
        cost_by(c, p) == cost_by(c, p.subrange(0, k)) + cost_by(c, p.subrange(k, p.len() as int)),
    decreases p.len(),
{
    if k == 0 {
        assert(p.subrange(0, 0) =~= Seq::<int>::empty());
        assert(p.subrange(0, p.len() as int) =~= p);
        assert(cost_by(c, Seq::<int>::empty()) == 0);
    } else {
        let q = p.drop_first();
        lemma_split_by(g, ok, c, q, g.arc_to(p[0]), v, k - 1);
        assert(walk_node(g, q, g.arc_to(p[0]), k - 1) == walk_node(g, p, u, k)) by {
            if k > 1 {
                assert(q[k - 2] == p[k - 1]);
            }
        }
        assert(p.subrange(0, k).drop_first() =~= q.subrange(0, k - 1));
        assert(p.subrange(0, k)[0] == p[0]);
        assert(p.subrange(k, p.len() as int) =~= q.subrange(k - 1, q.len() as int));
    }
}

/// Walk costs are bounded by the length times the largest arc cost.
pub proof fn lemma_cost_bound_by(g: &DiGraph, ok: spec_fn(int) -> bool, c: spec_fn(int) -> int, p: Seq<int>, u: int, v: int, k: int)
    requires
        walk_by(g, ok, p, u, v),
        forall|i: int| 0 <= i < g.m() && ok(i) ==> -k <= #[trigger] c(i) <= k,
    ensures
        -(p.len() * k) <= cost_by(c, p) <= p.len() * k,
    decreases p.len(),
{
    if p.len() > 0 {
        lemma_cost_bound_by(g, ok, c, p.drop_first(), g.arc_to(p[0]), v, k);
        assert((p.len() - 1) * k + k == p.len() * k) by (nonlinear_arith);
    } else {
        assert(0 * k == 0) by (nonlinear_arith);
    }
}

/// Along a walk, reduced costs telescope: they sum to the arc costs plus
/// the potential of the start minus the potential of the end.
pub proof fn lemma_reduced_walk(g: &DiGraph, ok: spec_fn(int) -> bool, pi: Seq<i128>, p: Seq<int>, u: int, v: int)
    requires
        walk_by(g, ok, p, u, v),
    ensures
        cost_by(reduced(g, pi), p) == cost_by(arc_costs(g), p) + pi[u] - pi[v],
    decreases p.len(),
{
    if p.len() > 0 {
        lemma_reduced_walk(g, ok, pi, p.drop_first(), g.arc_to(p[0]), v);
    }
}

/// A walk stays a walk under any predicate its arcs satisfy.
pub proof fn lemma_walk_weaken(g: &DiGraph, ok1: spec_fn(int) -> bool, ok2: spec_fn(int) -> bool, p: Seq<int>, u: int, v: int)
    requires
        walk_by(g, ok1, p, u, v),
        forall|i: int| 0 <= i < g.m() && ok1(i) ==> #[trigger] ok2(i),
    ensures
        walk_by(g, ok2, p, u, v),
    decreases p.len(),
{
    if p.len() > 0 {
        lemma_walk_weaken(g, ok1, ok2, p.drop_first(), g.arc_to(p[0]), v);
    }
}

/// Without a negative cycle reachable from `s`, every walk from `s` can be
/// replaced by one of at most `n - 1` arcs that costs no more.
pub proof fn lemma_short_by(g: &DiGraph, ok: spec_fn(int) -> bool, c: spec_fn(int) -> int, s: int, p: Seq<int>, v: int)
    requires
        g.wf(),
        0 <= s < g.n(),
        walk_by(g, ok, p, s, v),
        !neg_cycle_by(g, ok, c, s),
    ensures
        exists|q: Seq<int>| #[trigger] walk_by(g, ok, q, s, v) && q.len() < g.n() && cost_by(c, q) <= cost_by(c, p),
    decreases p.len(),
{
    if p.len() < g.n() {
        assert(walk_by(g, ok, p, s, v) && p.len() < g.n() && cost_by(c, p) <= cost_by(c, p));
    } else {
        lemma_arcs_by(g, ok, p, s, v);
        let ns = Seq::new((p.len() + 1) as nat, |k: int| walk_node(g, p, s, k));
        assert forall|k: int| 0 <= k < ns.len() implies 0 <= #[trigger] ns[k] < g.n() by {
            if k > 0 {
                g.lemma_arc(p[k - 1]);
            }
        }
        lemma_pigeonhole(ns, g.n());
        let (a, b) = choose|a: int, b: int| 0 <= a < b < ns.len() && ns[a] == ns[b];
        let w = walk_node(g, p, s, a);
        lemma_split_by(g, ok, c, p, s, v, a);
        let p1 = p.subrange(0, a);
        let rest = p.subrange(a, p.len() as int);
        lemma_split_by(g, ok, c, rest, w, v, b - a);
        assert(walk_node(g, rest, w, b - a) == w) by {
            assert(rest[b - a - 1] == p[b - 1]);
        }
        let cyc = rest.subrange(0, b - a);
        let p3 = rest.subrange(b - a, rest.len() as int);
        if cost_by(c, cyc) < 0 {
            assert(walk_by(g, ok, p1, s, w) && walk_by(g, ok, cyc, w, w) && cost_by(c, cyc) < 0);
            assert(neg_cycle_by(g, ok, c, s));
        }
        lemma_concat_by(g, ok, c, p1, p3, s, w, v);
        let p2 = p1 + p3;
        lemma_short_by(g, ok, c, s, p2, v);
    }
}

} // verus!
