//! A graph with an entry node in front of the source: `k` parallel arcs of
//! total capacity `cap` from a new node into the source.  Its maximum flow
//! is a flow of value `cap` in the original graph, whenever `cap` is at most
//! the original maximum flow value.
use vstd::prelude::*;
use crate::graph::DiGraph;
use crate::graph::residual::{
    flow_bounded, is_flow, is_max_flow, flow_value, net_out, cut_capacity, closed_cut, rcap,
};
use crate::flow::{lemma_flow_le_cut, lemma_max_flow_min_cut};
use crate::flow::min_cost::optimality::{certified, certifies, reduced_cost};
use crate::sums::{sum_to, twin, lemma_sum_ext, lemma_sum_zero, lemma_sum_nonneg, lemma_sum_add};

verus! {

/// Arc `i` of `g2` leads from the entry node `x` into `s` at no cost.
pub open spec fn entry_arc(g2: &DiGraph, x: int, s: int, i: int) -> bool {
    &&& g2.arc_from(i) == x
    &&& g2.arc_to(i) == s
    &&& g2.cost(i) == 0
}

/// `g2` is `g` with a new node `g.n()` and `k` new arcs (each followed by
/// its residual partner) of cost zero from it into `s`, whose capacities
/// add up to `cap`.
pub open spec fn entry_graph(g: &DiGraph, g2: &DiGraph, s: int, k: int, cap: int) -> bool {
    let m = g.m();
    let x = g.n();
    &&& g.wf()
    &&& g2.wf()
    &&& 0 <= s < g.n()
    &&& k >= 1
    &&& g2.n() == g.n() + 1
    &&& g2.m() == m + 2 * k
    &&& forall|i: int| 0 <= i < m ==> #[trigger] g2.edges@[i] == g.edges@[i]
    &&& forall|i: int| m <= i < m + 2 * k && i % 2 == 0 ==> #[trigger] entry_arc(g2, x, s, i)
    &&& sum_to(k, |j: int| g2.cap(m + 2 * j)) == cap
}

/// A sum over `m + 2k` terms splits into the first `m` and the pairs after.
pub proof fn lemma_sum_pairs_after(m: int, k: int, h: spec_fn(int) -> int)
    requires
        m >= 0,
        k >= 0,
    ensures
        sum_to(m + 2 * k, h) == sum_to(m, h) + sum_to(k, |j: int| h(m + 2 * j) + h(m + 2 * j + 1)),
    decreases k,
{
    if k > 0 {
        lemma_sum_pairs_after(m, k - 1, h);
        let q = |j: int| h(m + 2 * j) + h(m + 2 * j + 1);
        assert(sum_to(k, q) == sum_to(k - 1, q) + q(k - 1));
        assert(sum_to(m + 2 * k, h) == sum_to(m + 2 * k - 1, h) + h(m + 2 * k - 1));
        assert(sum_to(m + 2 * k - 1, h) == sum_to(m + 2 * (k - 1), h) + h(m + 2 * (k - 1)));
    }
}

/// Facts about the `j`-th entry arc and its partner.
proof fn lemma_entry_pair(g: &DiGraph, g2: &DiGraph, s: int, k: int, cap: int, j: int)
    requires
        entry_graph(g, g2, s, k, cap),
        0 <= j < k,
    ensures
        entry_arc(g2, g.n(), s, g.m() + 2 * j),
        twin(g.m() + 2 * j) == g.m() + 2 * j + 1,
        g2.arc_from(g.m() + 2 * j + 1) == s,
        g2.arc_to(g.m() + 2 * j + 1) == g.n(),
        g2.cap(g.m() + 2 * j) >= 0,
        g2.cap(g.m() + 2 * j + 1) == 0,
{
    let i = g.m() + 2 * j;
    assert(g.m() % 2 == 0);
    assert(entry_arc(g2, g.n(), s, i));
    g2.lemma_arc(i);
}

/// The net flow out of a node of `g`: in `g2` the partners of the entry
/// arcs add to the source's; out of the entry node flows what the entry
/// arcs carry.
proof fn lemma_entry_net_out(g: &DiGraph, g2: &DiGraph, s: int, k: int, cap: int, f2: Seq<i64>, v: int)
    requires
        entry_graph(g, g2, s, k, cap),
        f2.len() == g2.m(),
        0 <= v < g.n(),
    ensures
        net_out(g2, f2, v) == net_out(g, f2.subrange(0, g.m()), v) + (if v == s {
            sum_to(k, |j: int| f2[g.m() + 2 * j + 1] as int)
        } else {
            0
        }),
        net_out(g2, f2, g.n()) == sum_to(k, |j: int| f2[g.m() + 2 * j] as int),
{
    let m = g.m();
    let f = f2.subrange(0, m);
    let h2 = |i: int| if g2.arc_from(i) == v { f2[i] as int } else { 0 };
    let h = |i: int| if g.arc_from(i) == v { f[i] as int } else { 0 };
    assert forall|i: int| 0 <= i < m implies #[trigger] h2(i) == h(i) by {
        assert(g2.edges@[i] == g.edges@[i]);
    }
    lemma_sum_ext(m, h2, h);
    lemma_sum_pairs_after(m, k, h2);
    let q = |j: int| h2(m + 2 * j) + h2(m + 2 * j + 1);
    let back = |j: int| f2[m + 2 * j + 1] as int;
    if v == s {
        assert forall|j: int| 0 <= j < k implies #[trigger] q(j) == back(j) by {
            lemma_entry_pair(g, g2, s, k, cap, j);
        }
        lemma_sum_ext(k, q, back);
    } else {
        assert forall|j: int| 0 <= j < k implies #[trigger] q(j) == 0 by {
            lemma_entry_pair(g, g2, s, k, cap, j);
        }
        lemma_sum_zero(k, q);
    }
    let x = g.n();
    let hx = |i: int| if g2.arc_from(i) == x { f2[i] as int } else { 0 };
    assert forall|i: int| 0 <= i < m implies #[trigger] hx(i) == 0 by {
        assert(g2.edges@[i] == g.edges@[i]);
        g.lemma_arc(i);
    }
    lemma_sum_zero(m, hx);
    lemma_sum_pairs_after(m, k, hx);
    let qx = |j: int| hx(m + 2 * j) + hx(m + 2 * j + 1);
    let fwd = |j: int| f2[m + 2 * j] as int;
    assert forall|j: int| 0 <= j < k implies #[trigger] qx(j) == fwd(j) by {
        lemma_entry_pair(g, g2, s, k, cap, j);
    }
    lemma_sum_ext(k, qx, fwd);
}

/// A flow of `g2` from the new node, cut down to the arcs of `g`, is a flow
/// of `g` of the same value.
pub proof fn lemma_entry_restrict(g: &DiGraph, g2: &DiGraph, s: int, t: int, k: int, cap: int, f2: Seq<i64>)
    requires
        entry_graph(g, g2, s, k, cap),
        0 <= t < g.n(),
        s != t,
        is_flow(g2, f2, g.n(), t),
    ensures
        is_flow(g, f2.subrange(0, g.m()), s, t),
        flow_value(g, f2.subrange(0, g.m()), s) == flow_value(g2, f2, g.n()),
        certified(g2, f2) ==> certified(g, f2.subrange(0, g.m())),
{
    let m = g.m();
    let f = f2.subrange(0, m);
    assert(m % 2 == 0);
    assert forall|i: int| 0 <= i < m implies #[trigger] f[twin(i)] == -f[i] && f[i] <= g.cap(i) by {
        g.lemma_arc(i);
        assert(g2.edges@[i] == g.edges@[i]);
        assert(f2[twin(i)] == -f2[i]);
        assert(f2[i] <= g2.cap(i));
    }
    assert(flow_bounded(g, f));
    assert forall|v: int| 0 <= v < g.n() && v != s && v != t implies #[trigger] net_out(g, f, v) == 0 by {
        lemma_entry_net_out(g, g2, s, k, cap, f2, v);
        assert(net_out(g2, f2, v) == 0);
    }
    lemma_entry_net_out(g, g2, s, k, cap, f2, s);
    assert(net_out(g2, f2, s) == 0);
    let fwd = |j: int| f2[m + 2 * j] as int;
    let back = |j: int| f2[m + 2 * j + 1] as int;
    let zero = |j: int| 0int;
    assert forall|j: int| 0 <= j < k implies #[trigger] zero(j) == fwd(j) + back(j) by {
        lemma_entry_pair(g, g2, s, k, cap, j);
        assert(f2[twin(m + 2 * j)] == -f2[m + 2 * j]);
    }
    lemma_sum_add(k, fwd, back, zero);
    lemma_sum_zero(k, zero);
    if certified(g2, f2) {
        let p2 = choose|p: Seq<int>| #[trigger] certifies(g2, f2, p);
        let p = p2.subrange(0, g.n());
        assert forall|i: int| 0 <= i < g.m() && rcap(g, f, i) > 0 implies #[trigger] reduced_cost(g, p, i) >= 0 by {
            g.lemma_arc(i);
            assert(g2.edges@[i] == g.edges@[i]);
            assert(rcap(g2, f2, i) > 0);
            assert(reduced_cost(g2, p2, i) >= 0);
        }
        assert(certifies(g, f, p));
    }
}

/// A maximum flow of `g2` from the new node carries exactly `cap` when
/// `cap` is at most the maximum flow value of `g`: the new node alone is a
/// cut of capacity `cap`, and any other cut keeps the source, so costs at
/// least a cut of `g`, or cuts every entry arc.
pub proof fn lemma_entry_value(g: &DiGraph, g2: &DiGraph, s: int, t: int, k: int, cap: int, f: Seq<i64>, f2: Seq<i64>)
    requires
        entry_graph(g, g2, s, k, cap),
        0 <= t < g.n(),
        s != t,
        0 <= cap <= flow_value(g, f, s),
        is_max_flow(g, f, s, t),
        is_max_flow(g2, f2, g.n(), t),
    ensures
        flow_value(g2, f2, g.n()) == cap,
{
    let m = g.m();
    let x = g.n();
    let caps = |j: int| g2.cap(m + 2 * j);
    // upper bound: the cut around the new node
    let sx = Seq::new((x + 1) as nat, |v: int| v == x);
    lemma_flow_le_cut(g2, f2, x, t, sx);
    let hx = |i: int| if sx[g2.arc_from(i)] && !sx[g2.arc_to(i)] { g2.cap(i) } else { 0 };
    assert forall|i: int| 0 <= i < m implies #[trigger] hx(i) == 0 by {
        assert(g2.edges@[i] == g.edges@[i]);
        g.lemma_arc(i);
    }
    lemma_sum_zero(m, hx);
    lemma_sum_pairs_after(m, k, hx);
    let qx = |j: int| hx(m + 2 * j) + hx(m + 2 * j + 1);
    assert forall|j: int| 0 <= j < k implies #[trigger] qx(j) == caps(j) by {
        lemma_entry_pair(g, g2, s, k, cap, j);
    }
    lemma_sum_ext(k, qx, caps);
    assert(cut_capacity(g2, sx) == cap);
    // lower bound: the cut that the maximum flow of g2 saturates
    let side = choose|side: Seq<bool>| closed_cut(g2, f2, side, x, t);
    lemma_max_flow_min_cut(g2, f2, x, t, side);
    let h2 = |i: int| if side[g2.arc_from(i)] && !side[g2.arc_to(i)] { g2.cap(i) } else { 0 };
    lemma_sum_pairs_after(m, k, h2);
    let q2 = |j: int| h2(m + 2 * j) + h2(m + 2 * j + 1);
    assert forall|i: int| 0 <= i < m + 2 * k implies #[trigger] h2(i) >= 0 by {
        g2.lemma_arc(i);
    }
    lemma_sum_nonneg(m, h2);
    assert forall|j: int| 0 <= j < k implies #[trigger] q2(j) >= 0 by {
        assert(h2(m + 2 * j) >= 0);
        assert(h2(m + 2 * j + 1) >= 0);
    }
    lemma_sum_nonneg(k, q2);
    if side[s] {
        let sg = side.subrange(0, x);
        lemma_flow_le_cut(g, f, s, t, sg);
        let h = |i: int| if sg[g.arc_from(i)] && !sg[g.arc_to(i)] { g.cap(i) } else { 0 };
        assert forall|i: int| 0 <= i < m implies #[trigger] h2(i) == h(i) by {
            assert(g2.edges@[i] == g.edges@[i]);
            g.lemma_arc(i);
        }
        lemma_sum_ext(m, h2, h);
    } else {
        assert forall|j: int| 0 <= j < k implies #[trigger] q2(j) == caps(j) by {
            lemma_entry_pair(g, g2, s, k, cap, j);
        }
        lemma_sum_ext(k, q2, caps);
    }
}

} // verus!
