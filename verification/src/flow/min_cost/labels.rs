//! Distance labels of a multi-source Bellman-Ford pass over a residual
//! graph: every label starts at zero, and relaxing an arc lowers the label
//! of its head and makes the arc the head's parent.  What the labels and
//! parents show: a label lies below the cost of every short residual walk
//! into its node, and every cycle of parent arcs has negative cost.
use vstd::prelude::*;
use crate::graph::DiGraph;
use crate::graph::residual::rcap;
use crate::flow::min_cost::rwalk::{resid, arc_costs, walk_by, cost_by, lemma_split_by, lemma_arcs_by, lemma_extend_by};
use crate::routing::walks::lemma_pigeonhole;
use crate::sums::{sum_to, lemma_sum_lt, lemma_sum_telescope};

verus! {

/// Parent entry of a node that no relaxation has reached.
pub const NO_PARENT: usize = usize::MAX;

/// Parent arcs enter their node and have positive residual capacity.
pub open spec fn parents_ok(g: &DiGraph, f: Seq<i64>, parent: Seq<usize>) -> bool {
    &&& parent.len() == g.n()
    &&& forall|v: int|
        0 <= v < g.n() && #[trigger] parent[v] != NO_PARENT ==> (parent[v] as int) < g.m() && g.arc_to(parent[v] as int)
            == v && rcap(g, f, parent[v] as int) > 0
}

/// The label of `x` against its parent arc: a node without a parent keeps
/// label zero and stamp zero; a node with one is labelled at least the
/// label of the arc's tail plus the arc's cost, strictly so when the tail
/// took its parent later (larger stamp) or is `x` itself.
pub open spec fn link_ok(g: &DiGraph, d: Seq<i128>, parent: Seq<usize>, stamp: Seq<int>, x: int) -> bool {
    if parent[x] == NO_PARENT {
        d[x] == 0 && stamp[x] == 0
    } else {
        let y = g.arc_from(parent[x] as int);
        let w = g.cost(parent[x] as int);
        &&& stamp[x] >= 1
        &&& d[x] >= d[y] + w
        &&& (stamp[y] > stamp[x] || y == x) ==> d[x] > d[y] + w
    }
}

/// Every node's label is linked to its parent; stamps lie below `clock`
/// and tell apart the nodes that have parents.
pub open spec fn links_ok(g: &DiGraph, d: Seq<i128>, parent: Seq<usize>, stamp: Seq<int>, clock: int) -> bool {
    &&& d.len() == g.n()
    &&& stamp.len() == g.n()
    &&& forall|x: int| 0 <= x < g.n() ==> #[trigger] link_ok(g, d, parent, stamp, x)
    &&& forall|x: int| 0 <= x < g.n() ==> 0 <= #[trigger] stamp[x] < clock
    &&& forall|x: int, y: int|
        0 <= x < g.n() && 0 <= y < g.n() && x != y && parent[x] != NO_PARENT && parent[y] != NO_PARENT
            ==> #[trigger] stamp[x] != #[trigger] stamp[y]
}

/// Every residual walk into a node that has at most `r` arcs, or `r + 1`
/// arcs the last of which comes before arc `e`, costs at least the label of
/// the node.
pub open spec fn labels_below(g: &DiGraph, f: Seq<i64>, d: Seq<i128>, r: int, e: int) -> bool {
    forall|p: Seq<int>, u: int, x: int|
        #[trigger] walk_by(g, resid(g, f), p, u, x) && 0 <= x < g.n() && (p.len() <= r || (p.len() == r + 1 && p[r]
            < e)) ==> d[x] <= cost_by(arc_costs(g), p)
}

/// All labels zero: no walk of no arcs costs less.
pub proof fn lemma_labels_start(g: &DiGraph, f: Seq<i64>, d: Seq<i128>)
    requires
        d.len() == g.n(),
        forall|x: int| 0 <= x < g.n() ==> #[trigger] d[x] == 0,
    ensures
        labels_below(g, f, d, 0, 0),
{
    assert forall|p: Seq<int>, u: int, x: int|
        #[trigger] walk_by(g, resid(g, f), p, u, x) && 0 <= x < g.n() && (p.len() <= 0 || (p.len() == 0 + 1 && p[0]
            < 0)) implies d[x] <= cost_by(arc_costs(g), p) by {
        if p.len() == 1 {
            lemma_arcs_by(g, resid(g, f), p, u, x);
        }
    }
}

/// A finished round covers every walk one arc longer.
pub proof fn lemma_labels_round(g: &DiGraph, f: Seq<i64>, d: Seq<i128>, r: int)
    requires
        r >= 0,
        labels_below(g, f, d, r, g.m()),
    ensures
        labels_below(g, f, d, r + 1, 0),
{
    assert forall|p: Seq<int>, u: int, x: int|
        #[trigger] walk_by(g, resid(g, f), p, u, x) && 0 <= x < g.n() && (p.len() <= r + 1 || (p.len() == r + 2 && p[r
            + 1] < 0)) implies d[x] <= cost_by(arc_costs(g), p) by {
        lemma_arcs_by(g, resid(g, f), p, u, x);
        if p.len() == r + 2 {
            assert(p[r + 1] >= 0);
        }
        if p.len() == r + 1 {
            assert(p[r] < g.m());
        }
    }
}

/// Handling arc `e` keeps every label at most its old value and, when the
/// arc has residual capacity, brings the label of its head down to at most
/// the old label of its tail plus its cost: walks ending in `e` are then
/// covered too.
pub proof fn lemma_labels_step(g: &DiGraph, f: Seq<i64>, d0: Seq<i128>, d1: Seq<i128>, r: int, e: int)
    requires
        g.wf(),
        r >= 0,
        0 <= e < g.m(),
        d0.len() == g.n(),
        d1.len() == g.n(),
        labels_below(g, f, d0, r, e),
        forall|x: int| 0 <= x < g.n() ==> #[trigger] d1[x] <= d0[x],
        rcap(g, f, e) > 0 ==> d1[g.arc_to(e)] <= d0[g.arc_from(e)] + g.cost(e),
    ensures
        labels_below(g, f, d1, r, e + 1),
{
    let ok = resid(g, f);
    let c = arc_costs(g);
    assert forall|p: Seq<int>, u: int, x: int|
        #[trigger] walk_by(g, ok, p, u, x) && 0 <= x < g.n() && (p.len() <= r || (p.len() == r + 1 && p[r] < e
            + 1)) implies d1[x] <= cost_by(c, p) by {
        if p.len() == r + 1 && p[r] == e {
            lemma_split_by(g, ok, c, p, u, x, r);
            let q = p.subrange(0, r);
            let z = crate::routing::walks::walk_node(g, p, u, r);
            let last = p.subrange(r, r + 1);
            assert(last[0] == e);
            assert(last.drop_first() =~= Seq::<int>::empty());
            assert(walk_by(g, ok, last.drop_first(), g.arc_to(last[0]), x));
            assert(g.arc_from(e) == z);
            assert(g.arc_to(e) == x);
            assert(ok(e));
            assert(cost_by(c, last) == c(e) + cost_by(c, last.drop_first()));
            g.lemma_arc(e);
            assert(walk_by(g, ok, q, u, z) && 0 <= z < g.n() && q.len() <= r);
        }
    }
}

/// Before the first relaxation: every label zero, no parents, no stamps.
pub proof fn lemma_links_start(g: &DiGraph, d: Seq<i128>, parent: Seq<usize>, stamp: Seq<int>)
    requires
        d.len() == g.n(),
        stamp.len() == g.n(),
        forall|x: int| 0 <= x < g.n() ==> #[trigger] d[x] == 0,
        forall|x: int| 0 <= x < g.n() ==> #[trigger] parent[x] == NO_PARENT,
        forall|x: int| 0 <= x < g.n() ==> #[trigger] stamp[x] == 0,
    ensures
        links_ok(g, d, parent, stamp, 1),
{
    assert forall|x: int| 0 <= x < g.n() implies #[trigger] link_ok(g, d, parent, stamp, x) by {
        assert(parent[x] == NO_PARENT);
    }
}

/// Relaxing arc `e` from `u` into `v` — lowering the label of `v` to the
/// label of `u` plus the arc's cost, making `e` the parent of `v` and
/// stamping `v` with the clock — keeps every label linked.
pub proof fn lemma_links_relax(
    g: &DiGraph,
    f: Seq<i64>,
    d0: Seq<i128>,
    par0: Seq<usize>,
    st0: Seq<int>,
    clock: int,
    e: int,
    d1: Seq<i128>,
    par1: Seq<usize>,
    st1: Seq<int>,
)
    requires
        g.wf(),
        parents_ok(g, f, par0),
        links_ok(g, d0, par0, st0, clock),
        0 <= e < g.m(),
        rcap(g, f, e) > 0,
        d0[g.arc_from(e)] + g.cost(e) < d0[g.arc_to(e)],
        d1.len() == d0.len(),
        d1[g.arc_to(e)] == d0[g.arc_from(e)] + g.cost(e),
        forall|x: int| 0 <= x < g.n() && x != g.arc_to(e) ==> #[trigger] d1[x] == d0[x],
        par1 == par0.update(g.arc_to(e), e as usize),
        st1 == st0.update(g.arc_to(e), clock),
    ensures
        parents_ok(g, f, par1),
        links_ok(g, d1, par1, st1, clock + 1),
{
    g.lemma_arc(e);
    let u = g.arc_from(e);
    let v = g.arc_to(e);
    assert(clock >= 1) by {
        assert(0 <= st0[0] < clock);
    }
    assert forall|x: int| 0 <= x < g.n() && #[trigger] par1[x] != NO_PARENT implies (par1[x] as int) < g.m()
        && g.arc_to(par1[x] as int) == x && rcap(g, f, par1[x] as int) > 0 by {
        if x != v {
            assert(par1[x] == par0[x]);
        }
    }
    assert forall|x: int| 0 <= x < g.n() implies #[trigger] link_ok(g, d1, par1, st1, x) by {
        assert(link_ok(g, d0, par0, st0, x));
        if x != v {
            assert(par1[x] == par0[x]);
            if par0[x] != NO_PARENT {
                g.lemma_arc(par0[x] as int);
                let y = g.arc_from(par0[x] as int);
                if y != v {
                    assert(d1[y] == d0[y]);
                    assert(st1[y] == st0[y]);
                }
            }
        } else {
            assert(0 <= st0[u] < clock);
            if u != v {
                assert(d1[u] == d0[u]);
                assert(st1[u] == st0[u]);
            }
        }
    }
    assert forall|x: int| 0 <= x < g.n() implies 0 <= #[trigger] st1[x] < clock + 1 by {
        assert(0 <= st0[x] < clock);
    }
    assert forall|x: int, y: int|
        0 <= x < g.n() && 0 <= y < g.n() && x != y && par1[x] != NO_PARENT && par1[y] != NO_PARENT
            implies #[trigger] st1[x] != #[trigger] st1[y] by {
        assert(0 <= st0[x] < clock);
        assert(0 <= st0[y] < clock);
        if x != v && y != v {
            assert(par1[x] == par0[x]);
            assert(par1[y] == par0[y]);
        }
    }
}

/// The node reached from `v` by following parent arcs back `k` times.
pub open spec fn anc(g: &DiGraph, parent: Seq<usize>, v: int, k: nat) -> int
    decreases k,
{
    if k == 0 {
        v
    } else {
        g.arc_from(parent[anc(g, parent, v, (k - 1) as nat)] as int)
    }
}

/// The labels and parents right after the check round found arc
/// `parent[v0]` still relaxable: every other node keeps the parent it had
/// in `pre`, whose labels are linked, and every residual walk of fewer than
/// `n` arcs costs at least the label of its end.
pub open spec fn found_entry(
    g: &DiGraph,
    f: Seq<i64>,
    d: Seq<i128>,
    pre: Seq<usize>,
    stamp: Seq<int>,
    clock: int,
    parent: Seq<usize>,
    v0: int,
) -> bool {
    &&& g.wf()
    &&& g.n() >= 1
    &&& parents_ok(g, f, parent)
    &&& parents_ok(g, f, pre)
    &&& links_ok(g, d, pre, stamp, clock)
    &&& labels_below(g, f, d, g.n() - 1, 0)
    &&& 0 <= v0 < g.n()
    &&& parent[v0] != NO_PARENT
    &&& forall|x: int| 0 <= x < g.n() && x != v0 ==> #[trigger] parent[x] == pre[x]
    &&& d[v0] > d[g.arc_from(parent[v0] as int)] + g.cost(parent[v0] as int)
}

/// Going back from two equal nodes gives equal nodes.
pub proof fn lemma_anc_shift(g: &DiGraph, parent: Seq<usize>, v: int, i: nat, j: nat, t: nat)
    requires
        anc(g, parent, v, i) == anc(g, parent, v, j),
    ensures
        anc(g, parent, v, i + t) == anc(g, parent, v, j + t),
    decreases t,
{
    if t > 0 {
        lemma_anc_shift(g, parent, v, i, j, (t - 1) as nat);
        assert(anc(g, parent, v, i + t) == g.arc_from(parent[anc(g, parent, v, (i + t - 1) as nat)] as int));
        assert(anc(g, parent, v, j + t) == g.arc_from(parent[anc(g, parent, v, (j + t - 1) as nat)] as int));
    }
}

/// Going back from a node with a parent stays among the nodes.
pub proof fn lemma_anc_next(g: &DiGraph, f: Seq<i64>, parent: Seq<usize>, v: int, k: nat)
    requires
        g.wf(),
        parents_ok(g, f, parent),
        0 <= anc(g, parent, v, k) < g.n(),
        parent[anc(g, parent, v, k)] != NO_PARENT,
    ensures
        0 <= anc(g, parent, v, k + 1) < g.n(),
        g.arc_to(parent[anc(g, parent, v, k)] as int) == anc(g, parent, v, k),
        g.arc_from(parent[anc(g, parent, v, k)] as int) == anc(g, parent, v, k + 1),
        rcap(g, f, parent[anc(g, parent, v, k)] as int) > 0,
        (parent[anc(g, parent, v, k)] as int) < g.m(),
{
    let x = anc(g, parent, v, k);
    g.lemma_arc(parent[x] as int);
    assert(anc(g, parent, v, k + 1) == g.arc_from(parent[anc(g, parent, v, k)] as int));
}

/// The parent arcs from `anc(k)` forward to `anc(i)` form a residual walk
/// whose cost is at most the label of `anc(i)`, provided none of the nodes
/// passed is `v0` and the walk starts at a node without a parent.
proof fn lemma_chain_walk(
    g: &DiGraph,
    f: Seq<i64>,
    d: Seq<i128>,
    pre: Seq<usize>,
    stamp: Seq<int>,
    clock: int,
    parent: Seq<usize>,
    v0: int,
    k: nat,
    i: nat,
) -> (w: Seq<int>)
    requires
        found_entry(g, f, d, pre, stamp, clock, parent, v0),
        1 <= i <= k,
        forall|j: nat| j < k ==> 0 <= #[trigger] anc(g, parent, v0, j) < g.n() && parent[anc(g, parent, v0, j)]
            != NO_PARENT,
        0 <= anc(g, parent, v0, k) < g.n(),
        parent[anc(g, parent, v0, k)] == NO_PARENT,
        forall|j: nat| 1 <= j <= k ==> #[trigger] anc(g, parent, v0, j) != v0,
    ensures
        walk_by(g, resid(g, f), w, anc(g, parent, v0, k), anc(g, parent, v0, i)),
        w.len() == k - i,
        cost_by(arc_costs(g), w) <= d[anc(g, parent, v0, i)],
    decreases k - i,
{
    let ok = resid(g, f);
    let c = arc_costs(g);
    let z = anc(g, parent, v0, k);
    if i == k {
        assert(z != v0);
        assert(parent[z] == pre[z]);
        assert(link_ok(g, d, pre, stamp, z));
        let w = Seq::<int>::empty();
        assert(walk_by(g, ok, w, z, z));
        w
    } else {
        let w0 = lemma_chain_walk(g, f, d, pre, stamp, clock, parent, v0, k, i + 1);
        let x = anc(g, parent, v0, i);
        assert(0 <= x < g.n() && parent[x] != NO_PARENT);
        lemma_anc_next(g, f, parent, v0, i);
        let a = parent[x] as int;
        lemma_extend_by(g, ok, c, w0, z, anc(g, parent, v0, i + 1), a);
        assert(x != v0);
        assert(parent[x] == pre[x]);
        assert(link_ok(g, d, pre, stamp, x));
        w0.push(a)
    }
}

/// Going back at most `n` times from `v0` never meets a node without a
/// parent: a parentless node within reach would give a residual walk of
/// fewer than `n` arcs into `v0` cheaper than its label.
proof fn lemma_parented_upto(
    g: &DiGraph,
    f: Seq<i64>,
    d: Seq<i128>,
    pre: Seq<usize>,
    stamp: Seq<int>,
    clock: int,
    parent: Seq<usize>,
    v0: int,
    k: nat,
)
    requires
        found_entry(g, f, d, pre, stamp, clock, parent, v0),
        k <= g.n(),
    ensures
        forall|j: nat| j <= k ==> 0 <= #[trigger] anc(g, parent, v0, j) < g.n() && parent[anc(g, parent, v0, j)]
            != NO_PARENT,
    decreases k,
{
    let n = g.n();
    if k > 0 {
        lemma_parented_upto(g, f, d, pre, stamp, clock, parent, v0, (k - 1) as nat);
        assert(0 <= anc(g, parent, v0, (k - 1) as nat) < n);
        lemma_anc_next(g, f, parent, v0, (k - 1) as nat);
        let z = anc(g, parent, v0, k);
        if parent[z] == NO_PARENT {
            // the nodes met so far are distinct
            assert forall|a: nat, b: nat| a < b <= k implies anc(g, parent, v0, a) != anc(g, parent, v0, b) by {
                if anc(g, parent, v0, a) == anc(g, parent, v0, b) {
                    lemma_anc_shift(g, parent, v0, a, b, (k - b) as nat);
                    assert(anc(g, parent, v0, (a + (k - b)) as nat) == z);
                }
            }
            // so there are at most n of them
            if k >= n {
                let ns = Seq::new((k + 1) as nat, |j: int| anc(g, parent, v0, j as nat));
                assert forall|j: int| 0 <= j < ns.len() implies 0 <= #[trigger] ns[j] < n by {
                    if j < k {
                        assert(0 <= anc(g, parent, v0, j as nat) < n);
                    }
                }
                lemma_pigeonhole(ns, n);
                let (a, b) = choose|a: int, b: int| 0 <= a < b < ns.len() && ns[a] == ns[b];
                assert(anc(g, parent, v0, a as nat) != anc(g, parent, v0, b as nat));
            }
            assert forall|j: nat| 1 <= j <= k implies #[trigger] anc(g, parent, v0, j) != v0 by {
                assert(anc(g, parent, v0, 0) == v0);
            }
            let w1 = lemma_chain_walk(g, f, d, pre, stamp, clock, parent, v0, k, 1);
            lemma_anc_next(g, f, parent, v0, 0);
            let e0 = parent[v0] as int;
            let ok = resid(g, f);
            let c = arc_costs(g);
            lemma_extend_by(g, ok, c, w1, z, anc(g, parent, v0, 1), e0);
            let w = w1.push(e0);
            assert(walk_by(g, ok, w, z, v0) && 0 <= v0 < n && w.len() <= n - 1);
            assert(false);
        }
    }
}

/// Going back from `v0` always finds a parent, and after `n` steps the walk
/// back has entered a cycle: it returns to `anc(n)` after some `p` in
/// `1..=n` further steps.
pub proof fn lemma_walk_back(
    g: &DiGraph,
    f: Seq<i64>,
    d: Seq<i128>,
    pre: Seq<usize>,
    stamp: Seq<int>,
    clock: int,
    parent: Seq<usize>,
    v0: int,
) -> (p: nat)
    requires
        found_entry(g, f, d, pre, stamp, clock, parent, v0),
    ensures
        1 <= p <= g.n(),
        anc(g, parent, v0, (g.n() + p) as nat) == anc(g, parent, v0, g.n() as nat),
        forall|j: nat| j <= g.n() + p ==> 0 <= #[trigger] anc(g, parent, v0, j) < g.n() && parent[anc(
            g,
            parent,
            v0,
            j,
        )] != NO_PARENT,
{
    let n = g.n();
    lemma_parented_upto(g, f, d, pre, stamp, clock, parent, v0, n as nat);
    let ns = Seq::new((n + 1) as nat, |j: int| anc(g, parent, v0, j as nat));
    assert forall|j: int| 0 <= j < ns.len() implies 0 <= #[trigger] ns[j] < n by {
        assert(0 <= anc(g, parent, v0, j as nat) < n);
    }
    lemma_pigeonhole(ns, n);
    let (a, b) = choose|a: int, b: int| 0 <= a < b < ns.len() && ns[a] == ns[b];
    let p = (b - a) as nat;
    assert(anc(g, parent, v0, a as nat) == anc(g, parent, v0, b as nat));
    assert forall|j: nat| j <= n + p implies 0 <= #[trigger] anc(g, parent, v0, j) < n && parent[anc(
        g,
        parent,
        v0,
        j,
    )] != NO_PARENT by {
        if j > n {
            lemma_anc_shift(g, parent, v0, a as nat, b as nat, (j - b) as nat);
            assert(anc(g, parent, v0, (a + (j - b)) as nat) == anc(g, parent, v0, j));
            assert(0 <= anc(g, parent, v0, (a + (j - b)) as nat) < n);
        }
    }
    lemma_anc_shift(g, parent, v0, a as nat, b as nat, (n - b) as nat);
    assert(anc(g, parent, v0, (a + (n - b)) as nat) == anc(g, parent, v0, n as nat));
    lemma_anc_shift(g, parent, v0, a as nat, b as nat, (n + p - b) as nat);
    p
}

/// Going back from `anc(b)`, the nodes met before the first return to it
/// are distinct.
pub proof fn lemma_return_distinct(g: &DiGraph, parent: Seq<usize>, v0: int, b: nat, l: int, a: int, a2: int)
    requires
        0 <= a < a2 < l,
        anc(g, parent, v0, (b + l) as nat) == anc(g, parent, v0, b),
        forall|t: int| 0 < t < l ==> #[trigger] anc(g, parent, v0, (b + t) as nat) != anc(g, parent, v0, b),
    ensures
        anc(g, parent, v0, (b + a) as nat) != anc(g, parent, v0, (b + a2) as nat),
{
    if anc(g, parent, v0, (b + a) as nat) == anc(g, parent, v0, (b + a2) as nat) {
        lemma_anc_shift(g, parent, v0, (b + a) as nat, (b + a2) as nat, (l - a2) as nat);
        assert(anc(g, parent, v0, (b + (a + (l - a2))) as nat) != anc(g, parent, v0, b));
    }
}

/// Total cost of the arcs of `c`.
pub open spec fn cycle_cost(g: &DiGraph, c: Seq<usize>) -> int {
    sum_to(c.len() as int, |t: int| g.cost(c[t] as int))
}

/// Some index of `0..l` carries the largest value of `h`.
proof fn lemma_max_index(l: int, h: spec_fn(int) -> int) -> (j: int)
    requires
        l >= 1,
    ensures
        0 <= j < l,
        forall|t: int| 0 <= t < l ==> #[trigger] h(t) <= h(j),
    decreases l,
{
    if l == 1 {
        0
    } else {
        let j0 = lemma_max_index(l - 1, h);
        if h(l - 1) > h(j0) {
            l - 1
        } else {
            j0
        }
    }
}

/// The parent arcs met going back from `anc(b)` until the walk first
/// returns to `anc(b)` cost less than zero in all: summing the links
/// around the cycle, the labels cancel, and one link is strict — the one
/// into `v0` if the cycle passes it, else the one whose tail took its
/// parent last.
pub proof fn lemma_cycle_negative(
    g: &DiGraph,
    f: Seq<i64>,
    d: Seq<i128>,
    pre: Seq<usize>,
    stamp: Seq<int>,
    clock: int,
    parent: Seq<usize>,
    v0: int,
    b: nat,
    c: Seq<usize>,
)
    requires
        found_entry(g, f, d, pre, stamp, clock, parent, v0),
        c.len() >= 1,
        forall|j: nat| j <= b + c.len() ==> 0 <= #[trigger] anc(g, parent, v0, j) < g.n() && parent[anc(
            g,
            parent,
            v0,
            j,
        )] != NO_PARENT,
        anc(g, parent, v0, (b + c.len()) as nat) == anc(g, parent, v0, b),
        forall|t: int| 0 < t < c.len() ==> #[trigger] anc(g, parent, v0, (b + t) as nat) != anc(g, parent, v0, b),
        forall|t: int| 0 <= t < c.len() ==> #[trigger] c[t] == parent[anc(g, parent, v0, (b + t) as nat)],
    ensures
        cycle_cost(g, c) < 0,
{
    let l = c.len() as int;
    let x = |t: int| anc(g, parent, v0, (b + t) as nat);
    let dd = |t: int| d[x(t)] as int;
    let cf = |t: int| g.cost(c[t] as int);
    let df = |t: int| dd(t) - dd(t + 1);
    // the nodes of the cycle are distinct
    assert forall|a: int, a2: int| 0 <= a < a2 < l implies #[trigger] x(a) != #[trigger] x(a2) by {
        lemma_return_distinct(g, parent, v0, b, l, a, a2);
    }
    // each arc costs at most the drop in label along it
    assert forall|t: int| 0 <= t < l implies #[trigger] cf(t) <= df(t) by {
        assert(0 <= x(t) < g.n() && parent[x(t)] != NO_PARENT);
        lemma_anc_next(g, f, parent, v0, (b + t) as nat);
        assert(x(t + 1) == anc(g, parent, v0, (b + t + 1) as nat));
        if x(t) != v0 {
            assert(parent[x(t)] == pre[x(t)]);
            assert(link_ok(g, d, pre, stamp, x(t)));
        }
    }
    // and one arc strictly less
    let h = |t: int| stamp[x(t)];
    let j = lemma_max_index(l, h);
    let k: int = if exists|t: int| 0 <= t < l && #[trigger] x(t) == v0 {
        choose|t: int| 0 <= t < l && #[trigger] x(t) == v0
    } else if l == 1 {
        0
    } else {
        if j >= 1 {
            j - 1
        } else {
            l - 1
        }
    };
    assert(cf(k) < df(k)) by {
        assert(0 <= x(k) < g.n() && parent[x(k)] != NO_PARENT);
        lemma_anc_next(g, f, parent, v0, (b + k) as nat);
        assert(x(k + 1) == anc(g, parent, v0, (b + k + 1) as nat));
        if x(k) != v0 {
            assert(parent[x(k)] == pre[x(k)]);
            assert(link_ok(g, d, pre, stamp, x(k)));
            if l == 1 {
                assert(x(1) == x(0));
            } else {
                assert(x(k + 1) == x(j)) by {
                    if j == 0 {
                        assert(x(l) == x(0));
                    }
                }
                assert(0 <= x(j) < g.n() && parent[x(j)] != NO_PARENT);
                assert(x(j) != v0);
                assert(parent[x(j)] == pre[x(j)]);
                assert(x(k) != x(j));
                assert(stamp[x(k)] != stamp[x(j)]);
                assert(h(k) <= h(j));
            }
        }
    }
    lemma_sum_lt(l, cf, df, k);
    lemma_sum_telescope(l, dd);
    assert(x(l) == x(0));
}

} // verus!
