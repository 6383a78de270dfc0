//! Flow state layered on a graph, and the mathematical model of flows.
use vstd::prelude::*;
use super::{DiGraph, NodeId};
use crate::sums::{
    lemma_sum_bounded, sum_to, twin, lemma_xor_one, lemma_sum_zero, lemma_sum_point, lemma_sum_le, lemma_sum_nonneg,
    lemma_sum_add, lemma_sum_ext,
};

verus! {

/// Residual capacity of arc `i` under flow `f`.
pub open spec fn rcap(g: &DiGraph, f: Seq<i64>, i: int) -> int {
    g.cap(i) - f[i]
}

/// `f` has one entry per arc, is antisymmetric on paired arcs and respects
/// every arc capacity.  With the residual partners this means every forward
/// arc carries between zero and its capacity.
pub open spec fn flow_bounded(g: &DiGraph, f: Seq<i64>) -> bool {
    &&& f.len() == g.m()
    &&& forall|i: int| 0 <= i < g.m() ==> #[trigger] f[twin(i)] == -f[i]
    &&& forall|i: int| 0 <= i < g.m() ==> #[trigger] f[i] <= g.cap(i)
}

/// Net flow leaving node `v`: the sum of `f` over the arcs leaving `v`
/// (residual partners count incoming flow negatively).
pub open spec fn net_out(g: &DiGraph, f: Seq<i64>, v: int) -> int {
    sum_to(g.m(), |i: int| if g.arc_from(i) == v { f[i] as int } else { 0 })
}

/// Flow is conserved at every node other than `s` and `t`.
pub open spec fn conserves(g: &DiGraph, f: Seq<i64>, s: int, t: int) -> bool {
    forall|v: int| 0 <= v < g.n() && v != s && v != t ==> #[trigger] net_out(g, f, v) == 0
}

/// `f` is a feasible `s`-`t` flow.
pub open spec fn is_flow(g: &DiGraph, f: Seq<i64>, s: int, t: int) -> bool {
    flow_bounded(g, f) && conserves(g, f, s, t)
}

/// Value of a flow: net flow leaving the source.
pub open spec fn flow_value(g: &DiGraph, f: Seq<i64>, s: int) -> int {
    net_out(g, f, s)
}

/// `side` marks a set of nodes that holds `s`, not `t`, and that no arc with
/// positive residual capacity leaves.  Such a set exists exactly when the
/// residual graph has no `s`-`t` path.
pub open spec fn closed_cut(g: &DiGraph, f: Seq<i64>, side: Seq<bool>, s: int, t: int) -> bool {
    &&& side.len() == g.n()
    &&& side[s]
    &&& !side[t]
    &&& forall|i: int|
        0 <= i < g.m() && #[trigger] side[g.arc_from(i)] && rcap(g, f, i) > 0 ==> side[g.arc_to(i)]
}

/// The residual graph of `f` has no augmenting `s`-`t` path.
pub open spec fn no_augmenting_path(g: &DiGraph, f: Seq<i64>, s: int, t: int) -> bool {
    exists|side: Seq<bool>| closed_cut(g, f, side, s, t)
}

/// `f` is a maximum `s`-`t` flow: feasible with no augmenting path.
pub open spec fn is_max_flow(g: &DiGraph, f: Seq<i64>, s: int, t: int) -> bool {
    is_flow(g, f, s, t) && no_augmenting_path(g, f, s, t)
}

/// Total capacity of the forward arcs leaving a node set.
pub open spec fn cut_capacity(g: &DiGraph, side: Seq<bool>) -> int {
    sum_to(
        g.m(),
        |i: int| if side[g.arc_from(i)] && !side[g.arc_to(i)] { g.cap(i) } else { 0 },
    )
}

/// Total capacity of the arcs leaving `s`: an upper bound on any flow value.
pub open spec fn source_capacity(g: &DiGraph, s: int) -> int {
    sum_to(g.m(), |i: int| if g.arc_from(i) == s { g.cap(i) } else { 0 })
}

/// The flow after pushing `a` units along arc `i`.
pub open spec fn pushed(f: Seq<i64>, i: int, a: int) -> Seq<i64> {
    f.update(i, (f[i] + a) as i64).update(twin(i), (f[twin(i)] - a) as i64)
}

/// Cost of a flow: cost of the positive flow on forward arcs.
pub open spec fn flow_cost(g: &DiGraph, f: Seq<i64>) -> int {
    sum_to(g.m(), |i: int| arc_cost_term(g, f, i))
}

pub open spec fn arc_cost_term(g: &DiGraph, f: Seq<i64>, i: int) -> int {
    if i % 2 == 0 && f[i] > 0 {
        f[i] * g.cost(i)
    } else {
        0
    }
}

/// Magnitude bound used to rule out overflow when costs are accumulated.
pub open spec fn cost_magnitude(g: &DiGraph, f: Seq<i64>) -> int {
    sum_to(g.m(), |i: int| abs_int(arc_cost_term(g, f, i)))
}

pub open spec fn abs_int(x: int) -> int {
    if x < 0 {
        -x
    } else {
        x
    }
}

/// Sum of the positive flow on the arcs of `adj[s]`.
pub open spec fn positive_out(g: &DiGraph, f: Seq<i64>, s: int) -> int {
    sum_to(
        g.adj[s].len() as int,
        |j: int| if f[g.adj[s][j] as int] > 0 { f[g.adj[s][j] as int] as int } else { 0 },
    )
}

/// In a bounded flow every residual capacity lies between zero and the
/// capacity of the forward arc of the pair.
pub proof fn lemma_rcap_range(g: &DiGraph, f: Seq<i64>, i: int)
    requires
        g.wf(),
        flow_bounded(g, f),
        0 <= i < g.m(),
    ensures
        0 <= rcap(g, f, i) <= i64::MAX,
        rcap(g, f, twin(i)) == g.cap(twin(i)) + f[i],
        i % 2 == 0 ==> 0 <= f[i] <= g.cap(i),
        i % 2 == 1 ==> -g.cap(twin(i)) <= f[i] <= 0,
        rcap(g, f, i) + rcap(g, f, twin(i)) == g.cap(i) + g.cap(twin(i)),
{
    g.lemma_arc(i);
    g.lemma_arc(twin(i));
    assert(f[twin(i)] == -f[i]);
    assert(f[twin(i)] <= g.cap(twin(i)));
    assert(f[i] <= g.cap(i));
}

/// The all-zero flow is a feasible flow of value zero for any terminals.
pub proof fn lemma_zero_flow(g: &DiGraph, f: Seq<i64>, s: int, t: int)
    requires
        g.wf(),
        f.len() == g.m(),
        forall|i: int| 0 <= i < g.m() ==> f[i] == 0,
    ensures
        is_flow(g, f, s, t),
        forall|v: int| #[trigger] net_out(g, f, v) == 0,
{
    assert forall|i: int| 0 <= i < g.m() implies #[trigger] f[twin(i)] == -f[i] by {
        g.lemma_arc(i);
    }
    assert forall|i: int| 0 <= i < g.m() implies #[trigger] f[i] <= g.cap(i) by {
        g.lemma_arc(i);
    }
    assert forall|v: int| #[trigger] net_out(g, f, v) == 0 by {
        lemma_sum_zero(g.m(), |i: int| if g.arc_from(i) == v { f[i] as int } else { 0 });
    }
}

/// Pushing `a` units along arc `i` moves `a` units of net outflow from the
/// arc's head to its tail and keeps the flow bounded when `a` does not
/// exceed the residual capacity.
pub proof fn lemma_push(g: &DiGraph, f: Seq<i64>, i: int, a: int)
    requires
        g.wf(),
        flow_bounded(g, f),
        0 <= i < g.m(),
        0 <= a <= rcap(g, f, i),
    ensures
        flow_bounded(g, pushed(f, i, a)),
        pushed(f, i, a)[i] == f[i] + a,
        pushed(f, i, a)[twin(i)] == f[twin(i)] - a,
        forall|k: int| 0 <= k < g.m() && k != i && k != twin(i) ==> #[trigger] pushed(f, i, a)[k] == f[k],
        rcap(g, pushed(f, i, a), i) == rcap(g, f, i) - a,
        rcap(g, pushed(f, i, a), twin(i)) == rcap(g, f, twin(i)) + a,
        forall|v: int|
            #[trigger] net_out(g, pushed(f, i, a), v) == net_out(g, f, v) + (if v == g.arc_from(i) {
                a
            } else {
                0
            }) - (if v == g.arc_to(i) {
                a
            } else {
                0
            }),
{
    lemma_rcap_range(g, f, i);
    g.lemma_arc(i);
    let t = twin(i);
    let f1 = f.update(i, (f[i] + a) as i64);
    let f2 = pushed(f, i, a);
    assert(t != i);
    assert(f2[i] == f[i] + a);
    assert(f2[t] == f[t] - a);
    assert forall|k: int| 0 <= k < g.m() implies #[trigger] f2[twin(k)] == -f2[k] by {
        g.lemma_arc(k);
        if k == i || k == t {
        } else {
            assert(twin(k) != i && twin(k) != t);
        }
    }
    assert forall|k: int| 0 <= k < g.m() implies #[trigger] f2[k] <= g.cap(k) by {
        g.lemma_arc(k);
        if k == t {
            assert(f[t] <= g.cap(t));
        }
    }
    assert forall|v: int|
        #[trigger] net_out(g, f2, v) == net_out(g, f, v) + (if v == g.arc_from(i) {
            a
        } else {
            0
        }) - (if v == g.arc_to(i) {
            a
        } else {
            0
        }) by {
        let h0 = |k: int| if g.arc_from(k) == v { f[k] as int } else { 0 };
        let h1 = |k: int| if g.arc_from(k) == v { f1[k] as int } else { 0 };
        let h2 = |k: int| if g.arc_from(k) == v { f2[k] as int } else { 0 };
        lemma_sum_point(g.m(), h0, h1, i);
        lemma_sum_point(g.m(), h1, h2, t);
    }
}

/// The value of a bounded flow is at most the capacity leaving the source.
pub proof fn lemma_value_le_source_capacity(g: &DiGraph, f: Seq<i64>, s: int)
    requires
        g.wf(),
        flow_bounded(g, f),
    ensures
        flow_value(g, f, s) <= source_capacity(g, s),
        source_capacity(g, s) >= 0,
{
    assert forall|i: int| 0 <= i < g.m() implies (if g.arc_from(i) == s {
        f[i] as int
    } else {
        0
    }) <= (if g.arc_from(i) == s {
        g.cap(i)
    } else {
        0
    }) by {
        assert(f[i] <= g.cap(i));
    }
    lemma_sum_le(
        g.m(),
        |i: int| if g.arc_from(i) == s { f[i] as int } else { 0 },
        |i: int| if g.arc_from(i) == s { g.cap(i) } else { 0 },
    );
    assert forall|i: int| 0 <= i < g.m() implies (if g.arc_from(i) == s {
        g.cap(i)
    } else {
        0
    }) >= 0 by {
        g.lemma_arc(i);
    }
    lemma_sum_nonneg(g.m(), |i: int| if g.arc_from(i) == s { g.cap(i) } else { 0 });
}

/// The capacity leaving a node fits comfortably in an `i128`.
pub proof fn lemma_source_capacity_bound(g: &DiGraph, s: int)
    requires
        g.wf(),
    ensures
        source_capacity(g, s) <= 0x1_0000_0000 * 0x8000_0000_0000_0000,
{
    let h = |i: int| if g.arc_from(i) == s { g.cap(i) } else { 0 };
    assert forall|i: int| 0 <= i < g.m() implies #[trigger] h(i) <= i64::MAX by {}
    lemma_sum_bounded(g.m(), h, i64::MAX as int);
    assert(g.m() * (i64::MAX as int) <= 0x1_0000_0000 * 0x8000_0000_0000_0000) by (nonlinear_arith)
        requires
            0 <= g.m() <= u32::MAX,
    ;
}

/// Mutable flow state layered on top of an immutable `DiGraph`.
pub struct ResidualGraph<'g> {
    pub graph: &'g DiGraph,
    pub flow: Vec<i64>,
}

impl<'g> ResidualGraph<'g> {
    pub fn new(graph: &'g DiGraph) -> (r: Self)
        requires
            graph.wf(),
        ensures
            r.graph == graph,
            r.flow@.len() == graph.m(),
            forall|i: int| 0 <= i < graph.m() ==> r.flow@[i] == 0,
            forall|s: int, t: int| is_flow(graph, r.flow@, s, t),
            forall|v: int| #[trigger] net_out(graph, r.flow@, v) == 0,
    {
        let m = graph.edges.len();
        let mut flow: Vec<i64> = Vec::new();
        let mut i: usize = 0;
        while i < m
            invariant
                m == graph.edges.len(),
                i <= m,
                flow.len() == i,
                forall|k: int| 0 <= k < i ==> flow@[k] == 0,
            decreases m - i,
        {
            flow.push(0);
            i += 1;
        }
        proof {
            assert forall|s: int, t: int| is_flow(graph, flow@, s, t) by {
                lemma_zero_flow(graph, flow@, s, t);
            }
            lemma_zero_flow(graph, flow@, 0, 0);
        }
        Self { graph, flow }
    }

    /// Initialize from an existing flow vector (e.g., from a prior solver pass).
    pub fn from_flow(graph: &'g DiGraph, flow: Vec<i64>) -> (r: Self)
        requires
            flow.len() == graph.edges.len(),
        ensures
            r.graph == graph,
            r.flow@ == flow@,
    {
        Self { graph, flow }
    }

    /// Remaining capacity available for pushing flow on this arc.
    pub fn residual_capacity(&self, edge_idx: usize) -> (r: i64)
        requires
            self.graph.wf(),
            self.flow.len() == self.graph.edges.len(),
            edge_idx < self.flow.len(),
            rcap(self.graph, self.flow@, edge_idx as int) <= i64::MAX,
        ensures
            r == rcap(self.graph, self.flow@, edge_idx as int),
    {
        proof {
            self.graph.lemma_arc(edge_idx as int);
        }
        self.graph.edges[edge_idx].capacity.0 - self.flow[edge_idx]
    }

    /// Push `amount` units of flow on arc `edge_idx` and deduct from its back-edge.
    pub fn push_flow(&mut self, edge_idx: usize, amount: i64)
        requires
            old(self).graph.wf(),
            old(self).flow.len() == old(self).graph.edges.len(),
            edge_idx < old(self).flow.len(),
            amount >= 0,
            old(self).flow@[edge_idx as int] + amount <= i64::MAX,
            old(self).flow@[twin(edge_idx as int)] - amount >= i64::MIN,
        ensures
            final(self).graph == old(self).graph,
            final(self).flow@ == pushed(old(self).flow@, edge_idx as int, amount as int),
    {
        proof {
            self.graph.lemma_arc(edge_idx as int);
            lemma_xor_one(edge_idx);
        }
        let t = edge_idx ^ 1;
        let a = self.flow[edge_idx] + amount;
        self.flow.set(edge_idx, a);
        let b = self.flow[t] - amount;
        self.flow.set(t, b);
    }

    /// Cost of arc `edge_idx` (the cost of the underlying arc).
    pub fn edge_cost(&self, edge_idx: usize) -> (r: i64)
        requires
            edge_idx < self.graph.edges.len(),
        ensures
            r == self.graph.cost(edge_idx as int),
    {
        self.graph.edges[edge_idx].cost.0
    }

    /// (destination, raw arc index) for arcs out of `u`.
    pub fn neighbors(&self, u: NodeId) -> (r: Vec<(NodeId, usize)>)
        requires
            self.graph.wf(),
            (u.0 as int) < self.graph.nodes.len(),
        ensures
            r.len() == self.graph.adj[u.0 as int].len(),
            forall|j: int|
                0 <= j < r.len() ==> #[trigger] r[j] == (
                    self.graph.edges[self.graph.adj[u.0 as int][j] as int].to,
                    self.graph.adj[u.0 as int][j],
                ),
    {
        self.graph.neighbors(u)
    }

    /// Total flow leaving the source (sum of positive flows on the arcs of
    /// the source's adjacency list); zero without a source.
    pub fn flow_from_source(&self) -> (r: i128)
        requires
            self.graph.wf(),
            self.flow.len() == self.graph.edges.len(),
            self.graph.source matches Some(s) ==> (s.0 as int) < self.graph.nodes.len(),
        ensures
            self.graph.source matches Some(s) ==> r == positive_out(self.graph, self.flow@, s.0 as int),
            self.graph.source is None ==> r == 0,
    {
        match self.graph.source {
            None => 0,
            Some(src) => {
                let s = src.0 as usize;
                let a = &self.graph.adj[s];
                let ghost h = |j: int|
                    if self.flow@[a[j] as int] > 0 {
                        self.flow@[a[j] as int] as int
                    } else {
                        0
                    };
                let mut total: i128 = 0;
                let mut j: usize = 0;
                proof {
                    lemma_adj_len_bound(self.graph, s as int);
                }
                while j < a.len()
                    invariant
                        self.graph.wf(),
                        self.flow.len() == self.graph.edges.len(),
                        s < self.graph.nodes.len(),
                        a == &self.graph.adj[s as int],
                        j <= a.len(),
                        a.len() <= u32::MAX,
                        h == (|j: int|
                            if self.flow@[a[j] as int] > 0 {
                                self.flow@[a[j] as int] as int
                            } else {
                                0
                            }),
                        total == sum_to(j as int, h),
                        0 <= total <= j * i64::MAX,
                    decreases a.len() - j,
                {
                    proof {
                        self.graph.lemma_adj(s as int, j as int);
                        assert(a@.no_duplicates()) by {
                            assert forall|x: int, y: int|
                                0 <= x < a.len() && 0 <= y < a.len() && x != y implies a@[x]
                                != a@[y] by {
                                if x < y {
                                    assert(a[x] < a[y]);
                                } else {
                                    assert(a[y] < a[x]);
                                }
                            }
                        }
                        lemma_adj_len_bound(self.graph, s as int);
                    }
                    let x = self.flow[a[j]];
                    if x > 0 {
                        total = total + x as i128;
                    }
                    j += 1;
                }
                total
            },
        }
    }

    /// Total cost of the current flow.
    pub fn total_cost(&self) -> (r: i128)
        requires
            self.graph.wf(),
            self.flow.len() == self.graph.edges.len(),
            cost_magnitude(self.graph, self.flow@) <= i128::MAX,
        ensures
            r == flow_cost(self.graph, self.flow@),
    {
        let m = self.flow.len();
        let ghost h = |i: int| arc_cost_term(self.graph, self.flow@, i);
        let ghost ha = |i: int| abs_int(arc_cost_term(self.graph, self.flow@, i));
        let mut total: i128 = 0;
        let mut i: usize = 0;
        proof {
            assert forall|k: int| 0 <= k < m implies #[trigger] ha(k) >= 0 by {}
            lemma_sum_prefix_le(m as int, ha, 0);
        }
        while i < m
            invariant
                self.flow.len() == self.graph.edges.len(),
                m == self.flow.len(),
                i <= m,
                h == (|i: int| arc_cost_term(self.graph, self.flow@, i)),
                ha == (|i: int| abs_int(arc_cost_term(self.graph, self.flow@, i))),
                total == sum_to(i as int, h),
                abs_int(total as int) <= sum_to(i as int, ha),
                sum_to(i as int, ha) <= cost_magnitude(self.graph, self.flow@),
                cost_magnitude(self.graph, self.flow@) <= i128::MAX,
            decreases m - i,
        {
            proof {
                assert forall|k: int| 0 <= k < m implies #[trigger] ha(k) >= 0 by {}
                lemma_sum_prefix_le(m as int, ha, i as int + 1);
            }
            let f = self.flow[i];
            if i % 2 == 0 && f > 0 {
                let c = self.graph.edges[i].cost.0;
                proof {
                    assert(h(i as int) == f * c);
                    assert(abs_int(h(i as int)) == ha(i as int));
                }
                total = total + (f as i128) * (c as i128);
            }
            i += 1;
        }
        total
    }

    pub fn flow_vec(&self) -> (r: &[i64])
        ensures
            r@ == self.flow@,
    {
        self.flow.as_slice()
    }

    pub fn graph(&self) -> (r: &'g DiGraph)
        ensures
            r == self.graph,
    {
        self.graph
    }

    pub fn reset(&mut self)
        ensures
            final(self).graph == old(self).graph,
            final(self).flow.len() == old(self).flow.len(),
            forall|i: int| 0 <= i < final(self).flow.len() ==> final(self).flow@[i] == 0,
    {
        let n = self.flow.len();
        let mut i: usize = 0;
        while i < n
            invariant
                self.graph == old(self).graph,
                self.flow.len() == n,
                n == old(self).flow.len(),
                i <= n,
                forall|k: int| 0 <= k < i ==> self.flow@[k] == 0,
            decreases n - i,
        {
            self.flow.set(i, 0);
            i += 1;
        }
    }
}

/// A prefix of a sum of non-negative terms is at most the whole sum.
pub proof fn lemma_sum_prefix_le(n: int, f: spec_fn(int) -> int, k: int)
    requires
        0 <= k <= n,
        forall|i: int| 0 <= i < n ==> #[trigger] f(i) >= 0,
    ensures
        sum_to(k, f) <= sum_to(n, f),
    decreases n - k,
{
    if k < n {
        lemma_sum_prefix_le(n, f, k + 1);
    }
}

/// An adjacency list holds distinct arc indices, so it is no longer than
/// the arc list.
pub proof fn lemma_adj_len_bound(g: &DiGraph, u: int)
    requires
        g.wf(),
        0 <= u < g.n(),
    ensures
        g.adj[u].len() <= g.m(),
{
    let a = g.adj[u]@;
    assert forall|j: int| 0 <= j < a.len() implies a[j] >= j by {
        lemma_sorted_ge(g, u, j);
    }
    if a.len() > 0 {
        g.lemma_adj(u, a.len() - 1);
    }
}

proof fn lemma_sorted_ge(g: &DiGraph, u: int, j: int)
    requires
        g.wf(),
        0 <= u < g.n(),
        0 <= j < g.adj[u].len(),
    ensures
        g.adj[u][j] >= j,
    decreases j,
{
    if j > 0 {
        lemma_sorted_ge(g, u, j - 1);
        assert(g.adj[u][j - 1] < g.adj[u][j]);
    }
}


/// Largest possible cost of a bounded flow: every forward arc full, at the
/// magnitude of its cost.
pub open spec fn cost_ceiling(g: &DiGraph) -> int {
    sum_to(g.m(), |i: int| ceiling_term(g, i))
}

pub open spec fn ceiling_term(g: &DiGraph, i: int) -> int {
    if i % 2 == 0 {
        g.cap(i) * abs_int(g.cost(i))
    } else {
        0
    }
}

/// In a bounded flow, the cost term of an arc is its flow times its cost
/// for a forward arc and zero for a residual partner.
pub proof fn lemma_cost_term(g: &DiGraph, f: Seq<i64>, i: int)
    requires
        g.wf(),
        flow_bounded(g, f),
        0 <= i < g.m(),
    ensures
        arc_cost_term(g, f, i) == if i % 2 == 0 { f[i] * g.cost(i) } else { 0 },
        -ceiling_term(g, i) <= arc_cost_term(g, f, i) <= ceiling_term(g, i),
{
    lemma_rcap_range(g, f, i);
    if i % 2 == 0 {
        let c = g.cost(i);
        let x = f[i] as int;
        let k = g.cap(i);
        if x == 0 {
            assert(x * c == 0) by (nonlinear_arith)
                requires
                    x == 0,
            ;
        }
        if c >= 0 {
            assert(0 <= x * c <= k * c) by (nonlinear_arith)
                requires
                    0 <= x <= k,
                    c >= 0,
            ;
        } else {
            assert(k * (-c) >= x * (-c) >= 0) by (nonlinear_arith)
                requires
                    0 <= x <= k,
                    c < 0,
            ;
            assert(x * c == -(x * (-c))) by (nonlinear_arith);
        }
    }
}

/// The cost of a bounded flow lies within the cost ceiling.
pub proof fn lemma_flow_cost_bound(g: &DiGraph, f: Seq<i64>)
    requires
        g.wf(),
        flow_bounded(g, f),
    ensures
        -cost_ceiling(g) <= flow_cost(g, f) <= cost_ceiling(g),
{
    let t = |i: int| arc_cost_term(g, f, i);
    let c = |i: int| ceiling_term(g, i);
    let nc = |i: int| -ceiling_term(g, i);
    let z = |i: int| 0int;
    assert forall|i: int| 0 <= i < g.m() implies #[trigger] t(i) <= c(i) && nc(i) <= t(i) by {
        lemma_cost_term(g, f, i);
    }
    lemma_sum_le(g.m(), t, c);
    lemma_sum_le(g.m(), nc, t);
    assert forall|i: int| 0 <= i < g.m() implies #[trigger] z(i) == c(i) + nc(i) by {}
    lemma_sum_add(g.m(), c, nc, z);
    lemma_sum_zero(g.m(), z);
}

/// Pushing `a` units on arc `i` changes the cost of the flow by `a` times
/// the cost of the arc.
pub proof fn lemma_flow_cost_push(g: &DiGraph, f: Seq<i64>, i: int, a: int)
    requires
        g.wf(),
        flow_bounded(g, f),
        0 <= i < g.m(),
        0 <= a <= rcap(g, f, i),
    ensures
        flow_cost(g, pushed(f, i, a)) == flow_cost(g, f) + a * g.cost(i),
{
    lemma_push(g, f, i, a);
    g.lemma_arc(i);
    let f2 = pushed(f, i, a);
    let k = if i % 2 == 0 { i } else { twin(i) };
    let t1 = |j: int| arc_cost_term(g, f, j);
    let t2 = |j: int| arc_cost_term(g, f2, j);
    assert forall|j: int| 0 <= j < g.m() && j != k implies #[trigger] t1(j) == t2(j) by {
        lemma_cost_term(g, f, j);
        lemma_cost_term(g, f2, j);
        if j != i && j != twin(i) {
            assert(f2[j] == f[j]);
        } else {
            assert(j % 2 == 1);
        }
    }
    lemma_sum_point(g.m(), t1, t2, k);
    lemma_cost_term(g, f, k);
    lemma_cost_term(g, f2, k);
    if i % 2 == 0 {
        assert(f2[i] * g.cost(i) == f[i] * g.cost(i) + a * g.cost(i)) by (nonlinear_arith)
            requires
                f2[i] == f[i] + a,
        ;
    } else {
        assert(f2[k] == f[k] - a);
        assert(g.cost(i) == -g.cost(k));
        assert(f2[k] * g.cost(k) == f[k] * g.cost(k) + a * g.cost(i)) by (nonlinear_arith)
            requires
                f2[k] == f[k] - a,
                g.cost(i) == -g.cost(k),
        ;
    }
}


/// The cost of the flow on the forward arcs, whatever their sign.
pub open spec fn linear_cost(g: &DiGraph, f: Seq<i64>) -> int {
    sum_to(g.m(), |i: int| if i % 2 == 0 { f[i] * g.cost(i) } else { 0 })
}

/// For a bounded flow both cost measures agree.
pub proof fn lemma_linear_cost(g: &DiGraph, f: Seq<i64>)
    requires
        g.wf(),
        flow_bounded(g, f),
    ensures
        flow_cost(g, f) == linear_cost(g, f),
{
    let a = |i: int| arc_cost_term(g, f, i);
    let b = |i: int| if i % 2 == 0 { f[i] * g.cost(i) } else { 0 };
    assert forall|i: int| 0 <= i < g.m() implies #[trigger] a(i) == b(i) by {
        lemma_cost_term(g, f, i);
    }
    lemma_sum_ext(g.m(), a, b);
}

} // verus!
