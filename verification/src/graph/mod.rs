//! Directed stanchion graphs with paired residual arcs.
pub mod edge;
pub mod node;
pub mod residual;

pub use edge::{Capacity, Cost, Edge, EdgeId};
pub use node::{NodeData, NodeId};
pub use residual::ResidualGraph;

use vstd::prelude::*;
use crate::error::StanchionError;
use crate::sums::{twin, lemma_xor_one};

verus! {

/// Directed graph using a flat arc list with paired residual arcs.
///
/// For every forward arc at index `i` (even), its residual partner lives at
/// `i ^ 1`: it runs the other way, has capacity zero and the negated cost.
/// `adj[u]` lists, in increasing order, every arc index leaving `u`.
pub struct DiGraph {
    pub adj: Vec<Vec<usize>>,
    pub edges: Vec<Edge>,
    pub nodes: Vec<NodeData>,
    pub source: Option<NodeId>,
    pub sink: Option<NodeId>,
}

impl DiGraph {
    pub open spec fn n(&self) -> int {
        self.nodes.len() as int
    }

    pub open spec fn m(&self) -> int {
        self.edges.len() as int
    }

    pub open spec fn arc_from(&self, i: int) -> int {
        self.edges[i].from.0 as int
    }

    pub open spec fn arc_to(&self, i: int) -> int {
        self.edges[i].to.0 as int
    }

    pub open spec fn cap(&self, i: int) -> int {
        self.edges[i].capacity.0 as int
    }

    pub open spec fn cost(&self, i: int) -> int {
        self.edges[i].cost.0 as int
    }

    /// Arc `i` has valid endpoints; forward arcs are paired with their
    /// residual partner.
    pub open spec fn arc_ok(&self, i: int) -> bool {
        &&& self.arc_from(i) < self.n()
        &&& self.arc_to(i) < self.n()
        &&& i % 2 == 0 ==> {
            &&& i + 1 < self.m()
            &&& self.arc_from(i + 1) == self.arc_to(i)
            &&& self.arc_to(i + 1) == self.arc_from(i)
            &&& self.cap(i) >= 0
            &&& self.cap(i + 1) == 0
            &&& self.cost(i) > i64::MIN
            &&& self.cost(i + 1) == -self.cost(i)
        }
    }

    /// Entry `j` of `adj[u]` is an arc leaving `u`.
    pub open spec fn adj_ok(&self, u: int, j: int) -> bool {
        &&& self.adj[u][j] < self.m()
        &&& self.arc_from(self.adj[u][j] as int) == u
    }

    /// Structural well-formedness of the graph.
    pub open spec fn wf(&self) -> bool {
        &&& self.edges.len() % 2 == 0
        &&& self.adj.len() == self.nodes.len()
        &&& self.nodes.len() <= u32::MAX
        &&& self.edges.len() <= u32::MAX
        &&& forall|i: int| 0 <= i < self.m() ==> #[trigger] self.arc_ok(i)
        &&& forall|u: int, j: int|
            0 <= u < self.n() && 0 <= j < self.adj[u].len() ==> #[trigger] self.adj_ok(u, j)
        &&& forall|u: int, j: int, k: int|
            0 <= u < self.n() && 0 <= j < k < self.adj[u].len() ==> #[trigger] self.adj[u][j]
                < #[trigger] self.adj[u][k]
        &&& forall|i: int|
            0 <= i < self.m() ==> #[trigger] self.adj[self.arc_from(i)]@.contains(i as usize)
    }

    /// Facts about an arc and its partner in a well-formed graph.
    pub proof fn lemma_arc(&self, i: int)
        requires
            self.wf(),
            0 <= i < self.m(),
        ensures
            0 <= twin(i) < self.m(),
            twin(twin(i)) == i,
            self.arc_from(twin(i)) == self.arc_to(i),
            self.arc_to(twin(i)) == self.arc_from(i),
            self.cap(i) >= 0,
            self.cap(i) == 0 || self.cap(twin(i)) == 0,
            self.cost(twin(i)) == -self.cost(i),
            0 <= self.arc_from(i) < self.n(),
            0 <= self.arc_to(i) < self.n(),
            i % 2 == 0 ==> self.cap(twin(i)) == 0,
            i % 2 == 1 ==> self.cap(i) == 0,
            self.adj[self.arc_from(i)]@.contains(i as usize),
    {
        assert(self.arc_ok(i));
        if i % 2 == 1 {
            assert(self.arc_ok(i - 1));
        }
    }

    /// Position `j` of `adj[u]` holds an arc leaving `u`.
    pub proof fn lemma_adj(&self, u: int, j: int)
        requires
            self.wf(),
            0 <= u < self.n(),
            0 <= j < self.adj[u].len(),
        ensures
            self.adj[u][j] < self.m(),
            self.arc_from(self.adj[u][j] as int) == u,
    {
        assert(self.adj_ok(u, j));
    }

    /// Well-formedness depends only on the arcs, the number of nodes and the
    /// adjacency lists.
    pub proof fn lemma_wf_same(&self, other: &DiGraph)
        requires
            self.wf(),
            other.adj@.len() == self.adj@.len(),
            forall|u: int| 0 <= u < self.adj.len() ==> #[trigger] other.adj@[u]@ == self.adj@[u]@,
            other.edges@ == self.edges@,
            other.nodes.len() == self.nodes.len(),
        ensures
            other.wf(),
    {
        assert forall|i: int| 0 <= i < other.m() implies #[trigger] other.arc_ok(i) by {
            assert(self.arc_ok(i));
            if i % 2 == 0 {
                assert(self.arc_ok(i));
            }
        }
        assert forall|u: int, j: int|
            0 <= u < other.n() && 0 <= j < other.adj[u].len() implies #[trigger] other.adj_ok(u, j) by {
            assert(self.adj_ok(u, j));
        }
        assert forall|i: int| 0 <= i < other.m() implies #[trigger] other.adj[other.arc_from(i)]@.contains(
            i as usize,
        ) by {
            assert(self.arc_ok(i));
            assert(self.adj[self.arc_from(i)]@.contains(i as usize));
        }
    }

    /// A copy of the graph's arcs and adjacency lists, with unlabelled nodes.
    pub fn arc_copy(&self) -> (r: DiGraph)
        requires
            self.wf(),
        ensures
            r.wf(),
            r.edges@ == self.edges@,
            r.nodes.len() == self.nodes.len(),
            r.adj@.len() == self.adj@.len(),
            forall|u: int| 0 <= u < self.adj.len() ==> #[trigger] r.adj@[u]@ == self.adj@[u]@,
            r.source == self.source,
            r.sink == self.sink,
    {
        let mut edges: Vec<Edge> = Vec::new();
        let mut i: usize = 0;
        while i < self.edges.len()
            invariant
                i <= self.edges.len(),
                edges@ == self.edges@.subrange(0, i as int),
            decreases self.edges.len() - i,
        {
            edges.push(self.edges[i]);
            i += 1;
        }
        let mut adj: Vec<Vec<usize>> = Vec::new();
        let mut nodes: Vec<NodeData> = Vec::new();
        let mut u: usize = 0;
        while u < self.adj.len()
            invariant
                u <= self.adj.len(),
                adj@.len() == u,
                nodes@.len() == u,
                forall|w: int| 0 <= w < u ==> #[trigger] adj@[w]@ == self.adj@[w]@,
            decreases self.adj.len() - u,
        {
            let mut row: Vec<usize> = Vec::new();
            let mut j: usize = 0;
            while j < self.adj[u].len()
                invariant
                    u < self.adj.len(),
                    j <= self.adj[u as int].len(),
                    row@ == self.adj[u as int]@.subrange(0, j as int),
                decreases self.adj[u as int].len() - j,
            {
                row.push(self.adj[u][j]);
                j += 1;
            }
            proof {
                assert(row@ =~= self.adj[u as int]@);
            }
            adj.push(row);
            nodes.push(NodeData { label: None });
            u += 1;
        }
        proof {
            assert(edges@ =~= self.edges@);
        }
        let r = DiGraph { adj, edges, nodes, source: self.source, sink: self.sink };
        proof {
            self.lemma_wf_same(&r);
        }
        r
    }

    pub fn node_count(&self) -> (r: usize)
        ensures
            r == self.nodes.len(),
    {
        self.nodes.len()
    }

    /// Number of forward edges (excludes residual back-edges).
    pub fn edge_count(&self) -> (r: usize)
        ensures
            r == self.edges.len() / 2,
    {
        self.edges.len() / 2
    }

    pub fn source(&self) -> (r: Option<NodeId>)
        ensures
            r == self.source,
    {
        self.source
    }

    pub fn sink(&self) -> (r: Option<NodeId>)
        ensures
            r == self.sink,
    {
        self.sink
    }

    pub fn node_data(&self, id: NodeId) -> (r: Option<&NodeData>)
        ensures
            (id.0 as int) < self.nodes.len() ==> r == Some(&self.nodes[id.0 as int]),
            (id.0 as int) >= self.nodes.len() ==> r is None,
    {
        let i = id.0 as usize;
        if i < self.nodes.len() {
            Some(&self.nodes[i])
        } else {
            None
        }
    }

    pub fn edge(&self, id: EdgeId) -> (r: Option<&Edge>)
        ensures
            (id.0 as int) < self.edges.len() ==> r == Some(&self.edges[id.0 as int]),
            (id.0 as int) >= self.edges.len() ==> r is None,
    {
        let i = id.0 as usize;
        if i < self.edges.len() {
            Some(&self.edges[i])
        } else {
            None
        }
    }

    /// Add a node and return its id.
    pub fn add_node(&mut self, data: NodeData) -> (id: NodeId)
        requires
            old(self).wf(),
            old(self).nodes.len() < u32::MAX,
        ensures
            final(self).wf(),
            id.0 == old(self).nodes.len(),
            final(self).nodes@ == old(self).nodes@.push(data),
            final(self).edges@ == old(self).edges@,
            final(self).adj@.len() == old(self).adj@.len() + 1,
            forall|u: int| 0 <= u < old(self).adj.len() ==> final(self).adj[u]@ == old(self).adj[u]@,
            final(self).adj[old(self).adj.len() as int]@ == Seq::<usize>::empty(),
            final(self).source == old(self).source,
            final(self).sink == old(self).sink,
    {
        let id = NodeId(self.nodes.len() as u32);
        self.nodes.push(data);
        self.adj.push(Vec::new());
        proof {
            let g = &*self;
            let o = &*old(self);
            assert forall|i: int| 0 <= i < g.m() implies #[trigger] g.arc_ok(i) by {
                assert(o.arc_ok(i));
                if i % 2 == 0 {
                    assert(o.arc_ok(i));
                }
            }
            assert forall|u: int, j: int|
                0 <= u < g.n() && 0 <= j < g.adj[u].len() implies #[trigger] g.adj_ok(u, j) by {
                assert(o.adj_ok(u, j));
            }
            assert forall|i: int| 0 <= i < g.m() implies #[trigger] g.adj[g.arc_from(i)]@.contains(
                i as usize,
            ) by {
                assert(o.arc_ok(i));
                assert(o.adj[o.arc_from(i)]@.contains(i as usize));
            }
        }
        id
    }

    /// Add a directed forward edge plus its zero-capacity residual back-edge.
    /// Returns the EdgeId of the forward edge (always even).
    pub fn add_edge(&mut self, from: NodeId, to: NodeId, cap: Capacity, cost: Cost) -> (id: EdgeId)
        requires
            old(self).wf(),
            cap.0 >= 0,
            cost.0 > i64::MIN,
            (from.0 as int) < old(self).nodes.len(),
            (to.0 as int) < old(self).nodes.len(),
            old(self).edges.len() + 2 <= u32::MAX,
        ensures
            final(self).wf(),
            id.0 == old(self).edges.len(),
            final(self).edges@ == old(self).edges@.push(
                Edge { from, to, capacity: cap, cost },
            ).push(Edge { from: to, to: from, capacity: Capacity(0), cost: Cost((-cost.0) as i64) }),
            final(self).nodes@ == old(self).nodes@,
            final(self).adj.len() == old(self).adj.len(),
            from != to ==> final(self).adj[from.0 as int]@ == old(self).adj[from.0 as int]@.push(
                id.0 as usize,
            ),
            from != to ==> final(self).adj[to.0 as int]@ == old(self).adj[to.0 as int]@.push(
                (id.0 + 1) as usize,
            ),
            from == to ==> final(self).adj[from.0 as int]@ == old(self).adj[from.0 as int]@.push(
                id.0 as usize,
            ).push((id.0 + 1) as usize),
            forall|u: int|
                0 <= u < old(self).adj.len() && u != from.0 && u != to.0 ==> final(self).adj[u]@
                    == old(self).adj[u]@,
            final(self).source == old(self).source,
            final(self).sink == old(self).sink,
    {
        let fwd_idx = self.edges.len();
        let id = EdgeId(fwd_idx as u32);
        self.edges.push(Edge { from, to, capacity: cap, cost });
        self.edges.push(Edge { from: to, to: from, capacity: Capacity(0), cost: Cost(-cost.0) });
        proof {
            lemma_xor_one(fwd_idx);
        }
        let fu = from.0 as usize;
        let tu = to.0 as usize;
        let mut a = self.adj[fu].clone();
        a.push(fwd_idx);
        self.adj.set(fu, a);
        let mut b = self.adj[tu].clone();
        b.push(fwd_idx ^ 1);
        self.adj.set(tu, b);
        proof {
            let g = &*self;
            let o = &*old(self);
            let m0 = o.m();
            assert forall|i: int| 0 <= i < g.m() implies #[trigger] g.arc_ok(i) by {
                if i < m0 {
                    assert(o.arc_ok(i));
                }
            }
            assert forall|u: int, j: int|
                0 <= u < g.n() && 0 <= j < g.adj[u].len() implies #[trigger] g.adj_ok(u, j) by {
                if j < o.adj[u].len() {
                    assert(o.adj_ok(u, j));
                }
            }
            assert forall|u: int, j: int, k: int|
                0 <= u < g.n() && 0 <= j < k < g.adj[u].len() implies #[trigger] g.adj[u][j]
                    < #[trigger] g.adj[u][k] by {
                if j < o.adj[u].len() {
                    assert(o.adj_ok(u, j));
                }
                if k < o.adj[u].len() {
                    assert(o.adj_ok(u, k));
                }
            }
            assert forall|i: int| 0 <= i < g.m() implies #[trigger] g.adj[g.arc_from(i)]@.contains(
                i as usize,
            ) by {
                if i < m0 {
                    assert(o.arc_ok(i));
                    assert(o.adj[o.arc_from(i)]@.contains(i as usize));
                    let w = choose|w: int|
                        0 <= w < o.adj[o.arc_from(i)].len() && o.adj[o.arc_from(i)][w] == i as usize;
                    assert(g.adj[g.arc_from(i)][w] == i as usize);
                } else if i == m0 {
                    assert(g.adj[fu as int][g.adj[fu as int].len() - 1 - (if fu == tu {
                        1int
                    } else {
                        0
                    })] == i as usize);
                } else {
                    assert(g.adj[tu as int][g.adj[tu as int].len() - 1] == i as usize);
                }
            }
        }
        id
    }

    /// (destination, raw arc index) for all arcs out of `u`, including
    /// residual back-arcs, in the order of `adj[u]`.
    pub fn neighbors(&self, u: NodeId) -> (r: Vec<(NodeId, usize)>)
        requires
            self.wf(),
            (u.0 as int) < self.nodes.len(),
        ensures
            r.len() == self.adj[u.0 as int].len(),
            forall|j: int|
                0 <= j < r.len() ==> #[trigger] r[j] == (
                    self.edges[self.adj[u.0 as int][j] as int].to,
                    self.adj[u.0 as int][j],
                ),
    {
        let ui = u.0 as usize;
        let a = &self.adj[ui];
        let mut r: Vec<(NodeId, usize)> = Vec::new();
        let mut j: usize = 0;
        while j < a.len()
            invariant
                self.wf(),
                ui < self.nodes.len(),
                a == &self.adj[ui as int],
                j <= a.len(),
                r.len() == j,
                forall|k: int|
                    0 <= k < j ==> #[trigger] r[k] == (self.edges[a[k] as int].to, a[k]),
            decreases a.len() - j,
        {
            proof {
                self.lemma_adj(ui as int, j as int);
            }
            let idx = a[j];
            r.push((self.edges[idx].to, idx));
            j += 1;
        }
        r
    }

    /// (destination, arc index) for forward arcs out of `u` (even indices),
    /// in the order of `adj[u]`.
    pub fn forward_neighbors(&self, u: NodeId) -> (r: Vec<(NodeId, usize)>)
        requires
            self.wf(),
            (u.0 as int) < self.nodes.len(),
        ensures
            r@ == self.adj[u.0 as int]@.filter(|i: usize| i % 2 == 0).map_values(
                |i: usize| (self.edges[i as int].to, i),
            ),
    {
        let ui = u.0 as usize;
        let a = &self.adj[ui];
        let ghost fwd = |i: usize| i % 2 == 0;
        let ghost mk = |i: usize| (self.edges[i as int].to, i);
        let mut r: Vec<(NodeId, usize)> = Vec::new();
        let mut j: usize = 0;
        while j < a.len()
            invariant
                self.wf(),
                ui < self.nodes.len(),
                a == &self.adj[ui as int],
                j <= a.len(),
                fwd == (|i: usize| i % 2 == 0),
                mk == (|i: usize| (self.edges[i as int].to, i)),
                r@ == a@.take(j as int).filter(fwd).map_values(mk),
            decreases a.len() - j,
        {
            proof {
                self.lemma_adj(ui as int, j as int);
                assert(a@.take(j as int + 1) == a@.take(j as int).push(a[j as int]));
                a@.take(j as int).lemma_filter_push(a[j as int], fwd);
                a@.take(j as int).filter(fwd).lemma_push_map_commute(mk, a[j as int]);
            }
            let idx = a[j];
            let ghost r0 = r@;
            if idx % 2 == 0 {
                r.push((self.edges[idx].to, idx));
                proof {
                    assert(fwd(idx));
                    assert(r@ == r0.push(mk(idx)));
                }
            } else {
                assert(!fwd(idx));
            }
            j += 1;
        }
        proof {
            assert(a@.take(a.len() as int) == a@);
        }
        r
    }

    /// True if this edge index is a forward (user-added) edge, not a residual back-edge.
    pub fn is_forward_edge(&self, id: EdgeId) -> (r: bool)
        ensures
            r == (id.0 % 2 == 0),
    {
        id.0 % 2 == 0
    }
}

/// Fluent builder for `DiGraph`.
pub struct GraphBuilder {
    pub graph: DiGraph,
}

impl GraphBuilder {
    pub open spec fn wf(&self) -> bool {
        self.graph.wf()
    }

    pub fn new() -> (r: Self)
        ensures
            r.wf(),
            r.graph.nodes.len() == 0,
            r.graph.edges.len() == 0,
            r.graph.source is None,
            r.graph.sink is None,
    {
        Self {
            graph: DiGraph {
                adj: Vec::new(),
                edges: Vec::new(),
                nodes: Vec::new(),
                source: None,
                sink: None,
            },
        }
    }

    /// Add a stanchion post node with a label. Returns `(builder, NodeId)`.
    pub fn add_stanchion(self, label: &str) -> (r: (Self, NodeId))
        requires
            self.wf(),
            self.graph.nodes.len() < u32::MAX,
        ensures
            r.0.wf(),
            r.1.0 == self.graph.nodes.len(),
            r.0.graph.nodes.len() == self.graph.nodes.len() + 1,
            forall|i: int| 0 <= i < self.graph.nodes.len() ==> r.0.graph.nodes[i] == self.graph.nodes[i],
            r.0.graph.nodes[self.graph.nodes.len() as int].label matches Some(l) && l@ == label@,
            r.0.graph.edges@ == self.graph.edges@,
            r.0.graph.source == self.graph.source,
            r.0.graph.sink == self.graph.sink,
    {
        let mut s = self;
        let id = s.graph.add_node(NodeData { label: Some(label.to_owned()) });
        (s, id)
    }

    pub fn source(self, id: NodeId) -> (r: Self)
        requires
            self.wf(),
        ensures
            r.wf(),
            r.graph.source == Some(id),
            r.graph.sink == self.graph.sink,
            r.graph.nodes@ == self.graph.nodes@,
            r.graph.edges@ == self.graph.edges@,
            r.graph.adj@ == self.graph.adj@,
    {
        let mut s = self;
        s.graph.source = Some(id);
        proof {
            self.graph.lemma_wf_same(&s.graph);
        }
        s
    }

    pub fn sink(self, id: NodeId) -> (r: Self)
        requires
            self.wf(),
        ensures
            r.wf(),
            r.graph.sink == Some(id),
            r.graph.source == self.graph.source,
            r.graph.nodes@ == self.graph.nodes@,
            r.graph.edges@ == self.graph.edges@,
            r.graph.adj@ == self.graph.adj@,
    {
        let mut s = self;
        s.graph.sink = Some(id);
        proof {
            self.graph.lemma_wf_same(&s.graph);
        }
        s
    }

    /// Connect two stanchion posts with a belt of given capacity and cost.
    pub fn connect(self, from: NodeId, to: NodeId, cap: Capacity, cost: Cost) -> (r: Self)
        requires
            self.wf(),
            cap.0 >= 0,
            cost.0 > i64::MIN,
            (from.0 as int) < self.graph.nodes.len(),
            (to.0 as int) < self.graph.nodes.len(),
            self.graph.edges.len() + 2 <= u32::MAX,
        ensures
            r.wf(),
            r.graph.edges@ == self.graph.edges@.push(
                Edge { from, to, capacity: cap, cost },
            ).push(Edge { from: to, to: from, capacity: Capacity(0), cost: Cost((-cost.0) as i64) }),
            r.graph.nodes@ == self.graph.nodes@,
            r.graph.source == self.graph.source,
            r.graph.sink == self.graph.sink,
    {
        let mut s = self;
        s.graph.add_edge(from, to, cap, cost);
        s
    }

    pub fn build(self) -> (r: Result<DiGraph, StanchionError>)
        requires
            self.wf(),
        ensures
            self.graph.source is None ==> r == Err::<DiGraph, StanchionError>(StanchionError::NoSource),
            self.graph.source is Some && self.graph.sink is None ==> r == Err::<DiGraph, StanchionError>(
                StanchionError::NoSink,
            ),
            self.graph.source is Some && self.graph.sink is Some ==> r == Ok::<DiGraph, StanchionError>(
                self.graph,
            ),
    {
        if self.graph.source.is_none() {
            return Err(StanchionError::NoSource);
        }
        if self.graph.sink.is_none() {
            return Err(StanchionError::NoSink);
        }
        Ok(self.graph)
    }
}

impl Default for GraphBuilder {
    fn default() -> (r: Self)
        ensures
            r.wf(),
            r.graph.nodes.len() == 0,
            r.graph.edges.len() == 0,
            r.graph.source is None,
            r.graph.sink is None,
    {
        Self::new()
    }
}

} // verus!
