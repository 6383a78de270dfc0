//! Building a stanchion graph from the node and edge records of a network
//! configuration.
use vstd::prelude::*;
use crate::error::StanchionError;
use crate::graph::{Capacity, Cost, DiGraph, Edge, GraphBuilder, NodeData, NodeId};

verus! {

/// Seed used for a simulation whose configuration names none.
pub fn default_seed() -> (r: u64)
    ensures
        r == 42,
{
    42
}

/// A node record: its id and label.
#[derive(Debug, Clone)]
pub struct NodeEntry {
    pub id: u32,
    pub label: String,
}

/// An edge record with integer capacity and cost.
#[derive(Debug, Clone, Copy)]
pub struct EdgeEntry {
    pub from: u32,
    pub to: u32,
    pub capacity: i64,
    pub cost: i64,
}

/// Node `a` comes before node `b` when sorted by id, ties kept in input
/// order.
pub open spec fn id_before(nodes: Seq<NodeEntry>, a: int, b: int) -> bool {
    nodes[a].id < nodes[b].id || (nodes[a].id == nodes[b].id && a < b)
}

/// `order` lists every node index once, sorted by id with ties in input
/// order (a stable sort by id).
pub open spec fn sorted_by_id(nodes: Seq<NodeEntry>, order: Seq<usize>) -> bool {
    &&& order.len() == nodes.len()
    &&& forall|a: int| 0 <= a < order.len() ==> #[trigger] order[a] < nodes.len()
    &&& forall|j: int| 0 <= j < nodes.len() ==> #[trigger] order.contains(j as usize)
    &&& forall|a: int, b: int|
        0 <= a < b < order.len() ==> id_before(nodes, #[trigger] order[a] as int, #[trigger] order[b] as int)
}

/// Indices of the nodes in stable id order.
pub fn sort_by_id(nodes: &Vec<NodeEntry>) -> (order: Vec<usize>)
    ensures
        sorted_by_id(nodes@, order@),
{
    let n = nodes.len();
    let mut order: Vec<usize> = Vec::new();
    let mut i: usize = 0;
    while i < n
        invariant
            n == nodes.len(),
            i <= n,
            order.len() == i,
            forall|a: int| 0 <= a < order.len() ==> #[trigger] order[a] < i,
            forall|j: int| 0 <= j < i ==> #[trigger] order@.contains(j as usize),
            forall|a: int, b: int|
                0 <= a < b < order.len() ==> id_before(nodes@, #[trigger] order[a] as int, #[trigger] order[b] as int),
        decreases n - i,
    {
        let id = nodes[i].id;
        let mut p: usize = order.len();
        while p > 0 && nodes[order[p - 1]].id > id
            invariant
                n == nodes.len(),
                i < n,
                id == nodes@[i as int].id,
                order.len() == i,
                forall|a: int| 0 <= a < order.len() ==> #[trigger] order[a] < i,
                p <= order.len(),
                forall|q: int| p <= q < order.len() ==> #[trigger] nodes@[order[q] as int].id > id,
            decreases p,
        {
            p -= 1;
        }
        let ghost old_order = order@;
        order.insert(p, i);
        proof {
            old_order.insert_ensures(p as int, i);
            let o = order@;
            assert forall|a: int| 0 <= a < o.len() implies #[trigger] o[a] < i + 1 by {
                if a < p {
                    assert(o[a] == old_order[a]);
                } else if a > p {
                    assert(o[a] == old_order[a - 1]);
                }
            }
            assert forall|j: int| 0 <= j < i + 1 implies #[trigger] o.contains(j as usize) by {
                if j == i {
                    assert(o[p as int] == i);
                } else {
                    assert(old_order.contains(j as usize));
                    let k = choose|k: int| 0 <= k < old_order.len() && old_order[k] == j as usize;
                    if k < p {
                        assert(o[k] == j as usize);
                    } else {
                        assert(o[k + 1] == j as usize);
                    }
                }
            }
            assert forall|a: int, b: int| 0 <= a < b < o.len() implies id_before(
                nodes@,
                #[trigger] o[a] as int,
                #[trigger] o[b] as int,
            ) by {
                if b < p {
                    assert(o[a] == old_order[a] && o[b] == old_order[b]);
                } else if a > p {
                    assert(o[a] == old_order[a - 1] && o[b] == old_order[b - 1]);
                } else if a < p && b > p {
                    assert(o[a] == old_order[a] && o[b] == old_order[b - 1]);
                } else if a == p {
                    assert(o[b] == old_order[b - 1]);
                    assert(nodes@[old_order[b - 1] as int].id > id);
                } else {
                    assert(b == p);
                    assert(o[a] == old_order[a]);
                    assert(id_before(nodes@, old_order[a] as int, old_order[p - 1] as int) || a == p - 1);
                    assert(old_order[p - 1] < i);
                    assert(nodes@[old_order[p - 1] as int].id <= id);
                }
            }
        }
        i += 1;
    }
    order
}

/// Graph node `d` carries the label of node record `e`.
pub open spec fn carries_label(d: NodeData, e: NodeEntry) -> bool {
    match d.label {
        Some(l) => l@ == e.label@,
        None => false,
    }
}

/// The arcs a configuration's edges produce: one forward arc and its
/// residual partner per edge, in order.
pub open spec fn config_arcs(edges: Seq<EdgeEntry>, k: int) -> (Edge, Edge) {
    let e = edges[k];
    (
        Edge { from: NodeId(e.from), to: NodeId(e.to), capacity: Capacity(e.capacity), cost: Cost(e.cost) },
        Edge { from: NodeId(e.to), to: NodeId(e.from), capacity: Capacity(0), cost: Cost((-e.cost) as i64) },
    )
}

/// Records a graph can be built from: every edge joins listed positions,
/// has a non-negative capacity and a negatable cost, and the counts fit the
/// graph's index type.
pub open spec fn buildable(nodes: Seq<NodeEntry>, edges: Seq<EdgeEntry>) -> bool {
    &&& nodes.len() < u32::MAX
    &&& 2 * edges.len() + 2 <= u32::MAX
    &&& forall|k: int|
        0 <= k < edges.len() ==> {
            &&& (#[trigger] edges[k]).from < nodes.len()
            &&& edges[k].to < nodes.len()
            &&& edges[k].capacity >= 0
            &&& edges[k].cost > i64::MIN
        }
}

/// Build the graph of a configuration: one post per node, added in id
/// order (ties in input order) so that position `i` holds the `i`-th node
/// by id; the given source and sink; then one belt per edge, in order.
pub fn build_graph(nodes: &Vec<NodeEntry>, edges: &Vec<EdgeEntry>, source: u32, sink: u32) -> (r: Result<
    DiGraph,
    StanchionError,
>)
    requires
        buildable(nodes@, edges@),
    ensures
        r matches Ok(g) && {
            &&& g.wf()
            &&& g.nodes.len() == nodes.len()
            &&& exists|order: Seq<usize>|
                sorted_by_id(nodes@, order) && forall|i: int|
                    0 <= i < nodes.len() ==> carries_label(#[trigger] g.nodes[i], nodes@[order[i] as int])
            &&& g.source == Some(NodeId(source))
            &&& g.sink == Some(NodeId(sink))
            &&& g.edges.len() == 2 * edges.len()
            &&& forall|k: int|
                0 <= k < edges.len() ==> g.edges[2 * k] == config_arcs(edges@, k).0 && g.edges[2 * k + 1]
                    == config_arcs(edges@, k).1
        },
{
    // nodes must be added in id order
    let sorted = sort_by_id(nodes);
    let mut b = GraphBuilder::new();
    let mut i: usize = 0;
    while i < sorted.len()
        invariant
            sorted_by_id(nodes@, sorted@),
            nodes.len() < u32::MAX,
            i <= sorted.len(),
            b.wf(),
            b.graph.nodes.len() == i,
            b.graph.edges.len() == 0,
            forall|k: int|
                0 <= k < i ==> carries_label(#[trigger] b.graph.nodes[k], nodes@[sorted@[k] as int]),
        decreases sorted.len() - i,
    {
        let ghost b0 = b.graph.nodes@;
        let label = nodes[sorted[i]].label.as_str();
        proof {
            assert(label@ == nodes@[sorted@[i as int] as int].label@);
        }
        let (nb, _) = b.add_stanchion(label);
        b = nb;
        proof {
            assert forall|k: int| 0 <= k < i + 1 implies carries_label(
                #[trigger] b.graph.nodes[k],
                nodes@[sorted@[k] as int],
            ) by {
                if k < i {
                    assert(b.graph.nodes[k] == b0[k]);
                }
            }
        }
        i += 1;
    }
    b = b.source(NodeId(source)).sink(NodeId(sink));
    let mut k: usize = 0;
    while k < edges.len()
        invariant
            buildable(nodes@, edges@),
            k <= edges.len(),
            b.wf(),
            b.graph.nodes.len() == nodes.len(),
            forall|j: int|
                0 <= j < nodes.len() ==> carries_label(#[trigger] b.graph.nodes[j], nodes@[sorted@[j] as int]),
            b.graph.source == Some(NodeId(source)),
            b.graph.sink == Some(NodeId(sink)),
            b.graph.edges.len() == 2 * k,
            forall|j: int|
                0 <= j < k ==> b.graph.edges[2 * j] == config_arcs(edges@, j).0 && b.graph.edges[2 * j + 1]
                    == config_arcs(edges@, j).1,
        decreases edges.len() - k,
    {
        let ec = edges[k];
        proof {
            assert(edges@[k as int] == ec);
        }
        b = b.connect(NodeId(ec.from), NodeId(ec.to), Capacity(ec.capacity), Cost(ec.cost));
        proof {
            assert(b.graph.edges[2 * k as int] == config_arcs(edges@, k as int).0);
        }
        k += 1;
    }
    let graph = b.build();
    proof {
        assert(sorted_by_id(nodes@, sorted@));
    }
    graph
}

} // verus!
