//! Graph construction and residual bookkeeping.

use stanchion::config::{build_graph, default_seed, EdgeEntry, NodeEntry};
use stanchion::error::StanchionError;
use stanchion::graph::{Capacity, Cost, DiGraph, EdgeId, GraphBuilder, NodeId, ResidualGraph};

fn diamond() -> DiGraph {
    // s → a → t
    // s → b → t
    // max flow should be 2 if each edge has capacity 1
    let (b, s) = GraphBuilder::new().add_stanchion("s");
    let (b, a) = b.add_stanchion("a");
    let (b, bnode) = b.add_stanchion("b");
    let (b, t) = b.add_stanchion("t");
    b.source(s)
        .sink(t)
        .connect(s, a, Capacity(1), Cost(1))
        .connect(s, bnode, Capacity(1), Cost(1))
        .connect(a, t, Capacity(1), Cost(1))
        .connect(bnode, t, Capacity(1), Cost(1))
        .build()
        .unwrap()
}

fn two_node(cap: i64, cost: i64) -> (DiGraph, NodeId, NodeId) {
    let (b, s) = GraphBuilder::new().add_stanchion("s");
    let (b, t) = b.add_stanchion("t");
    let g = b.source(s).sink(t).connect(s, t, Capacity(cap), Cost(cost)).build().unwrap();
    (g, s, t)
}

#[test]
fn xor_back_edge_pairing() {
    let g = diamond();
    // Every even-indexed edge should have a matching odd back-edge
    for i in (0..g.edges.len()).step_by(2) {
        let fwd = &g.edges[i];
        let back = &g.edges[i ^ 1];
        assert_eq!(fwd.to, back.from);
        assert_eq!(fwd.from, back.to);
        assert_eq!(back.capacity.0, 0);
    }
}

#[test]
fn adjacency_counts() {
    let g = diamond();
    // s has 2 outgoing + 0 incoming back-edges visible to it
    assert_eq!(g.adj[0].len(), 2);
    // t has 0 outgoing + 2 incoming (2 back-edges pointing back toward s)
    assert_eq!(g.adj[3].len(), 2);
}

#[test]
fn back_edge_has_zero_capacity_and_negated_cost() {
    let (g, s, t) = two_node(7, 5);
    assert_eq!(g.edges.len(), 2);
    assert_eq!(g.edges[0].to, t);
    assert_eq!(g.edges[1].to, s);
    assert_eq!(g.edges[1].capacity.0, 0);
    assert_eq!(g.edges[1].cost.0, -5);
}

#[test]
fn push_flow_antisymmetric() {
    let (g, _, _) = two_node(9, 1);
    let mut res = ResidualGraph::new(&g);
    res.push_flow(0, 4);
    assert_eq!(res.residual_capacity(0), 5);
    assert_eq!(res.residual_capacity(1), 4);
    res.push_flow(1, 4);
    assert_eq!(res.residual_capacity(0), 9);
    assert_eq!(res.residual_capacity(1), 0);
}

#[test]
fn fresh_residual_capacity_equals_arc_capacity() {
    let (g, _, _) = two_node(12, 1);
    let res = ResidualGraph::new(&g);
    assert_eq!(res.residual_capacity(0), 12);
    assert_eq!(res.residual_capacity(1), 0);
}

#[test]
fn forward_edge_detection() {
    let g = diamond();
    for i in 0..g.edges.len() {
        assert_eq!(g.is_forward_edge(EdgeId(i as u32)), i % 2 == 0);
    }
}

#[test]
fn source_and_sink_are_set() {
    let (g, s, t) = two_node(1, 1);
    assert_eq!(g.source(), Some(s));
    assert_eq!(g.sink(), Some(t));
    assert_eq!(g.node_count(), 2);
    assert_eq!(g.edge_count(), 1);
}

#[test]
fn missing_source_errors() {
    let (b, _s) = GraphBuilder::new().add_stanchion("s");
    let (b, t) = b.add_stanchion("t");
    assert_eq!(b.sink(t).build().err(), Some(StanchionError::NoSource));
}

#[test]
fn missing_sink_errors() {
    let (b, s) = GraphBuilder::new().add_stanchion("s");
    let (b, _t) = b.add_stanchion("t");
    assert_eq!(b.source(s).build().err(), Some(StanchionError::NoSink));
}

#[test]
fn neighbors_and_forward_neighbors() {
    let g = diamond();
    // node a has its forward arc to t and the back-arc of s → a
    let all = g.neighbors(NodeId(1));
    assert_eq!(all.len(), 2);
    let fwd = g.forward_neighbors(NodeId(1));
    assert_eq!(fwd, vec![(NodeId(3), 4)]);
    assert_eq!(g.node_data(NodeId(2)).unwrap().label.as_deref(), Some("b"));
    assert!(g.node_data(NodeId(9)).is_none());
    assert_eq!(g.edge(EdgeId(2)).unwrap().to, NodeId(2));
    assert!(g.edge(EdgeId(8)).is_none());
}

#[test]
fn residual_totals() {
    let g = diamond();
    let mut res = ResidualGraph::new(&g);
    res.push_flow(0, 1);
    res.push_flow(4, 1);
    assert_eq!(res.flow_from_source(), 1);
    assert_eq!(res.total_cost(), 2);
    assert_eq!(res.flow_vec(), &[1, -1, 0, 0, 1, -1, 0, 0]);
    res.reset();
    assert_eq!(res.flow_from_source(), 0);
    assert_eq!(res.total_cost(), 0);
    let res2 = ResidualGraph::from_flow(&g, vec![0, 0, 1, -1, 0, 0, 1, -1]);
    assert_eq!(res2.flow_from_source(), 1);
    assert_eq!(res2.edge_cost(3), -1);
}

#[test]
fn add_node_and_edge_directly() {
    let (b, s) = GraphBuilder::new().add_stanchion("s");
    let mut g = b.source(s).sink(s).build().unwrap();
    let t = g.add_node(stanchion::graph::NodeData { label: None });
    assert_eq!(t, NodeId(1));
    let e = g.add_edge(s, t, Capacity(3), Cost(2));
    assert_eq!(e, EdgeId(0));
    let e2 = g.add_edge(t, s, Capacity(1), Cost(1));
    assert_eq!(e2, EdgeId(2));
    assert_eq!(g.adj[0], vec![0, 3]);
    assert_eq!(g.adj[1], vec![1, 2]);
}

#[test]
fn build_graph_orders_nodes_by_id() {
    let nodes = vec![
        NodeEntry { id: 2, label: "security".to_string() },
        NodeEntry { id: 0, label: "entry".to_string() },
        NodeEntry { id: 1, label: "lane_a".to_string() },
    ];
    let edges = vec![
        EdgeEntry { from: 0, to: 1, capacity: 3, cost: 1 },
        EdgeEntry { from: 1, to: 2, capacity: 3, cost: 1 },
    ];
    let g = build_graph(&nodes, &edges, 0, 2).unwrap();
    assert_eq!(g.node_count(), 3);
    assert_eq!(g.edge_count(), 2);
    assert_eq!(g.node_data(NodeId(0)).unwrap().label.as_deref(), Some("entry"));
    assert_eq!(g.node_data(NodeId(2)).unwrap().label.as_deref(), Some("security"));
    assert_eq!(g.source(), Some(NodeId(0)));
    assert_eq!(g.sink(), Some(NodeId(2)));
    assert_eq!(g.edges[2].from, NodeId(1));
    assert_eq!(g.edges[3].cost.0, -1);
    assert_eq!(default_seed(), 42);
}
