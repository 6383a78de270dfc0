//! Time-expanded graphs.

use stanchion::dynamic::{build_time_expanded, DynamicFlowSolver, TimeHorizon};
use stanchion::error::StanchionError;
use stanchion::flow::dinic::Dinic;
use stanchion::graph::{Capacity, Cost, DiGraph, EdgeId, GraphBuilder, NodeId};

fn two_node() -> DiGraph {
    // s → t (cap 1, transit 1)
    let (b, s) = GraphBuilder::new().add_stanchion("s");
    let (b, t) = b.add_stanchion("t");
    b.source(s).sink(t).connect(s, t, Capacity(1), Cost(1)).build().unwrap()
}

#[test]
fn two_node_horizon_3() {
    let base = two_node();
    let (exp, _, _) = build_time_expanded(&base, TimeHorizon(3), |_| 1).unwrap();
    // 2 nodes * 3 steps = 6 expanded nodes
    assert_eq!(exp.node_count(), 6);
}

#[test]
fn expanded_terminals_and_labels() {
    let base = two_node();
    let (exp, xs, xk) = build_time_expanded(&base, TimeHorizon(3), |_| 1).unwrap();
    assert_eq!(xs, NodeId(0));
    assert_eq!(xk, NodeId(1 + 2 * 2));
    assert_eq!(exp.source(), Some(xs));
    assert_eq!(exp.sink(), Some(xk));
    assert_eq!(exp.node_data(NodeId(3)).unwrap().label.as_deref(), Some("(1,1)"));
    assert_eq!(exp.node_data(NodeId(4)).unwrap().label.as_deref(), Some("(0,2)"));
    // two transit arcs (t = 0, 1) and four holding arcs
    assert_eq!(exp.edge_count(), 6);
}

#[test]
fn dynamic_flow_counts_departures_in_time() {
    let base = two_node();
    let solver = DynamicFlowSolver::new(Dinic);
    // with transit 1 over 3 steps, one person can leave at step 0 and one at step 1
    assert_eq!(solver.solve(&base, TimeHorizon(3), |_| 1).unwrap().max_flow, 2);
    // a transit time of 3 never arrives within the horizon
    assert_eq!(solver.solve(&base, TimeHorizon(3), |_: EdgeId| 3).unwrap().max_flow, 0);
}

#[test]
fn horizon_too_large_errors() {
    let base = two_node();
    assert_eq!(
        build_time_expanded(&base, TimeHorizon(600_000), |_| 1).err(),
        Some(StanchionError::TimeHorizonTooLarge(600_000))
    );
}

#[test]
fn missing_terminals_error() {
    let (b, s) = GraphBuilder::new().add_stanchion("s");
    let g = b.source(s).sink(s).build().unwrap();
    let mut g2 = g;
    g2.sink = None;
    assert_eq!(build_time_expanded(&g2, TimeHorizon(2), |_| 1).err(), Some(StanchionError::NoSink));
    g2.source = None;
    assert_eq!(build_time_expanded(&g2, TimeHorizon(2), |_| 1).err(), Some(StanchionError::NoSource));
}

#[test]
fn expansion_lists_transit_arcs_then_holding_arcs() {
    let base = two_node();
    let (exp, _, _) = build_time_expanded(&base, TimeHorizon(3), |_| 1).unwrap();
    let ends: Vec<(u32, u32)> = (0..exp.edges.len()).step_by(2).map(|i| (exp.edges[i].from.0, exp.edges[i].to.0)).collect();
    // transit copies by departure step, then holding arcs by step and node
    assert_eq!(ends, vec![(0, 3), (2, 5), (0, 2), (1, 3), (2, 4), (3, 5)]);
}
