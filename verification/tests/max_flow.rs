//! Maximum-flow solvers.

use rand::rngs::SmallRng;
use rand::{Rng, SeedableRng};
use stanchion::flow::dinic::Dinic;
use stanchion::flow::push_relabel::PushRelabel;
use stanchion::flow::scaling::CapacityScaling;
use stanchion::flow::{FlowResult, MaxFlowSolver};
use stanchion::graph::{Capacity, Cost, DiGraph, GraphBuilder, NodeId};

fn diamond_graph() -> (DiGraph, NodeId, NodeId) {
    let (b, s) = GraphBuilder::new().add_stanchion("s");
    let (b, a) = b.add_stanchion("a");
    let (b, bv) = b.add_stanchion("b");
    let (b, t) = b.add_stanchion("t");
    let g = b
        .source(s)
        .sink(t)
        .connect(s, a, Capacity(1), Cost(1))
        .connect(s, bv, Capacity(1), Cost(1))
        .connect(a, t, Capacity(1), Cost(1))
        .connect(bv, t, Capacity(1), Cost(1))
        .build()
        .unwrap();
    (g, s, t)
}

fn five_node_graph() -> (DiGraph, NodeId, NodeId) {
    let (b, s) = GraphBuilder::new().add_stanchion("s");
    let (b, a) = b.add_stanchion("a");
    let (b, bv) = b.add_stanchion("b");
    let (b, c) = b.add_stanchion("c");
    let (b, t) = b.add_stanchion("t");
    let g = b
        .source(s)
        .sink(t)
        .connect(s, a, Capacity(10), Cost(1))
        .connect(s, bv, Capacity(10), Cost(1))
        .connect(a, c, Capacity(4), Cost(1))
        .connect(bv, c, Capacity(8), Cost(1))
        .connect(a, t, Capacity(6), Cost(1))
        .connect(c, t, Capacity(10), Cost(1))
        .build()
        .unwrap();
    (g, s, t)
}

fn path3(c1: i64, c2: i64) -> (DiGraph, NodeId, NodeId) {
    let (b, s) = GraphBuilder::new().add_stanchion("s");
    let (b, m) = b.add_stanchion("m");
    let (b, t) = b.add_stanchion("t");
    let g = b
        .source(s)
        .sink(t)
        .connect(s, m, Capacity(c1), Cost(1))
        .connect(m, t, Capacity(c2), Cost(1))
        .build()
        .unwrap();
    (g, s, t)
}

pub fn random_graph(n: usize, edges: usize, seed: u64) -> DiGraph {
    let mut rng = SmallRng::seed_from_u64(seed);
    let mut b = GraphBuilder::new();
    for i in 0..n {
        let (nb, _) = b.add_stanchion(format!("n{i}").as_str());
        b = nb;
    }
    b = b.source(NodeId(0)).sink(NodeId((n - 1) as u32));
    for _ in 0..edges {
        let u = rng.random_range(0..n as u32);
        let v = rng.random_range(0..n as u32);
        if u != v {
            b = b.connect(
                NodeId(u),
                NodeId(v),
                Capacity(rng.random_range(1..=20) as i64),
                Cost(rng.random_range(1..=10) as i64),
            );
        }
    }
    b.build().unwrap_or_else(|_| {
        let (b, _) = GraphBuilder::new().add_stanchion("s");
        let (b, _) = b.add_stanchion("t");
        b.source(NodeId(0)).sink(NodeId(1)).connect(NodeId(0), NodeId(1), Capacity(1), Cost(1)).build().unwrap()
    })
}

/// Net flow out of `v` in a result.
fn net_out(g: &DiGraph, r: &FlowResult, v: usize) -> i128 {
    g.adj[v].iter().map(|&i| r.flow_on_edge[i] as i128).sum()
}

/// A result is a feasible flow whose value is `max_flow`.
fn check_flow(g: &DiGraph, r: &FlowResult, s: NodeId, t: NodeId) {
    assert_eq!(r.flow_on_edge.len(), g.edges.len());
    for i in 0..g.edges.len() {
        assert!(r.flow_on_edge[i] <= g.edges[i].capacity.0);
        assert_eq!(r.flow_on_edge[i], -r.flow_on_edge[i ^ 1]);
    }
    for v in 0..g.node_count() {
        if v != s.0 as usize && v != t.0 as usize {
            assert_eq!(net_out(g, r, v), 0);
        }
    }
    assert_eq!(net_out(g, r, s.0 as usize), r.max_flow);
}

#[test]
fn diamond_max_flow_is_2() {
    let (g, s, t) = diamond_graph();
    let r = Dinic.max_flow(&g, s, t).unwrap();
    assert_eq!(r.max_flow, 2);
    check_flow(&g, &r, s, t);
}

#[test]
fn single_path() {
    // s → m → t with capacity 3
    let (g, s, t) = path3(3, 3);
    let r = Dinic.max_flow(&g, s, t).unwrap();
    assert_eq!(r.max_flow, 3);
}

#[test]
fn bottleneck_limits_flow() {
    // s → m (cap 5) → t (cap 2): bottleneck is the second edge
    let (g, s, t) = path3(5, 2);
    let r = Dinic.max_flow(&g, s, t).unwrap();
    assert_eq!(r.max_flow, 2);
}

#[test]
fn matches_dinic_five_node() {
    let (g, s, t) = five_node_graph();
    let dr = Dinic.max_flow(&g, s, t).unwrap();
    let cs = CapacityScaling.max_flow(&g, s, t).unwrap();
    assert_eq!(dr.max_flow, cs.max_flow);
    assert_eq!(cs.max_flow, 16);
    check_flow(&g, &cs, s, t);
}

#[test]
fn single_bottleneck() {
    let (g, s, t) = path3(100, 7);
    let cs = CapacityScaling.max_flow(&g, s, t).unwrap();
    assert_eq!(cs.max_flow, 7);
}

#[test]
fn large_capacity_matches_dinic() {
    let (g, s, t) = path3(1_000_000, 999_999);
    let dr = Dinic.max_flow(&g, s, t).unwrap();
    let cs = CapacityScaling.max_flow(&g, s, t).unwrap();
    assert_eq!(dr.max_flow, cs.max_flow);
}

#[test]
fn capacity_scaling_handles_large_capacities() {
    let (g, s, t) = path3(1_000_000, 999_999);
    let FlowResult { max_flow: d, .. } = Dinic.max_flow(&g, s, t).unwrap();
    let FlowResult { max_flow: c, .. } = CapacityScaling.max_flow(&g, s, t).unwrap();
    assert_eq!(d, c);
    assert_eq!(c, 999_999);
}

#[test]
fn zero_capacity_graph_gives_zero_flow() {
    let (b, s) = GraphBuilder::new().add_stanchion("s");
    let (b, t) = b.add_stanchion("t");
    let g = b.source(s).sink(t).connect(s, t, Capacity(0), Cost(1)).build().unwrap();
    let r = Dinic.max_flow(&g, s, t).unwrap();
    assert_eq!(r.max_flow, 0);
}

#[test]
fn max_flow_algorithms_agree_small() {
    for seed in 0..20u64 {
        let g = random_graph(6, 12, seed);
        let s = g.source().unwrap();
        let t = g.sink().unwrap();

        let expected = Dinic.max_flow(&g, s, t).unwrap().max_flow;
        let pr = PushRelabel.max_flow(&g, s, t).unwrap().max_flow;
        let cs = CapacityScaling.max_flow(&g, s, t).unwrap().max_flow;

        assert!(expected == pr, "PushRelabel disagrees on seed={seed}: Dinic={expected} PR={pr}");
        assert!(expected == cs, "CapacityScaling disagrees on seed={seed}: Dinic={expected} CS={cs}");
    }
}

#[test]
fn max_flow_algorithms_agree_medium() {
    for seed in [42u64, 99, 1234, 9999] {
        let g = random_graph(12, 30, seed);
        let s = g.source().unwrap();
        let t = g.sink().unwrap();

        let d = Dinic.max_flow(&g, s, t).unwrap();
        let pr = PushRelabel.max_flow(&g, s, t).unwrap();
        let cs = CapacityScaling.max_flow(&g, s, t).unwrap();
        assert_eq!(d.max_flow, pr.max_flow);
        assert_eq!(d.max_flow, cs.max_flow);
        check_flow(&g, &d, s, t);
        check_flow(&g, &pr, s, t);
        check_flow(&g, &cs, s, t);
    }
}

#[test]
fn disconnected_sink_gives_zero_flow() {
    let (b, s) = GraphBuilder::new().add_stanchion("s");
    let (b, m) = b.add_stanchion("m");
    let (b, t) = b.add_stanchion("t");
    let g = b.source(s).sink(t).connect(s, m, Capacity(4), Cost(1)).connect(t, m, Capacity(4), Cost(1)).build().unwrap();
    assert_eq!(Dinic.max_flow(&g, s, t).unwrap().max_flow, 0);
    assert_eq!(CapacityScaling.max_flow(&g, s, t).unwrap().max_flow, 0);
}

#[test]
fn diamond_matches_dinic() {
    let (g, s, t) = diamond_graph();
    let dr = Dinic.max_flow(&g, s, t).unwrap();
    let pr = PushRelabel.max_flow(&g, s, t).unwrap();
    assert_eq!(dr.max_flow, pr.max_flow);
    check_flow(&g, &pr, s, t);
}

#[test]
fn bottleneck_matches_dinic() {
    let (g, s, t) = path3(10, 4);
    let dr = Dinic.max_flow(&g, s, t).unwrap();
    let pr = PushRelabel.max_flow(&g, s, t).unwrap();
    assert_eq!(dr.max_flow, pr.max_flow);
    assert_eq!(pr.max_flow, 4);
}

#[test]
fn push_relabel_returns_excess_to_the_source() {
    // s → a (cap 9) → t (cap 2), a → b (cap 9) with b a dead end:
    // the excess that cannot reach t flows back to s
    let (b, s) = GraphBuilder::new().add_stanchion("s");
    let (b, a) = b.add_stanchion("a");
    let (b, d) = b.add_stanchion("b");
    let (b, t) = b.add_stanchion("t");
    let g = b
        .source(s)
        .sink(t)
        .connect(s, a, Capacity(9), Cost(1))
        .connect(a, t, Capacity(2), Cost(1))
        .connect(a, d, Capacity(9), Cost(1))
        .build()
        .unwrap();
    let pr = PushRelabel.max_flow(&g, s, t).unwrap();
    assert_eq!(pr.max_flow, 2);
    check_flow(&g, &pr, s, t);
    assert_eq!(pr.flow_on_edge[0], 2);
    assert_eq!(pr.flow_on_edge[4], 0);
}
