//! Minimum-cost flow solvers.

use rand::rngs::SmallRng;
use rand::{Rng, SeedableRng};
use stanchion::error::StanchionError;
use stanchion::flow::min_cost::{CycleCanceling, NetworkSimplex, SuccessiveShortest};
use stanchion::flow::{MinCostFlowResult, MinCostFlowSolver};
use stanchion::graph::{Capacity, Cost, DiGraph, GraphBuilder, NodeId};

fn two_path_graph() -> (DiGraph, NodeId, NodeId) {
    // s → a (cap 2, cost 1) → t (cap 2, cost 1)   total cost per unit = 2
    // s → b (cap 3, cost 4) → t (cap 3, cost 4)   total cost per unit = 8
    let (b, s) = GraphBuilder::new().add_stanchion("s");
    let (b, a) = b.add_stanchion("a");
    let (b, bv) = b.add_stanchion("b");
    let (b, t) = b.add_stanchion("t");
    let g = b
        .source(s)
        .sink(t)
        .connect(s, a, Capacity(2), Cost(1))
        .connect(s, bv, Capacity(3), Cost(4))
        .connect(a, t, Capacity(2), Cost(1))
        .connect(bv, t, Capacity(3), Cost(4))
        .build()
        .unwrap();
    (g, s, t)
}

fn diamond_mcf() -> (DiGraph, NodeId, NodeId) {
    let (b, s) = GraphBuilder::new().add_stanchion("s");
    let (b, a) = b.add_stanchion("a");
    let (b, bv) = b.add_stanchion("b");
    let (b, t) = b.add_stanchion("t");
    let g = b
        .source(s)
        .sink(t)
        .connect(s, a, Capacity(2), Cost(1))
        .connect(s, bv, Capacity(3), Cost(2))
        .connect(a, t, Capacity(3), Cost(1))
        .connect(bv, t, Capacity(3), Cost(1))
        .build()
        .unwrap();
    (g, s, t)
}

fn random_graph(n: usize, edges: usize, seed: u64) -> DiGraph {
    let mut rng = SmallRng::seed_from_u64(seed);
    let mut b = GraphBuilder::new();
    for i in 0..n {
        let (nb, _) = b.add_stanchion(format!("n{i}").as_str());
        b = nb;
    }
    b = b.source(NodeId(0)).sink(NodeId((n - 1) as u32));
    for _ in 0..edges {
        let u = rng.random_range(0..n as u32);
        let v = rng.random_range(0..n as u32);
        if u != v {
            b = b.connect(
                NodeId(u),
                NodeId(v),
                Capacity(rng.random_range(1..=20) as i64),
                Cost(rng.random_range(1..=10) as i64),
            );
        }
    }
    b.build().unwrap_or_else(|_| {
        let (b, _) = GraphBuilder::new().add_stanchion("s");
        let (b, _) = b.add_stanchion("t");
        b.source(NodeId(0)).sink(NodeId(1)).connect(NodeId(0), NodeId(1), Capacity(1), Cost(1)).build().unwrap()
    })
}

/// Cost of the flow on the forward arcs.
fn cost_of(g: &DiGraph, r: &MinCostFlowResult) -> i128 {
    (0..g.edges.len()).step_by(2).map(|i| r.flow_on_edge[i] as i128 * g.edges[i].cost.0 as i128).sum()
}

#[test]
fn prefers_cheap_path_for_demand_2() {
    let (g, s, t) = two_path_graph();
    let r = SuccessiveShortest.min_cost_flow(&g, s, t, Some(2)).unwrap();
    assert!(r.min_cost == 4, "cost={}", r.min_cost);
    assert_eq!(r.max_flow, 2);
    assert_eq!(cost_of(&g, &r), 4);
}

#[test]
fn max_flow_no_demand() {
    let (g, s, t) = two_path_graph();
    let r = SuccessiveShortest.min_cost_flow(&g, s, t, None).unwrap();
    assert_eq!(r.max_flow, 5);
    assert_eq!(r.min_cost, 2 * 2 + 3 * 8);
}

#[test]
fn infeasible_demand_errors() {
    let (g, s, t) = two_path_graph();
    assert!(SuccessiveShortest.min_cost_flow(&g, s, t, Some(100)).is_err());
}

#[test]
fn infeasible_demand_reports_demand_and_max_flow() {
    let (g, s, t) = two_path_graph();
    assert_eq!(
        SuccessiveShortest.min_cost_flow(&g, s, t, Some(100)).err(),
        Some(StanchionError::InfeasibleDemand { demand: 100, max_flow: 5 })
    );
    assert_eq!(
        NetworkSimplex.min_cost_flow(&g, s, t, Some(6)).err(),
        Some(StanchionError::InfeasibleDemand { demand: 6, max_flow: 5 })
    );
}

#[test]
fn zero_and_negative_demand_send_nothing() {
    let (g, s, t) = two_path_graph();
    let r = SuccessiveShortest.min_cost_flow(&g, s, t, Some(0)).unwrap();
    assert_eq!((r.max_flow, r.min_cost), (0, 0));
    let r = SuccessiveShortest.min_cost_flow(&g, s, t, Some(-3)).unwrap();
    assert_eq!((r.max_flow, r.min_cost), (0, 0));
}

#[test]
fn demand_on_the_expensive_path() {
    let (g, s, t) = two_path_graph();
    // 2 units at 2 each, then 1 unit at 8
    let r = SuccessiveShortest.min_cost_flow(&g, s, t, Some(3)).unwrap();
    assert_eq!((r.max_flow, r.min_cost), (3, 12));
}

#[test]
fn cost_matches_ssp() {
    let (g, s, t) = diamond_mcf();
    let ssp = SuccessiveShortest.min_cost_flow(&g, s, t, None).unwrap();
    let cc = CycleCanceling.min_cost_flow(&g, s, t, None).unwrap();
    assert_eq!(ssp.min_cost, cc.min_cost);
    assert_eq!(ssp.max_flow, cc.max_flow);
}

#[test]
fn single_path_cost() {
    let (b, s) = GraphBuilder::new().add_stanchion("s");
    let (b, m) = b.add_stanchion("m");
    let (b, t) = b.add_stanchion("t");
    let g = b.source(s).sink(t).connect(s, m, Capacity(5), Cost(3)).connect(m, t, Capacity(5), Cost(2)).build().unwrap();
    let cc = CycleCanceling.min_cost_flow(&g, s, t, None).unwrap();
    assert_eq!(cc.max_flow, 5);
    assert_eq!(cc.min_cost, 25); // 5 * (3+2)
}

#[test]
fn matches_ssp_on_two_path_graph() {
    let (g, s, t) = two_path_graph();
    let ssp = SuccessiveShortest.min_cost_flow(&g, s, t, None).unwrap();
    let ns = NetworkSimplex.min_cost_flow(&g, s, t, None).unwrap();
    assert_eq!(ssp.min_cost, ns.min_cost);
    assert_eq!(ssp.max_flow, ns.max_flow);
}

#[test]
fn mcf_algorithms_agree() {
    for seed in 0..15u64 {
        let g = random_graph(6, 10, seed);
        let s = g.source().unwrap();
        let t = g.sink().unwrap();

        let ssp = SuccessiveShortest.min_cost_flow(&g, s, t, None).unwrap();
        let ns = NetworkSimplex.min_cost_flow(&g, s, t, None).unwrap();
        let cc = CycleCanceling.min_cost_flow(&g, s, t, None).unwrap();

        // all must agree on flow value
        assert!(ssp.max_flow == ns.max_flow, "flow disagrees SSP vs NS on seed={seed}");
        assert!(ssp.max_flow == cc.max_flow, "flow disagrees SSP vs CC on seed={seed}");

        // all must agree on minimum cost
        assert!(ssp.min_cost == ns.min_cost, "cost disagrees SSP={} NS={} on seed={seed}", ssp.min_cost, ns.min_cost);
        assert!(ssp.min_cost == cc.min_cost, "cost disagrees SSP={} CC={} on seed={seed}", ssp.min_cost, cc.min_cost);
        assert_eq!(ssp.min_cost, cost_of(&g, &ssp));
    }
}

#[test]
fn cycle_canceling_meets_a_demand_at_least_cost() {
    let (g, s, t) = two_path_graph();
    let cc = CycleCanceling.min_cost_flow(&g, s, t, Some(2)).unwrap();
    // two units along s -> a -> t at cost 2 each
    assert_eq!(cc.max_flow, 2);
    assert_eq!(cc.min_cost, 4);
    assert_eq!(cost_of(&g, &cc), 4);
    let ssp = SuccessiveShortest.min_cost_flow(&g, s, t, Some(2)).unwrap();
    assert_eq!(ssp.min_cost, cc.min_cost);
}

#[test]
fn cycle_canceling_with_demand_above_maximum_gives_maximum() {
    let (g, s, t) = two_path_graph();
    let cc = CycleCanceling.min_cost_flow(&g, s, t, Some(100)).unwrap();
    assert_eq!(cc.max_flow, 5);
    assert_eq!(cc.min_cost, 28);
}

#[test]
fn network_simplex_pivot_keeps_a_feasible_cheapest_flow() {
    // a cheapest flow is never made dearer by the pivots
    let (g, s, t) = diamond_mcf();
    let ns = NetworkSimplex.min_cost_flow(&g, s, t, None).unwrap();
    let ssp = SuccessiveShortest.min_cost_flow(&g, s, t, None).unwrap();
    assert_eq!(ns.min_cost, ssp.min_cost);
    assert_eq!(cost_of(&g, &ns), ns.min_cost);
}

#[test]
fn cycle_canceling_replaces_an_expensive_first_flow() {
    // two routes share the last arc: s → a → c (cost 10) and s → b → c (cost 1);
    // the maximum flow is one unit, and the cheap route must win
    let (b, s) = GraphBuilder::new().add_stanchion("s");
    let (b, a) = b.add_stanchion("a");
    let (b, bv) = b.add_stanchion("b");
    let (b, c) = b.add_stanchion("c");
    let (b, t) = b.add_stanchion("t");
    let g = b
        .source(s)
        .sink(t)
        .connect(s, a, Capacity(1), Cost(10))
        .connect(s, bv, Capacity(1), Cost(1))
        .connect(a, c, Capacity(1), Cost(0))
        .connect(bv, c, Capacity(1), Cost(0))
        .connect(c, t, Capacity(1), Cost(0))
        .build()
        .unwrap();
    let cc = CycleCanceling.min_cost_flow(&g, s, t, None).unwrap();
    assert_eq!(cc.max_flow, 1);
    assert_eq!(cc.min_cost, 1);
    let ssp = SuccessiveShortest.min_cost_flow(&g, s, t, None).unwrap();
    assert_eq!(ssp.min_cost, cc.min_cost);
}

#[test]
fn cycle_canceling_meets_a_demand_beyond_one_belt() {
    // two parallel belts of the largest capacity; the demand needs both
    let (b, s) = GraphBuilder::new().add_stanchion("s");
    let (b, t) = b.add_stanchion("t");
    let g = b
        .source(s)
        .sink(t)
        .connect(s, t, Capacity(i64::MAX), Cost(1))
        .connect(s, t, Capacity(i64::MAX), Cost(2))
        .build()
        .unwrap();
    let d = i64::MAX as i128 + 5;
    let cc = CycleCanceling.min_cost_flow(&g, s, t, Some(d)).unwrap();
    assert_eq!(cc.max_flow, d);
    assert_eq!(cc.min_cost, i64::MAX as i128 + 10);
}
