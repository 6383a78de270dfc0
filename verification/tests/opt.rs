//! Minimum cuts and layout recommendations.

use stanchion::flow::dinic::Dinic;
use stanchion::flow::MaxFlowSolver;
use stanchion::graph::{Capacity, Cost, EdgeId, GraphBuilder, NodeId};
use stanchion::opt::{find_min_cut, DecisionReason, OptimizationEngine, StanchionDecision};

#[test]
fn min_cut_is_the_bottleneck() {
    let (b, s) = GraphBuilder::new().add_stanchion("s");
    let (b, m) = b.add_stanchion("m");
    let (b, t) = b.add_stanchion("t");
    let g = b.source(s).sink(t).connect(s, m, Capacity(5), Cost(1)).connect(m, t, Capacity(2), Cost(1)).build().unwrap();
    let r = Dinic.max_flow(&g, s, t).unwrap();
    assert_eq!(find_min_cut(&g, &r, s), vec![EdgeId(2)]);
}

#[test]
fn recommend_expands_cut_then_prunes_idle_belts() {
    // s → m (cap 5) → t (cap 2), and an idle belt t → s
    let (b, s) = GraphBuilder::new().add_stanchion("s");
    let (b, m) = b.add_stanchion("m");
    let (b, t) = b.add_stanchion("t");
    let g = b
        .source(s)
        .sink(t)
        .connect(s, m, Capacity(5), Cost(1))
        .connect(m, t, Capacity(2), Cost(1))
        .connect(t, s, Capacity(3), Cost(1))
        .build()
        .unwrap();
    let engine = OptimizationEngine::new(Dinic);
    let ds = engine.recommend(&g, s, t).unwrap();
    assert_eq!(
        ds,
        vec![
            StanchionDecision::AddEdge {
                from: NodeId(1),
                to: NodeId(2),
                capacity: Capacity(1),
                cost: Cost(1),
                reason: DecisionReason::BottleneckExpansion { delta_flow: 1 },
            },
            StanchionDecision::RemoveEdge { edge_id: EdgeId(4), reason: DecisionReason::ZeroFlowPruning },
        ]
    );
}

#[test]
fn min_cut_capacity_equals_max_flow() {
    let (b, s) = GraphBuilder::new().add_stanchion("s");
    let (b, a) = b.add_stanchion("a");
    let (b, bv) = b.add_stanchion("b");
    let (b, c) = b.add_stanchion("c");
    let (b, t) = b.add_stanchion("t");
    let g = b
        .source(s)
        .sink(t)
        .connect(s, a, Capacity(10), Cost(1))
        .connect(s, bv, Capacity(10), Cost(1))
        .connect(a, c, Capacity(4), Cost(1))
        .connect(bv, c, Capacity(8), Cost(1))
        .connect(a, t, Capacity(6), Cost(1))
        .connect(c, t, Capacity(10), Cost(1))
        .build()
        .unwrap();
    let r = Dinic.max_flow(&g, s, t).unwrap();
    let cut = find_min_cut(&g, &r, s);
    let total: i128 = cut.iter().map(|e| g.edges[e.0 as usize].capacity.0 as i128).sum();
    assert_eq!(total, r.max_flow);
    assert_eq!(total, 16);
    for e in &cut {
        assert_eq!(r.flow_on_edge[e.0 as usize], g.edges[e.0 as usize].capacity.0);
    }
}

#[test]
fn expansion_reports_the_flow_a_new_belt_gains() {
    // s → m (cap 1) → t (cap 1): a second belt beside s → m gains nothing,
    // since m → t still carries one unit at most
    let (b, s) = GraphBuilder::new().add_stanchion("s");
    let (b, m) = b.add_stanchion("m");
    let (b, t) = b.add_stanchion("t");
    let g = b.source(s).sink(t).connect(s, m, Capacity(1), Cost(1)).connect(m, t, Capacity(1), Cost(1)).build().unwrap();
    let engine = OptimizationEngine::new(Dinic);
    let ds = engine.recommend(&g, s, t).unwrap();
    assert_eq!(
        ds,
        vec![StanchionDecision::AddEdge {
            from: NodeId(0),
            to: NodeId(1),
            capacity: Capacity(1),
            cost: Cost(1),
            reason: DecisionReason::BottleneckExpansion { delta_flow: 0 },
        }]
    );
}

#[test]
fn expansions_are_ordered_by_gain() {
    // two cut belts: s → a (cap 1, a → t cap 5) and s → b (cap 1, b → t cap 1);
    // a belt beside s → a gains one unit, beside s → b nothing
    let (b0, s) = GraphBuilder::new().add_stanchion("s");
    let (b0, bv) = b0.add_stanchion("b");
    let (b0, a) = b0.add_stanchion("a");
    let (b0, t) = b0.add_stanchion("t");
    let g = b0
        .source(s)
        .sink(t)
        .connect(s, bv, Capacity(1), Cost(1))
        .connect(s, a, Capacity(1), Cost(1))
        .connect(bv, t, Capacity(1), Cost(1))
        .connect(a, t, Capacity(5), Cost(1))
        .build()
        .unwrap();
    let engine = OptimizationEngine::new(Dinic);
    let ds = engine.recommend(&g, s, t).unwrap();
    assert_eq!(ds.len(), 2);
    assert_eq!(
        ds[0],
        StanchionDecision::AddEdge {
            from: s,
            to: a,
            capacity: Capacity(1),
            cost: Cost(1),
            reason: DecisionReason::BottleneckExpansion { delta_flow: 1 },
        }
    );
    match ds[1] {
        StanchionDecision::AddEdge { reason: DecisionReason::BottleneckExpansion { delta_flow }, .. } => {
            assert_eq!(delta_flow, 0)
        }
        _ => panic!("expected a second expansion"),
    }
    let _ = (bv, t);
}
