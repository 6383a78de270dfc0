//! Queueing decisions of the event-driven simulation.

use rand::rngs::SmallRng;
use rand::SeedableRng;
use stanchion::graph::{Capacity, Cost, GraphBuilder, NodeId};
use stanchion::sim::{next_node, Event, SimAction, SimState};

#[test]
fn arrival_at_idle_node_starts_service_and_schedules_next() {
    let mut st = SimState::new(3);
    let id = st.take_id();
    assert_eq!(id, 0);
    let acts = st.handle(&Event::Arrival { node: NodeId(0), person_id: id });
    assert_eq!(
        acts,
        vec![
            SimAction::StartService { node: NodeId(0), person_id: 0 },
            SimAction::ScheduleArrival { person_id: 1 },
        ]
    );
    assert!(st.busy[0]);
    assert_eq!(st.total_arrivals, 1);
    assert_eq!(st.next_id, 2);
}

#[test]
fn arrival_at_busy_node_queues() {
    let mut st = SimState::new(2);
    st.handle(&Event::Arrival { node: NodeId(0), person_id: 0 });
    let acts = st.handle(&Event::Arrival { node: NodeId(0), person_id: 7 });
    assert_eq!(acts, vec![SimAction::ScheduleArrival { person_id: 1 }]);
    assert_eq!(st.queues[0].len(), 1);
    assert_eq!(st.queues[0][0], 7);
}

#[test]
fn departure_serves_queue_head_and_routes_on() {
    let mut st = SimState::new(2);
    st.handle(&Event::Arrival { node: NodeId(0), person_id: 0 });
    st.handle(&Event::Arrival { node: NodeId(0), person_id: 5 });
    let acts = st.handle(&Event::Departure { node: NodeId(0), person_id: 0, next: Some(NodeId(1)) });
    assert_eq!(
        acts,
        vec![
            SimAction::StartService { node: NodeId(0), person_id: 5 },
            SimAction::StartService { node: NodeId(1), person_id: 0 },
        ]
    );
    assert!(st.busy[0] && st.busy[1]);
    assert_eq!(st.queues[0].len(), 0);
    assert_eq!(st.total_departures, 0);
}

#[test]
fn departure_to_exit_is_counted() {
    let mut st = SimState::new(1);
    st.handle(&Event::Arrival { node: NodeId(0), person_id: 0 });
    let acts = st.handle(&Event::Departure { node: NodeId(0), person_id: 0, next: None });
    assert!(acts.is_empty());
    assert!(!st.busy[0]);
    assert_eq!(st.total_departures, 1);
}

#[test]
fn next_node_picks_a_forward_neighbour() {
    let (b, s) = GraphBuilder::new().add_stanchion("s");
    let (b, a) = b.add_stanchion("a");
    let (b, c) = b.add_stanchion("c");
    let g = b
        .source(s)
        .sink(c)
        .connect(s, a, Capacity(1), Cost(1))
        .connect(s, c, Capacity(1), Cost(1))
        .connect(a, c, Capacity(1), Cost(1))
        .build()
        .unwrap();
    let mut rng = SmallRng::seed_from_u64(3);
    for _ in 0..50 {
        let v = next_node(&g, s, &mut rng).unwrap();
        assert!(v == a || v == c);
    }
    assert_eq!(next_node(&g, a, &mut rng), Some(c));
    assert_eq!(next_node(&g, c, &mut rng), None);
}
