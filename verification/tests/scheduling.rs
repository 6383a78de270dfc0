//! Max-weight scheduling.

use stanchion::graph::NodeId;
use stanchion::scheduling::{MaxWeightScheduler, QueueState};

#[test]
fn longest_queue_selected() {
    let mut state = QueueState::new(3);
    state.queue_len[0] = 2;
    state.queue_len[1] = 5;
    state.queue_len[2] = 1;
    let sched = MaxWeightScheduler::new(3);
    assert_eq!(sched.next_to_serve(&state), Some(NodeId(1)));
}

#[test]
fn weights_break_ties() {
    let mut state = QueueState::new(2);
    state.queue_len[0] = 4;
    state.queue_len[1] = 4;
    let sched = MaxWeightScheduler::with_weights(vec![1, 2]);
    // node 1 wins because 4*2 > 4*1
    assert_eq!(sched.next_to_serve(&state), Some(NodeId(1)));
}

#[test]
fn empty_queues_return_none() {
    let state = QueueState::new(4);
    let sched = MaxWeightScheduler::new(4);
    assert_eq!(sched.next_to_serve(&state), None);
}

#[test]
fn equal_scores_pick_the_last() {
    let mut state = QueueState::new(3);
    state.queue_len[0] = 3;
    state.queue_len[2] = 3;
    let sched = MaxWeightScheduler::new(3);
    assert_eq!(sched.next_to_serve(&state), Some(NodeId(2)));
}

#[test]
fn score_and_totals() {
    let mut state = QueueState::new(2);
    state.queue_len[1] = 6;
    state.in_service[1] = true;
    let sched = MaxWeightScheduler::with_weights(vec![5, 3]);
    assert_eq!(sched.score(&state, 1), 18);
    assert_eq!(sched.score(&state, 0), 0);
    assert_eq!(state.total_at(1), 7);
    assert_eq!(state.total_at(0), 0);
}

#[test]
fn schedule_step_serves_idle_nonempty_queues() {
    let mut state = QueueState::new(3);
    state.queue_len[0] = 1;
    state.queue_len[1] = 2;
    state.in_service[1] = true;
    let sched = MaxWeightScheduler::new(3);
    assert_eq!(sched.schedule_step(&state, &[1, 1, 1]), vec![true, false, false]);
    // a second server at node 1 lets it start another service; a missing
    // entry counts as one server
    assert_eq!(sched.schedule_step(&state, &[1, 2]), vec![true, true, false]);
}
