//! Max-weight scheduling for stanchion queueing networks.
//!
//! Given queue lengths `Q_i` and per-node weights `w_i`, the single-server
//! max-weight rule serves a node maximising `w_i * Q_i` among the non-empty
//! queues.  Weights are integers here, so that every score is exact.
use vstd::prelude::*;
use crate::graph::NodeId;

verus! {

/// A snapshot of queue state for scheduling decisions.
#[derive(Debug, Clone)]
pub struct QueueState {
    /// queue_len[i] = number waiting (not in service) at node i.
    pub queue_len: Vec<usize>,
    /// in_service[i] = true if node i currently has a customer being served.
    pub in_service: Vec<bool>,
}

impl QueueState {
    pub fn new(n: usize) -> (r: Self)
        ensures
            r.queue_len@.len() == n,
            r.in_service@.len() == n,
            forall|i: int| 0 <= i < n ==> #[trigger] r.queue_len@[i] == 0,
            forall|i: int| 0 <= i < n ==> !#[trigger] r.in_service@[i],
    {
        let mut queue_len: Vec<usize> = Vec::new();
        let mut in_service: Vec<bool> = Vec::new();
        let mut i: usize = 0;
        while i < n
            invariant
                i <= n,
                queue_len@.len() == i,
                in_service@.len() == i,
                forall|k: int| 0 <= k < i ==> #[trigger] queue_len@[k] == 0,
                forall|k: int| 0 <= k < i ==> !#[trigger] in_service@[k],
            decreases n - i,
        {
            queue_len.push(0);
            in_service.push(false);
            i += 1;
        }
        Self { queue_len, in_service }
    }

    /// Total customers at node i (waiting + in service).
    pub fn total_at(&self, i: usize) -> (r: usize)
        requires
            i < self.queue_len.len(),
            i < self.in_service.len(),
            self.in_service@[i as int] ==> self.queue_len@[i as int] < usize::MAX,
        ensures
            r == self.queue_len@[i as int] + if self.in_service@[i as int] { 1int } else { 0int },
    {
        self.queue_len[i] + if self.in_service[i] {
            1
        } else {
            0
        }
    }
}

/// Schedules service decisions according to the max-weight rule.
///
/// For single-server networks, this reduces to longest-queue-first (LQF):
/// serve the node with the highest `Q_i * weight_i` score.
pub struct MaxWeightScheduler {
    /// Per-node weights (default 1 for equal priority).
    pub weights: Vec<i64>,
}

/// The max-weight score of node `i`.
pub open spec fn mw_score(weights: Seq<i64>, q: Seq<usize>, i: int) -> int {
    q[i] * weights[i]
}

/// Node `i` is a non-empty queue whose score is at least that of every
/// non-empty queue, and above that of every later non-empty queue.
pub open spec fn last_best(weights: Seq<i64>, q: Seq<usize>, i: int) -> bool {
    &&& 0 <= i < q.len()
    &&& q[i] > 0
    &&& forall|j: int| 0 <= j < q.len() && q[j] > 0 ==> #[trigger] mw_score(weights, q, j) <= mw_score(weights, q, i)
    &&& forall|j: int| i < j < q.len() && q[j] > 0 ==> #[trigger] mw_score(weights, q, j) < mw_score(weights, q, i)
}

/// Weights exist for every queue that has to be compared with another.
pub open spec fn weights_cover(weights: Seq<i64>, q: Seq<usize>) -> bool {
    forall|i: int, j: int|
        0 <= i < q.len() && 0 <= j < q.len() && i != j && #[trigger] q[i] > 0 && #[trigger] q[j] > 0 ==> i < weights.len()
}

impl MaxWeightScheduler {
    pub fn new(n: usize) -> (r: Self)
        ensures
            r.weights@.len() == n,
            forall|i: int| 0 <= i < n ==> #[trigger] r.weights@[i] == 1,
    {
        let mut weights: Vec<i64> = Vec::new();
        let mut i: usize = 0;
        while i < n
            invariant
                i <= n,
                weights@.len() == i,
                forall|k: int| 0 <= k < i ==> #[trigger] weights@[k] == 1,
            decreases n - i,
        {
            weights.push(1);
            i += 1;
        }
        Self { weights }
    }

    pub fn with_weights(weights: Vec<i64>) -> (r: Self)
        ensures
            r.weights@ == weights@,
    {
        Self { weights }
    }

    /// Return the MW score for node i: Q_i * weight_i (queued customers only).
    pub fn score(&self, state: &QueueState, i: usize) -> (r: i128)
        requires
            i < state.queue_len.len(),
            i < self.weights.len(),
        ensures
            r == mw_score(self.weights@, state.queue_len@, i as int),
    {
        let q = state.queue_len[i] as i128;
        let w = self.weights[i] as i128;
        proof {
            if w >= 0 {
                assert(q * w <= 0xFFFF_FFFF_FFFF_FFFF * 0x7FFF_FFFF_FFFF_FFFF) by (nonlinear_arith)
                    requires
                        0 <= q <= 0xFFFF_FFFF_FFFF_FFFF,
                        0 <= w <= 0x7FFF_FFFF_FFFF_FFFF,
                ;
                assert(q * w >= 0) by (nonlinear_arith)
                    requires
                        0 <= q,
                        0 <= w,
                ;
            } else {
                assert(q * w >= 0xFFFF_FFFF_FFFF_FFFF * (-0x8000_0000_0000_0000)) by (nonlinear_arith)
                    requires
                        0 <= q <= 0xFFFF_FFFF_FFFF_FFFF,
                        -0x8000_0000_0000_0000 <= w < 0,
                ;
                assert(q * w <= 0) by (nonlinear_arith)
                    requires
                        0 <= q,
                        w < 0,
                ;
            }
        }
        q * w
    }

    /// Select the single best node to serve next (single-server LQF/MW rule):
    /// among the non-empty queues, one of highest score, the last of them on
    /// ties.  Returns None if all queues are empty.
    pub fn next_to_serve(&self, state: &QueueState) -> (r: Option<NodeId>)
        requires
            weights_cover(self.weights@, state.queue_len@),
        ensures
            r is None <==> forall|j: int| 0 <= j < state.queue_len.len() ==> #[trigger] state.queue_len@[j] == 0,
            r matches Some(id) ==> exists|i: int|
                #[trigger] last_best(self.weights@, state.queue_len@, i) && id == NodeId(i as u32),
    {
        let q = &state.queue_len;
        let mut best: Option<usize> = None;
        let mut i: usize = 0;
        while i < q.len()
            invariant
                q == &state.queue_len,
                weights_cover(self.weights@, q@),
                i <= q.len(),
                best is None <==> forall|j: int| 0 <= j < i ==> #[trigger] q@[j] == 0,
                best matches Some(b) ==> b < i && q@[b as int] > 0 && (forall|j: int|
                    0 <= j < i && q@[j] > 0 ==> #[trigger] mw_score(self.weights@, q@, j) <= mw_score(
                        self.weights@,
                        q@,
                        b as int,
                    )) && (forall|j: int|
                    b < j < i && q@[j] > 0 ==> #[trigger] mw_score(self.weights@, q@, j) < mw_score(
                        self.weights@,
                        q@,
                        b as int,
                    )),
            decreases q.len() - i,
        {
            if q[i] > 0 {
                match best {
                    None => {
                        best = Some(i);
                    },
                    Some(b) => {
                        if self.score(state, i) >= self.score(state, b) {
                            best = Some(i);
                        }
                    },
                }
            }
            i += 1;
        }
        match best {
            None => None,
            Some(b) => {
                let id = NodeId(b as u32);
                proof {
                    assert(last_best(self.weights@, state.queue_len@, b as int));
                }
                Some(id)
            },
        }
    }

    /// Multi-server schedule: for each node independently decide whether to serve.
    /// `server_count[i]` = number of parallel servers at node i (1 when absent).
    /// Returns a vector of booleans: serve[i] = true if node i should start service.
    pub fn schedule_step(&self, state: &QueueState, server_count: &[usize]) -> (r: Vec<bool>)
        ensures
            r@.len() == state.queue_len.len(),
            forall|i: int|
                0 <= i < r@.len() ==> #[trigger] r@[i] == (state.queue_len@[i] > 0 && (if i < state.in_service.len()
                    && state.in_service@[i] {
                    1int
                } else {
                    0int
                }) < (if i < server_count@.len() {
                    server_count@[i] as int
                } else {
                    1int
                })),
    {
        let n = state.queue_len.len();
        let mut serve: Vec<bool> = Vec::new();
        let mut i: usize = 0;
        while i < n
            invariant
                n == state.queue_len.len(),
                i <= n,
                serve@.len() == i,
                forall|k: int|
                    0 <= k < i ==> #[trigger] serve@[k] == (state.queue_len@[k] > 0 && (if k < state.in_service.len()
                        && state.in_service@[k] {
                        1int
                    } else {
                        0int
                    }) < (if k < server_count@.len() {
                        server_count@[k] as int
                    } else {
                        1int
                    })),
            decreases n - i,
        {
            let servers: usize = if i < server_count.len() {
                server_count[i]
            } else {
                1
            };
            let busy: usize = if i < state.in_service.len() && state.in_service[i] {
                1
            } else {
                0
            };
            serve.push(state.queue_len[i] > 0 && busy < servers);
            i += 1;
        }
        serve
    }
}

} // verus!
