//! Event-driven simulation of a stanchion network: the queueing decisions
//! taken at each event.  The simulation clock, the random service and
//! inter-arrival times and the random routing are drawn by the caller, which
//! runs the event loop and carries out the actions returned here.
use vstd::prelude::*;
use std::collections::VecDeque;
use rand::Rng;
use rand::rngs::SmallRng;
use crate::graph::{DiGraph, NodeId};

verus! {

/// Events that drive the simulation forward.
#[derive(Debug, Clone)]
pub enum Event {
    /// A person arrives at the given stanchion node.
    Arrival { node: NodeId, person_id: u64 },
    /// A person finishes service and moves to the next node (or exits).
    Departure { node: NodeId, person_id: u64, next: Option<NodeId> },
}

/// What the event loop must do after an event.
#[derive(Debug, Clone, Copy, PartialEq, Eq, Structural)]
pub enum SimAction {
    /// Start serving this person at this node: draw a service time and a
    /// next hop, and schedule the departure.
    StartService { node: NodeId, person_id: u64 },
    /// Draw an inter-arrival time and schedule this person's arrival at the
    /// source.
    ScheduleArrival { person_id: u64 },
}

/// Queues, servers and counters of a running simulation.
pub struct SimState {
    /// Waiting people at each node, in arrival order.
    pub queues: Vec<VecDeque<u64>>,
    /// Whether each node's server is busy.
    pub busy: Vec<bool>,
    /// Id of the next person to arrive from outside.
    pub next_id: u64,
    pub total_arrivals: u64,
    pub total_departures: u64,
}

/// Mathematical view of a simulation state.
pub struct SimView {
    pub queues: Seq<Seq<u64>>,
    pub busy: Seq<bool>,
    pub next_id: int,
    pub arrivals: int,
    pub departures: int,
}

impl SimState {
    pub open spec fn view(&self) -> SimView {
        SimView {
            queues: Seq::new(self.queues.len() as nat, |i: int| self.queues@[i]@),
            busy: self.busy@,
            next_id: self.next_id as int,
            arrivals: self.total_arrivals as int,
            departures: self.total_departures as int,
        }
    }
}

/// A person reaching `node` is served at once if its server is idle, and
/// joins the back of its queue otherwise.
pub open spec fn start_or_queue(st: SimView, node: int, pid: u64) -> (SimView, Seq<SimAction>) {
    if !st.busy[node] {
        (
            SimView { busy: st.busy.update(node, true), ..st },
            seq![SimAction::StartService { node: NodeId(node as u32), person_id: pid }],
        )
    } else {
        (SimView { queues: st.queues.update(node, st.queues[node].push(pid)), ..st }, Seq::empty())
    }
}

/// An external arrival is counted and served or queued; the next external
/// arrival is then scheduled under a fresh id.
pub open spec fn arrival_step(st: SimView, node: int, pid: u64) -> (SimView, Seq<SimAction>) {
    let (st1, acts) = start_or_queue(SimView { arrivals: st.arrivals + 1, ..st }, node, pid);
    (
        SimView { next_id: st1.next_id + 1, ..st1 },
        acts.push(SimAction::ScheduleArrival { person_id: st.next_id as u64 }),
    )
}

/// A departure frees its server, which takes the head of its queue if
/// anyone waits; the departing person then moves on to `next` (entering as
/// person 0), or leaves the network and is counted.
pub open spec fn departure_step(st: SimView, node: int, next: Option<NodeId>) -> (SimView, Seq<SimAction>) {
    let (st1, acts1) = if st.queues[node].len() > 0 {
        (
            SimView { queues: st.queues.update(node, st.queues[node].drop_first()), ..st },
            seq![SimAction::StartService { node: NodeId(node as u32), person_id: st.queues[node][0] }],
        )
    } else {
        (SimView { busy: st.busy.update(node, false), ..st }, Seq::empty())
    };
    match next {
        Some(d) => {
            let (st2, acts2) = start_or_queue(st1, d.0 as int, 0);
            (st2, acts1 + acts2)
        },
        None => (SimView { departures: st1.departures + 1, ..st1 }, acts1),
    }
}

/// The state and actions after an event.
pub open spec fn sim_step(st: SimView, ev: Event) -> (SimView, Seq<SimAction>) {
    match ev {
        Event::Arrival { node, person_id } => arrival_step(st, node.0 as int, person_id),
        Event::Departure { node, person_id: _, next } => departure_step(st, node.0 as int, next),
    }
}

/// The nodes an event touches exist and its counters have room.
pub open spec fn step_ok(st: SimView, ev: Event) -> bool {
    match ev {
        Event::Arrival { node, person_id: _ } => {
            &&& (node.0 as int) < st.busy.len()
            &&& st.arrivals < u64::MAX
            &&& st.next_id < u64::MAX
        },
        Event::Departure { node, person_id: _, next } => {
            &&& (node.0 as int) < st.busy.len()
            &&& next matches Some(d) ==> (d.0 as int) < st.busy.len()
            &&& st.departures < u64::MAX
        },
    }
}

/// One queue per server.
pub open spec fn view_ok(st: SimView) -> bool {
    st.queues.len() == st.busy.len()
}

/// People at node `v`: those waiting there plus the one in service.
pub open spec fn people_at(st: SimView, v: int) -> int {
    st.queues[v].len() + if st.busy[v] {
        1int
    } else {
        0int
    }
}

/// The node a departing person is routed to (`-1` when leaving).
pub open spec fn dest(next: Option<NodeId>) -> int {
    match next {
        Some(d) => d.0 as int,
        None => -1,
    }
}

/// `acts` asks to start serving `pid` at `v`.
pub open spec fn starts(acts: Seq<SimAction>, v: int, pid: u64) -> bool {
    acts.contains(SimAction::StartService { node: NodeId(v as u32), person_id: pid })
}

/// Conservation of people.  An arrival adds one person at its node and
/// counts one arrival.  A departure from a busy node takes one person away
/// from that node; a departing person routed on to `d` is added at `d`
/// (served at once if `d`'s server is free, queued at the back of `d`
/// otherwise), and one leaving the network is counted as a departure.  No
/// other node gains or loses anyone.
pub proof fn lemma_people_conserved(st: SimView, ev: Event, st2: SimView, acts: Seq<SimAction>)
    requires
        view_ok(st),
        step_ok(st, ev),
        (st2, acts) == sim_step(st, ev),
        ev matches Event::Departure { node, .. } ==> st.busy[node.0 as int],
    ensures
        view_ok(st2),
        st2.busy.len() == st.busy.len(),
        match ev {
            Event::Arrival { node, person_id } => {
                &&& st2.arrivals == st.arrivals + 1
                &&& st2.departures == st.departures
                &&& forall|v: int|
                    0 <= v < st.busy.len() ==> #[trigger] people_at(st2, v) == people_at(st, v) + if v == node.0 {
                        1int
                    } else {
                        0int
                    }
                &&& !st.busy[node.0 as int] ==> st2.busy[node.0 as int] && starts(acts, node.0 as int, person_id)
                &&& st.busy[node.0 as int] ==> st2.queues[node.0 as int] == st.queues[node.0 as int].push(person_id)
                &&& acts.contains(SimAction::ScheduleArrival { person_id: st.next_id as u64 })
                &&& st2.next_id == st.next_id + 1
            },
            Event::Departure { node, person_id: _, next } => {
                &&& st2.arrivals == st.arrivals
                &&& st2.departures == st.departures + if next is None {
                    1int
                } else {
                    0int
                }
                &&& forall|v: int|
                    0 <= v < st.busy.len() ==> #[trigger] people_at(st2, v) == people_at(st, v) - (if v == node.0 {
                        1int
                    } else {
                        0int
                    }) + (if v == dest(next) {
                        1int
                    } else {
                        0int
                    })
                &&& next is Some && dest(next) != node.0 && !st.busy[dest(next)] ==> st2.busy[dest(next)] && starts(
                    acts,
                    dest(next),
                    0,
                )
                &&& next is Some && dest(next) != node.0 && st.busy[dest(next)] ==> st2.queues[dest(next)]
                    == st.queues[dest(next)].push(0)
                &&& st.queues[node.0 as int].len() > 0 ==> starts(acts, node.0 as int, st.queues[node.0 as int][0])
                &&& st.queues[node.0 as int].len() > 0 && dest(next) != node.0 ==> st2.queues[node.0 as int]
                    == st.queues[node.0 as int].drop_first()
                &&& st.queues[node.0 as int].len() == 0 && dest(next) != node.0 ==> !st2.busy[node.0 as int]
            },
        },
{
    match ev {
        Event::Arrival { node, person_id } => {
            let x = node.0 as int;
            if !st.busy[x] {
                assert(acts[0] == SimAction::StartService { node: NodeId(x as u32), person_id });
            }
            assert(acts[acts.len() - 1] == SimAction::ScheduleArrival { person_id: st.next_id as u64 });
        },
        Event::Departure { node, person_id: _, next } => {
            let x = node.0 as int;
            match next {
                Some(d) => {
                    let y = d.0 as int;
                    let (st1, acts1) = if st.queues[x].len() > 0 {
                        (
                            SimView { queues: st.queues.update(x, st.queues[x].drop_first()), ..st },
                            seq![SimAction::StartService { node: NodeId(x as u32), person_id: st.queues[x][0] }],
                        )
                    } else {
                        (SimView { busy: st.busy.update(x, false), ..st }, Seq::empty())
                    };
                    if !st1.busy[y] {
                        assert((acts1 + seq![SimAction::StartService { node: NodeId(y as u32), person_id: 0 }])[acts1.len() as int]
                            == SimAction::StartService { node: NodeId(y as u32), person_id: 0 });
                    }
                    if st.queues[x].len() > 0 {
                        assert(acts[0] == SimAction::StartService { node: NodeId(x as u32), person_id: st.queues[x][0] });
                    }
                },
                None => {
                    if st.queues[x].len() > 0 {
                        assert(acts[0] == SimAction::StartService { node: NodeId(x as u32), person_id: st.queues[x][0] });
                    }
                },
            }
        },
    }
}

impl SimState {
    /// Empty queues and idle servers at `n` nodes.
    pub fn new(n: usize) -> (r: Self)
        ensures
            r.wf(),
            r.busy.len() == n,
            forall|i: int| 0 <= i < n ==> r@.queues[i].len() == 0 && !r@.busy[i],
            r@.next_id == 0,
            r@.arrivals == 0,
            r@.departures == 0,
    {
        let mut queues: Vec<VecDeque<u64>> = Vec::new();
        let mut busy: Vec<bool> = Vec::new();
        let mut i: usize = 0;
        while i < n
            invariant
                i <= n,
                queues.len() == i,
                busy.len() == i,
                forall|k: int| 0 <= k < i ==> (#[trigger] queues@[k])@.len() == 0,
                forall|k: int| 0 <= k < i ==> !(#[trigger] busy@[k]),
            decreases n - i,
        {
            let q: VecDeque<u64> = VecDeque::new();
            assert(q@.len() == 0);
            let ghost q0 = queues@;
            let ghost b0 = busy@;
            queues.push(q);
            busy.push(false);
            proof {
                assert(queues@[i as int]@.len() == 0);
                assert forall|k: int| 0 <= k < i + 1 implies (#[trigger] queues@[k])@.len() == 0 by {
                    if k < i {
                        assert(queues@[k] == q0[k]);
                    }
                }
                assert forall|k: int| 0 <= k < i + 1 implies !(#[trigger] busy@[k]) by {
                    if k < i {
                        assert(busy@[k] == b0[k]);
                    }
                }
            }
            i += 1;
        }
        let r = Self { queues, busy, next_id: 0, total_arrivals: 0, total_departures: 0 };
        proof {
            assert forall|i: int| 0 <= i < n implies r@.queues[i].len() == 0 && !r@.busy[i] by {
                assert(r@.queues[i] == r.queues@[i]@);
                assert(r.queues@[i]@.len() == 0);
            }
        }
        r
    }

    /// One queue and one server flag per node.
    pub open spec fn wf(&self) -> bool {
        self.queues.len() == self.busy.len()
    }

    /// Take the id of the next external arrival.
    pub fn take_id(&mut self) -> (id: u64)
        requires
            old(self).next_id < u64::MAX,
        ensures
            id == old(self).next_id,
            final(self).next_id == old(self).next_id + 1,
            final(self).queues@ == old(self).queues@,
            final(self).busy@ == old(self).busy@,
            final(self).total_arrivals == old(self).total_arrivals,
            final(self).total_departures == old(self).total_departures,
    {
        let id = self.next_id;
        self.next_id = id + 1;
        id
    }

    /// Serve `pid` at `node` if its server is idle, else queue it.
    fn start_or_queue(&mut self, node: usize, pid: u64, acts: &mut Vec<SimAction>)
        requires
            old(self).wf(),
            node < old(self).busy.len(),
            node <= u32::MAX,
        ensures
            final(self).wf(),
            ({
                let (st, a) = start_or_queue(old(self)@, node as int, pid);
                final(self)@ == st && final(acts)@ == old(acts)@ + a
            }),
    {
        let ghost v0 = self@;
        if !self.busy[node] {
            self.busy.set(node, true);
            acts.push(SimAction::StartService { node: NodeId(node as u32), person_id: pid });
            proof {
                assert(self@.queues =~= v0.queues);
            }
        } else {
            let mut q = self.queues.remove(node);
            q.push_back(pid);
            self.queues.insert(node, q);
            proof {
                assert(self@.queues =~= v0.queues.update(node as int, v0.queues[node as int].push(pid)));
                assert(old(acts)@ + Seq::<SimAction>::empty() =~= old(acts)@);
            }
        }
    }

    /// Apply an event; return what the event loop must do next.
    pub fn handle(&mut self, ev: &Event) -> (acts: Vec<SimAction>)
        requires
            old(self).wf(),
            old(self).busy.len() <= u32::MAX,
            step_ok(old(self)@, *ev),
        ensures
            final(self).wf(),
            (final(self)@, acts@) == sim_step(old(self)@, *ev),
    {
        let mut acts: Vec<SimAction> = Vec::new();
        match ev {
            Event::Arrival { node, person_id } => {
                self.total_arrivals = self.total_arrivals + 1;
                let vi = node.0 as usize;
                self.start_or_queue(vi, *person_id, &mut acts);
                let id = self.next_id;
                self.next_id = id + 1;
                acts.push(SimAction::ScheduleArrival { person_id: id });
                proof {
                    assert(Seq::<SimAction>::empty() + start_or_queue(
                        SimView { arrivals: old(self)@.arrivals + 1, ..old(self)@ },
                        vi as int,
                        *person_id,
                    ).1 =~= start_or_queue(
                        SimView { arrivals: old(self)@.arrivals + 1, ..old(self)@ },
                        vi as int,
                        *person_id,
                    ).1);
                }
            },
            Event::Departure { node, person_id: _, next } => {
                let vi = node.0 as usize;
                let ghost v0 = self@;
                let mut q = self.queues.remove(vi);
                let head = q.pop_front();
                self.queues.insert(vi, q);
                match head {
                    Some(pid) => {
                        acts.push(SimAction::StartService { node: *node, person_id: pid });
                    },
                    None => {
                        self.busy.set(vi, false);
                    },
                }
                proof {
                    if v0.queues[vi as int].len() > 0 {
                        assert(self@.queues =~= v0.queues.update(vi as int, v0.queues[vi as int].drop_first()));
                        assert(self@.busy =~= v0.busy);
                        assert(acts@ =~= seq![SimAction::StartService { node: NodeId(vi as u32), person_id: v0.queues[vi as int][0] }]);
                    } else {
                        assert(self@.queues =~= v0.queues);
                        assert(acts@ =~= Seq::<SimAction>::empty());
                    }
                }
                match next {
                    Some(dest) => {
                        let di = dest.0 as usize;
                        self.start_or_queue(di, 0, &mut acts);
                    },
                    None => {
                        self.total_departures = self.total_departures + 1;
                    },
                }
            },
        }
        acts
    }
}

/// The small, fast generator of `rand`, carried opaquely.
#[verifier::external_type_specification]
#[verifier::external_body]
pub struct ExSmallRng(SmallRng);

/// `Rng::random_range` over `0..n`: an index below `n` drawn from the
/// generator.  Which index comes out depends on the generator's state and is
/// not stated; the range is non-empty, so the call does not panic.
#[verifier::external_body]
fn random_index(rng: &mut SmallRng, n: usize) -> (r: usize)
    requires
        n > 0,
    ensures
        r < n,
{
    rng.random_range(0..n)
}

/// Forward arcs leaving `u`, in adjacency order.
pub open spec fn forward_arcs(g: &DiGraph, u: int) -> Seq<usize> {
    g.adj[u]@.filter(|i: usize| i % 2 == 0)
}

/// Pick a random forward neighbour of `node`; returns `None` if `node` is a
/// dead end, and the only neighbour when there is one.
pub fn next_node(graph: &DiGraph, node: NodeId, rng: &mut SmallRng) -> (r: Option<NodeId>)
    requires
        graph.wf(),
        (node.0 as int) < graph.n(),
    ensures
        ({
            let fwd = forward_arcs(graph, node.0 as int);
            &&& r is None <==> fwd.len() == 0
            &&& fwd.len() == 1 ==> r == Some(graph.edges[fwd[0] as int].to)
            &&& r matches Some(v) ==> exists|k: int| 0 <= k < fwd.len() && graph.edges[fwd[k] as int].to == v
        }),
{
    let fwd = graph.forward_neighbors(node);
    let ghost arcs = forward_arcs(graph, node.0 as int);
    proof {
        assert(fwd@.len() == arcs.len());
        assert(forall|k: int| 0 <= k < fwd@.len() ==> #[trigger] fwd@[k].0 == graph.edges[arcs[k] as int].to);
    }
    match fwd.len() {
        0 => None,
        1 => Some(fwd[0].0),
        n => {
            let k = random_index(rng, n);
            proof {
                assert(fwd@[k as int].0 == graph.edges[arcs[k as int] as int].to);
            }
            Some(fwd[k].0)
        },
    }
}

} // verus!
