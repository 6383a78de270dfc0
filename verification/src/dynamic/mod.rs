//! Dynamic (time-expanded) network flow.
pub mod time_expanded;

pub use time_expanded::{TimeHorizon, build_time_expanded};

use vstd::prelude::*;
use crate::error::StanchionError;
use crate::graph::{DiGraph, EdgeId, NodeId};
use crate::flow::{FlowResult, MaxFlowSolver, max_flow_input, max_flow_result};
use time_expanded::{
    expansion_input, expansion_of, transit_times, xnode, lemma_xnode_bound, MAX_EXPANDED_NODES,
};

verus! {

/// Solve dynamic max-flow by time-expanding the graph and delegating to a
/// static solver.
pub struct DynamicFlowSolver<S: MaxFlowSolver> {
    solver: S,
}

/// The expanded source and sink are distinct nodes of the expansion: the
/// base source and sink are nodes, and they differ or the horizon spans more
/// than one step.
pub open spec fn solvable(base: &DiGraph, h: TimeHorizon) -> bool {
    base.source matches Some(s) && base.sink matches Some(k) ==> {
        &&& (s.0 as int) < base.n()
        &&& (k.0 as int) < base.n()
        &&& s == k ==> h.0 > 1
    }
}

impl<S: MaxFlowSolver> DynamicFlowSolver<S> {
    /// The static solver used on the expanded graph.
    pub closed spec fn inner(&self) -> S {
        self.solver
    }

    pub fn new(solver: S) -> (r: Self)
        ensures
            r.inner() == solver,
    {
        Self { solver }
    }

    /// `transit_fn` maps each forward `EdgeId` to its integer transit time (in steps).
    pub fn solve(&self, base: &DiGraph, horizon: TimeHorizon, transit_fn: impl Fn(EdgeId) -> u32) -> (r: Result<
        FlowResult,
        StanchionError,
    >)
        requires
            expansion_input(base, horizon),
            solvable(base, horizon),
            forall|e: EdgeId| transit_fn.requires((e,)),
        ensures
            base.source is None ==> r == Err::<FlowResult, StanchionError>(StanchionError::NoSource),
            base.source is Some && base.sink is None ==> r == Err::<FlowResult, StanchionError>(StanchionError::NoSink),
            base.source is Some && base.sink is Some && base.n() * horizon.0 > MAX_EXPANDED_NODES ==> r == Err::<
                FlowResult,
                StanchionError,
            >(StanchionError::TimeHorizonTooLarge(horizon.0)),
            base.source is Some && base.sink is Some && base.n() * horizon.0 <= MAX_EXPANDED_NODES ==> exists|
                d: Seq<u32>,
                g: DiGraph,
                xs: NodeId,
                xk: NodeId,
            |
                transit_times(transit_fn, base, d) && expansion_of(base, d, horizon.0 as int, g, xs, xk) && (r matches Ok(
                    res,
                ) && max_flow_result(&g, res, xs.0 as int, xk.0 as int)),
    {
        let (expanded, exp_src, exp_snk) = match build_time_expanded(base, horizon, transit_fn) {
            Ok(x) => x,
            Err(e) => {
                return Err(e);
            },
        };
        proof {
            let n = base.n();
            let t = horizon.0 as int;
            let sid = base.source->0;
            let kid = base.sink->0;
            let s = sid.0 as int;
            let k = kid.0 as int;
            lemma_xnode_bound(n, t, s, 0);
            lemma_xnode_bound(n, t, k, t - 1);
            if t >= 2 {
                assert(xnode(n, k, t - 1) >= n + k) by (nonlinear_arith)
                    requires
                        t >= 2,
                        n >= 0,
                        k >= 0,
                ;
            }
            let d = choose|d: Seq<u32>|
                transit_times(transit_fn, base, d) && expansion_of(base, d, t, expanded, exp_src, exp_snk);
            assert(expansion_of(base, d, t, expanded, exp_src, exp_snk));
            assert(expanded.wf());
            assert(exp_src.0 == s);
            assert(exp_snk.0 == xnode(n, k, t - 1));
            if t == 1 {
                assert(xnode(n, k, t - 1) == k);
            }
            assert(max_flow_input(&expanded, exp_src, exp_snk));
        }
        self.solver.max_flow(&expanded, exp_src, exp_snk)
    }
}

} // verus!
