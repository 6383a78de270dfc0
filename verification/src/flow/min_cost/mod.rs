//! Minimum-cost flow algorithms.
pub mod rwalk;
pub mod labels;
pub mod entry;
pub mod successive_shortest;
pub mod cycle_canceling;
pub mod network_simplex;
pub mod optimality;

pub use cycle_canceling::CycleCanceling;
pub use network_simplex::NetworkSimplex;
pub use successive_shortest::SuccessiveShortest;

pub use super::{MinCostFlowResult, MinCostFlowSolver};
