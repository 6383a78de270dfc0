//! Network flow on stanchion layouts: directed belt graphs, maximum flow,
//! minimum-cost flow, shortest-path routing, minimum cuts and layout advice.
pub mod sums;
pub mod error;
pub mod graph;
pub mod flow;
pub mod opt;
pub mod routing;
pub mod scheduling;
pub mod dynamic;
pub mod config;
pub mod sim;
