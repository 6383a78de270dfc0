//! Errors of the library.
use vstd::prelude::*;

verus! {

/// All errors produced by this crate.
///
/// Quantities that are rates in the queueing layer are carried here as
/// integers: `utilization` in parts per million.
#[derive(Debug, Clone, PartialEq, Eq)]
pub enum StanchionError {
    NoSource,
    NoSink,
    InvalidNode(u32),
    InvalidEdge(u32),
    NegativeCapacity(u32),
    InvalidRoutingMatrix,
    UnstableNetwork { node: u32, utilization: i64 },
    TimeHorizonTooLarge(u32),
    InfeasibleDemand { demand: i128, max_flow: i128 },
    Disconnected(u32),
    ConfigIo(String),
    ConfigParse(String),
}

} // verus!
