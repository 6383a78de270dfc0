use vstd::prelude::*;
use super::node::NodeId;

verus! {

/// Index of an arc in a graph's arc list.
#[derive(Debug, Clone, Copy, PartialEq, Eq, Structural, Hash, PartialOrd, Ord)]
pub struct EdgeId(pub u32);

/// People per unit time (throughput capacity of a stanchion belt).
#[derive(Debug, Clone, Copy, PartialEq, Eq, Structural, PartialOrd, Ord)]
pub struct Capacity(pub i64);

/// Transit time or discomfort cost for traversing a belt.
#[derive(Debug, Clone, Copy, PartialEq, Eq, Structural, PartialOrd, Ord)]
pub struct Cost(pub i64);

/// A directed arc: a belt from one post to another, or its residual partner.
#[derive(Debug, Clone, Copy)]
pub struct Edge {
    pub from: NodeId,
    pub to: NodeId,
    pub capacity: Capacity,
    pub cost: Cost,
}

} // verus!
