use vstd::prelude::*;

verus! {

/// Index of a stanchion post in a graph.
#[derive(Debug, Clone, Copy, PartialEq, Eq, Structural, Hash, PartialOrd, Ord)]
pub struct NodeId(pub u32);

/// Data attached to a stanchion post.
#[derive(Debug, Clone)]
pub struct NodeData {
    pub label: Option<String>,
}

} // verus!
