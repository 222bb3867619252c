//! Edges of the logical graph.

use crate::graph::node::NodeId;
use vstd::prelude::*;

verus! {

/// Identifies an edge. Two ids are the same edge exactly when they are equal.
#[derive(Clone, Copy, Debug, PartialEq, Eq, Hash, Structural)]
pub struct EdgeId(pub u128);

/// How an edge is drawn and read; it plays no part in the structure.
#[derive(Clone, Copy, Debug, PartialEq, Eq, Hash, Structural)]
pub enum EdgeType {
    Undirected,
    Directional,
    Bidirectional,
}

/// A connection between two nodes, which it names by id.
#[derive(Clone, Copy, Debug, PartialEq, Eq, Structural)]
pub struct Edge {
    pub id: EdgeId,
    pub from_node_id: NodeId,
    pub to_node_id: NodeId,
    pub edge_type: EdgeType,
}

} // verus!
