//! Identifiers tagged with the kind of element they name.

use crate::graph::edge::EdgeId;
use crate::graph::node::NodeId;
use vstd::prelude::*;

verus! {

/// The id of a node or of an edge.
#[derive(Clone, Copy, Debug, PartialEq, Eq, Hash, Structural)]
pub enum ElementId {
    Node(NodeId),
    Edge(EdgeId),
}

} // verus!
