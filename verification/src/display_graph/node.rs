//! Nodes as the display graph holds them.

use crate::geometry::Rect;
use crate::graph::node::{Node, NodeId};
use vstd::prelude::*;

verus! {

/// A node with its selection state.
#[derive(Debug)]
pub struct DisplayNode {
    pub id: NodeId,
    pub text: String,
    pub rect: Rect,
    pub selected: bool,
}

impl DisplayNode {
    /// The unselected display form of `node`: same id, label and rectangle.
    pub open spec fn wrap(node: Node) -> DisplayNode {
        DisplayNode { id: node.id, text: node.text, rect: node.rect, selected: false }
    }
}

impl From<&Node> for DisplayNode {
    fn from(node: &Node) -> (n: DisplayNode) {
        DisplayNode { id: node.id, text: node.text.clone(), rect: node.rect, selected: false }
    }
}

impl vstd::std_specs::convert::FromSpecImpl<&Node> for DisplayNode {
    open spec fn obeys_from_spec() -> bool {
        true
    }

    open spec fn from_spec(node: &Node) -> DisplayNode {
        DisplayNode::wrap(*node)
    }
}

} // verus!
