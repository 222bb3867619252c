//! Edges as the display graph holds them.

use crate::geometry::Point;
use crate::graph::edge::{Edge, EdgeId, EdgeType};
use crate::graph::node::NodeId;
use vstd::prelude::*;

verus! {

/// An edge with the scene positions of its two ends and its selection state.
#[derive(Clone, Copy, Debug)]
pub struct DisplayEdge {
    pub id: EdgeId,
    pub from_node: NodeId,
    pub to_node: NodeId,
    pub edge_type: EdgeType,
    pub start_point: Point,
    pub end_point: Point,
    pub selected: bool,
}

impl DisplayEdge {
    /// The unselected display form of `edge` running from `start_point` to
    /// `end_point`.
    pub fn new(edge: &Edge, start_point: Point, end_point: Point) -> (e: DisplayEdge)
        ensures
            e == (DisplayEdge {
                id: edge.id,
                from_node: edge.from_node_id,
                to_node: edge.to_node_id,
                edge_type: edge.edge_type,
                start_point,
                end_point,
                selected: false,
            }),
    {
        DisplayEdge {
            id: edge.id,
            from_node: edge.from_node_id,
            to_node: edge.to_node_id,
            edge_type: edge.edge_type,
            start_point,
            end_point,
            selected: false,
        }
    }
}

} // verus!
