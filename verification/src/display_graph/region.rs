//! Bounding regions of nodes and edges.

use crate::display_graph::edge::DisplayEdge;
use crate::display_graph::node::DisplayNode;
use crate::element_id::ElementId;
use crate::geometry::{in_scene, Point, Rect};
use crate::graph::edge::EdgeId;
use crate::graph::node::NodeId;
use vstd::prelude::*;

verus! {

/// An axis-aligned box given by its lower and upper corner.
#[derive(Clone, Copy, Debug, PartialEq, Eq, Structural)]
pub struct BoundingBox {
    pub lower: Point,
    pub upper: Point,
}

/// The smaller of two coordinates.
pub open spec fn lesser(a: i64, b: i64) -> i64 {
    if a <= b {
        a
    } else {
        b
    }
}

/// The larger of two coordinates.
pub open spec fn greater(a: i64, b: i64) -> i64 {
    if a <= b {
        b
    } else {
        a
    }
}

impl BoundingBox {
    /// The lower corner is not above the upper one, and both lie in the scene.
    pub open spec fn wf(self) -> bool {
        &&& self.lower.x <= self.upper.x
        &&& self.lower.y <= self.upper.y
        &&& self.lower.in_scene()
        &&& self.upper.in_scene()
    }

    /// Whether `p` lies in the box, its border included.
    pub open spec fn contains(self, p: Point) -> bool {
        &&& self.lower.x <= p.x <= self.upper.x
        &&& self.lower.y <= p.y <= self.upper.y
    }

    /// The smallest box that holds both `a` and `b`.
    pub open spec fn spanning(a: Point, b: Point) -> BoundingBox {
        BoundingBox {
            lower: Point { x: lesser(a.x, b.x), y: lesser(a.y, b.y) },
            upper: Point { x: greater(a.x, b.x), y: greater(a.y, b.y) },
        }
    }

    pub fn from_corners(a: Point, b: Point) -> (bb: BoundingBox)
        ensures
            bb == Self::spanning(a, b),
            a.in_scene() && b.in_scene() ==> bb.wf(),
    {
        BoundingBox {
            lower: Point {
                x: if a.x <= b.x { a.x } else { b.x },
                y: if a.y <= b.y { a.y } else { b.y },
            },
            upper: Point {
                x: if a.x <= b.x { b.x } else { a.x },
                y: if a.y <= b.y { b.y } else { a.y },
            },
        }
    }

    /// Whether `p` lies in the box, its border included.
    pub fn contains_point(&self, p: Point) -> (inside: bool)
        ensures
            inside == self.contains(p),
    {
        self.lower.x <= p.x && p.x <= self.upper.x && self.lower.y <= p.y && p.y <= self.upper.y
    }
}

/// What the spatial index stores for one element: its tagged id and the box
/// that bounds it.
#[derive(Clone, Copy, Debug)]
pub struct RegionRef {
    pub id: ElementId,
    pub region: BoundingBox,
}

/// A region entry as the R-tree holds it: whether it belongs to a node, the
/// element's id, then the lower and the upper corner of its box.
pub type IndexItem = (bool, u128, i64, i64, i64, i64);

impl RegionRef {
    /// The box around a node's rectangle.
    pub open spec fn node_box(rect: Rect) -> BoundingBox {
        BoundingBox::spanning(Point { x: rect.x0, y: rect.y0 }, Point { x: rect.x1, y: rect.y1 })
    }

    /// The region entry of a node.
    pub open spec fn of_node(n: DisplayNode) -> RegionRef {
        RegionRef { id: ElementId::Node(n.id), region: Self::node_box(n.rect) }
    }

    /// The region entry of an edge: the box spanned by its two ends.
    pub open spec fn of_edge(e: DisplayEdge) -> RegionRef {
        RegionRef {
            id: ElementId::Edge(e.id),
            region: BoundingBox::spanning(e.start_point, e.end_point),
        }
    }

    /// The entry written out as the R-tree holds it.
    pub open spec fn flat(self) -> IndexItem {
        match self.id {
            ElementId::Node(n) => (
                true,
                n.0,
                self.region.lower.x,
                self.region.lower.y,
                self.region.upper.x,
                self.region.upper.y,
            ),
            ElementId::Edge(e) => (
                false,
                e.0,
                self.region.lower.x,
                self.region.lower.y,
                self.region.upper.x,
                self.region.upper.y,
            ),
        }
    }

    /// The entry that an R-tree item stands for.
    pub open spec fn unflat(item: IndexItem) -> RegionRef {
        RegionRef {
            id: if item.0 {
                ElementId::Node(NodeId(item.1))
            } else {
                ElementId::Edge(EdgeId(item.1))
            },
            region: BoundingBox {
                lower: Point { x: item.2, y: item.3 },
                upper: Point { x: item.4, y: item.5 },
            },
        }
    }

    /// `flat` and `unflat` undo each other.
    pub proof fn lemma_flat_unflat(r: RegionRef, item: IndexItem)
        ensures
            Self::unflat(r.flat()) == r,
            Self::unflat(item).flat() == item,
    {
    }

    pub(crate) fn to_item(&self) -> (item: IndexItem)
        ensures
            item == self.flat(),
    {
        let b = self.region;
        match self.id {
            ElementId::Node(n) => (true, n.0, b.lower.x, b.lower.y, b.upper.x, b.upper.y),
            ElementId::Edge(e) => (false, e.0, b.lower.x, b.lower.y, b.upper.x, b.upper.y),
        }
    }

    pub(crate) fn from_item(item: IndexItem) -> (r: RegionRef)
        ensures
            r == Self::unflat(item),
    {
        RegionRef {
            id: if item.0 {
                ElementId::Node(NodeId(item.1))
            } else {
                ElementId::Edge(EdgeId(item.1))
            },
            region: BoundingBox {
                lower: Point { x: item.2, y: item.3 },
                upper: Point { x: item.4, y: item.5 },
            },
        }
    }

    /// Whether both entries name the same element, whatever their boxes.
    pub open spec fn same_element(self, other: RegionRef) -> bool {
        self.id == other.id
    }
}

impl PartialEq for RegionRef {
    fn eq(&self, other: &Self) -> (same: bool) {
        self.id == other.id
    }
}

impl vstd::std_specs::cmp::PartialEqSpecImpl for RegionRef {
    open spec fn obeys_eq_spec() -> bool {
        true
    }

    open spec fn eq_spec(&self, other: &Self) -> bool {
        self.same_element(*other)
    }
}

impl From<&DisplayNode> for RegionRef {
    fn from(n: &DisplayNode) -> (r: RegionRef) {
        RegionRef {
            id: ElementId::Node(n.id),
            region: BoundingBox::from_corners(
                Point { x: n.rect.x0, y: n.rect.y0 },
                Point { x: n.rect.x1, y: n.rect.y1 },
            ),
        }
    }
}

impl vstd::std_specs::convert::FromSpecImpl<&DisplayNode> for RegionRef {
    open spec fn obeys_from_spec() -> bool {
        true
    }

    open spec fn from_spec(n: &DisplayNode) -> RegionRef {
        RegionRef::of_node(*n)
    }
}

impl From<&DisplayEdge> for RegionRef {
    fn from(e: &DisplayEdge) -> (r: RegionRef) {
        RegionRef {
            id: ElementId::Edge(e.id),
            region: BoundingBox::from_corners(e.start_point, e.end_point),
        }
    }
}

impl vstd::std_specs::convert::FromSpecImpl<&DisplayEdge> for RegionRef {
    open spec fn obeys_from_spec() -> bool {
        true
    }

    open spec fn from_spec(e: &DisplayEdge) -> RegionRef {
        RegionRef::of_edge(*e)
    }
}

} // verus!
