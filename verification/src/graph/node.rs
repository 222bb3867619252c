//! Nodes of the logical graph.

use crate::geometry::{Point, Rect, Size};
use crate::ident::random_id;
use vstd::prelude::*;

verus! {

/// Identifies a node. Two ids are the same node exactly when they are equal.
#[derive(Clone, Copy, Debug, PartialEq, Eq, Hash, Structural)]
pub struct NodeId(pub u128);

/// A labelled rectangle of the diagram.
pub struct Node {
    pub id: NodeId,
    pub text: String,
    pub rect: Rect,
}

/// Width of a node created without an explicit size.
pub const DEFAULT_WIDTH: i64 = 100;

/// Height of a node created without an explicit size.
pub const DEFAULT_HEIGHT: i64 = 60;

impl Node {
    /// The size that `new` and `with_id` use when none is given.
    pub open spec fn default_size() -> Size {
        Size { width: DEFAULT_WIDTH, height: DEFAULT_HEIGHT }
    }

    /// The size chosen for a request: the given one, or the default.
    pub open spec fn size_or_default(size: Option<Size>) -> Size {
        match size {
            Some(s) => s,
            None => Self::default_size(),
        }
    }

    /// An unlabelled node with the given identifier, centred on `center`.
    pub fn with_id(id: NodeId, center: Point, size: Option<Size>) -> (n: Node)
        requires
            center.in_scene(),
            Self::size_or_default(size).fits(),
        ensures
            n.id == id,
            n.text@ == Seq::<char>::empty(),
            n.rect == Rect::centered(center, Self::size_or_default(size)),
    {
        let size = match size {
            Some(s) => s,
            None => Size { width: DEFAULT_WIDTH, height: DEFAULT_HEIGHT },
        };
        Node { id, text: String::new(), rect: Rect::from_center_size(center, size) }
    }

    /// An unlabelled node with a fresh random identifier, centred on `center`.
    pub fn new(center: Point, size: Option<Size>) -> (n: Node)
        requires
            center.in_scene(),
            Self::size_or_default(size).fits(),
        ensures
            n.text@ == Seq::<char>::empty(),
            n.rect == Rect::centered(center, Self::size_or_default(size)),
    {
        Self::with_id(NodeId(random_id()), center, size)
    }
}

} // verus!
