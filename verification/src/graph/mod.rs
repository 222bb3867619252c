//! The logical graph: an owner of nodes and edges.

pub mod edge;
pub mod node;

use crate::geometry::{Point, Rect};
use crate::graph::edge::{Edge, EdgeId};
use crate::graph::node::{Node, NodeId};
use std::collections::HashSet;
use vstd::prelude::*;

verus! {

/// Nodes and edges in the order in which they were added.
pub struct Graph {
    pub nodes: Vec<Node>,
    pub edges: Vec<Edge>,
}

impl Graph {
    /// Whether a node of the graph carries the id `id`.
    pub open spec fn has_node(&self, id: NodeId) -> bool {
        exists|i: int| 0 <= i < self.nodes@.len() && (#[trigger] self.nodes@[i]).id == id
    }

    /// No id is used twice, every edge joins nodes of the graph, and every
    /// rectangle lies in the scene.
    pub open spec fn wf(&self) -> bool {
        &&& forall|i: int, j: int|
            0 <= i < j < self.nodes@.len() ==> (#[trigger] self.nodes@[i]).id
                != (#[trigger] self.nodes@[j]).id
        &&& forall|i: int, j: int|
            0 <= i < j < self.edges@.len() ==> (#[trigger] self.edges@[i]).id
                != (#[trigger] self.edges@[j]).id
        &&& forall|i: int|
            0 <= i < self.edges@.len() ==> self.has_node((#[trigger] self.edges@[i]).from_node_id)
                && self.has_node(self.edges@[i].to_node_id)
        &&& forall|i: int| 0 <= i < self.nodes@.len() ==> (#[trigger] self.nodes@[i]).rect.in_scene()
    }

    /// Whether no id is used twice, every edge joins nodes of the graph, and
    /// every rectangle lies in the scene.
    pub fn is_well_formed(&self) -> (ok: bool)
        ensures
            ok == self.wf(),
    {
        let mut node_ids: HashSet<u128> = HashSet::new();
        let mut i: usize = 0;
        while i < self.nodes.len()
            invariant
                i <= self.nodes@.len(),
                forall|k: u128|
                    node_ids@.contains(k) <==> exists|j: int|
                        0 <= j < i && (#[trigger] self.nodes@[j]).id == NodeId(k),
                forall|a: int, b: int|
                    0 <= a < b < i ==> (#[trigger] self.nodes@[a]).id != (#[trigger] self.nodes@[b]).id,
                forall|j: int| 0 <= j < i ==> (#[trigger] self.nodes@[j]).rect.in_scene(),
            decreases self.nodes@.len() - i,
        {
            let id = self.nodes[i].id;
            if !self.nodes[i].rect.is_in_scene() {
                return false;
            }
            if node_ids.contains(&id.0) {
                proof {
                    let j = choose|j: int| 0 <= j < i && (#[trigger] self.nodes@[j]).id == id;
                    assert(self.nodes@[j].id == self.nodes@[i as int].id);
                }
                return false;
            }
            node_ids.insert(id.0);
            proof {
                assert forall|k: u128|
                    node_ids@.contains(k) <==> exists|j: int|
                        0 <= j < i + 1 && (#[trigger] self.nodes@[j]).id == NodeId(k) by {
                    if k == id.0 {
                        assert(self.nodes@[i as int].id == NodeId(k));
                    }
                }
            }
            i += 1;
        }
        proof {
            assert forall|id: NodeId| self.has_node(id) <==> node_ids@.contains(id.0) by {
                assert(NodeId(id.0) == id);
            }
        }
        let mut edge_ids: HashSet<u128> = HashSet::new();
        let mut i: usize = 0;
        while i < self.edges.len()
            invariant
                i <= self.edges@.len(),
                forall|id: NodeId| self.has_node(id) <==> node_ids@.contains(id.0),
                forall|k: u128|
                    edge_ids@.contains(k) <==> exists|j: int|
                        0 <= j < i && (#[trigger] self.edges@[j]).id == EdgeId(k),
                forall|a: int, b: int|
                    0 <= a < b < i ==> (#[trigger] self.edges@[a]).id != (#[trigger] self.edges@[b]).id,
                forall|j: int|
                    0 <= j < i ==> self.has_node((#[trigger] self.edges@[j]).from_node_id)
                        && self.has_node(self.edges@[j].to_node_id),
            decreases self.edges@.len() - i,
        {
            let edge = self.edges[i];
            if !node_ids.contains(&edge.from_node_id.0) || !node_ids.contains(&edge.to_node_id.0) {
                return false;
            }
            if edge_ids.contains(&edge.id.0) {
                proof {
                    let j = choose|j: int| 0 <= j < i && (#[trigger] self.edges@[j]).id == edge.id;
                    assert(self.edges@[j].id == self.edges@[i as int].id);
                }
                return false;
            }
            edge_ids.insert(edge.id.0);
            proof {
                assert forall|k: u128|
                    edge_ids@.contains(k) <==> exists|j: int|
                        0 <= j < i + 1 && (#[trigger] self.edges@[j]).id == EdgeId(k) by {
                    if k == edge.id.0 {
                        assert(self.edges@[i as int].id == EdgeId(k));
                    }
                }
            }
            i += 1;
        }
        true
    }

    /// A graph without nodes or edges.
    pub fn new() -> (g: Graph)
        ensures
            g.nodes@.len() == 0,
            g.edges@.len() == 0,
    {
        Graph { nodes: Vec::new(), edges: Vec::new() }
    }

    /// Appends an unlabelled node of the default size, centred on `center`,
    /// under a fresh random identifier.
    pub fn add_empty_node(&mut self, center: Point)
        requires
            center.in_scene(),
        ensures
            final(self).edges == old(self).edges,
            final(self).nodes@.len() == old(self).nodes@.len() + 1,
            final(self).nodes@.drop_last() == old(self).nodes@,
            final(self).nodes@.last().text@ == Seq::<char>::empty(),
            final(self).nodes@.last().rect == Rect::centered(center, Node::default_size()),
    {
        let node = Node::new(center, None);
        self.nodes.push(node);
        assert(self.nodes@.drop_last() =~= old(self).nodes@);
    }
}

impl Default for Graph {
    fn default() -> (g: Graph)
        ensures
            g.nodes@.len() == 0,
            g.edges@.len() == 0,
    {
        Graph::new()
    }
}

} // verus!
