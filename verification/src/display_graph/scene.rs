//! The mathematical model of a display graph.

use crate::display_graph::edge::DisplayEdge;
use crate::display_graph::node::DisplayNode;
use crate::display_graph::region::RegionRef;
use crate::element_id::ElementId;
use crate::geometry::{Point, Vec2};
use crate::graph::edge::{Edge, EdgeId};
use crate::graph::node::{Node, NodeId};
use crate::graph::Graph;
use vstd::prelude::*;

verus! {

/// What a display graph holds: its nodes and edges by id, and for each node
/// the ids of the edges that touch it.
#[verifier::ext_equal]
pub struct Scene {
    pub nodes: Map<NodeId, DisplayNode>,
    pub edges: Map<EdgeId, DisplayEdge>,
    pub incident: Map<NodeId, Seq<EdgeId>>,
}

/// `e` with every end that sits on node `n` moved to `c`.
pub open spec fn reattached(e: DisplayEdge, n: NodeId, c: Point) -> DisplayEdge {
    DisplayEdge {
        start_point: if e.from_node == n {
            c
        } else {
            e.start_point
        },
        end_point: if e.to_node == n {
            c
        } else {
            e.end_point
        },
        ..e
    }
}

/// Appending an id that a duplicate-free list lacks keeps it duplicate-free
/// and adds that id and no other.
pub proof fn lemma_push_fresh(list: Seq<EdgeId>, e: EdgeId)
    requires
        list.no_duplicates(),
        !list.contains(e),
    ensures
        list.push(e).no_duplicates(),
        forall|x: EdgeId| #[trigger] list.push(e).contains(x) <==> list.contains(x) || x == e,
{
    let longer = list.push(e);
    assert forall|x: EdgeId| #[trigger] longer.contains(x) <==> list.contains(x) || x == e by {
        if list.contains(x) {
            let i = choose|i: int| 0 <= i < list.len() && list[i] == x;
            assert(longer[i] == x);
        }
        if x == e {
            assert(longer[list.len() as int] == x);
        }
    }
    assert forall|i: int, j: int|
        0 <= i < longer.len() && 0 <= j < longer.len() && i != j implies longer[i]
        != longer[j] by {
        if i < list.len() {
            assert(list.contains(list[i]));
        }
        if j < list.len() {
            assert(list.contains(list[j]));
        }
    }
}

impl Scene {
    /// The scene without nodes or edges.
    pub open spec fn empty() -> Scene {
        Scene { nodes: Map::empty(), edges: Map::empty(), incident: Map::empty() }
    }

    /// The ids of the edges recorded for node `n`; none where nothing is
    /// recorded.
    pub open spec fn incident_of(self, n: NodeId) -> Seq<EdgeId> {
        if self.incident.contains_key(n) {
            self.incident[n]
        } else {
            Seq::empty()
        }
    }

    /// Whether the edge `e` of the scene starts or ends at node `n`.
    pub open spec fn touches(self, e: EdgeId, n: NodeId) -> bool {
        self.edges.contains_key(e) && (self.edges[e].from_node == n || self.edges[e].to_node == n)
    }

    /// Whether `r` is the region entry of a node or an edge of the scene, with
    /// the box that the element has now.
    pub open spec fn expects(self, r: RegionRef) -> bool {
        match r.id {
            ElementId::Node(n) => self.nodes.contains_key(n) && r == RegionRef::of_node(
                self.nodes[n],
            ),
            ElementId::Edge(e) => self.edges.contains_key(e) && r == RegionRef::of_edge(
                self.edges[e],
            ),
        }
    }

    /// Every element is filed under its own id.
    pub open spec fn ids_agree(self) -> bool {
        &&& forall|n: NodeId| self.nodes.contains_key(n) ==> (#[trigger] self.nodes[n]).id == n
        &&& forall|e: EdgeId| self.edges.contains_key(e) ==> (#[trigger] self.edges[e]).id == e
    }

    /// Every node's rectangle lies in the scene.
    pub open spec fn nodes_in_scene(self) -> bool {
        forall|n: NodeId| self.nodes.contains_key(n) ==> (#[trigger] self.nodes[n]).rect.in_scene()
    }

    /// Both ends of every edge are nodes of the scene, and the edge's cached
    /// end points are the centres of those nodes' rectangles.
    pub open spec fn edges_attached(self) -> bool {
        forall|e: EdgeId|
            self.edges.contains_key(e) ==> {
                let edge = #[trigger] self.edges[e];
                &&& self.nodes.contains_key(edge.from_node)
                &&& self.nodes.contains_key(edge.to_node)
                &&& edge.start_point == self.nodes[edge.from_node].rect.mid()
                &&& edge.end_point == self.nodes[edge.to_node].rect.mid()
            }
    }

    /// The list recorded for a node holds exactly the edges that touch it,
    /// each once.
    pub open spec fn incidence_exact(self) -> bool {
        &&& forall|n: NodeId| (#[trigger] self.incident_of(n)).no_duplicates()
        &&& forall|n: NodeId, e: EdgeId|
            self.incident_of(n).contains(e) <==> #[trigger] self.touches(e, n)
    }

    /// The invariants that tie nodes, edges and the incidence lists together.
    pub open spec fn wf(self) -> bool {
        &&& self.ids_agree()
        &&& self.nodes_in_scene()
        &&& self.edges_attached()
        &&& self.incidence_exact()
    }

    /// The scene with `node` added in its unselected display form.
    pub open spec fn with_node(self, node: Node) -> Scene {
        Scene { nodes: self.nodes.insert(node.id, DisplayNode::wrap(node)), ..self }
    }

    /// The display form of `edge` in this scene: its ends sit on the centres
    /// of the two nodes that it names.
    pub open spec fn attach(self, edge: Edge) -> DisplayEdge {
        DisplayEdge {
            id: edge.id,
            from_node: edge.from_node_id,
            to_node: edge.to_node_id,
            edge_type: edge.edge_type,
            start_point: self.nodes[edge.from_node_id].rect.mid(),
            end_point: self.nodes[edge.to_node_id].rect.mid(),
            selected: false,
        }
    }

    /// The incidence lists after `e` was recorded under `from` and, where it
    /// is another node, under `to`.
    pub open spec fn record(self, e: EdgeId, from: NodeId, to: NodeId) -> Map<
        NodeId,
        Seq<EdgeId>,
    > {
        let first = self.incident.insert(from, self.incident_of(from).push(e));
        if to == from {
            first
        } else {
            first.insert(to, self.incident_of(to).push(e))
        }
    }

    /// The scene with `edge` added between the nodes that it names.
    pub open spec fn with_edge(self, edge: Edge) -> Scene {
        Scene {
            nodes: self.nodes,
            edges: self.edges.insert(edge.id, self.attach(edge)),
            incident: self.record(edge.id, edge.from_node_id, edge.to_node_id),
        }
    }

    /// The scene with `nodes` added one after the other.
    pub open spec fn with_nodes(self, nodes: Seq<Node>) -> Scene
        decreases nodes.len(),
    {
        if nodes.len() == 0 {
            self
        } else {
            self.with_nodes(nodes.drop_last()).with_node(nodes.last())
        }
    }

    /// The scene with `edges` added one after the other.
    pub open spec fn with_edges(self, edges: Seq<Edge>) -> Scene
        decreases edges.len(),
    {
        if edges.len() == 0 {
            self
        } else {
            self.with_edges(edges.drop_last()).with_edge(edges.last())
        }
    }

    /// The scene of a graph: its nodes added in their order to the empty
    /// scene, then its edges in theirs.
    pub open spec fn of_graph(g: Graph) -> Scene {
        Scene::empty().with_nodes(g.nodes@).with_edges(g.edges@)
    }

    /// The scene after node `n` moved by `d`: the node's rectangle is shifted
    /// and every edge end on that node follows to the new centre.
    pub open spec fn translate(self, n: NodeId, d: Vec2) -> Scene {
        let moved = DisplayNode { rect: self.nodes[n].rect.shifted(d), ..self.nodes[n] };
        Scene {
            nodes: self.nodes.insert(n, moved),
            edges: Map::new(
                |e: EdgeId| self.edges.contains_key(e),
                |e: EdgeId| reattached(self.edges[e], n, moved.rect.mid()),
            ),
            incident: self.incident,
        }
    }

    /// Adding a node under an unused id keeps the scene well-formed, and its
    /// region entry is the one entry that the index then has to gain.
    pub proof fn lemma_with_node(self, node: Node)
        requires
            self.wf(),
            !self.nodes.contains_key(node.id),
            node.rect.in_scene(),
        ensures
            self.with_node(node).wf(),
            !self.expects(RegionRef::of_node(DisplayNode::wrap(node))),
            forall|r: RegionRef|
                #[trigger] self.with_node(node).expects(r) <==> self.expects(r) || r
                    == RegionRef::of_node(DisplayNode::wrap(node)),
    {
        let t = self.with_node(node);
        assert forall|e: EdgeId| t.edges.contains_key(e) implies {
            let edge = #[trigger] t.edges[e];
            &&& t.nodes.contains_key(edge.from_node)
            &&& t.nodes.contains_key(edge.to_node)
            &&& edge.start_point == t.nodes[edge.from_node].rect.mid()
            &&& edge.end_point == t.nodes[edge.to_node].rect.mid()
        } by {
            assert(self.edges.contains_key(e));
        }
        assert forall|n: NodeId| (#[trigger] t.incident_of(n)).no_duplicates() by {
            assert(t.incident_of(n) == self.incident_of(n));
        }
        assert forall|n: NodeId, e: EdgeId|
            t.incident_of(n).contains(e) <==> #[trigger] t.touches(e, n) by {
            assert(t.incident_of(n) == self.incident_of(n));
            assert(t.touches(e, n) == self.touches(e, n));
        }
    }

    /// Adding an edge under an unused id between two nodes of the scene keeps
    /// the scene well-formed, and its region entry is the one entry that the
    /// index then has to gain.
    pub proof fn lemma_with_edge(self, edge: Edge)
        requires
            self.wf(),
            self.nodes.contains_key(edge.from_node_id),
            self.nodes.contains_key(edge.to_node_id),
            !self.edges.contains_key(edge.id),
        ensures
            self.with_edge(edge).wf(),
            !self.expects(RegionRef::of_edge(self.attach(edge))),
            forall|r: RegionRef|
                #[trigger] self.with_edge(edge).expects(r) <==> self.expects(r) || r
                    == RegionRef::of_edge(self.attach(edge)),
    {
        let t = self.with_edge(edge);
        let from = edge.from_node_id;
        let to = edge.to_node_id;
        assert forall|e: EdgeId| t.edges.contains_key(e) implies {
            let x = #[trigger] t.edges[e];
            &&& t.nodes.contains_key(x.from_node)
            &&& t.nodes.contains_key(x.to_node)
            &&& x.start_point == t.nodes[x.from_node].rect.mid()
            &&& x.end_point == t.nodes[x.to_node].rect.mid()
        } by {
            if e != edge.id {
                assert(self.edges.contains_key(e));
            }
        }
        assert forall|n: NodeId|
            (#[trigger] t.incident_of(n)).no_duplicates() && forall|e: EdgeId|
                t.incident_of(n).contains(e) <==> t.touches(e, n) by {
            let before = self.incident_of(n);
            assert(before.no_duplicates());
            assert(!self.touches(edge.id, n));
            assert(!before.contains(edge.id));
            lemma_push_fresh(before, edge.id);
            if n == from || n == to {
                assert(t.incident_of(n) == before.push(edge.id));
            } else {
                assert(t.incident_of(n) == before);
            }
            assert forall|e: EdgeId| t.incident_of(n).contains(e) <==> t.touches(e, n) by {
                assert(before.contains(e) <==> self.touches(e, n));
            }
        }
    }

    /// The scene with `node` in the place of the node filed under `n`.
    pub open spec fn with_replaced(self, n: NodeId, node: DisplayNode) -> Scene {
        Scene { nodes: self.nodes.insert(n, node), ..self }
    }

    /// Replacing a node by one with the same id and rectangle keeps the scene
    /// well-formed and asks nothing new of the index.
    pub proof fn lemma_with_replaced(self, n: NodeId)
        requires
            self.nodes.contains_key(n),
        ensures
            forall|node: DisplayNode|
                self.wf() && node.id == self.nodes[n].id && node.rect == self.nodes[n].rect ==> {
                    &&& (#[trigger] self.with_replaced(n, node)).wf()
                    &&& forall|r: RegionRef|
                        #[trigger] self.with_replaced(n, node).expects(r) <==> self.expects(r)
                },
    {
        assert forall|node: DisplayNode|
            self.wf() && node.id == self.nodes[n].id && node.rect == self.nodes[n].rect implies {
                &&& (#[trigger] self.with_replaced(n, node)).wf()
                &&& forall|r: RegionRef|
                    #[trigger] self.with_replaced(n, node).expects(r) <==> self.expects(r)
            } by {
            let t = self.with_replaced(n, node);
            assert forall|e: EdgeId| t.edges.contains_key(e) implies {
                let x = #[trigger] t.edges[e];
                &&& t.nodes.contains_key(x.from_node)
                &&& t.nodes.contains_key(x.to_node)
                &&& x.start_point == t.nodes[x.from_node].rect.mid()
                &&& x.end_point == t.nodes[x.to_node].rect.mid()
            } by {
                assert(self.edges.contains_key(e));
            }
            assert forall|m: NodeId| (#[trigger] t.incident_of(m)).no_duplicates() by {
                assert(t.incident_of(m) == self.incident_of(m));
            }
            assert forall|m: NodeId, e: EdgeId|
                t.incident_of(m).contains(e) <==> #[trigger] t.touches(e, m) by {
                assert(t.incident_of(m) == self.incident_of(m));
                assert(t.touches(e, m) == self.touches(e, m));
            }
        }
    }

    /// After a node moved, each end of an edge that sits on the node lies on
    /// the node's new centre, every other end and every edge that does not
    /// touch the node is as before, every other node is as before, and the
    /// node's region entry is the box of its new rectangle.
    pub proof fn lemma_translate_consistent(self, n: NodeId, d: Vec2)
        requires
            self.wf(),
            self.nodes.contains_key(n),
            self.nodes[n].rect.shift_fits(d),
        ensures
            self.translate(n, d).wf(),
            self.translate(n, d).nodes[n].rect == self.nodes[n].rect.shifted(d),
            forall|e: EdgeId|
                #![trigger self.translate(n, d).edges[e]]
                self.edges.contains_key(e) ==> {
                    let before = self.edges[e];
                    let after = self.translate(n, d).edges[e];
                    let centre = self.nodes[n].rect.shifted(d).mid();
                    &&& self.translate(n, d).edges.contains_key(e)
                    &&& after.start_point == if before.from_node == n {
                        centre
                    } else {
                        before.start_point
                    }
                    &&& after.end_point == if before.to_node == n {
                        centre
                    } else {
                        before.end_point
                    }
                    &&& !self.touches(e, n) ==> after == before
                },
            forall|m: NodeId|
                self.nodes.contains_key(m) && m != n ==> #[trigger] self.translate(n, d).nodes[m]
                    == self.nodes[m],
            forall|r: RegionRef|
                r.id == ElementId::Node(n) ==> (#[trigger] self.translate(n, d).expects(r) <==> r.region
                    == RegionRef::node_box(self.nodes[n].rect.shifted(d))),
    {
        let t = self.translate(n, d);
        assert forall|e: EdgeId| t.edges.contains_key(e) implies {
            let x = #[trigger] t.edges[e];
            &&& t.nodes.contains_key(x.from_node)
            &&& t.nodes.contains_key(x.to_node)
            &&& x.start_point == t.nodes[x.from_node].rect.mid()
            &&& x.end_point == t.nodes[x.to_node].rect.mid()
        } by {
            assert(self.edges.contains_key(e));
            let x0 = self.edges[e];
            assert(self.nodes.contains_key(x0.from_node));
        }
        assert forall|e: EdgeId| t.edges.contains_key(e) implies (#[trigger] t.edges[e]).id
            == e by {
            assert(self.edges[e].id == e);
        }
        assert forall|m: NodeId| (#[trigger] t.incident_of(m)).no_duplicates() by {
            assert(t.incident_of(m) == self.incident_of(m));
        }
        assert forall|m: NodeId, e: EdgeId|
            t.incident_of(m).contains(e) <==> #[trigger] t.touches(e, m) by {
            assert(t.incident_of(m) == self.incident_of(m));
            assert(t.touches(e, m) == self.touches(e, m));
        }
    }

    /// Where no other node's rectangle contains `p`, a point query at `p`
    /// after node `n` moved finds `n` if its new rectangle contains `p`, and
    /// nothing if it does not, whether or not the old rectangle did.
    pub proof fn lemma_translate_pick(self, n: NodeId, d: Vec2, p: Point)
        requires
            self.wf(),
            self.nodes.contains_key(n),
            self.nodes[n].rect.shift_fits(d),
            forall|m: NodeId| m != n ==> !#[trigger] self.covers(m, p),
        ensures
            self.nodes[n].rect.shifted(d).contains(p) ==> self.translate(n, d).picks(n, p),
            !self.nodes[n].rect.shifted(d).contains(p) ==> forall|m: NodeId|
                !#[trigger] self.translate(n, d).covers(m, p),
    {
        let t = self.translate(n, d);
        assert forall|m: NodeId| m != n implies !#[trigger] t.covers(m, p) by {
            assert(!self.covers(m, p));
        }
    }

    /// Moving a node by `d` and then by the opposite of `d` gives the scene
    /// back: the node's rectangle and every edge are as they were.
    pub proof fn lemma_translate_inverse(self, n: NodeId, d: Vec2)
        requires
            self.wf(),
            self.nodes.contains_key(n),
            self.nodes[n].rect.shift_fits(d),
        ensures
            self.translate(n, d).nodes[n].rect.shift_fits(d.reversed()),
            self.translate(n, d).translate(n, d.reversed()) == self,
    {
        let t = self.translate(n, d);
        let back = t.translate(n, d.reversed());
        self.nodes[n].rect.lemma_shift_back(d);
        assert(back.nodes =~= self.nodes);
        assert(back.edges =~= self.edges) by {
            assert forall|e: EdgeId| self.edges.contains_key(e) implies back.edges[e]
                == self.edges[e] by {
                let x = self.edges[e];
                assert(self.nodes.contains_key(x.from_node));
            }
        }
        assert(back =~= self);
    }

    /// Adding nodes with distinct unused ids one after the other keeps the
    /// scene well-formed, leaves what was there as it was, and files each new
    /// node under its id in its unselected display form.
    pub proof fn lemma_with_nodes(self, nodes: Seq<Node>)
        requires
            self.wf(),
            forall|i: int, j: int|
                0 <= i < j < nodes.len() ==> (#[trigger] nodes[i]).id != (#[trigger] nodes[j]).id,
            forall|i: int| 0 <= i < nodes.len() ==> !self.nodes.contains_key((#[trigger] nodes[i]).id),
            forall|i: int| 0 <= i < nodes.len() ==> (#[trigger] nodes[i]).rect.in_scene(),
        ensures
            self.with_nodes(nodes).wf(),
            self.with_nodes(nodes).edges == self.edges,
            self.with_nodes(nodes).incident == self.incident,
            forall|id: NodeId|
                #[trigger] self.with_nodes(nodes).nodes.contains_key(id) <==> self.nodes.contains_key(
                    id,
                ) || exists|i: int| 0 <= i < nodes.len() && (#[trigger] nodes[i]).id == id,
            forall|id: NodeId|
                self.nodes.contains_key(id) ==> #[trigger] self.with_nodes(nodes).nodes[id]
                    == self.nodes[id],
            forall|i: int|
                0 <= i < nodes.len() ==> self.with_nodes(nodes).nodes[(#[trigger] nodes[i]).id]
                    == DisplayNode::wrap(nodes[i]),
        decreases nodes.len(),
    {
        if nodes.len() > 0 {
            let rest = nodes.drop_last();
            let last = nodes.last();
            let mid = self.with_nodes(rest);
            self.lemma_with_nodes(rest);
            assert forall|i: int| 0 <= i < rest.len() implies (#[trigger] rest[i]).id
                != last.id by {
                assert(rest[i] == nodes[i]);
            }
            assert(!mid.nodes.contains_key(last.id));
            mid.lemma_with_node(last);
            let out = self.with_nodes(nodes);
            assert(out == mid.with_node(last));
            assert forall|id: NodeId| #[trigger]
                out.nodes.contains_key(id) <==> self.nodes.contains_key(id) || exists|i: int|
                    0 <= i < nodes.len() && (#[trigger] nodes[i]).id == id by {
                if mid.nodes.contains_key(id) && !self.nodes.contains_key(id) {
                    let i = choose|i: int| 0 <= i < rest.len() && (#[trigger] rest[i]).id == id;
                    assert(nodes[i].id == id);
                }
                if exists|i: int| 0 <= i < nodes.len() && (#[trigger] nodes[i]).id == id {
                    let i = choose|i: int| 0 <= i < nodes.len() && (#[trigger] nodes[i]).id == id;
                    if i < rest.len() {
                        assert(rest[i].id == id);
                    }
                }
            }
            assert forall|i: int| 0 <= i < nodes.len() implies out.nodes[(#[trigger] nodes[i]).id]
                == DisplayNode::wrap(nodes[i]) by {
                if i < rest.len() {
                    assert(rest[i] == nodes[i]);
                    assert(mid.nodes[rest[i].id] == DisplayNode::wrap(rest[i]));
                }
            }
        }
    }

    /// Adding edges with distinct unused ids between nodes of the scene, one
    /// after the other, keeps the scene well-formed, leaves the nodes and the
    /// edges that were there as they were, and files each new edge under its
    /// id with its ends on the centres of its nodes.
    pub proof fn lemma_with_edges(self, edges: Seq<Edge>)
        requires
            self.wf(),
            forall|i: int, j: int|
                0 <= i < j < edges.len() ==> (#[trigger] edges[i]).id != (#[trigger] edges[j]).id,
            forall|i: int| 0 <= i < edges.len() ==> !self.edges.contains_key((#[trigger] edges[i]).id),
            forall|i: int|
                0 <= i < edges.len() ==> self.nodes.contains_key((#[trigger] edges[i]).from_node_id)
                    && self.nodes.contains_key(edges[i].to_node_id),
        ensures
            self.with_edges(edges).wf(),
            self.with_edges(edges).nodes == self.nodes,
            forall|id: EdgeId|
                #[trigger] self.with_edges(edges).edges.contains_key(id) <==> self.edges.contains_key(
                    id,
                ) || exists|i: int| 0 <= i < edges.len() && (#[trigger] edges[i]).id == id,
            forall|id: EdgeId|
                self.edges.contains_key(id) ==> #[trigger] self.with_edges(edges).edges[id]
                    == self.edges[id],
            forall|i: int|
                0 <= i < edges.len() ==> self.with_edges(edges).edges[(#[trigger] edges[i]).id]
                    == self.attach(edges[i]),
        decreases edges.len(),
    {
        if edges.len() > 0 {
            let rest = edges.drop_last();
            let last = edges.last();
            let mid = self.with_edges(rest);
            self.lemma_with_edges(rest);
            assert forall|i: int| 0 <= i < rest.len() implies (#[trigger] rest[i]).id
                != last.id by {
                assert(rest[i] == edges[i]);
            }
            assert(!mid.edges.contains_key(last.id));
            mid.lemma_with_edge(last);
            let out = self.with_edges(edges);
            assert(out == mid.with_edge(last));
            assert(mid.attach(last) == self.attach(last));
            assert forall|id: EdgeId| #[trigger]
                out.edges.contains_key(id) <==> self.edges.contains_key(id) || exists|i: int|
                    0 <= i < edges.len() && (#[trigger] edges[i]).id == id by {
                if mid.edges.contains_key(id) && !self.edges.contains_key(id) {
                    let i = choose|i: int| 0 <= i < rest.len() && (#[trigger] rest[i]).id == id;
                    assert(edges[i].id == id);
                }
                if exists|i: int| 0 <= i < edges.len() && (#[trigger] edges[i]).id == id {
                    let i = choose|i: int| 0 <= i < edges.len() && (#[trigger] edges[i]).id == id;
                    if i < rest.len() {
                        assert(rest[i].id == id);
                    }
                }
            }
            assert forall|i: int| 0 <= i < edges.len() implies out.edges[(#[trigger] edges[i]).id]
                == self.attach(edges[i]) by {
                if i < rest.len() {
                    assert(rest[i] == edges[i]);
                    assert(mid.edges[rest[i].id] == self.attach(rest[i]));
                }
            }
        }
    }

    /// The scene of a well-formed graph is well-formed; it holds a node for
    /// each node of the graph and no other, with the same id, label and
    /// rectangle; and an edge for each edge of the graph and no other, with
    /// the same id, ends and type, whose end points are the centres of the
    /// rectangles of the nodes that it joins.
    pub proof fn lemma_of_graph(g: Graph)
        requires
            g.wf(),
        ensures
            Scene::of_graph(g).wf(),
            forall|id: NodeId| #[trigger] Scene::of_graph(g).nodes.contains_key(id) <==> g.has_node(id),
            forall|i: int|
                0 <= i < g.nodes@.len() ==> Scene::of_graph(g).nodes[(#[trigger] g.nodes@[i]).id]
                    == DisplayNode::wrap(g.nodes@[i]),
            forall|id: EdgeId|
                #[trigger] Scene::of_graph(g).edges.contains_key(id) <==> exists|j: int|
                    0 <= j < g.edges@.len() && (#[trigger] g.edges@[j]).id == id,
            forall|j: int|
                0 <= j < g.edges@.len() ==> {
                    let e = #[trigger] g.edges@[j];
                    let shown = Scene::of_graph(g).edges[e.id];
                    &&& shown.id == e.id
                    &&& shown.from_node == e.from_node_id
                    &&& shown.to_node == e.to_node_id
                    &&& shown.edge_type == e.edge_type
                    &&& forall|i: int|
                        0 <= i < g.nodes@.len() && (#[trigger] g.nodes@[i]).id == e.from_node_id
                            ==> shown.start_point == g.nodes@[i].rect.mid()
                    &&& forall|i: int|
                        0 <= i < g.nodes@.len() && (#[trigger] g.nodes@[i]).id == e.to_node_id
                            ==> shown.end_point == g.nodes@[i].rect.mid()
                },
    {
        let base = Scene::empty().with_nodes(g.nodes@);
        Scene::empty().lemma_with_nodes(g.nodes@);
        assert forall|i: int| 0 <= i < g.edges@.len() implies base.nodes.contains_key(
            (#[trigger] g.edges@[i]).from_node_id,
        ) && base.nodes.contains_key(g.edges@[i].to_node_id) by {
            assert(g.has_node(g.edges@[i].from_node_id));
            assert(g.has_node(g.edges@[i].to_node_id));
        }
        base.lemma_with_edges(g.edges@);
    }

    /// Whether `n` is a node of the scene whose rectangle contains `p`.
    pub open spec fn covers(self, n: NodeId, p: Point) -> bool {
        self.nodes.contains_key(n) && self.nodes[n].rect.contains(p)
    }

    /// Whether `n` is the node picked at `p`: of the nodes whose rectangle
    /// contains `p`, the one with the smallest id.
    pub open spec fn picks(self, n: NodeId, p: Point) -> bool {
        &&& self.covers(n, p)
        &&& forall|m: NodeId| #[trigger] self.covers(m, p) ==> n.0 <= m.0
    }
}

} // verus!
