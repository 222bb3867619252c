//! The display graph: nodes and edges with their regions in a spatial index.

pub mod edge;
pub mod node;
pub mod region;
pub mod scene;
pub mod spatial;

use crate::display_graph::edge::DisplayEdge;
use crate::display_graph::node::DisplayNode;
use crate::display_graph::region::RegionRef;
use crate::display_graph::scene::{reattached, Scene};
use crate::display_graph::spatial::SpatialIndex;
use crate::element_id::ElementId;
use crate::geometry::{Point, Vec2};
use crate::graph::edge::{Edge, EdgeId};
use crate::graph::node::{Node, NodeId};
use crate::graph::Graph;
use std::collections::hash_map::Entry;
use std::collections::HashMap;
use vstd::prelude::*;
use vstd::std_specs::hash::spec_values_iter;
use vstd::std_specs::iter::IteratorSpec;

verus! {

/// The owner of everything that is drawn and picked: the nodes and edges in
/// display form, the spatial index over their regions, and for each node the
/// edges that touch it.
pub struct DisplayGraph {
    rtree: SpatialIndex,
    nodes: HashMap<u128, DisplayNode>,
    edges: HashMap<u128, DisplayEdge>,
    node_edges: HashMap<u128, Vec<EdgeId>>,
}

impl View for DisplayGraph {
    type V = Scene;

    closed spec fn view(&self) -> Scene {
        scene_of(self.nodes@, self.edges@, self.node_edges@)
    }
}

/// The scene that the three maps of a display graph stand for.
spec fn scene_of(
    nodes: Map<u128, DisplayNode>,
    edges: Map<u128, DisplayEdge>,
    lists: Map<u128, Vec<EdgeId>>,
) -> Scene {
    Scene {
        nodes: Map::new(|n: NodeId| nodes.contains_key(n.0), |n: NodeId| nodes[n.0]),
        edges: Map::new(|e: EdgeId| edges.contains_key(e.0), |e: EdgeId| edges[e.0]),
        incident: Map::new(|n: NodeId| lists.contains_key(n.0), |n: NodeId| lists[n.0]@),
    }
}

/// The list that `lists` holds for node `n`; none where it holds no list.
spec fn listed(lists: Map<u128, Vec<EdgeId>>, n: u128) -> Seq<EdgeId> {
    if lists.contains_key(n) {
        lists[n]@
    } else {
        Seq::empty()
    }
}

/// Appends `e` to the list of node `n`, starting a list where there is none.
fn record_incident(lists: &mut HashMap<u128, Vec<EdgeId>>, n: NodeId, e: EdgeId)
    ensures
        final(lists)@.dom() == old(lists)@.dom().insert(n.0),
        final(lists)@[n.0]@ == listed(old(lists)@, n.0).push(e),
        forall|k: u128| k != n.0 && old(lists)@.contains_key(k) ==> final(lists)@[k] == old(lists)@[k],
{
    let list = lists.entry(n.0).or_insert(Vec::new());
    list.push(e);
}

/// Whether `e` stands in `list` at a place from `lo` up to, not including,
/// `hi`.
spec fn among(list: Seq<EdgeId>, lo: int, hi: int, e: EdgeId) -> bool {
    exists|j: int| lo <= j < hi && #[trigger] list[j] == e
}

/// Whether the entry `r` belongs to node `n` or to one of the edges that
/// stand in `list` from `lo` up to `hi`: the entries that a move of `n` takes
/// out of the index and puts back.
spec fn set_aside(r: RegionRef, n: NodeId, list: Seq<EdgeId>, lo: int, hi: int) -> bool {
    match r.id {
        ElementId::Node(m) => m == n,
        ElementId::Edge(e) => among(list, lo, hi, e),
    }
}

/// A sequence as long as a map has keys, which holds exactly the map's
/// values, where each value tells its own key, holds each value once.
proof fn lemma_each_once<V>(m: Map<u128, V>, s: Seq<V>, key: spec_fn(V) -> u128)
    requires
        m.dom().finite(),
        s.len() == m.dom().len(),
        s.to_set() == m.values(),
        forall|k: u128| m.contains_key(k) ==> key(#[trigger] m[k]) == k,
    ensures
        forall|i: int|
            0 <= i < s.len() ==> m.contains_key(key(#[trigger] s[i])) && m[key(s[i])] == s[i],
        forall|k: u128|
            m.contains_key(k) ==> exists|i: int| 0 <= i < s.len() && #[trigger] s[i] == m[k],
        forall|i: int, j: int| 0 <= i < j < s.len() ==> key(#[trigger] s[i]) != key(#[trigger] s[j]),
{
    assert forall|i: int| 0 <= i < s.len() implies m.contains_key(key(#[trigger] s[i])) && m[key(
        s[i],
    )] == s[i] by {
        assert(s.to_set().contains(s[i]));
        assert(m.values().contains(s[i]));
        let k = choose|k: u128| m.contains_key(k) && #[trigger] m[k] == s[i];
        assert(key(m[k]) == k);
    }
    assert forall|k: u128| m.contains_key(k) implies exists|i: int|
        0 <= i < s.len() && #[trigger] s[i] == m[k] by {
        assert(m.values().contains(m[k]));
        assert(s.to_set().contains(m[k]));
        assert(s.contains(m[k]));
    }
    let ids = s.map_values(key);
    assert(ids.to_set() =~= m.dom()) by {
        assert forall|x: u128| ids.to_set().contains(x) <==> m.dom().contains(x) by {
            if ids.to_set().contains(x) {
                assert(ids.contains(x));
                let i = choose|i: int| 0 <= i < ids.len() && ids[i] == x;
                assert(m.contains_key(key(s[i])));
            }
            if m.dom().contains(x) {
                let i = choose|i: int| 0 <= i < s.len() && #[trigger] s[i] == m[x];
                assert(ids[i] == x);
                assert(ids.contains(x));
            }
        }
    }
    ids.lemma_no_dup_set_cardinality();
    assert forall|i: int, j: int| 0 <= i < j < s.len() implies key(#[trigger] s[i]) != key(
        #[trigger] s[j],
    ) by {
        assert(ids[i] != ids[j]);
    }
}

impl DisplayGraph {
    /// How often the spatial index holds the entry `r`.
    pub closed spec fn region_count(&self, r: RegionRef) -> nat {
        self.rtree.count(r)
    }

    /// The spatial index holds one entry for each node and each edge, with the
    /// box that the element has now, and nothing else.
    pub open spec fn index_matches(&self) -> bool {
        forall|r: RegionRef|
            #![trigger self.region_count(r)]
            #![trigger self@.expects(r)]
            self.region_count(r) == (if self@.expects(r) {
                1nat
            } else {
                0nat
            })
    }

    /// The spatial index can take further entries.
    pub closed spec fn index_level(&self) -> bool {
        self.rtree.is_level()
    }

    /// The invariants of a display graph.
    pub open spec fn wf(&self) -> bool {
        &&& self@.wf()
        &&& self.index_matches()
        &&& self.index_level()
    }

    /// In a well-formed display graph every entry of the spatial index has a
    /// well-formed box.
    proof fn lemma_index_wf(&self)
        requires
            self.wf(),
        ensures
            self.rtree.wf(),
    {
        assert forall|r: RegionRef| #[trigger] self.rtree.count(r) > 0 implies r.region.wf() by {
            assert(self.region_count(r) > 0);
            assert(self@.expects(r));
            match r.id {
                ElementId::Node(n) => {
                    assert(self@.nodes[n].rect.in_scene());
                },
                ElementId::Edge(e) => {
                    let edge = self@.edges[e];
                    assert(self@.nodes.contains_key(edge.from_node));
                    self@.nodes[edge.from_node].rect.lemma_mid_in_scene();
                    self@.nodes[edge.to_node].rect.lemma_mid_in_scene();
                },
            }
        }
    }

    /// In a well-formed display graph the spatial index holds one entry for
    /// each node and one for each edge, with the box that the element has
    /// now, and no other entry.
    pub proof fn lemma_regions_current(&self)
        requires
            self.wf(),
        ensures
            forall|n: NodeId|
                self@.nodes.contains_key(n) ==> self.region_count(
                    RegionRef::of_node(#[trigger] self@.nodes[n]),
                ) == 1,
            forall|e: EdgeId|
                self@.edges.contains_key(e) ==> self.region_count(
                    RegionRef::of_edge(#[trigger] self@.edges[e]),
                ) == 1,
            forall|r: RegionRef| #[trigger] self.region_count(r) > 0 ==> self@.expects(r),
    {
        assert forall|n: NodeId| self@.nodes.contains_key(n) implies self.region_count(
            RegionRef::of_node(#[trigger] self@.nodes[n]),
        ) == 1 by {
            assert(self@.nodes[n].id == n);
            assert(self@.expects(RegionRef::of_node(self@.nodes[n])));
        }
        assert forall|e: EdgeId| self@.edges.contains_key(e) implies self.region_count(
            RegionRef::of_edge(#[trigger] self@.edges[e]),
        ) == 1 by {
            assert(self@.edges[e].id == e);
            assert(self@.expects(RegionRef::of_edge(self@.edges[e])));
        }
    }

    /// A graph that differs from this one only in the node filed under `n`,
    /// and there neither in the id nor in the rectangle, is well-formed too.
    proof fn lemma_node_replaced(&self, n: NodeId)
        requires
            self.wf(),
            self@.nodes.contains_key(n),
        ensures
            forall|g: DisplayGraph|
                #![trigger g.nodes@]
                g.rtree == self.rtree && g.edges == self.edges && g.node_edges == self.node_edges
                    && g.nodes@ == self.nodes@.insert(n.0, g.nodes@[n.0]) && g.nodes@[n.0].id
                    == self.nodes@[n.0].id && g.nodes@[n.0].rect == self.nodes@[n.0].rect
                    ==> g.wf(),
    {
        assert forall|g: DisplayGraph|
            #![trigger g.nodes@]
            g.rtree == self.rtree && g.edges == self.edges && g.node_edges == self.node_edges
                && g.nodes@ == self.nodes@.insert(n.0, g.nodes@[n.0]) && g.nodes@[n.0].id
                == self.nodes@[n.0].id && g.nodes@[n.0].rect == self.nodes@[n.0].rect implies g.wf() by {
            self@.lemma_with_replaced(n);
            assert(g@ =~= self@.with_replaced(n, g.nodes@[n.0]));
            assert forall|r: RegionRef|
                #![trigger g.region_count(r)]
                #![trigger g@.expects(r)]
                g.region_count(r) == (if g@.expects(r) {
                    1nat
                } else {
                    0nat
                }) by {
                assert(self.region_count(r) == (if self@.expects(r) {
                    1nat
                } else {
                    0nat
                }));
            }
        }
    }

    /// A graph that differs from this one only in that the key `n`, under
    /// which this one holds no node, was taken out of its nodes is the same
    /// scene, and well-formed if this one is.
    proof fn lemma_node_absent(&self, n: NodeId)
        requires
            !self@.nodes.contains_key(n),
        ensures
            forall|g: DisplayGraph|
                #![trigger g.nodes@]
                g.rtree == self.rtree && g.edges == self.edges && g.node_edges == self.node_edges
                    && g.nodes@ == self.nodes@.remove(n.0) ==> g@ == self@ && (self.wf()
                    ==> g.wf()),
    {
        assert forall|g: DisplayGraph|
            #![trigger g.nodes@]
            g.rtree == self.rtree && g.edges == self.edges && g.node_edges == self.node_edges
                && g.nodes@ == self.nodes@.remove(n.0) implies g@ == self@ && (self.wf()
                ==> g.wf()) by {
            assert(g.nodes@ =~= self.nodes@);
            assert(g@ =~= self@);
            if self.wf() {
                assert forall|r: RegionRef|
                    #![trigger g.region_count(r)]
                    #![trigger g@.expects(r)]
                    g.region_count(r) == (if g@.expects(r) {
                        1nat
                    } else {
                        0nat
                    }) by {
                    assert(self.region_count(r) == (if self@.expects(r) {
                        1nat
                    } else {
                        0nat
                    }));
                }
            }
        }
    }

    /// A display graph without nodes or edges.
    pub fn new() -> (g: DisplayGraph)
        ensures
            g.wf(),
            g@ == Scene::empty(),
    {
        let g = DisplayGraph {
            rtree: SpatialIndex::new(),
            nodes: HashMap::new(),
            edges: HashMap::new(),
            node_edges: HashMap::new(),
        };
        assert(g@ =~= Scene::empty());
        g
    }

    /// The display graph of `g`: every node and edge is put in display form,
    /// the edges' ends on the centres of their nodes, and every region goes
    /// into the spatial index. The regions are inserted one by one and not
    /// loaded as a batch: a batch-loaded index is not known to take the entries
    /// that later changes of the graph bring.
    pub fn from(g: &Graph) -> (dg: DisplayGraph)
        requires
            g.wf(),
        ensures
            dg.wf(),
            dg@ == Scene::of_graph(*g),
    {
        let mut nodes: HashMap<u128, DisplayNode> = HashMap::new();
        let mut rtree = SpatialIndex::new();
        let ghost mut cur = Scene::empty();
        assert(g.nodes@.take(0) =~= Seq::<Node>::empty());
        assert(scene_of(nodes@, Map::empty(), Map::empty()) =~= cur);
        let mut i: usize = 0;
        while i < g.nodes.len()
            invariant
                i <= g.nodes@.len(),
                g.wf(),
                cur == Scene::empty().with_nodes(g.nodes@.take(i as int)),
                cur.wf(),
                cur == scene_of(nodes@, Map::empty(), Map::empty()),
                forall|id: NodeId|
                    cur.nodes.contains_key(id) <==> exists|j: int|
                        0 <= j < i && (#[trigger] g.nodes@[j]).id == id,
                rtree.wf(),
                rtree.is_level(),
                forall|r: RegionRef|
                    #[trigger] rtree.count(r) == (if cur.expects(r) {
                        1nat
                    } else {
                        0nat
                    }),
            decreases g.nodes@.len() - i,
        {
            let ghost node = g.nodes@[i as int];
            let display_node = DisplayNode::from(&g.nodes[i]);
            let region = RegionRef::from(&display_node);
            proof {
                assert(node.rect.in_scene());
                if cur.nodes.contains_key(node.id) {
                    let j = choose|j: int| 0 <= j < i && (#[trigger] g.nodes@[j]).id == node.id;
                    assert(g.nodes@[j].id != g.nodes@[i as int].id);
                }
                cur.lemma_with_node(node);
                assert(g.nodes@.take(i + 1).drop_last() =~= g.nodes@.take(i as int));
            }
            let ghost prev = cur;
            let ghost before = rtree;
            rtree.insert(region);
            nodes.insert(display_node.id.0, display_node);
            proof {
                cur = prev.with_node(node);
                assert(scene_of(nodes@, Map::empty(), Map::empty()) =~= cur);
                assert forall|id: NodeId|
                    cur.nodes.contains_key(id) <==> exists|j: int|
                        0 <= j < i + 1 && (#[trigger] g.nodes@[j]).id == id by {
                    if prev.nodes.contains_key(id) {
                        let j = choose|j: int| 0 <= j < i && (#[trigger] g.nodes@[j]).id == id;
                        assert(0 <= j < i + 1 && g.nodes@[j].id == id);
                    }
                    if id == node.id {
                        assert(g.nodes@[i as int].id == id);
                    }
                }
                assert forall|r: RegionRef|
                    #[trigger] rtree.count(r) == (if cur.expects(r) {
                        1nat
                    } else {
                        0nat
                    }) by {
                    assert(before.count(r) == (if prev.expects(r) {
                        1nat
                    } else {
                        0nat
                    }));
                }
            }
            i += 1;
        }
        assert(g.nodes@.take(g.nodes@.len() as int) =~= g.nodes@);
        let ghost base = cur;

        let mut edges: HashMap<u128, DisplayEdge> = HashMap::new();
        let mut node_edges: HashMap<u128, Vec<EdgeId>> = HashMap::new();
        assert(g.edges@.take(0) =~= Seq::<Edge>::empty());
        assert(scene_of(nodes@, edges@, node_edges@) =~= cur);
        let mut i: usize = 0;
        while i < g.edges.len()
            invariant
                i <= g.edges@.len(),
                g.wf(),
                base == Scene::empty().with_nodes(g.nodes@),
                forall|id: NodeId|
                    base.nodes.contains_key(id) <==> exists|j: int|
                        0 <= j < g.nodes@.len() && (#[trigger] g.nodes@[j]).id == id,
                cur == base.with_edges(g.edges@.take(i as int)),
                cur.wf(),
                cur.nodes == base.nodes,
                cur == scene_of(nodes@, edges@, node_edges@),
                forall|id: EdgeId|
                    cur.edges.contains_key(id) <==> exists|j: int|
                        0 <= j < i && (#[trigger] g.edges@[j]).id == id,
                rtree.wf(),
                rtree.is_level(),
                forall|r: RegionRef|
                    #[trigger] rtree.count(r) == (if cur.expects(r) {
                        1nat
                    } else {
                        0nat
                    }),
            decreases g.edges@.len() - i,
        {
            let edge = g.edges[i];
            proof {
                assert(g.has_node(g.edges@[i as int].from_node_id));
                assert(g.has_node(g.edges@[i as int].to_node_id));
                assert(cur.nodes.contains_key(edge.from_node_id));
                assert(cur.nodes.contains_key(edge.to_node_id));
                assert(cur.nodes[edge.from_node_id].rect.in_scene());
                assert(cur.nodes[edge.to_node_id].rect.in_scene());
                if cur.edges.contains_key(edge.id) {
                    let j = choose|j: int| 0 <= j < i && (#[trigger] g.edges@[j]).id == edge.id;
                    assert(g.edges@[j].id != g.edges@[i as int].id);
                }
                cur.lemma_with_edge(edge);
                cur.nodes[edge.from_node_id].rect.lemma_mid_in_scene();
                cur.nodes[edge.to_node_id].rect.lemma_mid_in_scene();
                assert(g.edges@.take(i + 1).drop_last() =~= g.edges@.take(i as int));
            }
            let start = nodes.get(&edge.from_node_id.0).unwrap().rect.center();
            let end = nodes.get(&edge.to_node_id.0).unwrap().rect.center();
            let display_edge = DisplayEdge::new(&edge, start, end);
            assert(display_edge == cur.attach(edge));
            let region = RegionRef::from(&display_edge);
            let ghost prev = cur;
            let ghost before = rtree;
            rtree.insert(region);
            edges.insert(display_edge.id.0, display_edge);
            record_incident(&mut node_edges, edge.from_node_id, edge.id);
            if edge.to_node_id != edge.from_node_id {
                record_incident(&mut node_edges, edge.to_node_id, edge.id);
            }
            proof {
                cur = prev.with_edge(edge);
                let now = scene_of(nodes@, edges@, node_edges@);
                assert(now.edges =~= cur.edges);
                assert(now.incident =~= cur.incident);
                assert(now =~= cur);
                assert forall|id: EdgeId|
                    cur.edges.contains_key(id) <==> exists|j: int|
                        0 <= j < i + 1 && (#[trigger] g.edges@[j]).id == id by {
                    if prev.edges.contains_key(id) {
                        let j = choose|j: int| 0 <= j < i && (#[trigger] g.edges@[j]).id == id;
                        assert(0 <= j < i + 1 && g.edges@[j].id == id);
                    }
                    if id == edge.id {
                        assert(g.edges@[i as int].id == id);
                    }
                }
                assert forall|r: RegionRef|
                    #[trigger] rtree.count(r) == (if cur.expects(r) {
                        1nat
                    } else {
                        0nat
                    }) by {
                    assert(before.count(r) == (if prev.expects(r) {
                        1nat
                    } else {
                        0nat
                    }));
                }
            }
            i += 1;
        }
        assert(g.edges@.take(g.edges@.len() as int) =~= g.edges@);
        DisplayGraph { rtree, nodes, edges, node_edges }
    }

    /// Whether an edge is filed under `edge_id`.
    pub fn has_edge(&self, edge_id: &EdgeId) -> (found: bool)
        ensures
            found == self@.edges.contains_key(*edge_id),
    {
        self.edges.contains_key(&edge_id.0)
    }

    /// The node filed under `node_id`, if there is one.
    pub fn get_node(&self, node_id: &NodeId) -> (found: Option<&DisplayNode>)
        ensures
            match found {
                Some(n) => self@.nodes.contains_key(*node_id) && *n == self@.nodes[*node_id],
                None => !self@.nodes.contains_key(*node_id),
            },
    {
        self.nodes.get(&node_id.0)
    }

    /// The node filed under `node_id`, if there is one, for the caller to
    /// change. The graph ends up with whatever the caller leaves in it, and
    /// stays well-formed if the node's id and rectangle are left alone.
    pub fn get_mut_node(&mut self, node_id: &NodeId) -> (found: Option<&mut DisplayNode>)
        ensures
            found is Some <==> old(self)@.nodes.contains_key(*node_id),
            found matches Some(n) ==> *n == old(self)@.nodes[*node_id],
            found matches Some(n) ==> final(self)@ =~= old(self)@.with_replaced(
                *node_id,
                *final(n),
            ),
            found matches Some(n) ==> (old(self).wf() && final(n).id == n.id && final(n).rect
                == n.rect ==> final(self).wf()),
            found is None ==> final(self)@ =~= old(self)@,
            found is None ==> (old(self).wf() ==> final(self).wf()),
            forall|r: RegionRef| final(self).region_count(r) == old(self).region_count(r),
    {
        proof {
            if self.wf() && self@.nodes.contains_key(*node_id) {
                self.lemma_node_replaced(*node_id);
            }
            if !self@.nodes.contains_key(*node_id) {
                self.lemma_node_absent(*node_id);
            }
        }
        match self.nodes.entry(node_id.0) {
            Entry::Occupied(slot) => {
                let node = slot.into_mut();
                Some(node)
            },
            Entry::Vacant(_) => None,
        }
    }

    /// The id of the node picked at `p`: the spatial index is asked for all
    /// regions that contain `p`, the regions of edges are passed over, and of
    /// the nodes left the one with the smallest id is taken.
    fn locate_node(&self, p: Point) -> (found: Option<NodeId>)
        requires
            self.wf(),
        ensures
            match found {
                Some(n) => self@.picks(n, p),
                None => forall|m: NodeId| !self@.covers(m, p),
            },
    {
        let hits = self.rtree.locate_all_at_point(p);
        proof {
            hits@.to_multiset_ensures();
            assert forall|q: RegionRef| hits@.contains(q) <==> q.region.contains(p)
                && self@.expects(q) by {
                assert(hits@.contains(q) <==> hits@.to_multiset().count(q) > 0);
                assert(self.region_count(q) == (if self@.expects(q) {
                    1nat
                } else {
                    0nat
                }));
            }
        }
        let mut best: Option<u128> = None;
        let mut i: usize = 0;
        while i < hits.len()
            invariant
                i <= hits@.len(),
                best is None ==> forall|j: int| 0 <= j < i ==> !((#[trigger] hits@[j]).id is Node),
                best matches Some(b) ==> exists|j: int|
                    0 <= j < i && (#[trigger] hits@[j]).id == ElementId::Node(NodeId(b)),
                best matches Some(b) ==> forall|j: int|
                    0 <= j < i ==> ((#[trigger] hits@[j]).id matches ElementId::Node(m) ==> b
                        <= m.0),
            decreases hits@.len() - i,
        {
            match hits[i].id {
                ElementId::Node(n) => {
                    let smaller = match best {
                        Some(b) => n.0 < b,
                        None => true,
                    };
                    if smaller {
                        best = Some(n.0);
                    }
                },
                ElementId::Edge(_) => {},
            }
            i += 1;
        }
        match best {
            Some(b) => {
                proof {
                    let n = NodeId(b);
                    let j = choose|j: int|
                        0 <= j < hits@.len() && (#[trigger] hits@[j]).id == ElementId::Node(n);
                    assert(hits@.contains(hits@[j]));
                    assert forall|m: NodeId| #[trigger] self@.covers(m, p) implies b <= m.0 by {
                        let q = RegionRef::of_node(self@.nodes[m]);
                        assert(self@.nodes[m].id == m);
                        assert(self@.expects(q));
                        assert(hits@.contains(q));
                        let k = choose|k: int| 0 <= k < hits@.len() && hits@[k] == q;
                        assert(hits@[k].id == ElementId::Node(m));
                    }
                }
                Some(NodeId(b))
            },
            None => {
                proof {
                    assert forall|m: NodeId| !self@.covers(m, p) by {
                        if self@.covers(m, p) {
                            let q = RegionRef::of_node(self@.nodes[m]);
                            assert(self@.nodes[m].id == m);
                            assert(self@.expects(q));
                            assert(hits@.contains(q));
                            let k = choose|k: int| 0 <= k < hits@.len() && hits@[k] == q;
                            assert(hits@[k].id is Node);
                        }
                    }
                }
                None
            },
        }
    }

    /// The node picked at `p`, if any node's rectangle contains `p`, for the
    /// caller to change. Where several rectangles contain `p`, the node with
    /// the smallest id is picked. The graph ends up with whatever the caller
    /// leaves in the node, and stays well-formed if the node's id and
    /// rectangle are left alone.
    pub fn get_mut_node_at_point(&mut self, p: Point) -> (found: Option<&mut DisplayNode>)
        requires
            old(self).wf(),
        ensures
            found is Some <==> exists|m: NodeId| old(self)@.covers(m, p),
            found matches Some(n) ==> old(self)@.picks(n.id, p) && *n == old(self)@.nodes[n.id],
            found matches Some(n) ==> final(self)@ =~= old(self)@.with_replaced(n.id, *final(n)),
            found matches Some(n) ==> (final(n).id == n.id && final(n).rect == n.rect
                ==> final(self).wf()),
            found is None ==> final(self)@ =~= old(self)@ && final(self).wf(),
            forall|r: RegionRef| final(self).region_count(r) == old(self).region_count(r),
    {
        match self.locate_node(p) {
            Some(node_id) => {
                assert(self@.nodes[node_id].id == node_id);
                self.get_mut_node(&node_id)
            },
            None => None,
        }
    }

    /// Moves a node of the graph by `translation`. The regions of the node and
    /// of every edge that touches it leave the spatial index with the boxes
    /// they had; then the rectangle moves, each end of those edges that sits
    /// on the node follows to the new centre, and the regions go back in with
    /// their new boxes.
    pub fn translate_node(&mut self, node_id: &NodeId, translation: Vec2)
        requires
            old(self).wf(),
            old(self)@.nodes.contains_key(*node_id),
            old(self)@.nodes[*node_id].rect.shift_fits(translation),
        ensures
            final(self).wf(),
            final(self)@ == old(self)@.translate(*node_id, translation),
            final(self)@.nodes[*node_id].rect == old(self)@.nodes[*node_id].rect.shifted(
                translation,
            ),
            forall|e: EdgeId|
                old(self)@.edges.contains_key(e) ==> #[trigger] final(self)@.edges[e]
                    == reattached(
                    old(self)@.edges[e],
                    *node_id,
                    old(self)@.nodes[*node_id].rect.shifted(translation).mid(),
                ),
            forall|m: NodeId|
                old(self)@.nodes.contains_key(m) && m != *node_id
                    ==> #[trigger] final(self)@.nodes[m] == old(self)@.nodes[m],
            forall|r: RegionRef|
                r.id == ElementId::Node(*node_id) ==> #[trigger] final(self).region_count(r)
                    == (if r.region == RegionRef::node_box(
                    old(self)@.nodes[*node_id].rect.shifted(translation),
                ) {
                    1nat
                } else {
                    0nat
                }),
    {
        let n = *node_id;
        let ghost s0 = self@;
        let ghost t = s0.translate(n, translation);
        let ghost list = s0.incident_of(n);
        proof {
            self.lemma_index_wf();
            s0.lemma_translate_consistent(n, translation);
            assert(s0.nodes[n].id == n);
            assert(s0.nodes[n].rect.in_scene());
            assert(list.no_duplicates());
            assert forall|j: int| 0 <= j < list.len() implies s0.touches(#[trigger] list[j], n) by {
                assert(list.contains(list[j]));
            }
        }
        let empty: Vec<EdgeId> = Vec::new();
        let affected: &Vec<EdgeId> = match self.node_edges.get(&n.0) {
            Some(found) => found,
            None => &empty,
        };
        assert(affected@ == list);

        let old_region = RegionRef::from(self.nodes.get(&n.0).unwrap());
        self.rtree.remove(&old_region);
        proof {
            assert forall|r: RegionRef|
                #[trigger] self.rtree.count(r) == (if s0.expects(r) && !set_aside(
                    r,
                    n,
                    list,
                    0,
                    0,
                ) {
                    1nat
                } else {
                    0nat
                }) by {
                assert(old(self).region_count(r) == (if s0.expects(r) {
                    1nat
                } else {
                    0nat
                }));
            }
        }
        let mut i: usize = 0;
        while i < affected.len()
            invariant
                i <= list.len(),
                affected@ == list,
                list.no_duplicates(),
                s0.wf(),
                s0 == old(self)@,
                self.nodes@ == old(self).nodes@,
                self.node_edges@ == old(self).node_edges@,
                self.edges@ == old(self).edges@,
                forall|j: int| 0 <= j < list.len() ==> s0.touches(#[trigger] list[j], n),
                self.rtree.wf(),
                self.rtree.is_level(),
                forall|r: RegionRef|
                    #[trigger] self.rtree.count(r) == (if s0.expects(r) && !set_aside(
                        r,
                        n,
                        list,
                        0,
                        i as int,
                    ) {
                        1nat
                    } else {
                        0nat
                    }),
            decreases list.len() - i,
        {
            let e = affected[i];
            assert(s0.touches(list[i as int], n));
            let region = RegionRef::from(self.edges.get(&e.0).unwrap());
            assert(s0.edges[e].id == e);
            assert(s0.expects(region));
            assert(!set_aside(region, n, list, 0, i as int));
            let ghost before = self.rtree;
            self.rtree.remove(&region);
            proof {
                assert forall|r: RegionRef|
                    #[trigger] self.rtree.count(r) == (if s0.expects(r) && !set_aside(
                        r,
                        n,
                        list,
                        0,
                        i + 1,
                    ) {
                        1nat
                    } else {
                        0nat
                    }) by {
                    assert(before.count(r) == (if s0.expects(r) && !set_aside(
                        r,
                        n,
                        list,
                        0,
                        i as int,
                    ) {
                        1nat
                    } else {
                        0nat
                    }));
                    if r.id == ElementId::Edge(e) {
                        assert(among(list, 0, i + 1, e));
                    } else {
                        assert(set_aside(r, n, list, 0, i + 1) == set_aside(
                            r,
                            n,
                            list,
                            0,
                            i as int,
                        ));
                    }
                }
            }
            i += 1;
        }

        let mut node = self.nodes.remove(&n.0).unwrap();
        node.rect = node.rect.translate(translation);
        let center = node.rect.center();
        let new_region = RegionRef::from(&node);
        self.nodes.insert(n.0, node);
        proof {
            assert(self@.nodes =~= t.nodes);
            assert(center == t.nodes[n].rect.mid());
            assert(new_region == RegionRef::of_node(t.nodes[n]));
            assert forall|r: RegionRef|
                #[trigger] self.rtree.count(r) == (if t.expects(r) && !set_aside(
                    r,
                    n,
                    list,
                    0,
                    list.len() as int,
                ) {
                    1nat
                } else {
                    0nat
                }) by {
                match r.id {
                    ElementId::Node(m) => {},
                    ElementId::Edge(e) => {
                        if s0.edges.contains_key(e) && !among(list, 0, list.len() as int, e) {
                            if s0.touches(e, n) {
                                assert(list.contains(e));
                                let j = choose|j: int| 0 <= j < list.len() && list[j] == e;
                                assert(list[j] == e);
                            }
                            assert(t.edges[e] == s0.edges[e]);
                        }
                    },
                }
            }
        }

        let mut i: usize = 0;
        while i < affected.len()
            invariant
                i <= list.len(),
                affected@ == list,
                list.no_duplicates(),
                s0.wf(),
                t.wf(),
                t == s0.translate(n, translation),
                center == t.nodes[n].rect.mid(),
                s0 == old(self)@,
                self@.nodes == t.nodes,
                self.node_edges@ == old(self).node_edges@,
                forall|j: int| 0 <= j < list.len() ==> s0.touches(#[trigger] list[j], n),
                self.edges@.dom() == old(self).edges@.dom(),
                forall|e: EdgeId|
                    s0.edges.contains_key(e) ==> #[trigger] self.edges@[e.0] == (if among(
                        list,
                        i as int,
                        list.len() as int,
                        e,
                    ) {
                        s0.edges[e]
                    } else {
                        t.edges[e]
                    }),
                self.rtree.wf(),
                self.rtree.is_level(),
                forall|r: RegionRef|
                    #[trigger] self.rtree.count(r) == (if t.expects(r) && !set_aside(
                        r,
                        n,
                        list,
                        i as int,
                        list.len() as int,
                    ) {
                        1nat
                    } else {
                        0nat
                    }),
            decreases list.len() - i,
        {
            let e = affected[i];
            assert(s0.touches(list[i as int], n));
            assert(among(list, i as int, list.len() as int, e));
            let mut edge = *self.edges.get(&e.0).unwrap();
            if edge.from_node == n {
                edge.start_point = center;
            }
            if edge.to_node == n {
                edge.end_point = center;
            }
            assert(edge == t.edges[e]);
            let region = RegionRef::from(&edge);
            proof {
                assert(t.nodes.contains_key(edge.from_node));
                assert(t.nodes.contains_key(edge.to_node));
                t.nodes[edge.from_node].rect.lemma_mid_in_scene();
                t.nodes[edge.to_node].rect.lemma_mid_in_scene();
                assert(t.edges[e].id == e);
            }
            let ghost before = self.rtree;
            let ghost edges_before = self.edges@;
            self.rtree.insert(region);
            self.edges.insert(e.0, edge);
            proof {
                assert forall|x: EdgeId|
                    s0.edges.contains_key(x) implies #[trigger] self.edges@[x.0] == (if among(
                    list,
                    i + 1,
                    list.len() as int,
                    x,
                ) {
                    s0.edges[x]
                } else {
                    t.edges[x]
                }) by {
                    if x == e {
                        if among(list, i + 1, list.len() as int, x) {
                            let j = choose|j: int| i + 1 <= j < list.len() && list[j] == x;
                            assert(list[j] == list[i as int]);
                        }
                    } else {
                        assert(edges_before[x.0] == (if among(
                            list,
                            i as int,
                            list.len() as int,
                            x,
                        ) {
                            s0.edges[x]
                        } else {
                            t.edges[x]
                        }));
                        if among(list, i as int, list.len() as int, x) {
                            let j = choose|j: int| i <= j < list.len() && list[j] == x;
                            assert(list[j] == x);
                            assert(among(list, i + 1, list.len() as int, x));
                        }
                    }
                }
                assert forall|r: RegionRef|
                    #[trigger] self.rtree.count(r) == (if t.expects(r) && !set_aside(
                        r,
                        n,
                        list,
                        i + 1,
                        list.len() as int,
                    ) {
                        1nat
                    } else {
                        0nat
                    }) by {
                    assert(before.count(r) == (if t.expects(r) && !set_aside(
                        r,
                        n,
                        list,
                        i as int,
                        list.len() as int,
                    ) {
                        1nat
                    } else {
                        0nat
                    }));
                    if r.id == ElementId::Edge(e) {
                        if among(list, i + 1, list.len() as int, e) {
                            let j = choose|j: int| i + 1 <= j < list.len() && list[j] == e;
                            assert(list[j] == list[i as int]);
                        }
                    } else {
                        match r.id {
                            ElementId::Node(m) => {},
                            ElementId::Edge(x) => {
                                if among(list, i as int, list.len() as int, x) {
                                    let j = choose|j: int| i <= j < list.len() && list[j] == x;
                                    assert(list[j] == x);
                                    assert(among(list, i + 1, list.len() as int, x));
                                }
                            },
                        }
                    }
                }
            }
            i += 1;
        }
        self.rtree.insert(new_region);
        proof {
            assert(self@.edges =~= t.edges);
            assert(self@.incident =~= t.incident);
            assert(self@ =~= t);
        }
    }

    /// All nodes of the graph, each once, in no particular order.
    pub fn nodes(&self) -> (all: Vec<&DisplayNode>)
        requires
            self.wf(),
        ensures
            forall|i: int|
                0 <= i < all@.len() ==> self@.nodes.contains_key((#[trigger] all@[i]).id)
                    && *all@[i] == self@.nodes[all@[i].id],
            forall|n: NodeId|
                self@.nodes.contains_key(n) ==> exists|i: int|
                    0 <= i < all@.len() && (#[trigger] all@[i]).id == n,
            forall|i: int, j: int|
                0 <= i < j < all@.len() ==> (#[trigger] all@[i]).id != (#[trigger] all@[j]).id,
    {
        let mut all: Vec<&DisplayNode> = Vec::new();
        for node in it: self.nodes.values()
            invariant
                all@.len() == it.index(),
                forall|j: int| 0 <= j < all@.len() ==> all@[j] == it.seq()[j],
                it.seq() == spec_values_iter(&self.nodes).remaining(),
        {
            all.push(node);
        }
        proof {
            let m = self.nodes@;
            assert(all@ =~= spec_values_iter(&self.nodes).remaining());
            assert(all@.unref().to_set() == m.values());
            assert forall|k: u128| m.contains_key(k) implies (#[trigger] m[k]).id.0 == k by {
                assert(self@.nodes[NodeId(k)].id == NodeId(k));
            }
            lemma_each_once(m, all@.unref(), |d: DisplayNode| d.id.0);
            assert forall|i: int| 0 <= i < all@.len() implies self@.nodes.contains_key(
                (#[trigger] all@[i]).id,
            ) && *all@[i] == self@.nodes[all@[i].id] by {
                assert(all@.unref()[i] == *all@[i]);
            }
            assert forall|n: NodeId| self@.nodes.contains_key(n) implies exists|i: int|
                0 <= i < all@.len() && (#[trigger] all@[i]).id == n by {
                let i = choose|i: int| 0 <= i < all@.len() && #[trigger] all@.unref()[i] == m[n.0];
                assert(self@.nodes[n].id == n);
                assert(all@[i].id == n);
            }
            assert forall|i: int, j: int| 0 <= i < j < all@.len() implies (#[trigger] all@[i]).id
                != (#[trigger] all@[j]).id by {
                assert(all@.unref()[i] == *all@[i]);
                assert(all@.unref()[j] == *all@[j]);
            }
        }
        all
    }

    /// All edges of the graph, each once, in no particular order.
    pub fn edges(&self) -> (all: Vec<&DisplayEdge>)
        requires
            self.wf(),
        ensures
            forall|i: int|
                0 <= i < all@.len() ==> self@.edges.contains_key((#[trigger] all@[i]).id)
                    && *all@[i] == self@.edges[all@[i].id],
            forall|e: EdgeId|
                self@.edges.contains_key(e) ==> exists|i: int|
                    0 <= i < all@.len() && (#[trigger] all@[i]).id == e,
            forall|i: int, j: int|
                0 <= i < j < all@.len() ==> (#[trigger] all@[i]).id != (#[trigger] all@[j]).id,
    {
        let mut all: Vec<&DisplayEdge> = Vec::new();
        for edge in it: self.edges.values()
            invariant
                all@.len() == it.index(),
                forall|j: int| 0 <= j < all@.len() ==> all@[j] == it.seq()[j],
                it.seq() == spec_values_iter(&self.edges).remaining(),
        {
            all.push(edge);
        }
        proof {
            let m = self.edges@;
            assert(all@ =~= spec_values_iter(&self.edges).remaining());
            assert(all@.unref().to_set() == m.values());
            assert forall|k: u128| m.contains_key(k) implies (#[trigger] m[k]).id.0 == k by {
                assert(self@.edges[EdgeId(k)].id == EdgeId(k));
            }
            lemma_each_once(m, all@.unref(), |d: DisplayEdge| d.id.0);
            assert forall|i: int| 0 <= i < all@.len() implies self@.edges.contains_key(
                (#[trigger] all@[i]).id,
            ) && *all@[i] == self@.edges[all@[i].id] by {
                assert(all@.unref()[i] == *all@[i]);
            }
            assert forall|e: EdgeId| self@.edges.contains_key(e) implies exists|i: int|
                0 <= i < all@.len() && (#[trigger] all@[i]).id == e by {
                let i = choose|i: int| 0 <= i < all@.len() && #[trigger] all@.unref()[i] == m[e.0];
                assert(self@.edges[e].id == e);
                assert(all@[i].id == e);
            }
            assert forall|i: int, j: int| 0 <= i < j < all@.len() implies (#[trigger] all@[i]).id
                != (#[trigger] all@[j]).id by {
                assert(all@.unref()[i] == *all@[i]);
                assert(all@.unref()[j] == *all@[j]);
            }
        }
        all
    }

    /// The centre of the rectangle of a node of the graph.
    pub fn get_node_center(&self, node_id: &NodeId) -> (c: Point)
        requires
            self.wf(),
            self@.nodes.contains_key(*node_id),
        ensures
            c == self@.nodes[*node_id].rect.mid(),
            c.in_scene(),
    {
        let node = self.nodes.get(&node_id.0);
        assert(self@.nodes[*node_id].rect.in_scene());
        node.unwrap().rect.center()
    }

    /// Adds `edge` between two nodes of the graph: its ends are put on the
    /// centres of those nodes, its region is indexed, and its id is recorded
    /// under both nodes (once, where they are the same node).
    pub fn add_edge(&mut self, edge: Edge)
        requires
            old(self).wf(),
            old(self)@.nodes.contains_key(edge.from_node_id),
            old(self)@.nodes.contains_key(edge.to_node_id),
            !old(self)@.edges.contains_key(edge.id),
        ensures
            final(self).wf(),
            final(self)@ == old(self)@.with_edge(edge),
    {
        let start = self.get_node_center(&edge.from_node_id);
        let end = self.get_node_center(&edge.to_node_id);
        let display_edge = DisplayEdge::new(&edge, start, end);
        let region = RegionRef::from(&display_edge);
        proof {
            self.lemma_index_wf();
        }
        self.rtree.insert(region);
        self.edges.insert(display_edge.id.0, display_edge);
        record_incident(&mut self.node_edges, edge.from_node_id, edge.id);
        if edge.to_node_id != edge.from_node_id {
            record_incident(&mut self.node_edges, edge.to_node_id, edge.id);
        }
        proof {
            assert(self@.edges =~= old(self)@.with_edge(edge).edges);
            assert(self@.incident =~= old(self)@.with_edge(edge).incident);
            assert(self@ =~= old(self)@.with_edge(edge));
            old(self)@.lemma_with_edge(edge);
            assert forall|r: RegionRef|
                #[trigger] self.region_count(r) == (if self@.expects(r) {
                    1nat
                } else {
                    0nat
                }) by {
                assert(old(self).region_count(r) == (if old(self)@.expects(r) {
                    1nat
                } else {
                    0nat
                }));
            }
        }
    }

    /// Adds `node` in its unselected display form and indexes its region.
    pub fn add_node(&mut self, node: Node)
        requires
            old(self).wf(),
            !old(self)@.nodes.contains_key(node.id),
            node.rect.in_scene(),
        ensures
            final(self).wf(),
            final(self)@ == old(self)@.with_node(node),
    {
        let display_node = DisplayNode::from(&node);
        let region = RegionRef::from(&display_node);
        proof {
            self.lemma_index_wf();
        }
        self.rtree.insert(region);
        self.nodes.insert(display_node.id.0, display_node);
        proof {
            assert(self@ =~= old(self)@.with_node(node));
            old(self)@.lemma_with_node(node);
            assert forall|r: RegionRef|
                #[trigger] self.region_count(r) == (if self@.expects(r) {
                    1nat
                } else {
                    0nat
                }) by {
                assert(old(self).region_count(r) == (if old(self)@.expects(r) {
                    1nat
                } else {
                    0nat
                }));
            }
        }
    }
}

impl Default for DisplayGraph {
    fn default() -> (g: DisplayGraph)
        ensures
            g.wf(),
            g@ == Scene::empty(),
    {
        DisplayGraph::new()
    }
}

} // verus!
