use graph_scene::display_graph::DisplayGraph;
use graph_scene::geometry::{Point, Rect, Size, Vec2};
use graph_scene::graph::edge::{Edge, EdgeId, EdgeType};
use graph_scene::graph::node::{Node, NodeId};
use graph_scene::graph::Graph;

fn node(id: u128, text: &str, rect: Rect) -> Node {
    Node { id: NodeId(id), text: String::from(text), rect }
}

fn edge(id: u128, from: u128, to: u128) -> Edge {
    Edge {
        id: EdgeId(id),
        from_node_id: NodeId(from),
        to_node_id: NodeId(to),
        edge_type: EdgeType::Directional,
    }
}

fn two_nodes() -> DisplayGraph {
    let mut dg = DisplayGraph::new();
    dg.add_node(Node::with_id(NodeId(1), Point::new(50, 30), None));
    dg.add_node(Node::with_id(NodeId(2), Point::new(250, 30), None));
    dg
}

#[test]
fn single_node_is_found_under_a_point_inside_it() {
    let graph = Graph {
        nodes: vec![node(7, "only", Rect { x0: 0, y0: 0, x1: 100, y1: 60 })],
        edges: vec![],
    };
    assert!(graph.is_well_formed());
    let mut dg = DisplayGraph::from(&graph);
    let found = dg.get_mut_node_at_point(Point::new(50, 30));
    assert_eq!(found.map(|n| n.id), Some(NodeId(7)));
}

#[test]
fn single_node_is_not_found_under_a_point_outside_it() {
    let graph = Graph {
        nodes: vec![node(7, "only", Rect { x0: 0, y0: 0, x1: 100, y1: 60 })],
        edges: vec![],
    };
    let mut dg = DisplayGraph::from(&graph);
    assert!(dg.get_mut_node_at_point(Point::new(500, 500)).is_none());
}

#[test]
fn added_edge_runs_between_the_centres_of_its_nodes() {
    let mut dg = two_nodes();
    assert_eq!(dg.get_node_center(&NodeId(1)), Point::new(50, 30));
    assert_eq!(dg.get_node_center(&NodeId(2)), Point::new(250, 30));
    dg.add_edge(edge(10, 1, 2));
    let edges = dg.edges();
    assert_eq!(edges.len(), 1);
    assert_eq!(edges[0].id, EdgeId(10));
    assert_eq!(edges[0].start_point, Point::new(50, 30));
    assert_eq!(edges[0].end_point, Point::new(250, 30));
    assert_eq!(edges[0].from_node, NodeId(1));
    assert_eq!(edges[0].to_node, NodeId(2));
    assert_eq!(edges[0].edge_type, EdgeType::Directional);
    assert!(!edges[0].selected);
}

#[test]
fn moving_the_first_node_moves_the_start_of_the_edge_only() {
    let mut dg = two_nodes();
    dg.add_edge(edge(10, 1, 2));
    dg.translate_node(&NodeId(1), Vec2::new(100, 0));
    let edges = dg.edges();
    assert_eq!(edges.len(), 1);
    assert_eq!(edges[0].start_point, Point::new(150, 30));
    assert_eq!(edges[0].end_point, Point::new(250, 30));
    assert_eq!(
        dg.get_node(&NodeId(1)).map(|n| n.rect),
        Some(Rect { x0: 100, y0: 0, x1: 200, y1: 60 })
    );
    assert_eq!(
        dg.get_node(&NodeId(2)).map(|n| n.rect),
        Some(Rect { x0: 200, y0: 0, x1: 300, y1: 60 })
    );
}

#[test]
fn default_node_size_is_one_hundred_by_sixty() {
    let n = Node::with_id(NodeId(3), Point::new(50, 30), None);
    assert_eq!(n.rect, Rect { x0: 0, y0: 0, x1: 100, y1: 60 });
    assert_eq!(n.text, "");
    let sized = Node::with_id(NodeId(4), Point::new(0, 0), Some(Size::new(20, 10)));
    assert_eq!(sized.rect, Rect { x0: -10, y0: -5, x1: 10, y1: 5 });
}
