use graph_scene::display_graph::DisplayGraph;
use graph_scene::geometry::{Point, Rect};
use graph_scene::graph::node::{Node, NodeId};
use graph_scene::graph::Graph;

fn plain(id: u128, x0: i64, y0: i64, x1: i64, y1: i64) -> Node {
    Node { id: NodeId(id), text: String::new(), rect: Rect { x0, y0, x1, y1 } }
}

/// Twenty-five rectangles in four groups of seven, six, six and six.
fn four_groups() -> Graph {
    let mut g = Graph::new();
    let mut id: u128 = 0;
    let mut j: i64 = 0;
    while j < 7 {
        g.nodes.push(plain(id, 100 + j, 10 + j, 104 + j, 14 + j));
        id += 1;
        j += 1;
    }
    let mut j: i64 = 0;
    while j < 6 {
        g.nodes.push(plain(id, -1000 - j, 10 + j, -995 - j, 15 + j));
        id += 1;
        j += 1;
    }
    let mut j: i64 = 0;
    while j < 6 {
        g.nodes.push(plain(id, 5000 + j, 0, 5005 + j, 5));
        id += 1;
        j += 1;
    }
    let mut i: i64 = 0;
    while i < 5 {
        g.nodes.push(plain(id, 6 + i, 0, 7 + i, 5));
        id += 1;
        i += 1;
    }
    g.nodes.push(plain(id, 100, 8, 101, 9));
    g
}

#[test]
fn nodes_can_be_added_to_a_graph_built_from_twenty_five_nodes() {
    let g = four_groups();
    assert_eq!(g.nodes.len(), 25);
    assert!(g.is_well_formed());
    let mut dg = DisplayGraph::from(&g);
    dg.add_node(plain(100, 7, 1, 8, 2));
    dg.add_node(plain(101, 100, 8, 101, 9));
    assert_eq!(dg.nodes().len(), 27);
    assert_eq!(dg.get_mut_node_at_point(Point::new(7, 1)).map(|n| n.id), Some(NodeId(19)));
    assert_eq!(dg.get_mut_node_at_point(Point::new(101, 9)).map(|n| n.id), Some(NodeId(24)));
    assert_eq!(dg.get_mut_node_at_point(Point::new(8, 2)).map(|n| n.id), Some(NodeId(20)));
    assert_eq!(dg.get_node(&NodeId(100)).map(|n| n.rect), Some(Rect { x0: 7, y0: 1, x1: 8, y1: 2 }));
    assert_eq!(
        dg.get_node(&NodeId(101)).map(|n| n.rect),
        Some(Rect { x0: 100, y0: 8, x1: 101, y1: 9 })
    );
}
