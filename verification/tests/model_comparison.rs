use graph_scene::display_graph::region::{BoundingBox, RegionRef};
use graph_scene::display_graph::spatial::SpatialIndex;
use graph_scene::display_graph::DisplayGraph;
use graph_scene::element_id::ElementId;
use graph_scene::geometry::{Point, Rect, Vec2, SCENE_LIMIT};
use graph_scene::graph::edge::{Edge, EdgeId, EdgeType};
use graph_scene::graph::node::{Node, NodeId};
use graph_scene::graph::Graph;

/// A small deterministic generator of pseudo-random numbers.
struct Lcg(u64);

impl Lcg {
    fn next(&mut self) -> u64 {
        self.0 = self.0.wrapping_mul(6364136223846793005).wrapping_add(1442695040888963407);
        self.0 >> 33
    }

    fn below(&mut self, n: u64) -> u64 {
        self.next() % n
    }

    fn coordinate(&mut self, span: i64) -> i64 {
        (self.below(2 * span as u64 + 1) as i64) - span
    }
}

fn region(kind_is_node: bool, id: u128, a: Point, b: Point) -> RegionRef {
    RegionRef {
        id: if kind_is_node { ElementId::Node(NodeId(id)) } else { ElementId::Edge(EdgeId(id)) },
        region: BoundingBox::from_corners(a, b),
    }
}

fn same(a: &RegionRef, b: &RegionRef) -> bool {
    a.id == b.id && a.region == b.region
}

fn sort_key(r: &RegionRef) -> (bool, u128, i64, i64, i64, i64) {
    let (is_node, id) = match r.id {
        ElementId::Node(n) => (true, n.0),
        ElementId::Edge(e) => (false, e.0),
    };
    (is_node, id, r.region.lower.x, r.region.lower.y, r.region.upper.x, r.region.upper.y)
}

fn expect_same_hits(index: &SpatialIndex, model: &Vec<RegionRef>, p: Point) {
    let mut got: Vec<_> = index.locate_all_at_point(p).iter().map(sort_key).collect();
    let mut want: Vec<_> =
        model.iter().filter(|r| r.region.contains_point(p)).map(sort_key).collect();
    got.sort();
    want.sort();
    assert_eq!(got, want);
}

fn random_region(rng: &mut Lcg, span: i64) -> RegionRef {
    let a = Point::new(rng.coordinate(span), rng.coordinate(span));
    let b = Point::new(rng.coordinate(span), rng.coordinate(span));
    region(rng.below(2) == 0, rng.below(40) as u128, a, b)
}

fn run_index_against_model(seed: u64, span: i64, start: usize, steps: usize) {
    let mut rng = Lcg(seed);
    let mut model: Vec<RegionRef> = Vec::new();
    let mut index = SpatialIndex::new();
    let mut i = 0;
    while i < start {
        let r = random_region(&mut rng, span);
        index.insert(r);
        model.push(r);
        i += 1;
    }
    let mut step = 0;
    while step < steps {
        let choice = rng.below(10);
        if choice < 5 {
            let r = random_region(&mut rng, span);
            index.insert(r);
            model.push(r);
        } else if choice < 8 && !model.is_empty() {
            let at = rng.below(model.len() as u64) as usize;
            let r = model[at];
            assert!(index.remove(&r));
            let gone = model.iter().position(|m| same(m, &r)).unwrap();
            model.remove(gone);
        } else {
            let r = random_region(&mut rng, span);
            let held = model.iter().position(|m| same(m, &r));
            assert_eq!(index.remove(&r), held.is_some());
            if let Some(at) = held {
                model.remove(at);
            }
        }
        let p = Point::new(rng.coordinate(span), rng.coordinate(span));
        expect_same_hits(&index, &model, p);
        if !model.is_empty() {
            let at = rng.below(model.len() as u64) as usize;
            expect_same_hits(&index, &model, model[at].region.lower);
            expect_same_hits(&index, &model, model[at].region.upper);
        }
        step += 1;
    }
}

fn run_loaded_index_against_model(seed: u64, span: i64, size: usize) {
    let mut rng = Lcg(seed);
    let mut model: Vec<RegionRef> = Vec::new();
    let mut i = 0;
    while i < size {
        model.push(random_region(&mut rng, span));
        i += 1;
    }
    let mut index = SpatialIndex::bulk_load(model.clone());
    expect_same_hits(&index, &model, Point::new(0, 0));
    while !model.is_empty() {
        let missing = random_region(&mut rng, span);
        let held = model.iter().position(|m| same(m, &missing));
        assert_eq!(index.remove(&missing), held.is_some());
        if let Some(at) = held {
            model.remove(at);
        }
        if model.is_empty() {
            break;
        }
        let at = rng.below(model.len() as u64) as usize;
        let r = model[at];
        expect_same_hits(&index, &model, r.region.lower);
        assert!(index.remove(&r));
        let gone = model.iter().position(|m| same(m, &r)).unwrap();
        model.remove(gone);
        expect_same_hits(&index, &model, r.region.upper);
        let p = Point::new(rng.coordinate(span), rng.coordinate(span));
        expect_same_hits(&index, &model, p);
    }
    assert!(index.locate_all_at_point(Point::new(0, 0)).is_empty());
}

#[test]
fn batch_loaded_index_agrees_with_a_list_while_it_is_emptied() {
    for size in [0usize, 1, 6, 7, 24, 25, 26, 27, 28, 96, 97, 150, 500] {
        run_loaded_index_against_model(20 + size as u64, 50, size);
        run_loaded_index_against_model(40 + size as u64, SCENE_LIMIT, size);
    }
}

#[test]
fn index_agrees_with_a_list_on_small_coordinates() {
    run_index_against_model(1, 20, 0, 1500);
}

#[test]
fn index_agrees_with_a_list_after_many_inserts() {
    run_index_against_model(2, 1000, 300, 1500);
}

#[test]
fn index_agrees_with_a_list_across_the_whole_scene() {
    run_index_against_model(3, SCENE_LIMIT, 50, 1500);
}

#[test]
fn index_agrees_with_a_list_when_emptied_and_refilled() {
    let mut rng = Lcg(4);
    let mut model: Vec<RegionRef> = Vec::new();
    let mut index = SpatialIndex::new();
    let mut round = 0;
    while round < 5 {
        let mut i = 0;
        while i < 100 {
            let r = random_region(&mut rng, SCENE_LIMIT);
            index.insert(r);
            model.push(r);
            i += 1;
        }
        expect_same_hits(&index, &model, Point::new(0, 0));
        while let Some(r) = model.pop() {
            assert!(index.remove(&r));
            expect_same_hits(&index, &model, r.region.lower);
        }
        assert!(index.locate_all_at_point(Point::new(0, 0)).is_empty());
        round += 1;
    }
}

struct PlainNode {
    id: u128,
    rect: Rect,
}

struct PlainEdge {
    id: u128,
    from: u128,
    to: u128,
}

fn centre(nodes: &Vec<PlainNode>, id: u128) -> Point {
    nodes.iter().find(|n| n.id == id).unwrap().rect.center()
}

fn expect_same_graph(
    dg: &mut DisplayGraph,
    nodes: &Vec<PlainNode>,
    edges: &Vec<PlainEdge>,
    rng: &mut Lcg,
    span: i64,
) {
    assert_eq!(dg.nodes().len(), nodes.len());
    assert_eq!(dg.edges().len(), edges.len());
    for n in nodes {
        assert_eq!(dg.get_node(&NodeId(n.id)).unwrap().rect, n.rect);
    }
    for shown in dg.edges() {
        let e = edges.iter().find(|e| e.id == shown.id.0).unwrap();
        assert_eq!(shown.from_node, NodeId(e.from));
        assert_eq!(shown.to_node, NodeId(e.to));
        assert_eq!(shown.start_point, centre(nodes, e.from));
        assert_eq!(shown.end_point, centre(nodes, e.to));
    }
    let mut probe = 0;
    while probe < 20 {
        let p = if probe % 2 == 0 {
            Point::new(rng.coordinate(span), rng.coordinate(span))
        } else {
            nodes[rng.below(nodes.len() as u64) as usize].rect.center()
        };
        let want = nodes
            .iter()
            .filter(|n| {
                n.rect.x0 <= p.x && p.x <= n.rect.x1 && n.rect.y0 <= p.y && p.y <= n.rect.y1
            })
            .map(|n| n.id)
            .min();
        let got = dg.get_mut_node_at_point(p).map(|n| n.id.0);
        assert_eq!(got, want);
        probe += 1;
    }
}

fn run_graph_against_model(seed: u64, span: i64, bulk: bool) {
    run_graph_of_size_against_model(seed, span, bulk, 30, 60);
}

fn run_graph_of_size_against_model(
    seed: u64,
    span: i64,
    bulk: bool,
    node_count: u128,
    edge_count: u128,
) {
    let mut rng = Lcg(seed);
    let mut nodes: Vec<PlainNode> = Vec::new();
    let mut edges: Vec<PlainEdge> = Vec::new();
    let mut i: u128 = 0;
    while i < node_count {
        let x0 = rng.coordinate(span / 2);
        let y0 = rng.coordinate(span / 2);
        let w = rng.below((span / 4) as u64 + 1) as i64;
        let h = rng.below((span / 4) as u64 + 1) as i64;
        nodes.push(PlainNode { id: i, rect: Rect { x0, y0, x1: x0 + w, y1: y0 + h } });
        i += 1;
    }
    let mut i: u128 = 0;
    while i < edge_count {
        edges.push(PlainEdge {
            id: i,
            from: rng.below(node_count as u64) as u128,
            to: rng.below(node_count as u64) as u128,
        });
        i += 1;
    }
    let graph = Graph {
        nodes: nodes
            .iter()
            .map(|n| Node { id: NodeId(n.id), text: String::new(), rect: n.rect })
            .collect(),
        edges: edges
            .iter()
            .map(|e| Edge {
                id: EdgeId(e.id),
                from_node_id: NodeId(e.from),
                to_node_id: NodeId(e.to),
                edge_type: EdgeType::Undirected,
            })
            .collect(),
    };
    assert!(graph.is_well_formed());
    let mut dg = if bulk {
        DisplayGraph::from(&graph)
    } else {
        let mut dg = DisplayGraph::new();
        for n in graph.nodes {
            dg.add_node(n);
        }
        for e in graph.edges {
            dg.add_edge(e);
        }
        dg
    };
    expect_same_graph(&mut dg, &nodes, &edges, &mut rng, span);
    let mut step = 0;
    while step < 300 {
        let at = rng.below(nodes.len() as u64) as usize;
        let d = Vec2::new(rng.coordinate(span / 8), rng.coordinate(span / 8));
        let rect = nodes[at].rect;
        if rect.can_shift(d) {
            dg.translate_node(&NodeId(nodes[at].id), d);
            nodes[at].rect =
                Rect { x0: rect.x0 + d.x, y0: rect.y0 + d.y, x1: rect.x1 + d.x, y1: rect.y1 + d.y };
        }
        if step % 7 == 0 {
            let id = 1000 + step as u128;
            let x0 = rng.coordinate(span / 2);
            let y0 = rng.coordinate(span / 2);
            let rect = Rect { x0, y0, x1: x0 + 3, y1: y0 + 3 };
            dg.add_node(Node { id: NodeId(id), text: String::new(), rect });
            nodes.push(PlainNode { id, rect });
            let to = nodes[rng.below(nodes.len() as u64) as usize].id;
            dg.add_edge(Edge {
                id: EdgeId(id),
                from_node_id: NodeId(id),
                to_node_id: NodeId(to),
                edge_type: EdgeType::Directional,
            });
            edges.push(PlainEdge { id, from: id, to });
        }
        if step % 10 == 0 {
            expect_same_graph(&mut dg, &nodes, &edges, &mut rng, span);
        }
        step += 1;
    }
    expect_same_graph(&mut dg, &nodes, &edges, &mut rng, span);
}

#[test]
fn bulk_built_graph_agrees_with_plain_lists_under_random_moves() {
    run_graph_against_model(11, 4000, true);
}

#[test]
fn step_built_graph_agrees_with_plain_lists_under_random_moves() {
    run_graph_against_model(12, 4000, false);
}

#[test]
fn graph_across_the_whole_scene_agrees_with_plain_lists_under_random_moves() {
    run_graph_against_model(13, SCENE_LIMIT, true);
}

#[test]
fn graphs_built_from_batches_of_many_sizes_take_further_nodes_and_moves() {
    for count in [1u128, 6, 7, 24, 25, 26, 27, 28, 49, 96, 97, 100] {
        run_graph_of_size_against_model(100 + count as u64, 2000, true, count, 0);
        run_graph_of_size_against_model(200 + count as u64, 2000, true, count, count / 2);
    }
}
