use osmgraphing::network::geo::Coordinate;
use osmgraphing::network::graph::building::{BuildError, GraphBuilder, ProtoEdge, ProtoNode, ProtoShortcut};
use osmgraphing::network::graph::{listed_positions, Graph};
use osmgraphing::network::routes::RoutePair;
use osmgraphing::network::{EdgeIdx, NodeIdx};
use osmgraphing::routing::paths::Path;

fn edge(id: Option<usize>, src_id: i64, dst_id: i64, metric: u32) -> ProtoShortcut<u32> {
    ProtoEdge { id, src_id, dst_id, metrics: metric }.into_shortcut()
}

fn node(id: i64) -> ProtoNode<Coordinate> {
    ProtoNode { id, coord: Coordinate::new(id as i32 * 10, id as i32 * 20), ch_level: None }
}

fn same(a: &u32, b: &u32) -> bool {
    a == b
}

fn positive(m: u32) -> Option<u32> {
    if m == 0 {
        None
    } else {
        Some(m)
    }
}

/// Nodes 1, 2, 3; edges 1->2 (id 0), 2->3 (id 1) and the shortcut 1->3 (id 2) over both.
fn small_graph() -> Graph<Coordinate, u32> {
    let mut edges = GraphBuilder::<Coordinate, u32>::new();
    edges.insert(edge(Some(0), 1, 2, 10));
    edges.insert(edge(Some(1), 2, 3, 20));
    edges.insert(ProtoShortcut {
        proto_edge: ProtoEdge { id: Some(2), src_id: 1, dst_id: 3, metrics: 30 },
        sc_edges: Some([EdgeIdx(0), EdgeIdx(1)]),
    });
    let mut nodes = edges.next::<Coordinate>();
    for id in [3i64, 1, 2] {
        assert!(nodes.insert(node(id)));
    }
    assert!(!nodes.insert(node(7)));
    nodes.next().unwrap().finalize(&same, &positive).unwrap()
}

#[test]
fn nodes_are_sorted_by_id() {
    let graph = small_graph();
    let nodes = graph.nodes();
    assert_eq!(nodes.count(), 3);
    assert_eq!(nodes.id(NodeIdx(0)), 1);
    assert_eq!(nodes.id(NodeIdx(2)), 3);
    assert_eq!(nodes.idx_from(2), Ok(NodeIdx(1)));
    assert_eq!(nodes.idx_from(5), Err(NodeIdx(3)));
    assert_eq!(nodes.coord(NodeIdx(1)), Coordinate::new(20, 40));
    assert_eq!(nodes.create_from(3).map(|n| n.idx()), Some(NodeIdx(2)));
    assert!(nodes.create_from(4).is_none());
}

#[test]
fn forward_edges_are_sorted_by_source_and_destination() {
    let graph = small_graph();
    let fwd = graph.fwd_edges();
    assert_eq!(fwd.count(), 3);
    let dsts: Vec<NodeIdx> = fwd.starting_from(NodeIdx(0)).iter().map(|e| e.dst_idx()).collect();
    assert_eq!(dsts, vec![NodeIdx(1), NodeIdx(2)]);
    assert_eq!(fwd.between(NodeIdx(1), NodeIdx(2)).map(|e| e.idx()), Some(EdgeIdx(2)));
    assert!(fwd.between(NodeIdx(1), NodeIdx(0)).is_none());
    assert_eq!(fwd.try_id(EdgeIdx(1)), Some(2));
    assert_eq!(fwd.try_idx_from(1).ok(), Some(EdgeIdx(2)));
    assert!(fwd.try_idx_from(9).is_err());
    assert_eq!(*graph.metrics().get(EdgeIdx(2)), 20);
    assert_eq!(fwd.sc_edges(EdgeIdx(1)).copied(), Some([EdgeIdx(0), EdgeIdx(2)]));
    assert!(fwd.sc_edges(EdgeIdx(0)).is_none());
}

#[test]
fn every_node_has_offsets() {
    let graph = small_graph();
    let fwd = graph.fwd_edges();
    let bwd = graph.bwd_edges();
    assert_eq!(fwd.offsets.len(), graph.nodes().count() + 1);
    assert_eq!(bwd.offsets.len(), graph.nodes().count() + 1);
    assert!(fwd.starting_from(NodeIdx(2)).is_empty());
    // an edge leaves its source forwards exactly when it leaves its destination backwards
    for u in 0..3usize {
        for e in fwd.starting_from(NodeIdx(u)) {
            let v = e.dst_idx();
            let back: Vec<EdgeIdx> = bwd.starting_from(v).iter().map(|b| b.idx()).collect();
            assert!(back.contains(&e.idx()));
            assert_eq!(bwd.dst_idx(e.idx()), NodeIdx(u));
        }
    }
}

#[test]
fn indices_are_ordered_and_added_by_value() {
    let e = EdgeIdx::new(4);
    assert!(EdgeIdx::zero() <= e);
    assert!(EdgeIdx(3) < e && e > EdgeIdx(3));
    assert_eq!(EdgeIdx::zero() + e, e);
    assert_eq!(e + EdgeIdx::zero(), e);
    assert_eq!(e + 2usize, EdgeIdx(6));
    let mut f = e;
    f += EdgeIdx(1);
    f += 1usize;
    assert_eq!(f, EdgeIdx(6));
    assert!(NodeIdx::new(1) < NodeIdx::new(2));
    assert_eq!(NodeIdx::new(2).cmp(&NodeIdx::new(2)), std::cmp::Ordering::Equal);
    let mut n = NodeIdx(1) + NodeIdx(2);
    n += 1usize;
    assert_eq!(n, NodeIdx(4));
}

#[test]
fn backward_edges_lead_to_the_sources() {
    let graph = small_graph();
    let bwd = graph.bwd_edges();
    let srcs: Vec<NodeIdx> = bwd.starting_from(NodeIdx(2)).iter().map(|e| e.dst_idx()).collect();
    assert_eq!(srcs, vec![NodeIdx(0), NodeIdx(1)]);
    assert!(bwd.starting_from(NodeIdx(0)).is_empty());
}

#[test]
fn flattening_replaces_shortcuts() {
    let graph = small_graph();
    let path = Path::new(NodeIdx(0), NodeIdx(2), vec![EdgeIdx(1)]);
    let flat = path.flatten(&graph.fwd_edges());
    assert_eq!(flat.edges(), &vec![EdgeIdx(0), EdgeIdx(2)]);
    assert_eq!((flat.src_idx(), flat.dst_idx(), flat.edge_count()), (NodeIdx(0), NodeIdx(2), 2));
    let again = flat.clone().flatten(&graph.fwd_edges());
    assert!(again.is_equal(&flat));
}

#[test]
fn route_pairs_by_id() {
    let graph = small_graph();
    let pair = RoutePair { src: 3i64, dst: 1i64 }.into_idx(&graph);
    assert_eq!((pair.src, pair.dst), (NodeIdx(2), NodeIdx(0)));
    let nodes = RoutePair { src: 2i64, dst: 3i64 }.into_node(&graph);
    assert_eq!((nodes.src.idx(), nodes.dst.id()), (NodeIdx(1), 3));
}

#[test]
fn identical_edges_are_kept_once() {
    let mut edges = GraphBuilder::<Coordinate, u32>::new();
    edges.insert(edge(None, 1, 2, 10));
    edges.insert(edge(None, 1, 2, 10));
    edges.insert(edge(None, 2, 1, 10));
    let mut nodes = edges.next::<Coordinate>();
    nodes.insert(node(1));
    nodes.insert(node(2));
    let graph = nodes.next().unwrap().finalize(&same, &positive).unwrap();
    assert_eq!(graph.fwd_edges().count(), 2);
}

#[test]
fn shortcuts_follow_their_edges_through_removed_duplicates() {
    let mut edges = GraphBuilder::<Coordinate, u32>::new();
    edges.insert(edge(None, 1, 2, 10));
    edges.insert(edge(None, 1, 2, 10));
    edges.insert(edge(None, 2, 3, 20));
    edges.insert(ProtoShortcut {
        proto_edge: ProtoEdge { id: None, src_id: 1, dst_id: 3, metrics: 30 },
        sc_edges: Some([EdgeIdx(1), EdgeIdx(2)]),
    });
    let mut nodes = edges.next::<Coordinate>();
    for id in [1i64, 2, 3] {
        nodes.insert(node(id));
    }
    let graph = nodes.next().unwrap().finalize(&same, &positive).unwrap();
    let fwd = graph.fwd_edges();
    assert_eq!(fwd.count(), 3);
    assert_eq!(fwd.between(NodeIdx(0), NodeIdx(2)).map(|e| e.idx()), Some(EdgeIdx(1)));
    assert_eq!(fwd.sc_edges(EdgeIdx(1)).copied(), Some([EdgeIdx(0), EdgeIdx(2)]));
    assert!(fwd.sc_edges(EdgeIdx(0)).is_none());
    assert!(fwd.sc_edges(EdgeIdx(2)).is_none());
}

#[test]
fn build_errors() {
    let mut edges = GraphBuilder::<Coordinate, u32>::new();
    edges.insert(edge(None, 1, 2, 10));
    let mut nodes = edges.next::<Coordinate>();
    nodes.insert(node(1));
    let r = nodes.next().unwrap().finalize(&same, &positive);
    assert_eq!(r.err(), Some(BuildError::NodeWithoutCoord(2)));

    let mut edges = GraphBuilder::<Coordinate, u32>::new();
    edges.insert(edge(None, 1, 2, 0));
    let mut nodes = edges.next::<Coordinate>();
    nodes.insert(node(1));
    nodes.insert(node(2));
    let r = nodes.next().unwrap().finalize(&same, &positive);
    assert_eq!(r.err(), Some(BuildError::MetricTooSmall));

    let mut edges = GraphBuilder::<Coordinate, u32>::new();
    edges.insert(edge(Some(4), 1, 2, 10));
    edges.insert(edge(Some(4), 2, 1, 10));
    let mut nodes = edges.next::<Coordinate>();
    nodes.insert(node(1));
    nodes.insert(node(2));
    let r = nodes.next().unwrap().finalize(&same, &positive);
    assert_eq!(r.err(), Some(BuildError::DuplicateEdgeId));
}

#[test]
fn listings_show_the_first_and_the_last_entries() {
    assert_eq!(listed_positions(3, 20), vec![Some(0), Some(1), Some(2)]);
    assert_eq!(listed_positions(3, 3), vec![Some(0), Some(1), Some(2)]);
    assert_eq!(listed_positions(4, 3), vec![Some(0), Some(1), None, Some(3)]);
    assert_eq!(listed_positions(0, 1), vec![]);
}
