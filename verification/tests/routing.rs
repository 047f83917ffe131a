use osmgraphing::network::geo::Coordinate;
use osmgraphing::network::graph::container::edges::HalfEdge;
use osmgraphing::network::graph::container::nodes::Node;
use osmgraphing::network::graph::container::{EdgeContainer, NodeContainer};
use osmgraphing::network::units::Meters;
use osmgraphing::network::NodeIdx;
use osmgraphing::routing::astar::paths::{HashPath, VecPath};
use osmgraphing::routing::astar::GenericAstar;
use osmgraphing::routing::graph::id::{EdgeId, NodeId};
use osmgraphing::routing::graph::idx;
use osmgraphing::routing::graph::GraphBuilder;
use osmgraphing::units::speed::KilometersPerHour;
use osmgraphing::units::MetricU32;
use osmgraphing::units::{Metric, Metric2D};

struct Arrays {
    ids: Vec<i64>,
    coords: Vec<u8>,
    dsts: Vec<NodeIdx>,
    offsets: Vec<usize>,
    map: Vec<osmgraphing::network::EdgeIdx>,
    lanes: Vec<u8>,
    meters: Vec<Meters>,
    speeds: Vec<KilometersPerHour>,
}

/// Edges 0->1 (5 m), 0->2 (1 m), 1->3 (5 m), 2->3 (20 m).
fn arrays() -> Arrays {
    Arrays {
        ids: vec![10, 11, 12, 13],
        coords: vec![0; 4],
        dsts: vec![NodeIdx(1), NodeIdx(2), NodeIdx(3), NodeIdx(3)],
        offsets: vec![0, 2, 3, 4, 4],
        map: (0..4).map(osmgraphing::network::EdgeIdx).collect(),
        lanes: vec![1; 4],
        meters: vec![Meters::from(5), Meters::from(1), Meters::from(5), Meters::from(20)],
        speeds: vec![KilometersPerHour(50); 4],
    }
}

fn node(idx: usize) -> Node<u8> {
    Node { idx: NodeIdx(idx), id: 10 + idx as i64, coord: 0 }
}

#[test]
fn astar_finds_the_cheapest_path() {
    let a = arrays();
    let nodes = NodeContainer { node_ids: &a.ids, node_coords: &a.coords };
    let edges = EdgeContainer {
        edge_dsts: &a.dsts,
        offsets: &a.offsets,
        xwd_to_fwd_map: &a.map,
        lane_count: &a.lanes,
        meters: &a.meters,
        maxspeed: &a.speeds,
    };
    let mut astar = GenericAstar::from(
        |e: &HalfEdge| MetricU32(e.meters().value()),
        |_a: &Node<u8>, _b: &Node<u8>| MetricU32(0),
    );
    let path = astar.compute_best_path(&node(0), &node(3), &nodes, &edges).unwrap();
    assert_eq!((path.src_idx(), path.dst_idx()), (NodeIdx(0), NodeIdx(3)));
    assert_eq!(path.cost(), MetricU32(10));
    assert_eq!(path.pred_node_idx(NodeIdx(3)), Some(NodeIdx(1)));
    assert_eq!(path.pred_node_idx(NodeIdx(1)), Some(NodeIdx(0)));
    assert_eq!(path.succ_node_idx(NodeIdx(0)), Some(NodeIdx(1)));
    assert_eq!(path.pred_node_idx(NodeIdx(0)), None);

    let back = astar.compute_best_path(&node(3), &node(0), &nodes, &edges);
    assert!(back.is_none());
    let same = astar.compute_best_path(&node(2), &node(2), &nodes, &edges).unwrap();
    assert_eq!(same.cost(), MetricU32(0));
}

fn remaining(idx: NodeIdx, overestimate_at_1: bool) -> MetricU32 {
    match idx.0 {
        0 => MetricU32(8),
        1 if overestimate_at_1 => MetricU32(100),
        1 => MetricU32(5),
        2 => MetricU32(15),
        _ => MetricU32(0),
    }
}

#[test]
fn astar_with_estimations() {
    let a = arrays();
    let nodes = NodeContainer { node_ids: &a.ids, node_coords: &a.coords };
    let edges = EdgeContainer {
        edge_dsts: &a.dsts,
        offsets: &a.offsets,
        xwd_to_fwd_map: &a.map,
        lane_count: &a.lanes,
        meters: &a.meters,
        maxspeed: &a.speeds,
    };
    // never more than the remaining distance: still the cheapest path
    let mut astar = GenericAstar::from(
        |e: &HalfEdge| MetricU32(e.meters().value()),
        |a: &Node<u8>, _b: &Node<u8>| remaining(a.idx, false),
    );
    let path = astar.compute_best_path(&node(0), &node(3), &nodes, &edges).unwrap();
    assert_eq!(path.cost(), MetricU32(10));
    assert_eq!(path.pred_node_idx(NodeIdx(3)), Some(NodeIdx(1)));

    // overestimating at node 1 sends the search over node 2
    let mut astar = GenericAstar::from(
        |e: &HalfEdge| MetricU32(e.meters().value()),
        |a: &Node<u8>, _b: &Node<u8>| remaining(a.idx, true),
    );
    let path = astar.compute_best_path(&node(0), &node(3), &nodes, &edges).unwrap();
    assert_eq!(path.cost(), MetricU32(21));
    assert_eq!(path.pred_node_idx(NodeIdx(3)), Some(NodeIdx(2)));
}

#[test]
fn paths_of_predecessors_and_successors() {
    let mut v: VecPath<MetricU32> = VecPath::with_capacity(NodeIdx(0), NodeIdx(2), 3);
    v.add_pred_succ(NodeIdx(0), NodeIdx(1));
    assert_eq!(v.pred_node_idx(NodeIdx(1)), Some(NodeIdx(0)));
    assert_eq!(v.succ_node_idx(NodeIdx(0)), Some(NodeIdx(1)));
    assert_eq!(v.succ_node_idx(NodeIdx(1)), None);

    let mut h: HashPath<MetricU32> = HashPath::new(NodeIdx(5), NodeIdx(9));
    h.add_pred_succ(NodeIdx(5), NodeIdx(9));
    assert_eq!(h.pred_node_idx(NodeIdx(9)), Some(NodeIdx(5)));
    assert_eq!(h.succ_node_idx(NodeIdx(5)), Some(NodeIdx(9)));
    assert_eq!(h.pred_node_idx(NodeIdx(5)), None);
}

#[test]
fn offset_graph_from_builder() {
    let mut builder = GraphBuilder::new();
    builder.push_edge(Some(1), 30, 10, Some(100), 50);
    builder.push_edge(Some(1), 10, 20, None, 30);
    builder.push_edge(None, 10, 30, Some(7), 70);
    builder.push_node(10, Coordinate::new(0, 0));
    builder.push_node(20, Coordinate::new(0, 1));
    builder.push_node(30, Coordinate::new(1, 1));
    builder.push_node(40, Coordinate::new(2, 2));
    let graph = builder.finalize(&|_a: Coordinate, _b: Coordinate| 42u32);
    assert_eq!(graph.node_count(), 3);
    assert_eq!(graph.edge_count(), 3);
    assert_eq!(graph.node_idx_from(20), Ok(1));
    assert_eq!(graph.node_idx_from(40), Err(3));
    assert_eq!(graph.node(2).id(), 30);
    let e = graph.edge(0, 1).unwrap();
    assert_eq!((e.meters(), e.maxspeed()), (42, 30));
    let e = graph.edge(0, 2).unwrap();
    assert_eq!((e.meters(), e.maxspeed()), (7, 70));
    assert!(graph.edge(1, 0).is_none());
    assert_eq!(graph.leaving_edges(0).map(|s| s.len()), Some(2));
    assert!(graph.leaving_edges(1).is_none());
    assert_eq!(graph.offsets(), &vec![0, 2, 2, 3]);
    assert_eq!((graph.edge_at(2).src_idx(), graph.edge_at(2).dst_idx()), (2, 0));
    let from_30 = graph.leaving_edges(2).unwrap();
    assert_eq!((from_30[0].src_idx(), from_30[0].dst_idx(), from_30[0].meters()), (2, 0, 100));
}

#[test]
fn offset_graph_lists_each_node_its_edges() {
    let mut b = GraphBuilder::new();
    b.push_node(1, Coordinate::new(0, 0));
    b.push_node(2, Coordinate::new(0, 10));
    b.push_node(3, Coordinate::new(0, 20));
    b.push_edge(Some(30), 3, 1, Some(7), 50);
    b.push_edge(Some(10), 1, 3, Some(5), 30);
    b.push_edge(Some(20), 1, 2, Some(4), 30);
    let g = b.finalize(&|_a: Coordinate, _b: Coordinate| 1u32);
    assert_eq!((g.node_count(), g.edge_count()), (3, 3));
    let of = |i: usize| -> Vec<(i64, usize, usize, u32)> {
        g.leaving_edges(i).unwrap().iter().map(|e| (e.id(), e.src_idx(), e.dst_idx(), e.meters())).collect()
    };
    assert_eq!(of(0), vec![(20, 0, 1, 4), (10, 0, 2, 5)]);
    assert!(g.leaving_edges(1).is_none());
    assert_eq!(of(2), vec![(30, 2, 0, 7)]);
    assert!(g.leaving_edges(3).is_none());
    assert_eq!(g.edge(0, 2).unwrap().id(), 10);
}

#[test]
fn ids_and_indices_from_text() {
    assert_eq!(NodeId::parse("-12"), Ok(NodeId(-12)));
    assert!(NodeId::parse("x").is_err());
    assert_eq!(EdgeId::parse("7"), Ok(EdgeId(7)));
    assert_eq!(idx::NodeIdx::parse("3"), Ok(idx::NodeIdx(3)));
    assert!(idx::EdgeIdx::parse("-3").is_err());
    assert_eq!("42".parse::<idx::EdgeIdx>(), Ok(idx::EdgeIdx(42)));
    assert_eq!("-5".parse::<NodeId>(), Ok(NodeId(-5)));
    assert!("5a".parse::<EdgeId>().is_err());
    assert_eq!("8".parse::<idx::NodeIdx>(), Ok(idx::NodeIdx(8)));
    assert!("".parse::<idx::NodeIdx>().is_err());
}

#[test]
fn metric_bounds() {
    assert_eq!(MetricU32::zero(), MetricU32(0));
    assert_eq!(MetricU32::neg_inf(), MetricU32(0));
    assert_eq!(MetricU32::inf(), MetricU32(u32::MAX));
    assert_eq!(KilometersPerHour::inf(), KilometersPerHour(u32::MAX));
    let zero = Metric2D::<MetricU32, MetricU32>::zero();
    let low = Metric2D::<MetricU32, MetricU32>::neg_inf();
    let high = Metric2D::<MetricU32, MetricU32>::inf();
    assert_eq!(zero.pareto_order(&low), 0);
    assert_eq!(zero.pareto_order(&high), -1);
    assert_eq!(Meters::min().value(), 0);
}
