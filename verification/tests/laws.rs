use osmgraphing::network::building::{BuildError as MissingNode, GraphBuilder as NetworkBuilder};
use osmgraphing::network::geo::Coordinate;
use osmgraphing::network::graph::building::{GraphBuilder, ProtoEdge, ProtoNode};
use osmgraphing::network::NodeIdx;
use osmgraphing::osm::pbf::StreetType;
use osmgraphing::routing::astar::paths::{HashPath, VecPath};
use osmgraphing::units::MetricU32;

fn node(id: i64) -> ProtoNode<Coordinate> {
    ProtoNode { id, coord: Coordinate::new(0, id as i32), ch_level: None }
}

#[test]
fn node_builder_answers_whether_an_edge_uses_the_node() {
    let mut edges = GraphBuilder::<Coordinate, u32>::new();
    edges.insert(ProtoEdge { id: None, src_id: 5, dst_id: 7, metrics: 1 }.into_shortcut());
    edges.insert(ProtoEdge { id: None, src_id: 7, dst_id: 9, metrics: 1 }.into_shortcut());
    let mut nodes = edges.next::<Coordinate>();
    assert!(nodes.insert(node(9)));
    assert!(nodes.insert(node(5)));
    assert!(!nodes.insert(node(6)));
    assert!(nodes.insert(node(9)));
    assert!(nodes.insert(node(7)));
}

#[test]
fn is_node_in_edge_follows_the_pushed_edges() {
    let mut b = NetworkBuilder::new();
    b.push_node(1, Coordinate::new(0, 0));
    assert!(!b.is_node_in_edge(1));
    b.push_edge(None, 2, 1, None, 30);
    assert!(b.is_node_in_edge(1) && b.is_node_in_edge(2));
    b.push_node(2, Coordinate::new(0, 1));
    assert!(b.is_node_in_edge(2));
    assert!(!b.is_node_in_edge(3));
}

#[test]
fn finalize_fails_exactly_on_a_missing_node() {
    let mut b = NetworkBuilder::new();
    b.push_node(1, Coordinate::new(0, 0));
    b.push_node(2, Coordinate::new(0, 1));
    b.push_edge(Some(4), 1, 2, Some(3), 30);
    b.push_edge(Some(5), 2, 9, Some(3), 30);
    let r = b.finalize(&|_a: Coordinate, _b: Coordinate| 1u32);
    assert_eq!(r.err(), Some(MissingNode::MissingDst { dst_id: 9, way_id: Some(5) }));

    let mut b = NetworkBuilder::new();
    b.push_node(1, Coordinate::new(0, 0));
    b.push_node(2, Coordinate::new(0, 1));
    b.push_edge(Some(4), 1, 2, Some(3), 30);
    b.push_edge(Some(5), 2, 1, Some(3), 30);
    b.push_edge(Some(6), 2, 1, Some(3), 30);
    let g = b.finalize(&|_a: Coordinate, _b: Coordinate| 1u32).unwrap();
    assert_eq!(g.edge_count(), 3);
}

#[test]
fn every_street_name_parses_back() {
    let all = [
        StreetType::Motorway,
        StreetType::MotorwayLink,
        StreetType::Trunk,
        StreetType::TrunkLink,
        StreetType::Primary,
        StreetType::PrimaryLink,
        StreetType::Secondary,
        StreetType::SecondaryLink,
        StreetType::Tertiary,
        StreetType::TertiaryLink,
        StreetType::Unclassified,
        StreetType::Residential,
        StreetType::LivingStreet,
        StreetType::Service,
        StreetType::Track,
        StreetType::Road,
        StreetType::Cycleway,
        StreetType::Pedestrian,
        StreetType::Path,
    ];
    for t in all {
        assert_eq!(StreetType::from_str(&format!("highway:{}", t.name())), Ok(t));
    }
}

#[test]
fn vec_and_hash_paths_answer_alike() {
    let mut v: VecPath<MetricU32> = VecPath::with_capacity(NodeIdx(0), NodeIdx(3), 4);
    let mut h: HashPath<MetricU32> = HashPath::new(NodeIdx(0), NodeIdx(3));
    for (p, s) in [(0usize, 1usize), (1, 2), (0, 2), (2, 3)] {
        v.add_pred_succ(NodeIdx(p), NodeIdx(s));
        h.add_pred_succ(NodeIdx(p), NodeIdx(s));
    }
    for i in 0..6usize {
        assert_eq!(v.pred_node_idx(NodeIdx(i)), h.pred_node_idx(NodeIdx(i)));
        assert_eq!(v.succ_node_idx(NodeIdx(i)), h.succ_node_idx(NodeIdx(i)));
    }
    assert_eq!(v.pred_node_idx(NodeIdx(2)), Some(NodeIdx(0)));
    assert_eq!(v.pred_node_idx(NodeIdx(5)), None);
    assert_eq!(v.cost, MetricU32(0));
}
