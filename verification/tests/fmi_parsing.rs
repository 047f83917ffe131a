use osmgraphing::parsing::fmi::{
    node_params, EdgeLineError, MetricType, MissingCounts, NodeLineError, Parser, ProtoEdge,
};

fn types() -> Vec<MetricType> {
    vec![
        MetricType::Ignore,
        MetricType::Id,
        MetricType::Id,
        MetricType::Length { provided: true },
        MetricType::Maxspeed { provided: false },
        MetricType::LaneCount,
    ]
}

fn metric_values(edge: &ProtoEdge) -> Vec<Option<u32>> {
    edge.metrics.iter().map(|m| m.map(|m| m.0)).collect()
}

#[test]
fn edge_line_with_calculated_metric() {
    let edge = ProtoEdge::from_str("7 1 2 130 3", &types()).unwrap();
    assert_eq!(edge.src_id, 1);
    assert_eq!(edge.dst_id, 2);
    assert_eq!(metric_values(&edge), vec![Some(130), None, Some(3)]);
}

#[test]
fn edge_line_with_negative_ids_and_extra_params() {
    let edge = ProtoEdge::from_str("x -5 -6 0 1 trailing", &types()).unwrap();
    assert_eq!((edge.src_id, edge.dst_id), (-5, -6));
    assert_eq!(metric_values(&edge), vec![Some(0), None, Some(1)]);
}

#[test]
fn edge_line_errors() {
    assert_eq!(ProtoEdge::from_str("7 1 2 130", &types()).err(), Some(EdgeLineError::TooFewParams));
    assert_eq!(ProtoEdge::from_str("7 a 2 130 3", &types()).err(), Some(EdgeLineError::InvalidSrcId(1)));
    assert_eq!(ProtoEdge::from_str("7 1 b 130 3", &types()).err(), Some(EdgeLineError::InvalidDstId(2)));
    assert_eq!(
        ProtoEdge::from_str("7 1 2 4294967296 3", &types()).err(),
        Some(EdgeLineError::InvalidValue(3))
    );
    let three_ids = vec![MetricType::Id, MetricType::Id, MetricType::Id];
    assert_eq!(ProtoEdge::from_str("1 2 3", &three_ids).err(), Some(EdgeLineError::ThirdId));
    assert_eq!(ProtoEdge::from_str("1", &vec![MetricType::Ignore]).err(), Some(EdgeLineError::MissingSrcId));
    assert_eq!(ProtoEdge::from_str("1", &vec![MetricType::Id]).err(), Some(EdgeLineError::MissingDstId));
}

#[test]
fn maxspeed_is_bounded_by_u16() {
    let types = vec![MetricType::Id, MetricType::Id, MetricType::Maxspeed { provided: true }];
    assert_eq!(metric_values(&ProtoEdge::from_str("1 2 65535", &types).unwrap()), vec![Some(65535)]);
    assert_eq!(ProtoEdge::from_str("1 2 65536", &types).err(), Some(EdgeLineError::InvalidValue(2)));
}

#[test]
fn every_metric_type_but_ids_and_ignored_ones_yields_a_metric() {
    let types = vec![
        MetricType::Id,
        MetricType::Duration { provided: false },
        MetricType::Id,
        MetricType::Custom,
        MetricType::Ignore,
        MetricType::Length { provided: false },
    ];
    let edge = ProtoEdge::from_str("1 2 3 4 5", &types).unwrap();
    assert_eq!(metric_values(&edge), vec![None, Some(3), None]);
}

#[test]
fn functional_lines() {
    assert!(Parser::is_line_functional("1 2 3"));
    assert!(!Parser::is_line_functional(""));
    assert!(!Parser::is_line_functional("# comment"));
    assert!(Parser::is_line_functional(" # not at the start"));
}

fn file() -> Vec<String> {
    [
        "# a small fmi-file",
        "",
        "4",
        "3",
        "2",
        "10 0 48.1 9.1",
        "11 0 48.2 9.2",
        "# comment between nodes",
        "12 0 48.3 9.3",
        "10 11 5",
        "11 12 6",
        "# end",
    ]
    .iter()
    .map(|s| String::from(*s))
    .collect()
}

#[test]
fn counts_are_scanned_until_the_first_other_line() {
    let (number, counts) = Parser::scan_counts(&file());
    assert_eq!(number, 3);
    assert_eq!(counts, vec![4, 3, 2]);
}

#[test]
fn preprocess_remembers_node_and_edge_lines() {
    let mut parser = Parser::new();
    assert_eq!(parser.preprocess(&file()), Ok(()));
    assert_eq!(parser.node_lines, 3..6);
    assert_eq!(parser.edge_lines, 6..8);
    let node_lines = Parser::lines_in(&file(), &parser.node_lines);
    assert_eq!(node_lines, vec!["10 0 48.1 9.1", "11 0 48.2 9.2", "12 0 48.3 9.3"]);
}

#[test]
fn preprocess_needs_two_counts() {
    let lines: Vec<String> = vec![String::from("5"), String::from("1 2 3")];
    let mut parser = Parser::new();
    assert_eq!(parser.preprocess(&lines), Err(MissingCounts));
    assert_eq!(parser.node_lines, 1..0);
}

#[test]
fn edges_of_a_file() {
    let mut parser = Parser::new();
    parser.preprocess(&file()).unwrap();
    let types = vec![MetricType::Id, MetricType::Id, MetricType::Length { provided: true }];
    let edges = parser.parse_ways(&file(), &types).unwrap();
    let edges: Vec<(i64, i64, Vec<Option<u32>>)> =
        edges.iter().map(|e| (e.src_id, e.dst_id, metric_values(e))).collect();
    assert_eq!(edges, vec![(10, 11, vec![Some(5)]), (11, 12, vec![Some(6)])]);
}

#[test]
fn the_first_failing_edge_line_is_reported() {
    let mut lines = file();
    lines[9] = String::from("10 x 5");
    lines[10] = String::from("11");
    let mut parser = Parser::new();
    parser.preprocess(&lines).unwrap();
    let types = vec![MetricType::Id, MetricType::Id, MetricType::Length { provided: true }];
    assert_eq!(parser.parse_ways(&lines, &types).err(), Some(EdgeLineError::InvalidDstId(1)));
}

#[test]
fn node_lines() {
    let (id, lat, lon) = node_params("10 0 48.1 9.1").unwrap();
    assert_eq!((id, lat.as_str(), lon.as_str()), (10, "48.1", "9.1"));
    assert_eq!(node_params("10 0 48.1").err(), Some(NodeLineError::TooFewParams));
    assert_eq!(node_params("ten 0 48.1 9.1").err(), Some(NodeLineError::InvalidId));
}
