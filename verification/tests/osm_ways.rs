use osmgraphing::network::geo::Coordinate;
use osmgraphing::osm::pbf::{Parser, StreetType, Way, WayTags};
use osmgraphing::osm::{FileError, Support};
use osmgraphing::routing::graph::GraphBuilder;

fn way(id: i64, nodes: Vec<i64>, highway: Option<&str>, maxspeed: Option<&str>, oneway: Option<&str>) -> Way {
    Way {
        id,
        nodes,
        tags: WayTags {
            highway: highway.map(String::from),
            maxspeed: maxspeed.map(String::from),
            oneway: oneway.map(String::from),
        },
    }
}

#[test]
fn street_types_are_parsed_case_insensitively() {
    assert_eq!(StreetType::from_str("highway:motorway"), Ok(StreetType::Motorway));
    assert_eq!(StreetType::from_str("  HighWay:Residential \t"), Ok(StreetType::Residential));
    assert_eq!(StreetType::from_str("highway:Tertiary_Link"), Ok(StreetType::TertiaryLink));
    assert_eq!(StreetType::from_str(" Highway:Unknown "), Err(String::from("highway:unknown")));
    assert_eq!(StreetType::from_str("motorway"), Err(String::from("motorway")));
}

#[test]
fn street_type_of_a_way() {
    assert_eq!(StreetType::from(&way(1, vec![], Some("primary"), None, None)), Some(StreetType::Primary));
    assert_eq!(StreetType::from(&way(1, vec![], Some("nothing"), None, None)), None);
    assert_eq!(StreetType::from(&way(1, vec![], None, None, None)), None);
}

#[test]
fn default_speed_limits() {
    assert_eq!(StreetType::Motorway.maxspeed(), 130);
    assert_eq!(StreetType::Residential.maxspeed(), 50);
    assert_eq!(StreetType::LivingStreet.maxspeed(), 15);
    assert_eq!(StreetType::Pedestrian.maxspeed(), 5);
}

#[test]
fn speed_limits_from_tags() {
    let t = StreetType::Secondary;
    assert_eq!(t.parse_maxspeed(&way(1, vec![], None, None, None)), 70);
    assert_eq!(t.parse_maxspeed(&way(1, vec![], None, Some("80"), None)), 80);
    assert_eq!(t.parse_maxspeed(&way(1, vec![], None, Some("DE:zone30"), None)), 30);
    assert_eq!(t.parse_maxspeed(&way(1, vec![], None, Some("60 mph"), None)), 100);
    assert_eq!(t.parse_maxspeed(&way(1, vec![], None, Some("70000"), None)), 70);
    assert_eq!(t.parse_maxspeed(&way(1, vec![], None, Some("signals"), None)), 70);
}

#[test]
fn oneway_tags() {
    let t = StreetType::Residential;
    assert_eq!(t.parse_oneway(&way(1, vec![], None, None, None)), (false, false));
    assert_eq!(t.parse_oneway(&way(1, vec![], None, None, Some("yes"))), (true, false));
    assert_eq!(t.parse_oneway(&way(1, vec![], None, None, Some("-1"))), (true, true));
    assert_eq!(t.parse_oneway(&way(1, vec![], None, None, Some("no"))), (false, false));
    assert_eq!(t.parse_oneway(&way(1, vec![], None, None, Some("yes, mostly"))), (false, false));
}

#[test]
fn vehicles_bicycles_and_pedestrians() {
    assert!(StreetType::Motorway._is_for_vehicles(false));
    assert!(!StreetType::Motorway._is_for_pedestrians(false));
    assert!(StreetType::Pedestrian._is_for_pedestrians(false));
}

fn edges_of(builder: GraphBuilder) -> Vec<(i64, i64, u16)> {
    let graph = builder.finalize(&|_a: Coordinate, _b: Coordinate| 7u32);
    let mut edges = Vec::new();
    for idx in 0..graph.node_count() {
        if let Some(leaving) = graph.leaving_edges(idx) {
            for e in leaving {
                edges.push((graph.node(e.src_idx()).id(), graph.node(e.dst_idx()).id(), e.maxspeed()));
            }
        }
    }
    edges.sort();
    edges
}

#[test]
fn a_two_way_street_is_added_in_both_directions() {
    let parser = Parser;
    let mut builder = GraphBuilder::new();
    parser.add_way(way(100, vec![1, 2, 3], Some("residential"), None, None), &mut builder);
    for id in [1i64, 2, 3] {
        parser.add_node(id, 10 * id as i32, 20 * id as i32, &mut builder);
    }
    assert_eq!(edges_of(builder), vec![(1, 2, 50), (2, 1, 50), (2, 3, 50), (3, 2, 50)]);
}

#[test]
fn a_reversed_oneway_is_added_backwards() {
    let parser = Parser;
    let mut builder = GraphBuilder::new();
    parser.add_way(way(100, vec![1, 2, 3], Some("primary"), Some("30"), Some("-1")), &mut builder);
    parser.add_way(way(101, vec![1, 3], Some("unknown"), None, None), &mut builder);
    for id in [1i64, 2, 3, 4] {
        parser.add_node(id, 0, 0, &mut builder);
    }
    assert_eq!(edges_of(builder), vec![(2, 1, 30), (3, 2, 30)]);
}

#[test]
fn supported_file_extensions() {
    assert_eq!(Support::supported_exts(), ["pbf", "fmi"]);
    assert_eq!(Support::from_extension("pbf"), Ok(Support::PBF));
    assert_eq!(Support::from_extension("osm"), Ok(Support::XML));
    assert_eq!(Support::from_extension("fmi"), Ok(Support::FMI));
    assert_eq!(
        Support::from_extension("PBF"),
        Err(FileError::UnsupportedExtension(String::from("PBF")))
    );
}
