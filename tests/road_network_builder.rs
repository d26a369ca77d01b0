use route_planning::geo_utils::Location;
use route_planning::osm_reader::{OsmNd, OsmTag, OsmWay};
use route_planning::road_network::{NetworkError, Node, RoadNetwork};
use route_planning::road_network_builder::{add_way_to_network, way_segments};

fn way(refs: &[u64], tags: &[(&str, &str)]) -> OsmWay {
    OsmWay {
        id: 10,
        nodes: refs.iter().map(|r| OsmNd { ref_: *r }).collect(),
        tags: tags
            .iter()
            .map(|(k, v)| OsmTag { key: k.to_string(), value: v.to_string() })
            .collect(),
    }
}

fn network_with(ids: &[u64]) -> RoadNetwork {
    let mut network = RoadNetwork::new();
    for id in ids {
        network.add_node(Node::new(*id, Location::new(0, 0))).unwrap();
    }
    network
}

#[test]
fn segments_are_consecutive_pairs() {
    assert_eq!(vec![(4, 9), (9, 2)], way_segments(&way(&[4, 9, 2], &[])));
    assert_eq!(Vec::<(u64, u64)>::new(), way_segments(&way(&[4], &[])));
    assert_eq!(Vec::<(u64, u64)>::new(), way_segments(&way(&[], &[])));
}

#[test]
fn two_way_road_adds_both_directions() {
    let mut network = network_with(&[1, 2, 3]);
    let w = way(&[1, 2, 3], &[("highway", "residential")]);
    add_way_to_network(&mut network, &w, &vec![4, 6]).unwrap();
    assert_eq!(4, network.num_edges());
    assert_eq!(4, network.num_reverse_edges());
    let two = network.get_node(2).unwrap();
    assert_eq!(2, two.out_degree());
    assert_eq!(1, two.neighbours[0].destination);
    assert_eq!(4, two.neighbours[0].cost);
    assert_eq!(3, two.neighbours[1].destination);
    assert_eq!(6, two.neighbours[1].cost);
}

#[test]
fn oneway_road_adds_forward_edges_only() {
    let mut network = network_with(&[1, 2, 3]);
    let w = way(&[1, 2, 3], &[("highway", "primary"), ("oneway", "yes")]);
    add_way_to_network(&mut network, &w, &vec![4, 6]).unwrap();
    assert_eq!(2, network.num_edges());
    assert_eq!(0, network.get_node(3).unwrap().out_degree());
    assert_eq!(1, network.get_node(1).unwrap().out_degree());
}

#[test]
fn unrecognised_way_is_skipped() {
    let mut network = network_with(&[1, 2]);
    let w = way(&[1, 2], &[("highway", "footway")]);
    assert_eq!(Ok(()), add_way_to_network(&mut network, &w, &vec![3]));
    assert_eq!(0, network.num_edges());
}

#[test]
fn way_through_unknown_node_is_rejected_without_change() {
    let mut network = network_with(&[1, 2, 3]);
    let w = way(&[1, 2, 8, 3, 9], &[("highway", "service")]);
    let result = add_way_to_network(&mut network, &w, &vec![1, 1, 1, 1]);
    assert_eq!(Err(NetworkError::UnknownEndpoint(8)), result);
    assert_eq!(0, network.num_edges());
}
