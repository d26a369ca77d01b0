use route_planning::geo_utils::Location;
use route_planning::road_network::{NetworkError, Node, RoadNetwork};

#[test]
fn test_construct_network() {
    let mut network = RoadNetwork::new();

    network.add_node(Node::new(1, Location::new(0, 0))).unwrap();
    network.add_node(Node::new(2, Location::new(0, 0))).unwrap();
    network.add_node(Node::new(3, Location::new(0, 0))).unwrap();

    assert_eq!(3, network.num_nodes());

    network.add_edge(1, 2, 10).unwrap();
    network.add_edge(2, 1, 10).unwrap();
    network.add_edge(3, 2, 10).unwrap();
    network.add_edge(1, 3, 10).unwrap();

    assert_eq!(4, network.num_edges());
    assert_eq!(4, network.num_reverse_edges());
}

#[test]
fn duplicate_node_is_rejected_without_change() {
    let mut network = RoadNetwork::new();
    network.add_node(Node::new(7, Location::new(15, -20))).unwrap();
    let result = network.add_node(Node::new(7, Location::new(99, 99)));
    assert_eq!(Err(NetworkError::DuplicateNode(7)), result);
    assert_eq!(1, network.num_nodes());
    assert_eq!(Location::new(15, -20), network.get_node(7).unwrap().location);
}

#[test]
fn edge_to_unknown_endpoint_is_rejected_without_change() {
    let mut network = RoadNetwork::new();
    network.add_node(Node::new(1, Location::new(0, 0))).unwrap();
    assert_eq!(Err(NetworkError::UnknownEndpoint(2)), network.add_edge(1, 2, 5));
    assert_eq!(Err(NetworkError::UnknownEndpoint(3)), network.add_edge(3, 1, 5));
    assert_eq!(0, network.num_edges());
    assert_eq!(0, network.num_reverse_edges());
    assert_eq!(0, network.get_node(1).unwrap().out_degree());
}

#[test]
fn edges_are_mirrored_with_multiplicity() {
    let mut network = RoadNetwork::new();
    network.add_node(Node::new(1, Location::new(0, 0))).unwrap();
    network.add_node(Node::new(2, Location::new(0, 0))).unwrap();
    network.add_edge(1, 2, 4).unwrap();
    network.add_edge(1, 2, 4).unwrap();
    network.add_edge(2, 2, 0).unwrap();

    let one = network.get_node(1).unwrap();
    let two = network.get_node(2).unwrap();
    assert_eq!(2, one.out_degree());
    assert_eq!(0, one.in_degree());
    assert_eq!(1, two.out_degree());
    assert_eq!(3, two.in_degree());
    let from_one = two.reverse_neighbours.iter().filter(|e| e.origin == 1 && e.cost == 4).count();
    assert_eq!(2, from_one);
    assert_eq!(network.num_edges(), network.num_reverse_edges());
    assert_eq!(3, network.num_edges());
}

#[test]
fn get_node_of_absent_identifier_is_none() {
    let network = RoadNetwork::new();
    assert!(network.get_node(42).is_none());
    assert_eq!(0, network.num_nodes());
}

#[test]
fn remove_unused_nodes_drops_sinks_and_their_edges() {
    let mut network = RoadNetwork::new();
    for id in [1, 2, 3] {
        network.add_node(Node::new(id, Location::new(id as i64, 0))).unwrap();
    }
    network.add_edge(1, 2, 3).unwrap();
    network.add_edge(2, 1, 3).unwrap();
    network.add_edge(1, 3, 8).unwrap();

    network.remove_unused_nodes();

    assert_eq!(2, network.num_nodes());
    assert!(network.get_node(3).is_none());
    assert_eq!(1, network.get_node(1).unwrap().out_degree());
    assert_eq!(2, network.num_edges());
    assert_eq!(2, network.num_reverse_edges());
    assert_eq!(Location::new(1, 0), network.get_node(1).unwrap().location);
}
