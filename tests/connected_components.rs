use route_planning::connected_components::strongly_connected_components;
use route_planning::geo_utils::Location;
use route_planning::road_network::{Node, RoadNetwork};

fn build_triangle_network() -> RoadNetwork {
    let mut network = RoadNetwork::new();

    network.add_node(Node::new(0, Location::new(0, 0))).unwrap();
    network.add_node(Node::new(1, Location::new(0, 0))).unwrap();
    network.add_node(Node::new(2, Location::new(0, 0))).unwrap();

    network.add_edge(0, 1, 10).unwrap();
    network.add_edge(1, 2, 10).unwrap();
    network.add_edge(2, 0, 10).unwrap();

    network
}

fn build_network_with_weakly_connected_node() -> RoadNetwork {
    let mut network = build_triangle_network();
    network.add_node(Node::new(99, Location::new(0, 0))).unwrap();
    network.add_edge(0, 99, 10).unwrap();

    network
}

#[test]
fn test_network_with_one_component() {
    let network = build_triangle_network();
    let components = strongly_connected_components(&network);

    assert_eq!(1, components.len());
    assert_eq!(vec![0, 1, 2], components[0]);
}

#[test]
fn test_network_with_weakly_connected_node() {
    let network = build_network_with_weakly_connected_node();
    let components = strongly_connected_components(&network);

    assert_eq!(2, components.len());
    assert!(components.contains(&vec![99]));
    assert!(components.contains(&vec![0, 1, 2]));
}

#[test]
fn empty_network_has_no_components() {
    let network = RoadNetwork::new();
    assert!(strongly_connected_components(&network).is_empty());
}

#[test]
fn reduce_keeps_largest_component_and_its_edges() {
    let mut network = build_network_with_weakly_connected_node();
    network.reduce_to_largest_strongly_connected_component();

    assert_eq!(3, network.num_nodes());
    assert!(network.get_node(99).is_none());
    for id in [0, 1, 2] {
        assert!(network.get_node(id).is_some());
    }
    assert_eq!(3, network.num_edges());
    assert_eq!(3, network.num_reverse_edges());
    assert_eq!(1, network.get_node(0).unwrap().out_degree());
    let components = strongly_connected_components(&network);
    assert_eq!(1, components.len());
    assert_eq!(vec![0, 1, 2], components[0]);
}

#[test]
fn components_partition_a_two_cycle_graph() {
    let mut network = RoadNetwork::new();
    for id in [5, 3, 8, 1, 4] {
        network.add_node(Node::new(id, Location::new(0, 0))).unwrap();
    }
    network.add_edge(5, 3, 1).unwrap();
    network.add_edge(3, 5, 1).unwrap();
    network.add_edge(3, 8, 1).unwrap();
    network.add_edge(8, 1, 1).unwrap();
    network.add_edge(1, 8, 1).unwrap();
    network.add_edge(1, 4, 1).unwrap();

    let mut components = strongly_connected_components(&network);
    components.sort();
    assert_eq!(vec![vec![1, 8], vec![3, 5], vec![4]], components);
}

#[test]
fn long_chain_gives_singletons_without_overflowing_the_stack() {
    let mut network = RoadNetwork::new();
    let n: u64 = 100000;
    for id in 0..n {
        network.add_node(Node::new(id, Location::new(0, 0))).unwrap();
    }
    for id in 0..n - 1 {
        network.add_edge(id, id + 1, 1).unwrap();
    }
    let components = strongly_connected_components(&network);
    assert_eq!(100000, components.len());
    assert!(components.iter().all(|c| c.len() == 1));
}

#[test]
fn reduce_keeps_first_listed_of_equal_components() {
    let mut network = RoadNetwork::new();
    for id in [10, 11, 20, 21] {
        network.add_node(Node::new(id, Location::new(0, 0))).unwrap();
    }
    network.add_edge(10, 11, 1).unwrap();
    network.add_edge(11, 10, 1).unwrap();
    network.add_edge(20, 21, 1).unwrap();
    network.add_edge(21, 20, 1).unwrap();

    let components = strongly_connected_components(&network);
    assert_eq!(2, components.len());
    let first = components[0].clone();

    network.reduce_to_largest_strongly_connected_component();
    assert_eq!(2, network.num_nodes());
    for id in first.iter() {
        assert!(network.get_node(*id).is_some());
    }
    assert_eq!(2, network.num_edges());
}

#[test]
fn reduce_keeps_incoming_edge_order() {
    let mut network = RoadNetwork::new();
    for id in [1, 2, 3, 9] {
        network.add_node(Node::new(id, Location::new(0, 0))).unwrap();
    }
    network.add_edge(3, 1, 7).unwrap();
    network.add_edge(9, 1, 1).unwrap();
    network.add_edge(2, 1, 5).unwrap();
    network.add_edge(1, 2, 5).unwrap();
    network.add_edge(1, 3, 7).unwrap();
    network.add_edge(1, 9, 1).unwrap();
    network.add_node(Node::new(4, Location::new(0, 0))).unwrap();
    network.add_edge(4, 1, 2).unwrap();

    network.reduce_to_largest_strongly_connected_component();

    assert_eq!(4, network.num_nodes());
    assert!(network.get_node(4).is_none());
    let origins: Vec<u64> = network.get_node(1).unwrap().reverse_neighbours.iter().map(|e| e.origin).collect();
    assert_eq!(vec![3, 9, 2], origins);
    assert_eq!(6, network.num_edges());
    assert_eq!(6, network.num_reverse_edges());
}

#[test]
fn reducing_twice_changes_nothing_more() {
    let mut network = build_network_with_weakly_connected_node();
    network.reduce_to_largest_strongly_connected_component();
    let edges = network.num_edges();
    network.reduce_to_largest_strongly_connected_component();
    assert_eq!(3, network.num_nodes());
    assert_eq!(edges, network.num_edges());
    assert_eq!(1, strongly_connected_components(&network).len());
}

#[test]
fn components_come_sources_first() {
    let mut network = RoadNetwork::new();
    for id in [3, 1, 2] {
        network.add_node(Node::new(id, Location::new(0, 0))).unwrap();
    }
    network.add_edge(1, 2, 1).unwrap();
    network.add_edge(2, 3, 1).unwrap();
    let components = strongly_connected_components(&network);
    assert_eq!(vec![vec![1], vec![2], vec![3]], components);
}

#[test]
fn isolated_nodes_come_in_reverse_finishing_order() {
    let mut network = RoadNetwork::new();
    network.add_node(Node::new(1, Location::new(0, 0))).unwrap();
    network.add_node(Node::new(2, Location::new(0, 0))).unwrap();
    let first = strongly_connected_components(&network);
    assert_eq!(vec![vec![2], vec![1]], first);
    assert_eq!(first, strongly_connected_components(&network));
}
