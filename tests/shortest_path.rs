use route_planning::geo_utils::Location;
use route_planning::road_network::{Node, RoadNetwork};
use route_planning::road_network::NetworkError;
use route_planning::shortest_path::{shortest_path, shortest_path_between, trace_path, Frontier, HeapEl};

use std::collections::HashMap;

fn get_test_network() -> RoadNetwork {
    let mut network = RoadNetwork::new();

    network.add_node(Node::new(1, Location::new(0, 0))).unwrap();
    network.add_node(Node::new(2, Location::new(0, 0))).unwrap();
    network.add_node(Node::new(3, Location::new(0, 0))).unwrap();
    network.add_node(Node::new(4, Location::new(0, 0))).unwrap();
    network.add_node(Node::new(5, Location::new(0, 0))).unwrap();

    network.add_edge(1, 2, 5).unwrap();
    network.add_edge(2, 3, 10).unwrap();
    network.add_edge(3, 4, 20).unwrap();
    network.add_edge(1, 4, 100).unwrap();

    network
}

#[test]
fn test_heap() {
    let mut heap = Frontier::new();

    heap.push(HeapEl { node_index: 1, cost: 10, previous_node_index: None });
    heap.push(HeapEl { node_index: 2, cost: 0, previous_node_index: None } );
    heap.push(HeapEl { node_index: 3, cost: 100, previous_node_index: None });

    assert_eq!(3, heap.len());
    assert_eq!(2, heap.pop().unwrap().node_index);
    assert_eq!(1, heap.pop().unwrap().node_index);
    assert_eq!(3, heap.pop().unwrap().node_index);
    assert_eq!(None, heap.pop());

    assert_eq!(0, heap.len());
}

#[test]
fn test_route_to_same_node() {
    let network = get_test_network();
    let node = network.get_node(1).unwrap();

    let result = shortest_path(&network, &node, &node).unwrap();
    assert_eq!(0, result.cost);
    assert_eq!(vec![1], result.path);
}

#[test]
fn test_no_path_between_start_and_end() {
    let network = get_test_network();
    let start = network.get_node(5).unwrap();
    let end = network.get_node(1).unwrap();
    assert_eq!(None, shortest_path(&network, start, end));
}

#[test]
fn test_path_shorter_when_traversing_more_vertices() {
    let network = get_test_network();
    let start = network.get_node(1).unwrap();
    let end = network.get_node(4).unwrap();

    let result = shortest_path(&network, start, end).unwrap();
    assert_eq!(35, result.cost);
    assert_eq!(vec![1, 2, 3, 4], result.path);
}

#[test]
fn same_node_with_self_loop_costs_nothing() {
    let mut network = get_test_network();
    network.add_edge(1, 1, 7).unwrap();
    let node = network.get_node(1).unwrap();
    let result = shortest_path(&network, node, node).unwrap();
    assert_eq!(0, result.cost);
    assert_eq!(vec![1], result.path);
}

#[test]
fn repeated_search_gives_equal_results() {
    let network = get_test_network();
    let start = network.get_node(1).unwrap();
    let end = network.get_node(4).unwrap();
    let first = shortest_path(&network, start, end);
    let second = shortest_path(&network, start, end);
    assert_eq!(first, second);
}

#[test]
fn zero_cost_edges_are_followed() {
    let mut network = get_test_network();
    network.add_edge(2, 4, 0).unwrap();
    let start = network.get_node(1).unwrap();
    let end = network.get_node(4).unwrap();
    let result = shortest_path(&network, start, end).unwrap();
    assert_eq!(5, result.cost);
    assert_eq!(vec![1, 2, 4], result.path);
}

#[test]
fn costs_beyond_the_cost_range_are_not_followed() {
    let mut network = RoadNetwork::new();
    for id in [1, 2, 3] {
        network.add_node(Node::new(id, Location::new(0, 0))).unwrap();
    }
    network.add_edge(1, 2, u64::MAX).unwrap();
    network.add_edge(2, 3, 1).unwrap();
    let start = network.get_node(1).unwrap();
    let middle = network.get_node(2).unwrap();
    let end = network.get_node(3).unwrap();
    assert_eq!(u64::MAX, shortest_path(&network, start, middle).unwrap().cost);
    assert_eq!(None, shortest_path(&network, start, end));
}

#[test]
fn long_chain_route_cost() {
    let mut network = RoadNetwork::new();
    let n: u64 = 100000;
    for id in 0..n {
        network.add_node(Node::new(id, Location::new(0, 0))).unwrap();
    }
    for id in 0..n - 1 {
        network.add_edge(id, id + 1, 1).unwrap();
    }
    let start = network.get_node(0).unwrap();
    let end = network.get_node(99999).unwrap();
    let result = shortest_path(&network, start, end).unwrap();
    assert_eq!(99999, result.cost);
    assert_eq!(100000, result.path.len());
}

#[test]
fn trace_path_follows_predecessors() {
    let mut previous = HashMap::new();
    previous.insert(7, None);
    previous.insert(3, Some(7));
    previous.insert(9, Some(3));
    previous.insert(4, Some(7));
    assert_eq!(vec![7, 3, 9], trace_path(previous.clone(), 9));
    assert_eq!(vec![7], trace_path(previous, 7));
}

#[test]
fn lookup_by_identifier_reports_unknown_nodes() {
    let network = get_test_network();
    assert_eq!(Err(NetworkError::UnknownNode(42)), shortest_path_between(&network, 42, 1));
    assert_eq!(Err(NetworkError::UnknownNode(43)), shortest_path_between(&network, 1, 43));
    let found = shortest_path_between(&network, 1, 4).unwrap().unwrap();
    assert_eq!(35, found.cost);
    assert_eq!(vec![1, 2, 3, 4], found.path);
    assert_eq!(Ok(None), shortest_path_between(&network, 5, 1));
}
