//! Road-network route planning: a directed multigraph of road junctions with
//! forward and reverse adjacency, its strongly connected components, and
//! minimum-cost paths between junctions.

pub mod geo_utils;
pub mod road_network;
pub mod connected_components;
pub mod shortest_path;
pub mod osm_reader;
pub mod road_network_builder;
