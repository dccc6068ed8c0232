//! Routing engine of a tow-truck dispatch service: a road network of nodes and
//! weighted undirected edges, exact shortest distances between two nodes, and a
//! memo of the distances already asked for; beside it, the helpers that hash
//! passwords and draw session tokens.

pub mod route;
pub mod search;
pub mod graph;
pub mod tow_truck;
pub mod utils;
