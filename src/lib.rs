//! Dijkstra shortest-path routing over a directed, weighted graph of
//! hexagonal cells, with long edges that collapse linear chains of unit
//! edges into a single weighted jump.
//!
//! User cells are anchored to cells of the graph (`anchoring`), destination
//! anchors are held in a `DestinationSet`, one search per origin anchor runs
//! in `dijkstra`, and `shortest_path` keys the results by the user's cells.
pub mod error;
pub mod graph;
pub mod path;
pub mod destination_set;
pub mod parent_table;
pub mod dijkstra;
pub mod anchoring;
pub mod shortest_path;
pub mod raster;
