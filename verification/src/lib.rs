//! Small in-memory graphs: directed, undirected and labelled multi-edge
//! graphs over any element type, with reachability, simple-path enumeration
//! and a DOT-like text form.

pub mod element;
pub mod text;
pub mod search;
pub mod rugraph;
pub mod dot;
pub mod digraph;
pub mod graph;
pub mod multidigraph;
pub mod laws;
pub mod round_trip;
pub mod round_trip_multi;
