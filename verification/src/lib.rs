//! Test-result repository over a typed property graph.
//!
//! Outcomes of test executions are recorded as vertices and edges of a graph
//! store, named entities are interned through an ordered name index, and the
//! recorded history is aggregated into a matrix of pass/fail counts.

pub mod client;
pub mod descent;
pub mod import;
pub mod index;
pub mod kinds;
pub mod matrix;
pub mod name_index;
pub mod names;
pub mod protocol;
pub mod queries;
pub mod repo;
pub mod resolve;
pub mod search;
pub mod store;
