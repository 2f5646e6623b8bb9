//! An in-memory undirected labeled graph with identity-addressed nodes and
//! edges, neighbor lookup, breadth-first shortest paths and depth-first
//! reachability.
//!
//! Node and edge identifiers are `u64` values; the two namespaces are
//! independent. Payloads are caller-supplied generic data, opaque to the
//! library.

pub mod graph;
pub mod traversal;
pub mod utils;
