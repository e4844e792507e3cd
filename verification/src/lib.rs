//! An in-memory, directed, multi-relation graph engine.
//!
//! A [`graph::Graph`] stores nodes and relations (typed edge kinds, each
//! holding its own set of connecting edges), with heterogeneous payloads
//! attached to both. Forward and backward adjacency indices are kept in
//! agreement with every relation's edge set, and the degree queries are
//! answered from them in constant time.

pub mod edge;
pub mod errors;
pub mod graph;
pub mod id;
pub mod model;
pub mod node;
mod pairing;
pub mod relation;
