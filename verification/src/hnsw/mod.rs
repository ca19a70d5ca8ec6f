//! Hierarchical navigable small-world graph over opaque vectors.
//!
//! The graph stores, for every node, one neighbor list per layer it lives
//! in. Similarity between vectors is supplied by the caller as a scoring
//! function returning an integer key (higher is more similar), so the graph
//! logic is independent of how vectors are represented and compared.

pub mod graph;
pub mod tombstone;
pub mod search;
pub mod edit;
pub mod insert;
pub mod reindex;
pub mod batch;
pub mod check;
