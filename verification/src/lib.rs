//! A vector database core: the catalog of sources and their vector bases,
//! a hierarchical navigable small-world graph over opaque vectors, and the
//! request-level rules of the server that sits on top of them.

pub mod stamps;
pub mod metrics;
pub mod data;
pub mod catalog;
pub mod config;
pub mod validate;
pub mod dto;
pub mod args;
pub mod errors;
pub mod service;
pub mod backup;
pub mod page;
pub mod ranking;
pub mod hnsw;
pub mod laws;
pub mod ingest;
pub mod digest;
