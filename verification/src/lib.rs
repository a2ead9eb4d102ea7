//! An in-memory vector database.
//!
//! Each collection stores fixed-dimension vectors of bounded fixed-point
//! components (`i32`), with optional JSON-like metadata, under string
//! identifiers. Nearest-neighbour search runs over a per-collection HNSW
//! proximity graph under one of three distance metrics, optionally filtered
//! by a predicate tree over the metadata.

pub mod collection;
pub mod config;
pub mod database;
pub mod errors;
pub mod filter;
pub mod graph;
pub mod hnsw;
pub mod laws;
pub mod meta;
pub mod metric;
pub mod quant;
pub mod store;
