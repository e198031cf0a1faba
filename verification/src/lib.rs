//! A compiler middle-end for nested node graphs.
//!
//! An author-time graph (nodes with ordered input slots, nested composite
//! bodies, named outputs) is compiled into one flat, execution-ready
//! `ProtoNetwork` per declared output: composite nodes are inlined, identity
//! pass-through nodes are collapsed, unreachable nodes are pruned, symbolic
//! input references are resolved, and every node receives a stable,
//! content-derived identity for downstream caching.

pub mod compiler;
pub mod error;
pub mod flatten;
pub mod graph;
pub mod proto;
pub mod prune;
pub mod redundancy;
pub mod tools;
