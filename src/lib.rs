//! Approximate nearest-neighbour search over a hierarchical navigable small
//! world (HNSW) graph, with the proximity graph and distance rules it rests on.
//!
//! Vector components are IEEE-754 single-precision values held as their bit
//! patterns (`u32`); the arithmetic on them is supplied through
//! [`distance::VectorSpace`], while every decision of the engine is verified.

pub mod distance;
pub mod graph;
pub mod hnsw;
pub mod settings;
