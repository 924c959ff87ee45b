//! Core of a CPU-side scene pipeline for a GPU raytracer: vertex
//! deduplication, SAH-binned BVH construction, flattening into wide GPU
//! nodes, mesh batching under a memory budget, and the double-buffered
//! frame handoff between a simulation loop and a render loop.
//!
//! Scalar coordinates throughout this crate are order-preserving unsigned
//! keys: a monotone, bijective encoding of the renderer's native scalars
//! into `u32`, so that comparing two keys with `<` agrees with the
//! renderer's total coordinate order and equality of keys is exact
//! equality of coordinates.
pub mod aabb;
pub mod batch;
pub mod buffers;
pub mod bvh;
pub mod config;
pub mod error;
pub mod flatten;
pub mod handoff;
pub mod indexer;
pub mod mesh_file_parsers;
pub mod model;
pub mod params;
