//! An embedded vector similarity store: records with fixed-dimension
//! embeddings, exact top-k ranking, a snapshot codec and a tenant cache.
//!
//! Embedding components and similarity scores are IEEE-754 single-precision
//! values carried as their raw bit patterns (`u32`), so that every decision
//! the store makes about them (ordering, thresholds, storage layout,
//! encoding) is expressed over integers.

pub mod codec;
pub mod constants;
pub mod engine;
pub mod error;
pub mod model;
pub mod score;
pub mod tenant;
pub mod topk;
