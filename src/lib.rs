//! Similarity graphs over labelled entities: construction from pairwise
//! scores, connected components, representative selection and edge-list
//! export.
//!
//! Scores are measured in millionths (`1_000_000` stands for a similarity of
//! exactly `1.0`), which is also the precision of the exported edge list. The
//! caller computes them (cosine similarity of the entities' feature vectors)
//! and hands them over as a matrix; everything from there on is decided here.

pub mod cluster;
pub mod export;
pub mod features;
pub mod graph;
mod store;
mod unionfind;
