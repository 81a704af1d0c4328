//! An in-memory vector store: named collections of fixed-dimension vectors
//! with optional structured metadata, searched by vector similarity, by
//! metadata-presence filters, or by both, and persisted as a single
//! binary snapshot.

pub mod bitmaps;
pub mod db;
pub mod errors;
pub mod id_generator;
pub mod laws;
pub mod metadata;
pub mod similarity;
pub mod snapshot;
