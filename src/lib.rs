//! An in-memory hierarchical navigable small-world (HNSW) graph index for
//! approximate nearest-neighbour search, with its snapshot writer.

pub mod distance;
pub mod hnsw;
pub mod storage;
