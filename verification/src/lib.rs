//! A small in-memory vector database: a store of fixed-dimension vectors keyed
//! by id with tombstone deletes, the recall measure used to grade search
//! results, and the seeded generator behind the synthetic datasets.
pub mod dataset;
pub mod store;
pub mod eval;
pub mod distance;
