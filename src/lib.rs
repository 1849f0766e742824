//! Backfilling of block timestamps from a chain node into a durable store.
//!
//! The library holds the decisions of the backfill: where a run resumes,
//! which block comes next, when the buffer of fetched records is flushed,
//! and which outcomes of a batch insert are benign. The chain node and the
//! store are driven by the caller, which hands the library plain values.
pub mod record;
pub mod store;
pub mod pipeline;
