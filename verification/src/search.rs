//! Sorted top-K retrieval with cursors, and aggregation over packed
//! 16-bit features.

pub mod top_collector;
pub mod laws;
pub mod collector;
