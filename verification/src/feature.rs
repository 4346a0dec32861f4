//! Packed per-document feature vectors and their range-bucket aggregation.

pub mod value;
pub mod vector;
pub mod collector;
pub mod laws;
