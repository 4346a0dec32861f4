//! The append-only record store: a pre-sized data file, a log of fixed-width
//! index entries, and the two lookups rebuilt from the log.

pub mod mapped_file;
pub mod structured_log;
pub mod bincodedb;
