//! Retrieval engine for a recipe corpus: an append-only record store over a
//! pre-sized data file and a fixed-width offsets log, packed feature vectors,
//! cursor-paginated top-K selection and range-bucket aggregation.
//!
//! Feature vectors are little-endian. The two files of a store hold their
//! integers in the byte order of the machine that made them, so a store
//! does not move between machines of different byte order.

pub mod bytes;
pub mod database;
pub mod error;
pub mod feature;
pub mod index;
pub mod model;
pub mod options;
pub mod search;
