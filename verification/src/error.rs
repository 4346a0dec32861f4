//! Errors of the store and of the aggregation layer.

use vstd::prelude::*;

verus! {

/// Why two aggregation results could not be merged.
#[derive(Clone, Copy, Debug, PartialEq, Eq, Structural)]
pub enum MergeError {
    /// The two results do not cover the same number of features.
    UnevenFeatureRanges,
    /// One feature has a different number of buckets on the two sides.
    UnevenRangeVecs,
}

/// What was found wrong with the files of a store.
#[derive(Clone, Copy, Debug, PartialEq, Eq, Structural)]
pub enum Corruption {
    /// The offsets log is not a whole number of entries long.
    LogSize,
    /// The last entry of the offsets log points past the data file.
    UnreachableOffset,
    /// The data file is too short to hold its header.
    MissingHeader,
    /// The header holds an append offset inside the header itself.
    AppendOffsetTooSmall,
    /// The header holds an append offset past the end of the data file.
    AppendOffsetTooLarge,
}

/// Why an operation on the store failed.
#[derive(Clone, Copy, Debug, PartialEq, Eq, Structural)]
pub enum StoreError {
    /// One of the two files of the store is already there.
    AlreadyExists,
    /// The files do not hold a store.
    Corrupt(Corruption),
    /// The record does not fit in what is left of the data file.
    Full,
}

impl MergeError {
    /// The error in words.
    pub fn message(&self) -> (text: String)
        ensures
            text@ == (match *self {
                MergeError::UnevenFeatureRanges => "Tried to merge uneven feature ranges"@,
                MergeError::UnevenRangeVecs => "Tried to merge uneven range vecs"@,
            }),
    {
        match self {
            MergeError::UnevenFeatureRanges => "Tried to merge uneven feature ranges".to_owned(),
            MergeError::UnevenRangeVecs => "Tried to merge uneven range vecs".to_owned(),
        }
    }
}

impl StoreError {
    /// The error in words.
    pub fn message(&self) -> (text: String)
        ensures
            text@ == (match *self {
                StoreError::AlreadyExists => "database files already exist"@,
                StoreError::Corrupt(Corruption::LogSize) => "Expected file to size to be a multiple of 32"@,
                StoreError::Corrupt(Corruption::UnreachableOffset) => "index points at unreachable offset"@,
                StoreError::Corrupt(Corruption::MissingHeader) => "data file has no header"@,
                StoreError::Corrupt(Corruption::AppendOffsetTooSmall) => "Got weird append offset from data file"@,
                StoreError::Corrupt(Corruption::AppendOffsetTooLarge) => "append offset is past the end of the data file"@,
                StoreError::Full => "data file is full"@,
            }),
    {
        match self {
            StoreError::AlreadyExists => "database files already exist".to_owned(),
            StoreError::Corrupt(Corruption::LogSize) => "Expected file to size to be a multiple of 32".to_owned(),
            StoreError::Corrupt(Corruption::UnreachableOffset) => "index points at unreachable offset".to_owned(),
            StoreError::Corrupt(Corruption::MissingHeader) => "data file has no header".to_owned(),
            StoreError::Corrupt(Corruption::AppendOffsetTooSmall) => "Got weird append offset from data file".to_owned(),
            StoreError::Corrupt(Corruption::AppendOffsetTooLarge) => "append offset is past the end of the data file".to_owned(),
            StoreError::Full => "data file is full".to_owned(),
        }
    }
}

} // verus!
