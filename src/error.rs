//! Errors reported while reading a dump.
use vstd::prelude::*;

verus! {

/// Failure while reading the entries of a partition item.
#[derive(Debug, Clone, Copy, PartialEq, Eq, Structural)]
pub enum PartError {
    /// Fewer bytes remain than a tag or a length prefix promised.
    Truncated,
    /// An entry tag that is neither End, Directory nor File.
    UnknownItem(u8),
}

/// Failure while reading a dump.
#[derive(Debug, Clone, Copy, PartialEq, Eq, Structural)]
pub enum ReaderError {
    /// The data does not start with the magic prefix.
    NotFirmwareDump,
    /// Fewer bytes remain than a tag or a length prefix promised.
    Truncated,
    /// A top-level item tag that is neither End nor Partition.
    UnknownItem(u8),
    /// A known item tag with a format version this reader does not know.
    UnknownVersion(u8, u8),
    /// An unknown entry tag inside a partition item that was being skipped.
    UnknownEntry(u8),
}

/// The error a dump read reports for a failure inside a partition's entries.
pub open spec fn part_to_reader(e: PartError) -> ReaderError {
    match e {
        PartError::Truncated => ReaderError::Truncated,
        PartError::UnknownItem(t) => ReaderError::UnknownEntry(t),
    }
}

impl ReaderError {
    pub fn from_part(e: PartError) -> (r: ReaderError)
        ensures
            r == part_to_reader(e),
    {
        match e {
            PartError::Truncated => ReaderError::Truncated,
            PartError::UnknownItem(t) => ReaderError::UnknownEntry(t),
        }
    }

    /// A short description of the error.
    pub fn message(&self) -> (r: &'static str) {
        match self {
            ReaderError::NotFirmwareDump => "the specified data is not a firmware dump",
            ReaderError::Truncated => "the dump ends before an item is complete",
            ReaderError::UnknownItem(_) => "unknown item type",
            ReaderError::UnknownVersion(_, _) => "unknown item version",
            ReaderError::UnknownEntry(_) => "unknown partition entry type",
        }
    }
}

impl PartError {
    /// A short description of the error.
    pub fn message(&self) -> (r: &'static str) {
        match self {
            PartError::Truncated => "the partition ends before an entry is complete",
            PartError::UnknownItem(_) => "unknown item type",
        }
    }
}

} // verus!
