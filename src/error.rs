//! The errors of archive reading and writing.
use vstd::prelude::*;

verus! {

/// What can go wrong while reading or writing an archive.
#[derive(Debug, Clone, Copy, PartialEq, Eq, Structural)]
pub enum HpkError {
    /// The archive does not start with `BPUL`.
    InvalidHeader,
    /// A directory entry's name is not valid UTF-8, or cannot be stored.
    InvalidDirEntryName,
    /// A directory entry refers to fragment 0, or past the fragment table.
    InvalidFragmentIndex,
    /// The data ends before a record or a range it refers to.
    UnexpectedEof,
    /// A seek to a negative or overflowing position.
    InvalidInput,
    /// A value does not fit the 32-bit fields of the format.
    TooLarge,
}

pub type HpkResult<T> = Result<T, HpkError>;

} // verus!
