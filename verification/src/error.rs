//! The error kinds of the storage core.

use vstd::prelude::*;

verus! {

/// What can go wrong below the iterators.
#[derive(Debug, Clone, Copy, PartialEq, Eq, Structural)]
pub enum StorageError {
    /// The bytes at hand are no encoding of what was to be read from them.
    Format,
    /// A read went beyond what the file holds, or the file holds nothing.
    Io,
    /// An iterator was advanced after one of its steps had failed.
    Iterator,
    /// What was to be written is larger than the format has room for.
    TooLarge,
}

impl StorageError {
    /// What went wrong, in words.
    pub open spec fn description(self) -> Seq<char> {
        match self {
            StorageError::Format => "malformed block, index or table"@,
            StorageError::Io => "read beyond the end of the file"@,
            StorageError::Iterator => "has errored, can't do next()"@,
            StorageError::TooLarge => "table too large for its format"@,
        }
    }

    /// What went wrong, in words.
    pub fn describe(&self) -> (s: &'static str)
        ensures
            s@ == self.description(),
    {
        match self {
            StorageError::Format => "malformed block, index or table",
            StorageError::Io => "read beyond the end of the file",
            StorageError::Iterator => "has errored, can't do next()",
            StorageError::TooLarge => "table too large for its format",
        }
    }
}

} // verus!
