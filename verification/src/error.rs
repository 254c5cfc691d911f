//! Failures of a sorting run and the exit status each one maps to.

use vstd::prelude::*;

verus! {

/// Everything that can go wrong while a directory is sorted.
#[derive(Clone, Copy, Debug, PartialEq, Eq, Structural)]
pub enum SortError {
    /// The current directory could not be determined.
    CurrentDir,
    /// A directory could not be opened for listing.
    DirectoryRead,
    /// A file extension is not valid text.
    ExtensionDecode,
    /// The working directory could not be changed.
    ChangeDir,
    /// A folder for an extension could not be created.
    DirectoryCreate,
    /// A path has no file name.
    FileName,
    /// A path is not valid text.
    PathText,
    /// A file could not be copied, or its destination could not be built.
    Copy,
    /// A copied file could not be removed from its old place.
    Delete,
    /// The platform has no known path separator.
    UnsupportedOs,
}

impl SortError {
    /// Only a failed deletion lets the run go on.
    pub open spec fn fatal(self) -> bool {
        self != SortError::Delete
    }

    /// The exit status of each failure; a failed deletion has none.
    pub open spec fn spec_exit_code(self) -> Option<u8> {
        match self {
            SortError::CurrentDir => Some(1u8),
            SortError::DirectoryRead => Some(2u8),
            SortError::ExtensionDecode => Some(3u8),
            SortError::ChangeDir => Some(4u8),
            SortError::DirectoryCreate => Some(5u8),
            SortError::FileName => Some(6u8),
            SortError::PathText => Some(7u8),
            SortError::Copy => Some(8u8),
            SortError::Delete => None,
            SortError::UnsupportedOs => Some(201u8),
        }
    }

    /// Whether the run has to stop on this failure.
    pub fn is_fatal(&self) -> (r: bool)
        ensures
            r == self.fatal(),
    {
        match self {
            SortError::Delete => false,
            _ => true,
        }
    }

    /// The status the process exits with, or `None` where the run goes on.
    pub fn exit_code(&self) -> (r: Option<u8>)
        ensures
            r == self.spec_exit_code(),
            r.is_some() == self.fatal(),
    {
        match self {
            SortError::CurrentDir => Some(1u8),
            SortError::DirectoryRead => Some(2u8),
            SortError::ExtensionDecode => Some(3u8),
            SortError::ChangeDir => Some(4u8),
            SortError::DirectoryCreate => Some(5u8),
            SortError::FileName => Some(6u8),
            SortError::PathText => Some(7u8),
            SortError::Copy => Some(8u8),
            SortError::Delete => None,
            SortError::UnsupportedOs => Some(201u8),
        }
    }
}

} // verus!
