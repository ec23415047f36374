//! The error taxonomy of the storage core. Every operation reports a typed
//! failure; the caller is responsible for display.

use vstd::prelude::*;

verus! {

/// A typed failure of a storage or rendering operation.
#[derive(Clone, Debug, PartialEq, Eq)]
pub enum FsError {
    /// The entry addressed by the operation does not exist.
    NotFound,
    /// The target of a create or rename already exists.
    AlreadyExists,
    /// A filename misses an extension or carries one outside the allow-list.
    /// Carries a human-readable description.
    InvalidExtension(String),
    /// A caller-supplied relative path would resolve outside the storage root.
    PathEscapesRoot,
    /// The user's home location cannot be determined.
    StorageUnavailable,
    /// An underlying operating-system failure, with its description.
    IoError(String),
    /// File content could not be decoded as text.
    EncodingError,
    /// The external document renderer reported a failure; carries its
    /// diagnostic output verbatim.
    RenderError(String),
    /// The external document renderer could not be started.
    ProcessLaunchError(String),
}

impl FsError {
    /// A human-readable message for this failure.
    pub fn message(&self) -> (r: String)
        ensures
            match self {
                FsError::NotFound => r@ == "entry does not exist"@,
                FsError::AlreadyExists => r@ == "entry already exists"@,
                FsError::InvalidExtension(m) => r@ == m@,
                FsError::PathEscapesRoot => r@ == "path escapes the storage root"@,
                FsError::StorageUnavailable => r@ == "unable to determine home directory"@,
                FsError::IoError(m) => r@ == m@,
                FsError::EncodingError => r@ == "file content is not valid text"@,
                FsError::RenderError(m) => r@ == m@,
                FsError::ProcessLaunchError(m) => r@ == m@,
            },
    {
        match self {
            FsError::NotFound => String::from_str("entry does not exist"),
            FsError::AlreadyExists => String::from_str("entry already exists"),
            FsError::InvalidExtension(m) => m.clone(),
            FsError::PathEscapesRoot => String::from_str("path escapes the storage root"),
            FsError::StorageUnavailable => String::from_str("unable to determine home directory"),
            FsError::IoError(m) => m.clone(),
            FsError::EncodingError => String::from_str("file content is not valid text"),
            FsError::RenderError(m) => m.clone(),
            FsError::ProcessLaunchError(m) => m.clone(),
        }
    }
}

} // verus!
