//! What can go wrong in the snapshot store.

use vstd::prelude::*;

verus! {

/// An error of the snapshot store.
#[derive(Debug, Clone, PartialEq, Eq)]
pub enum SnapshotError {
    /// The file system refused something at `path`.
    Io { path: String, reason: String },
    /// A record on disk could not be read or written as text.
    Format(String),
    /// No blob is stored under this hash.
    MissingBlob(String),
    /// No manifest is stored under this id.
    MissingManifest(String),
}

} // verus!
