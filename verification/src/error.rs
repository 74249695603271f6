//! The reasons for which an operation is refused. A refusal is a value:
//! the filesystem stays usable after it.

use vstd::prelude::*;
use crate::device::Disk;

verus! {

/// Why an operation was refused.
#[derive(Debug, PartialEq, Eq, Copy, Clone, Structural)]
pub enum FsError {
    /// The path names nothing.
    NotFound,
    /// A directory was needed and something else was found.
    NotADirectory,
    /// A file was needed and something else was found.
    NotAFile,
    /// The name is already taken in its directory.
    AlreadyExists,
    /// The directory to remove still has entries.
    DirectoryNotEmpty,
    /// The root directory cannot be removed.
    CannotRemoveRoot,
    /// No inode, or no data block, is free.
    ResourceExhausted,
    /// The directory has no free slot.
    DirectoryFull,
    /// The path has no separator where one is needed.
    InvalidPath,
    /// The image refers to an inode or a block outside its own bounds.
    Corrupted,
}

/// How the result of an operation that changes the image relates to what
/// the operation means: on success the image is the one that `meant` gives;
/// on failure the error is the one that `meant` gives, and the image is as
/// before.
pub open spec fn outcome(
    result: Result<(), FsError>,
    meant: Result<Disk, FsError>,
    before: Disk,
    after: Disk,
) -> bool {
    match result {
        Ok(()) => meant == Ok::<Disk, FsError>(after),
        Err(e) => meant == Err::<Disk, FsError>(e) && after == before,
    }
}

} // verus!
