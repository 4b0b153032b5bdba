//! Error types surfaced by the checksum computations.
use crate::zarr::EntryPath;
use vstd::prelude::*;

verus! {

/// Error returned when something goes wrong while interacting with the
/// filesystem.
#[derive(Clone, Debug, PartialEq, Eq)]
pub enum FSError {
    /// Failure to open or read a file while computing its MD5 digest; carries
    /// the file's path.
    MD5FileError { path: String },
    /// Failure to retrieve a file's or directory's metadata; carries the path.
    StatError { path: String },
    /// Failure to list a directory; carries the directory's path.
    ReaddirError { path: String },
    /// A directory entry whose basename is not valid UTF-8; carries the
    /// entry's path.
    UndecodableName { path: String },
    /// The top-level argument of a traversal is not a directory; carries the
    /// argument.
    NotDirRootError { path: String },
}

/// Error for failure to insert into a
/// [`ChecksumTree`][crate::checksum::ChecksumTree] due to invalid input.
#[derive(Clone, Debug, PartialEq, Eq)]
pub enum ChecksumTreeError {
    /// A node would be added below a path that is already present as a file;
    /// carries the conflicting prefix.
    PathTypeConflict { path: EntryPath },
    /// A node would be added at a path that is already occupied; carries the
    /// path.
    DoubleAdd { path: EntryPath },
}

/// The sum of [`ChecksumTreeError`] and [`FSError`]: everything a traversal
/// can report.
#[derive(Clone, Debug, PartialEq, Eq)]
pub enum ChecksumError {
    ChecksumTreeError(ChecksumTreeError),
    FSError(FSError),
}

/// Error returned when constructing an [`EntryPath`] from an empty, absolute,
/// or non-normalized relative path; carries the offending path.
#[derive(Clone, Debug, PartialEq, Eq)]
pub struct EntryPathError(pub String);

/// Error returned when a single path component is empty, is `.` or `..`, or
/// contains a separator; carries the offending name.
#[derive(Clone, Debug, PartialEq, Eq)]
pub struct EntryNameError(pub String);

/// Error returned when a path is not lexically a descendant of a base path,
/// or what remains below the base does not form a well-formed relative path;
/// carries both paths.
#[derive(Clone, Debug, PartialEq, Eq)]
pub struct RelativePathError {
    pub path: String,
    pub basepath: String,
}

} // verus!
