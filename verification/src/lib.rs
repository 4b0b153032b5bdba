//! Computation of Dandi Zarr checksums: a Merkle-style digest over a
//! directory tree, built from per-file MD5 digests and a canonical JSON
//! listing per directory.
pub mod checksum;
pub mod checksum_json;
pub mod errors;
pub mod text;
mod util;
pub mod walkers;
pub mod zarr;

pub use errors::{
    ChecksumError, ChecksumTreeError, EntryNameError, EntryPathError, FSError, RelativePathError,
};
pub use walkers::{
    breadth_first_checksum, depth_first_checksum, is_compound_digest, recursive_checksum,
};
