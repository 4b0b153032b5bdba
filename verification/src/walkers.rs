//! Traversal strategies over an on-disk Zarr.  Each checksumming function
//! returns the store's compound digest or the first error observed.
mod breadth_first;
mod depth_first;
mod jobstack;
mod recursive;
mod steps;

pub use breadth_first::breadth_first_checksum;
pub use depth_first::depth_first_checksum;
pub use jobstack::{JobStack, PopOutcome};
pub use recursive::{is_compound_digest, recurse, recursive_checksum};
pub use steps::{fastio_step, DirectoryAcc, Output};
