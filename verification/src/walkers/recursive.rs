//! Depth-first recursive traversal: each directory's checksum is computed as
//! soon as the checksums of all of its entries are known.
pub use crate::checksum::nodes::is_compound_digest;

use crate::checksum::nodes::{Checksum, DirChecksum, EntryChecksum};
use crate::errors::{ChecksumError, FSError};
use crate::text::dec_str;
use crate::util::is_md5_hex;
use crate::zarr::{Zarr, ZarrDirectory, ZarrEntry};
use vstd::prelude::*;

verus! {

/// An error a traversal of an existing root can surface: everything but the
/// not-a-directory complaint.
pub open spec fn is_walk_error(e: FSError) -> bool {
    ||| e is ReaddirError
    ||| e is StatError
    ||| e is MD5FileError
    ||| e is UndecodableName
}

/// Checksum the directory `zdir` by recursion: list it, checksum each file,
/// recurse into each subdirectory, and combine.
pub fn recurse(zdir: ZarrDirectory) -> (r: Result<DirChecksum, FSError>)
    requires
        zdir.wf(),
        zdir.path@.len() <= usize::MAX,
    ensures
        r matches Ok(d) ==> d.wf() && is_compound_digest(d@.checksum) && d@.relpath
            == zdir.empty_summer().relpath,
        r matches Err(e) ==> is_walk_error(e),
    decreases usize::MAX - zdir.path@.len(),
{
    let entries = match zdir.entries() {
        Ok(v) => v,
        Err(e) => {
            return Err(e);
        },
    };
    let ghost zpath = zdir.path@;
    let mut nodes: Vec<EntryChecksum> = Vec::new();
    let mut items = entries;
    loop
        invariant
            zdir.path@ == zpath,
            forall|j: int|
                0 <= j < items@.len() ==> (#[trigger] items@[j]).wf() && items@[j].entry_path().len()
                    >= zpath.len() + 1,
            forall|j: int| 0 <= j < nodes@.len() ==> (#[trigger] nodes@[j]).wf(),
            zpath.len() <= usize::MAX,
        decreases items@.len(),
    {
        if items.len() == 0 {
            break;
        }
        let ghost items0 = items@;
        let entry = items.remove(0);
        proof {
            assert(forall|j: int| 0 <= j < items@.len() ==> items@[j] == items0[j + 1]);
        }
        match entry {
            ZarrEntry::File(zf) => {
                match zf.into_checksum() {
                    Ok(f) => {
                        nodes.push(EntryChecksum::File(f));
                    },
                    Err(e) => {
                        return Err(e);
                    },
                }
            },
            ZarrEntry::Directory(zd) => {
                let sublen = zd.path.as_str().unicode_len();
                proof {
                    assert(zd.path@.len() >= zpath.len() + 1);
                }
                match recurse(zd) {
                    Ok(d) => {
                        nodes.push(EntryChecksum::Directory(d));
                    },
                    Err(e) => {
                        return Err(e);
                    },
                }
            },
        }
    }
    let d = zdir.get_checksum(nodes);
    proof {
        crate::checksum::nodes::lemma_summer_after_relpath(
            zdir.empty_summer(),
            nodes@.map_values(|c: EntryChecksum| c@),
        );
    }
    Ok(d)
}

/// Traverse and checksum a Zarr directory tree recursively.  A non-directory
/// root is rejected; otherwise the result is the root's compound digest or
/// the first filesystem error met.
pub fn recursive_checksum(zarr: &Zarr) -> (r: Result<String, ChecksumError>)
    ensures
        r matches Ok(s) ==> is_compound_digest(s@),
        r matches Err(e) ==> e matches ChecksumError::FSError(f) && (is_walk_error(f) || (
        f matches FSError::NotDirRootError { path } && path@ == zarr.path@)),
{
    if !zarr.root_is_directory() {
        return Err(
            ChecksumError::FSError(FSError::NotDirRootError { path: zarr.path.clone() }),
        );
    }
    let root = zarr.root_dir();
    let rootlen = root.path.as_str().unicode_len();
    match recurse(root) {
        Ok(d) => Ok(d.into_checksum()),
        Err(e) => Err(ChecksumError::FSError(e)),
    }
}

} // verus!
