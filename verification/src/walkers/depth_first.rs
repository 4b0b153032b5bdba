//! Iterative depth-first traversal with an explicit stack of open
//! directories.
use crate::checksum::nodes::{Checksum, Dirsummer, EntryChecksum};
use crate::errors::{ChecksumError, FSError};
use crate::walkers::recursive::{is_compound_digest, is_walk_error, recurse};
use crate::zarr::{Zarr, ZarrDirectory, ZarrEntry};
use vstd::prelude::*;

verus! {

/// A directory being traversed: its remaining entries and the accumulator of
/// its children's checksums.
struct OpenDir {
    todo: Vec<ZarrEntry>,
    summer: Dirsummer,
}

impl OpenDir {
    spec fn wf(&self) -> bool {
        &&& self.summer.wf()
        &&& forall|j: int|
            0 <= j < self.todo@.len() ==> (#[trigger] self.todo@[j]).wf()
                && self.todo@[j].entry_path().len() <= usize::MAX
    }

    /// Open a directory: list it and start an empty accumulator.
    fn new(dir: ZarrDirectory) -> (r: Result<OpenDir, FSError>)
        requires
            dir.wf(),
            dir.path@.len() <= usize::MAX,
        ensures
            r matches Ok(od) ==> od.wf(),
            r matches Err(e) ==> is_walk_error(e),
    {
        let summer = dir.dirsummer();
        let todo = match dir.entries() {
            Ok(v) => v,
            Err(e) => {
                return Err(e);
            },
        };
        let mut bounded: Vec<ZarrEntry> = Vec::new();
        let mut items = todo;
        loop
            invariant
                forall|j: int| 0 <= j < items@.len() ==> (#[trigger] items@[j]).wf(),
                forall|j: int|
                    0 <= j < bounded@.len() ==> (#[trigger] bounded@[j]).wf()
                        && bounded@[j].entry_path().len() <= usize::MAX,
            decreases items@.len(),
        {
            if items.len() == 0 {
                break;
            }
            let ghost items0 = items@;
            let e = items.remove(0);
            proof {
                assert(forall|j: int| 0 <= j < items@.len() ==> items@[j] == items0[j + 1]);
            }
            match &e {
                ZarrEntry::File(zf) => {
                    let l = zf.path.as_str().unicode_len();
                },
                ZarrEntry::Directory(zd) => {
                    let l = zd.path.as_str().unicode_len();
                },
            }
            bounded.push(e);
        }
        Ok(OpenDir { todo: bounded, summer })
    }
}

/// Close the remaining open directories by recursion: finish the top frame's
/// entries, fold its checksum into its parent, and repeat.
fn finish_stack(stack: Vec<OpenDir>) -> (r: Result<String, FSError>)
    requires
        stack@.len() > 0,
        forall|j: int| 0 <= j < stack@.len() ==> (#[trigger] stack@[j]).wf(),
    ensures
        r matches Ok(s) ==> is_compound_digest(s@),
        r matches Err(e) ==> is_walk_error(e),
{
    let mut frames = stack;
    loop
        invariant
            frames@.len() > 0,
            forall|j: int| 0 <= j < frames@.len() ==> (#[trigger] frames@[j]).wf(),
        decreases frames@.len(),
    {
        let mut top = frames.pop().unwrap();
        let ghost frames0 = frames@;
        // Finish the frame's remaining entries.
        let mut items = top.todo;
        let mut summer = top.summer;
        loop
            invariant
                summer.wf(),
                forall|j: int|
                    0 <= j < items@.len() ==> (#[trigger] items@[j]).wf()
                        && items@[j].entry_path().len() <= usize::MAX,
            decreases items@.len(),
        {
            if items.len() == 0 {
                break;
            }
            let ghost items0 = items@;
            let entry = items.remove(0);
            proof {
                assert(forall|j: int| 0 <= j < items@.len() ==> items@[j] == items0[j + 1]);
            }
            match entry {
                ZarrEntry::File(zf) => {
                    match zf.into_checksum() {
                        Ok(f) => {
                            summer.push(EntryChecksum::File(f));
                        },
                        Err(e) => {
                            return Err(e);
                        },
                    }
                },
                ZarrEntry::Directory(zd) => {
                    match recurse(zd) {
                        Ok(d) => {
                            summer.push(EntryChecksum::Directory(d));
                        },
                        Err(e) => {
                            return Err(e);
                        },
                    }
                },
            }
        }
        let d = summer.checksum();
        if frames.len() == 0 {
            return Ok(d.into_checksum());
        }
        let mut parent = frames.pop().unwrap();
        parent.summer.push(EntryChecksum::Directory(d));
        frames.push(parent);
    }
}

/// Traverse and checksum a Zarr depth-first with an explicit stack: each
/// directory's checksum is computed as soon as the checksums of all of its
/// entries are known.  A non-directory root is rejected; otherwise the
/// result is the root's compound digest or the first filesystem error met.
pub fn depth_first_checksum(zarr: &Zarr) -> (r: Result<String, ChecksumError>)
    ensures
        r matches Ok(s) ==> is_compound_digest(s@),
        r matches Err(e) ==> e matches ChecksumError::FSError(f) && (is_walk_error(f) || (
        f matches FSError::NotDirRootError { path } && path@ == zarr.path@)),
{
    if !zarr.root_is_directory() {
        return Err(
            ChecksumError::FSError(FSError::NotDirRootError { path: zarr.path.clone() }),
        );
    }
    let root = zarr.root_dir();
    let rootlen = root.path.as_str().unicode_len();
    let first = match OpenDir::new(root) {
        Ok(od) => od,
        Err(e) => {
            return Err(ChecksumError::FSError(e));
        },
    };
    let mut dirstack: Vec<OpenDir> = Vec::new();
    dirstack.push(first);
    let mut fuel: u64 = u64::MAX;
    loop
        invariant
            dirstack@.len() > 0,
            forall|j: int| 0 <= j < dirstack@.len() ==> (#[trigger] dirstack@[j]).wf(),
        decreases fuel,
    {
        if fuel == 0 {
            // The iteration budget is spent (never in practice): close the
            // remaining frames by recursion instead.
            match finish_stack(dirstack) {
                Ok(s) => {
                    return Ok(s);
                },
                Err(e) => {
                    return Err(ChecksumError::FSError(e));
                },
            }
        }
        fuel = fuel - 1;
        let mut top = dirstack.pop().unwrap();
        if top.todo.len() == 0 {
            let d = top.summer.checksum();
            if dirstack.len() == 0 {
                return Ok(d.into_checksum());
            }
            let mut parent = dirstack.pop().unwrap();
            parent.summer.push(EntryChecksum::Directory(d));
            dirstack.push(parent);
        } else {
            let ghost todo0 = top.todo@;
            let entry = top.todo.remove(0);
            proof {
                assert(forall|j: int| 0 <= j < top.todo@.len() ==> top.todo@[j] == todo0[j + 1]);
            }
            match entry {
                ZarrEntry::File(zf) => {
                    match zf.into_checksum() {
                        Ok(f) => {
                            top.summer.push(EntryChecksum::File(f));
                            dirstack.push(top);
                        },
                        Err(e) => {
                            return Err(ChecksumError::FSError(e));
                        },
                    }
                },
                ZarrEntry::Directory(zd) => {
                    dirstack.push(top);
                    match OpenDir::new(zd) {
                        Ok(od) => {
                            dirstack.push(od);
                        },
                        Err(e) => {
                            return Err(ChecksumError::FSError(e));
                        },
                    }
                },
            }
        }
    }
}

} // verus!
