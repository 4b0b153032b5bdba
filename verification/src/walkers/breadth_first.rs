//! Breadth-first traversal: visit directories in queue order, collect every
//! file's checksum, and feed them to a checksum tree.
use crate::checksum::nodes::FileChecksum;
use crate::checksum::try_compile_checksum;
use crate::errors::{ChecksumError, FSError};
use crate::walkers::recursive::{is_compound_digest, is_walk_error};
use crate::zarr::{Zarr, ZarrDirectory, ZarrEntry};
use vstd::prelude::*;

verus! {

/// Every entry in the worklist is well formed and its on-disk path fits.
pub(crate) open spec fn entries_ok(q: Seq<ZarrEntry>) -> bool {
    forall|j: int|
        0 <= j < q.len() ==> (#[trigger] q[j]).wf() && q[j].entry_path().len() <= usize::MAX
}

/// Collect the checksums of every file under each entry of `queue`, in
/// depth-first order, appending to `acc`.
fn collect_files(queue: Vec<ZarrEntry>, acc: &mut Vec<FileChecksum>) -> (r: Result<(), FSError>)
    requires
        entries_ok(queue@),
        forall|j: int| 0 <= j < old(acc)@.len() ==> (#[trigger] old(acc)@[j]).inv(),
    ensures
        forall|j: int| 0 <= j < final (acc)@.len() ==> (#[trigger] final (acc)@[j]).inv(),
        r matches Err(e) ==> is_walk_error(e),
{
    let mut items = queue;
    loop
        invariant
            entries_ok(items@),
            forall|j: int| 0 <= j < acc@.len() ==> (#[trigger] acc@[j]).inv(),
        decreases items@.len(),
    {
        if items.len() == 0 {
            break;
        }
        let ghost items0 = items@;
        let entry = items.remove(0);
        proof {
            assert(forall|j: int| 0 <= j < items@.len() ==> items@[j] == items0[j + 1]);
        }
        match entry {
            ZarrEntry::File(zf) => {
                match zf.into_checksum() {
                    Ok(f) => {
                        acc.push(f);
                    },
                    Err(e) => {
                        return Err(e);
                    },
                }
            },
            ZarrEntry::Directory(zd) => {
                match collect_dir(zd, acc) {
                    Ok(()) => {},
                    Err(e) => {
                        return Err(e);
                    },
                }
            },
        }
    }
    Ok(())
}

/// Collect the checksums of every file under one directory.
fn collect_dir(zd: ZarrDirectory, acc: &mut Vec<FileChecksum>) -> (r: Result<(), FSError>)
    requires
        zd.wf(),
        zd.path@.len() <= usize::MAX,
        forall|j: int| 0 <= j < old(acc)@.len() ==> (#[trigger] old(acc)@[j]).inv(),
    ensures
        forall|j: int| 0 <= j < final (acc)@.len() ==> (#[trigger] final (acc)@[j]).inv(),
        r matches Err(e) ==> is_walk_error(e),
    decreases usize::MAX - zd.path@.len(),
{
    let ghost zpath = zd.path@;
    let entries = match zd.entries() {
        Ok(v) => v,
        Err(e) => {
            return Err(e);
        },
    };
    let mut items = entries;
    loop
        invariant
            zpath.len() <= usize::MAX,
            zd.path@ == zpath,
            forall|j: int|
                0 <= j < items@.len() ==> (#[trigger] items@[j]).wf() && items@[j].entry_path().len()
                    >= zpath.len() + 1,
            forall|j: int| 0 <= j < acc@.len() ==> (#[trigger] acc@[j]).inv(),
        decreases items@.len(),
    {
        if items.len() == 0 {
            break;
        }
        let ghost items0 = items@;
        let entry = items.remove(0);
        proof {
            assert(forall|j: int| 0 <= j < items@.len() ==> items@[j] == items0[j + 1]);
        }
        match entry {
            ZarrEntry::File(zf) => {
                match zf.into_checksum() {
                    Ok(f) => {
                        acc.push(f);
                    },
                    Err(e) => {
                        return Err(e);
                    },
                }
            },
            ZarrEntry::Directory(sub) => {
                let sublen = sub.path.as_str().unicode_len();
                match collect_dir(sub, acc) {
                    Ok(()) => {},
                    Err(e) => {
                        return Err(e);
                    },
                }
            },
        }
    }
    Ok(())
}

/// Traverse and checksum a Zarr breadth-first: expand directories in queue
/// order, emit file checksums, and combine them through a checksum tree.  A
/// non-directory root is rejected; a structural tree error (never expected
/// of a real directory listing) is surfaced as such.
pub fn breadth_first_checksum(zarr: &Zarr) -> (r: Result<String, ChecksumError>)
    ensures
        r matches Ok(s) ==> is_compound_digest(s@) && exists|t: crate::checksum::tree::ChecksumTree|
            (#[trigger] t.wf()) && s@ == t.digest(),
        r matches Err(ChecksumError::FSError(f)) ==> is_walk_error(f) || (
        f matches FSError::NotDirRootError { path } && path@ == zarr.path@),
{
    if !zarr.root_is_directory() {
        return Err(
            ChecksumError::FSError(FSError::NotDirRootError { path: zarr.path.clone() }),
        );
    }
    let root = zarr.root_dir();
    let rootlen = root.path.as_str().unicode_len();
    let mut queue: Vec<ZarrEntry> = Vec::new();
    let ghost rootg = root;
    queue.push(ZarrEntry::Directory(root));
    proof {
        assert(queue@ =~= seq![ZarrEntry::Directory(rootg)]);
        assert(queue@[0].entry_path() == rootg.path@);
        assert(rootg.path@.len() == rootlen as nat);
        assert(entries_ok(queue@));
    }
    let mut files: Vec<FileChecksum> = Vec::new();
    let mut fuel: u64 = u64::MAX;
    loop
        invariant
            entries_ok(queue@),
            forall|j: int| 0 <= j < files@.len() ==> (#[trigger] files@[j]).inv(),
        decreases fuel,
    {
        if queue.len() == 0 {
            break;
        }
        if fuel == 0 {
            // The iteration budget is spent (never in practice): finish the
            // remaining worklist by recursion instead.
            match collect_files(queue, &mut files) {
                Ok(()) => {
                    break;
                },
                Err(e) => {
                    return Err(ChecksumError::FSError(e));
                },
            }
        }
        fuel = fuel - 1;
        let ghost q0 = queue@;
        let entry = queue.remove(0);
        proof {
            assert(forall|j: int| 0 <= j < queue@.len() ==> queue@[j] == q0[j + 1]);
        }
        match entry {
            ZarrEntry::File(zf) => {
                match zf.into_checksum() {
                    Ok(f) => {
                        files.push(f);
                    },
                    Err(e) => {
                        return Err(ChecksumError::FSError(e));
                    },
                }
            },
            ZarrEntry::Directory(zd) => {
                let ghost dpath = zd.path@;
                let entries = match zd.entries() {
                    Ok(v) => v,
                    Err(e) => {
                        return Err(ChecksumError::FSError(e));
                    },
                };
                let mut sub = entries;
                loop
                    invariant
                        entries_ok(queue@),
                        dpath.len() <= usize::MAX,
                        forall|j: int|
                            0 <= j < sub@.len() ==> (#[trigger] sub@[j]).wf()
                                && sub@[j].entry_path().len() >= dpath.len() + 1,
                    decreases sub@.len(),
                {
                    if sub.len() == 0 {
                        break;
                    }
                    let ghost sub0 = sub@;
                    let child = sub.remove(0);
                    proof {
                        assert(forall|j: int| 0 <= j < sub@.len() ==> sub@[j] == sub0[j + 1]);
                    }
                    match &child {
                        ZarrEntry::File(zf) => {
                            let l = zf.path.as_str().unicode_len();
                        },
                        ZarrEntry::Directory(zd2) => {
                            let l = zd2.path.as_str().unicode_len();
                        },
                    }
                    queue.push(child);
                }
            },
        }
    }
    match try_compile_checksum(wrap_ok(files)) {
        Ok(s) => Ok(s),
        Err(e) => Err(e),
    }
}

/// Wrap each checksum as a success, for the tree builder.
fn wrap_ok(files: Vec<FileChecksum>) -> (r: Vec<Result<FileChecksum, FSError>>)
    requires
        forall|j: int| 0 <= j < files@.len() ==> (#[trigger] files@[j]).inv(),
    ensures
        forall|j: int|
            0 <= j < r@.len() ==> (#[trigger] r@[j]) is Ok && (r@[j] matches Ok(f) ==> f.inv()),
{
    let mut out: Vec<Result<FileChecksum, FSError>> = Vec::new();
    let mut items = files;
    loop
        invariant
            forall|j: int| 0 <= j < items@.len() ==> (#[trigger] items@[j]).inv(),
            forall|j: int|
                0 <= j < out@.len() ==> (#[trigger] out@[j]) is Ok && (out@[j] matches Ok(f)
                    ==> f.inv()),
        decreases items@.len(),
    {
        if items.len() == 0 {
            break;
        }
        let ghost items0 = items@;
        let f = items.remove(0);
        proof {
            assert(forall|j: int| 0 <= j < items@.len() ==> items@[j] == items0[j + 1]);
        }
        out.push(Ok(f));
    }
    out
}

} // verus!
