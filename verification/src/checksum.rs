//! Functionality for computing Zarr checksums: per-file and per-directory
//! digests, the canonical JSON listing, and the incremental checksum tree.
pub mod json;
pub mod nodes;
pub mod laws;
pub mod tree;

use crate::checksum::json::FileChecksumV;
use crate::checksum::nodes::FileChecksum;
use crate::checksum::tree::{add_error_matches, add_fails, adds_ok, first_conflict_at, map_after,
    occupied, prefix_conflict, ChecksumTree};
use crate::errors::{ChecksumError, ChecksumTreeError, FSError};
use vstd::prelude::*;

verus! {

/// Compute the checksum for a Zarr from the checksums of each file within:
/// build a [`ChecksumTree`] and collapse it.
pub fn compile_checksum(files: Vec<FileChecksum>) -> (r: Result<String, ChecksumTreeError>)
    requires
        forall|j: int| 0 <= j < files@.len() ==> (#[trigger] files@[j]).inv(),
    ensures
        ({
            let views = files@.map_values(|f: FileChecksum| f@);
            match r {
                Ok(s) => adds_ok(views) && crate::checksum::nodes::is_compound_digest(s@)
                    && exists|t: ChecksumTree|
                    (#[trigger] t.wf()) && t@ == map_after(views) && s@ == t.digest(),
                Err(e) => !adds_ok(views) && exists|i: int|
                    {
                        &&& 0 <= i < views.len()
                        &&& #[trigger] adds_ok(views.take(i))
                        &&& add_fails(map_after(views.take(i)), views[i])
                        &&& add_error_matches(map_after(views.take(i)), views[i], e)
                    },
            }
        }),
{
    match ChecksumTree::from_files(files) {
        Ok(tree) => {
            let ghost t = tree;
            let s = tree.into_checksum();
            proof {
                assert(t.wf() && s@ == t.digest());
            }
            Ok(s)
        },
        Err(e) => Err(e),
    }
}

/// The checksums of the leading successful items of a fallible run.
pub open spec fn ok_views(xs: Seq<Result<FileChecksum, FSError>>) -> Seq<FileChecksumV>
    decreases xs.len(),
{
    if xs.len() == 0 {
        Seq::empty()
    } else {
        match xs.last() {
            Ok(f) => ok_views(xs.drop_last()).push(f@),
            Err(_) => ok_views(xs.drop_last()),
        }
    }
}

/// Compute the checksum for a Zarr from fallible per-file checksums: the
/// first error of either kind wins; otherwise behave like
/// [`compile_checksum`].
pub fn try_compile_checksum(files: Vec<Result<FileChecksum, FSError>>) -> (r: Result<
    String,
    ChecksumError,
>)
    requires
        forall|j: int|
            0 <= j < files@.len() ==> ((#[trigger] files@[j]) matches Ok(f) ==> f.inv()),
    ensures
        match r {
            Ok(s) => {
                &&& forall|j: int| 0 <= j < files@.len() ==> (#[trigger] files@[j]) is Ok
                &&& adds_ok(ok_views(files@))
                &&& crate::checksum::nodes::is_compound_digest(s@)
                &&& exists|t: ChecksumTree|
                    (#[trigger] t.wf()) && t@ == map_after(ok_views(files@)) && s@ == t.digest()
            },
            Err(ChecksumError::FSError(e)) => exists|j: int|
                {
                    &&& 0 <= j < files@.len()
                    &&& #[trigger] files@[j] == Err::<FileChecksum, FSError>(e)
                    &&& forall|k: int| 0 <= k < j ==> (#[trigger] files@[k]) is Ok
                },
            Err(ChecksumError::ChecksumTreeError(e)) => exists|i: int|
                {
                    &&& 0 <= i < files@.len()
                    &&& forall|k: int| 0 <= k <= i ==> (#[trigger] files@[k]) is Ok
                    &&& #[trigger] adds_ok(ok_views(files@.take(i)))
                    &&& files@[i] matches Ok(f) && add_fails(map_after(ok_views(files@.take(i))), f@)
                        && add_error_matches(map_after(ok_views(files@.take(i))), f@, e)
                },
        },
{
    let mut tree = ChecksumTree::new();
    let ghost all = files@;
    let mut i: usize = 0;
    let n = files.len();
    proof {
        assert(all.take(0) =~= Seq::<Result<FileChecksum, FSError>>::empty());
        assert(tree@ =~= map_after(ok_views(all.take(0))));
    }
    while i < n
        invariant
            n == files@.len(),
            all == files@,
            tree.wf(),
            i <= n,
            forall|j: int| 0 <= j < all.len() ==> ((#[trigger] all[j]) matches Ok(f) ==> f.inv()),
            forall|k: int| 0 <= k < i ==> (#[trigger] all[k]) is Ok,
            tree@ == map_after(ok_views(all.take(i as int))),
            adds_ok(ok_views(all.take(i as int))),
        decreases n - i,
    {
        let item = clone_file_result(&files[i]);
        proof {
            let t = all.take(i as int + 1);
            assert(t.drop_last() =~= all.take(i as int));
            assert(t.last() == all[i as int]);
        }
        match item {
            Ok(node) => {
                let ghost nv = node@;
                match tree.add_file(node) {
                    Ok(()) => {
                        proof {
                            let t = ok_views(all.take(i as int + 1));
                            assert(t.drop_last() =~= ok_views(all.take(i as int)));
                            assert(t.last() == nv);
                        }
                    },
                    Err(e) => {
                        proof {
                            let gi = i as int;
                            let m = map_after(ok_views(all.take(gi)));
                            match all[gi] {
                                Ok(forig) => {
                                    assert(forig@ == nv);
                                },
                                Err(_) => {
                                    assert(false);
                                },
                            }
                            let ghost eg = e;
                            match eg {
                                ChecksumTreeError::PathTypeConflict { path } => {
                                    let ci = choose|ci: int|
                                        #[trigger] first_conflict_at(m, nv.relpath, ci, 0)
                                            && path@ == nv.relpath.take(ci);
                                    assert(m.contains_key(nv.relpath.take(ci)));
                                    assert(prefix_conflict(m, nv.relpath, 0));
                                },
                                ChecksumTreeError::DoubleAdd { path } => {
                                    assert(occupied(m, nv.relpath));
                                },
                            }
                            assert(add_fails(m, nv));
                            assert(add_error_matches(m, nv, eg));
                        }
                        return Err(ChecksumError::ChecksumTreeError(e));
                    },
                }
            },
            Err(e) => {
                proof {
                    assert(files@ == all);
                    assert(files@[i as int] == Err::<FileChecksum, FSError>(e));
                }
                return Err(ChecksumError::FSError(e));
            },
        }
        i = i + 1;
    }
    proof {
        assert(all.take(n as int) =~= all);
    }
    Ok(tree.into_checksum())
}

/// Clone one fallible file checksum, keeping its content.
fn clone_file_result(r: &Result<FileChecksum, FSError>) -> (out: Result<FileChecksum, FSError>)
    ensures
        r matches Ok(f) ==> (out matches Ok(g) && g@ == f@),
        r matches Err(e) ==> out == Err::<FileChecksum, FSError>(*e),
{
    match r {
        Ok(f) => Ok(f.clone()),
        Err(e) => Err(clone_fs_error(e)),
    }
}

/// Clone a filesystem error, keeping its content exactly.
pub fn clone_fs_error(e: &FSError) -> (out: FSError)
    ensures
        out == *e,
{
    match e {
        FSError::MD5FileError { path } => FSError::MD5FileError { path: path.clone() },
        FSError::StatError { path } => FSError::StatError { path: path.clone() },
        FSError::ReaddirError { path } => FSError::ReaddirError { path: path.clone() },
        FSError::UndecodableName { path } => FSError::UndecodableName { path: path.clone() },
        FSError::NotDirRootError { path } => FSError::NotDirRootError { path: path.clone() },
    }
}

} // verus!
