//! The per-job decisions of the parallel traversals, as plain verified
//! functions: a concurrent driver pops jobs, applies a step, and routes the
//! outcome.
use crate::checksum::nodes::{Checksum, DirChecksum, EntryChecksum, FileChecksum};
use crate::errors::FSError;
use crate::walkers::recursive::is_walk_error;
use crate::zarr::{ZarrDirectory, ZarrEntry};
use vstd::prelude::*;

verus! {

/// What one handled job asks of the driver: push new jobs, send a result to
/// the collector, or nothing.
pub enum Output<J, T> {
    ToPush(Vec<J>),
    ToSend(T),
    Nil,
}

/// One step of the tree-at-the-end traversal: a directory job lists its
/// entries as new jobs (each a child of that directory); a file job produces
/// that file's checksum (or the error) for the collector.
pub fn fastio_step(entry: ZarrEntry) -> (r: Output<ZarrEntry, Result<FileChecksum, FSError>>)
    requires
        entry.wf(),
    ensures
        r matches Output::ToPush(v) ==> forall|j: int| 0 <= j < v@.len() ==> (#[trigger] v@[j]).wf(),
        r matches Output::ToSend(res) ==> {
            &&& (res matches Ok(f) ==> f.inv())
            &&& (res matches Err(e) ==> is_walk_error(e))
        },
        entry matches ZarrEntry::File(zf) ==> r matches Output::ToSend(res) && {
            &&& (res matches Ok(f) ==> f@.relpath == zf.relpath@)
            &&& (res matches Err(e) ==> {
                ||| (e matches FSError::StatError { path } && path@ == zf.path@)
                ||| (e matches FSError::MD5FileError { path } && path@ == zf.path@)
            })
        },
        entry matches ZarrEntry::Directory(zd) ==> match r {
            Output::ToPush(v) => exists|raw: Seq<crate::zarr::RawEntryV>|
                #[trigger] crate::zarr::listed_ok(raw, zd.path@) && crate::zarr::convert_raw(
                    raw,
                    zd.relpath.segments(),
                    zd.exclude_dotfiles,
                ) == Ok::<Seq<crate::zarr::ZarrEntryV>, Seq<char>>(crate::zarr::zarr_entry_views(
                    v@,
                )) && forall|j: int|
                    0 <= j < v@.len() ==> {
                        &&& ((#[trigger] v@[j]) matches ZarrEntry::File(f) ==> f.relpath@.drop_last()
                            == zd.relpath.segments())
                        &&& (v@[j] matches ZarrEntry::Directory(d2) ==> {
                            &&& d2.relpath matches crate::zarr::DirPath::Path(p) && p@.drop_last()
                                == zd.relpath.segments()
                            &&& d2.exclude_dotfiles == zd.exclude_dotfiles
                        })
                    },
            Output::ToSend(res) => res matches Err(e) && is_walk_error(e),
            Output::Nil => false,
        },
{
    match entry {
        ZarrEntry::Directory(zd) => match zd.entries() {
            Ok(entries) => Output::ToPush(entries),
            Err(e) => Output::ToSend(Err(e)),
        },
        ZarrEntry::File(zf) => Output::ToSend(zf.into_checksum()),
    }
}

/// The shared per-directory accumulator of the collapse-as-you-go
/// traversals: the directory, the checksums collected so far, and how many
/// children are still owed.  A driver guards a value of this type with a
/// per-directory lock and keeps its own parent links.
pub struct DirectoryAcc {
    dir: ZarrDirectory,
    nodes: Vec<EntryChecksum>,
    todo: usize,
}

impl DirectoryAcc {
    /// The directory this accumulator belongs to.
    pub closed spec fn store_dir(&self) -> ZarrDirectory {
        self.dir
    }

    pub closed spec fn dir_wf(&self) -> bool {
        self.dir.wf()
    }

    pub closed spec fn collected(&self) -> Seq<EntryChecksum> {
        self.nodes@
    }

    pub closed spec fn remaining(&self) -> nat {
        self.todo as nat
    }

    pub open spec fn wf(&self) -> bool {
        &&& self.dir_wf()
        &&& forall|j: int| 0 <= j < self.collected().len() ==> (#[trigger] self.collected()[j]).wf()
    }

    /// A fresh accumulator owing `todo` children.
    pub fn new(dir: ZarrDirectory, todo: usize) -> (r: DirectoryAcc)
        requires
            dir.wf(),
        ensures
            r.wf(),
            r.store_dir() == dir,
            r.collected().len() == 0,
            r.remaining() == todo,
    {
        DirectoryAcc { dir, nodes: Vec::new(), todo }
    }

    /// Record one child's checksum; report whether the directory is now
    /// complete.  The count saturates at zero.
    pub fn add(&mut self, node: EntryChecksum) -> (complete: bool)
        requires
            old(self).wf(),
            node.wf(),
        ensures
            final (self).wf(),
            final (self).collected() == old(self).collected().push(node),
            final (self).remaining() == if old(self).remaining() > 0 {
                (old(self).remaining() - 1) as nat
            } else {
                0nat
            },
            complete == (final (self).remaining() == 0),
    {
        let ghost before = self.nodes@;
        let ghost nodeg = node;
        self.nodes.push(node);
        if self.todo > 0 {
            self.todo = self.todo - 1;
        }
        proof {
            assert(self.nodes@ =~= before.push(nodeg));
            assert forall|j: int| 0 <= j < self.collected().len() implies (
            #[trigger] self.collected()[j]).wf() by {
                if j < self.collected().len() - 1 {
                    assert(self.collected()[j] == old(self).collected()[j]);
                } else {
                    assert(self.collected()[j] == nodeg);
                }
            }
        }
        self.todo == 0
    }

    /// Collapse the completed directory to its checksum: the compound digest
    /// of exactly the checksums collected so far, in collection order.
    pub fn checksum(self) -> (r: DirChecksum)
        requires
            self.wf(),
        ensures
            ({
                let after = crate::checksum::nodes::summer_after(
                    self.store_dir().empty_summer(),
                    self.collected().map_values(|c: EntryChecksum| c@),
                );
                &&& r@.relpath == after.relpath
                &&& r@.size == after.size
                &&& r@.file_count == after.file_count
                &&& r@.checksum == crate::checksum::nodes::compound_digest(
                    after.files,
                    after.directories,
                    after.file_count,
                    after.size,
                )
            }),
            r.wf(),
            crate::checksum::nodes::is_compound_digest(r@.checksum),
    {
        let ghost selfg = self;
        let DirectoryAcc { dir, nodes, todo } = self;
        proof {
            assert(nodes@ == selfg.collected());
            assert(dir == selfg.dir);
        }
        let d = dir.get_checksum(nodes);
        d
    }
}

} // verus!
