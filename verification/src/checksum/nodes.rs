//! Checksums of single files and directories, and the accumulator that
//! combines a directory's children into the directory's own checksum.
use super::json::{checksum_json_of, get_checksum_json, DirChecksumV, EntryV, FileChecksumV};
use crate::text::dec_str;
use crate::util::{is_md5_hex, md5_of, md5_string};
use crate::zarr::{valid_path, EntryPath};
use vstd::prelude::*;

verus! {

/// The shape of every directory digest: a 32-character lowercase hexadecimal
/// MD5, one dash, a decimal file count, two dashes, and a decimal size.
pub open spec fn is_compound_digest(s: Seq<char>) -> bool {
    exists|md5: Seq<char>, c: u64, sz: u64|
        {
            &&& s == #[trigger] (md5 + "-"@ + dec_str(c as nat) + "--"@ + dec_str(sz as nat))
            &&& is_md5_hex(md5)
        }
}

/// The compound digest string of a directory: `{md5}-{file_count}--{size}`,
/// where the MD5 is taken over the canonical JSON of the children.
pub open spec fn compound_digest(
    files: Seq<FileChecksumV>,
    dirs: Seq<DirChecksumV>,
    file_count: u64,
    size: u64,
) -> Seq<char> {
    md5_of(checksum_json_of(files, dirs)) + "-"@ + dec_str(file_count as nat) + "--"@ + dec_str(
        size as nat,
    )
}

/// Trait for behavior shared by [`FileChecksum`] and [`DirChecksum`].
pub trait Checksum: Sized {
    /// The segments of the path this checksum belongs to.
    spec fn spec_relpath(&self) -> Seq<Seq<char>>;

    /// The digest string: a bare MD5 for files, the compound form for
    /// directories.
    spec fn spec_digest(&self) -> Seq<char>;

    /// The size in bytes of the file, or of all files in the directory.
    spec fn spec_size(&self) -> u64;

    /// 1 for a file; the number of files in the subtree for a directory.
    spec fn spec_file_count(&self) -> u64;

    /// The node's path is well formed.
    spec fn wf(&self) -> bool;

    /// Return the path within the Zarr for which this is a checksum.
    fn relpath(&self) -> (r: &EntryPath)
        ensures
            r@ == self.spec_relpath(),
    ;

    /// Return the final component of the path.
    fn name(&self) -> (r: &str)
        requires
            self.wf(),
        ensures
            r@ == self.spec_relpath().last(),
    ;

    /// Return the checksum for the file or directory.
    fn checksum(&self) -> (r: &str)
        ensures
            r@ == self.spec_digest(),
    ;

    /// Consume the node and return the checksum for the file or directory.
    fn into_checksum(self) -> (r: String)
        ensures
            r@ == self.spec_digest(),
    ;

    /// Return the size of the file or the total size of all files within the
    /// directory.
    fn size(&self) -> (r: u64)
        ensures
            r == self.spec_size(),
    ;

    /// Return the number of files within the directory, or 1 for a file.
    fn file_count(&self) -> (r: u64)
        ensures
            r == self.spec_file_count(),
    ;
}

/// An MD5 checksum computed for a single file in a Zarr.
#[derive(Debug, PartialEq, Eq, Hash)]
pub struct FileChecksum {
    pub relpath: EntryPath,
    pub checksum: String,
    pub size: u64,
}

impl View for FileChecksum {
    type V = FileChecksumV;

    open spec fn view(&self) -> FileChecksumV {
        FileChecksumV { relpath: self.relpath@, checksum: self.checksum@, size: self.size }
    }
}

impl FileChecksum {
    /// The path is nonempty with valid segments and the digest is 32
    /// lowercase hexadecimal characters.
    pub open spec fn inv(&self) -> bool {
        valid_path(self@.relpath) && is_md5_hex(self@.checksum)
    }

    /// Check the invariant at run time, for callers outside the proof.
    pub fn check_inv(&self) -> (r: bool)
        ensures
            r == self.inv(),
    {
        self.relpath.check_valid() && crate::util::check_md5_hex(self.checksum.as_str())
    }

    /// Assemble a file checksum from its parts.
    pub fn new(relpath: EntryPath, checksum: String, size: u64) -> (r: Self)
        requires
            valid_path(relpath@),
            is_md5_hex(checksum@),
        ensures
            r@ == (FileChecksumV { relpath: relpath@, checksum: checksum@, size }),
            r.inv(),
    {
        FileChecksum { relpath, checksum, size }
    }
}

impl Clone for FileChecksum {
    /// Cloning keeps every field.
    fn clone(&self) -> (r: Self)
        ensures
            r@ == self@,
    {
        FileChecksum {
            relpath: self.relpath.clone(),
            checksum: self.checksum.clone(),
            size: self.size,
        }
    }
}

impl Checksum for FileChecksum {
    open spec fn spec_relpath(&self) -> Seq<Seq<char>> {
        self@.relpath
    }

    open spec fn spec_digest(&self) -> Seq<char> {
        self@.checksum
    }

    open spec fn spec_size(&self) -> u64 {
        self.size
    }

    open spec fn spec_file_count(&self) -> u64 {
        1
    }

    open spec fn wf(&self) -> bool {
        valid_path(self@.relpath)
    }

    fn relpath(&self) -> (r: &EntryPath) {
        &self.relpath
    }

    fn name(&self) -> (r: &str) {
        self.relpath.file_name()
    }

    fn checksum(&self) -> (r: &str) {
        self.checksum.as_str()
    }

    fn into_checksum(self) -> (r: String) {
        self.checksum
    }

    fn size(&self) -> (r: u64) {
        self.size
    }

    fn file_count(&self) -> (r: u64) {
        1
    }
}

/// A compound checksum computed for a directory inside a Zarr.
#[derive(Debug, PartialEq, Eq, Hash)]
pub struct DirChecksum {
    pub relpath: EntryPath,
    pub checksum: String,
    pub size: u64,
    pub file_count: u64,
}

impl View for DirChecksum {
    type V = DirChecksumV;

    open spec fn view(&self) -> DirChecksumV {
        DirChecksumV {
            relpath: self.relpath@,
            checksum: self.checksum@,
            size: self.size,
            file_count: self.file_count,
        }
    }
}

impl Clone for DirChecksum {
    /// Cloning keeps every field.
    fn clone(&self) -> (r: Self)
        ensures
            r@ == self@,
    {
        DirChecksum {
            relpath: self.relpath.clone(),
            checksum: self.checksum.clone(),
            size: self.size,
            file_count: self.file_count,
        }
    }
}

impl Checksum for DirChecksum {
    open spec fn spec_relpath(&self) -> Seq<Seq<char>> {
        self@.relpath
    }

    open spec fn spec_digest(&self) -> Seq<char> {
        self@.checksum
    }

    open spec fn spec_size(&self) -> u64 {
        self.size
    }

    open spec fn spec_file_count(&self) -> u64 {
        self.file_count
    }

    open spec fn wf(&self) -> bool {
        valid_path(self@.relpath)
    }

    fn relpath(&self) -> (r: &EntryPath) {
        &self.relpath
    }

    fn name(&self) -> (r: &str) {
        self.relpath.file_name()
    }

    fn checksum(&self) -> (r: &str) {
        self.checksum.as_str()
    }

    fn into_checksum(self) -> (r: String) {
        self.checksum
    }

    fn size(&self) -> (r: u64) {
        self.size
    }

    fn file_count(&self) -> (r: u64) {
        self.file_count
    }
}

/// An enum of [`FileChecksum`] and [`DirChecksum`].
#[derive(Debug, PartialEq, Eq, Hash)]
pub enum EntryChecksum {
    File(FileChecksum),
    Directory(DirChecksum),
}

/// The abstract content of an [`EntryChecksum`].
pub ghost enum EntryChecksumV {
    File(FileChecksumV),
    Directory(DirChecksumV),
}

impl View for EntryChecksum {
    type V = EntryChecksumV;

    open spec fn view(&self) -> EntryChecksumV {
        match self {
            EntryChecksum::File(f) => EntryChecksumV::File(f@),
            EntryChecksum::Directory(d) => EntryChecksumV::Directory(d@),
        }
    }
}

impl EntryChecksum {
    /// Check the path well-formedness at run time.
    pub fn check_wf(&self) -> (r: bool)
        ensures
            r == self.wf(),
    {
        match self {
            EntryChecksum::File(f) => f.relpath.check_valid(),
            EntryChecksum::Directory(d) => d.relpath.check_valid(),
        }
    }

    /// True iff this node represents a directory checksum.
    pub fn is_dir(&self) -> (r: bool)
        ensures
            r == (self matches EntryChecksum::Directory(_)),
    {
        match self {
            EntryChecksum::Directory(_) => true,
            EntryChecksum::File(_) => false,
        }
    }

    /// True iff this node represents a file checksum.
    pub fn is_file(&self) -> (r: bool)
        ensures
            r == (self matches EntryChecksum::File(_)),
    {
        match self {
            EntryChecksum::File(_) => true,
            EntryChecksum::Directory(_) => false,
        }
    }
}

impl Checksum for EntryChecksum {
    open spec fn spec_relpath(&self) -> Seq<Seq<char>> {
        match self {
            EntryChecksum::File(f) => f.spec_relpath(),
            EntryChecksum::Directory(d) => d.spec_relpath(),
        }
    }

    open spec fn spec_digest(&self) -> Seq<char> {
        match self {
            EntryChecksum::File(f) => f.spec_digest(),
            EntryChecksum::Directory(d) => d.spec_digest(),
        }
    }

    open spec fn spec_size(&self) -> u64 {
        match self {
            EntryChecksum::File(f) => f.spec_size(),
            EntryChecksum::Directory(d) => d.spec_size(),
        }
    }

    open spec fn spec_file_count(&self) -> u64 {
        match self {
            EntryChecksum::File(f) => f.spec_file_count(),
            EntryChecksum::Directory(d) => d.spec_file_count(),
        }
    }

    open spec fn wf(&self) -> bool {
        match self {
            EntryChecksum::File(f) => f.wf(),
            EntryChecksum::Directory(d) => d.wf(),
        }
    }

    fn relpath(&self) -> (r: &EntryPath) {
        match self {
            EntryChecksum::File(f) => f.relpath(),
            EntryChecksum::Directory(d) => d.relpath(),
        }
    }

    fn name(&self) -> (r: &str) {
        match self {
            EntryChecksum::File(f) => f.name(),
            EntryChecksum::Directory(d) => d.name(),
        }
    }

    fn checksum(&self) -> (r: &str) {
        match self {
            EntryChecksum::File(f) => f.checksum(),
            EntryChecksum::Directory(d) => d.checksum(),
        }
    }

    fn into_checksum(self) -> (r: String) {
        match self {
            EntryChecksum::File(f) => f.into_checksum(),
            EntryChecksum::Directory(d) => d.into_checksum(),
        }
    }

    fn size(&self) -> (r: u64) {
        match self {
            EntryChecksum::File(f) => f.size(),
            EntryChecksum::Directory(d) => d.size(),
        }
    }

    fn file_count(&self) -> (r: u64) {
        match self {
            EntryChecksum::File(f) => f.file_count(),
            EntryChecksum::Directory(d) => d.file_count(),
        }
    }
}

/// The abstract state of a [`Dirsummer`].
pub ghost struct DirsummerV {
    pub relpath: Seq<Seq<char>>,
    pub files: Seq<FileChecksumV>,
    pub directories: Seq<DirChecksumV>,
    pub size: u64,
    pub file_count: u64,
}

/// Accumulator for computing the checksum of one directory: push the
/// checksums of its entries, then ask for the directory's own checksum.
#[derive(Debug)]
pub struct Dirsummer {
    relpath: EntryPath,
    files: Vec<FileChecksum>,
    directories: Vec<DirChecksum>,
    size: u64,
    file_count: u64,
}

impl View for Dirsummer {
    type V = DirsummerV;

    closed spec fn view(&self) -> DirsummerV {
        DirsummerV {
            relpath: self.relpath@,
            files: self.files@.map_values(|f: FileChecksum| f@),
            directories: self.directories@.map_values(|d: DirChecksum| d@),
            size: self.size,
            file_count: self.file_count,
        }
    }
}

impl Dirsummer {
    /// The summer's own path is well formed, and so is every pushed entry.
    pub open spec fn wf(&self) -> bool {
        &&& valid_path(self@.relpath)
        &&& forall|i: int|
            0 <= i < self@.files.len() ==> valid_path(#[trigger] self@.files[i].relpath)
        &&& forall|i: int|
            0 <= i < self@.directories.len() ==> valid_path(
                #[trigger] self@.directories[i].relpath,
            )
    }

    /// A fresh accumulator for the directory at `relpath`.
    pub fn new(relpath: EntryPath) -> (r: Dirsummer)
        requires
            valid_path(relpath@),
        ensures
            r@.relpath == relpath@,
            r@.files == Seq::<FileChecksumV>::empty(),
            r@.directories == Seq::<DirChecksumV>::empty(),
            r@.size == 0,
            r@.file_count == 0,
            r.wf(),
    {
        let r = Dirsummer {
            relpath,
            files: Vec::new(),
            directories: Vec::new(),
            size: 0,
            file_count: 0,
        };
        proof {
            assert(r@.files =~= Seq::<FileChecksumV>::empty());
            assert(r@.directories =~= Seq::<DirChecksumV>::empty());
        }
        r
    }

    /// Return the path within the Zarr for the directory.
    pub fn relpath(&self) -> (r: &EntryPath)
        ensures
            r@ == self@.relpath,
    {
        &self.relpath
    }

    /// Add a checksum for an entry of the directory.  Sizes and file counts
    /// accumulate with wrapping 64-bit addition.
    ///
    /// It is the caller's responsibility to ensure that `chksum` belongs to
    /// an entry of the directory on disk and that no two pushed checksums
    /// share a name; otherwise [`checksum()`][Dirsummer::checksum] reports a
    /// value that does not describe the directory.
    pub fn push(&mut self, chksum: EntryChecksum)
        requires
            old(self).wf(),
            chksum.wf(),
        ensures
            final (self).wf(),
            final (self)@.relpath == old(self)@.relpath,
            final (self)@.size == old(self)@.size.wrapping_add(chksum.spec_size()),
            final (self)@.file_count == old(self)@.file_count.wrapping_add(
                chksum.spec_file_count(),
            ),
            chksum matches EntryChecksum::File(f) ==> final (self)@.files == old(
                self,
            )@.files.push(f@) && final (self)@.directories == old(self)@.directories,
            chksum matches EntryChecksum::Directory(d) ==> final (self)@.directories == old(
                self,
            )@.directories.push(d@) && final (self)@.files == old(self)@.files,
    {
        self.size = self.size.wrapping_add(chksum.size());
        self.file_count = self.file_count.wrapping_add(chksum.file_count());
        match chksum {
            EntryChecksum::File(f) => {
                let ghost before = self@.files;
                let ghost fv = f@;
                proof {
                    assert(valid_path(fv.relpath));
                    assert(before == old(self)@.files);
                    assert(self@.directories == old(self)@.directories);
                }
                self.files.push(f);
                proof {
                    assert(self@.files =~= before.push(fv));
                    assert forall|i: int| 0 <= i < self@.files.len() implies valid_path(
                        #[trigger] self@.files[i].relpath,
                    ) by {
                        if i < self@.files.len() - 1 {
                            assert(self@.files[i] == before[i]);
                            assert(before[i] == old(self)@.files[i]);
                            assert(valid_path(old(self)@.files[i].relpath));
                        } else {
                            assert(self@.files[i] == fv);
                        }
                    }
                }
            },
            EntryChecksum::Directory(d) => {
                let ghost before = self@.directories;
                let ghost dv = d@;
                proof {
                    assert(valid_path(dv.relpath));
                    assert(before == old(self)@.directories);
                    assert(self@.files == old(self)@.files);
                }
                self.directories.push(d);
                proof {
                    assert(self@.directories =~= before.push(dv));
                    assert forall|i: int| 0 <= i < self@.directories.len() implies valid_path(
                        #[trigger] self@.directories[i].relpath,
                    ) by {
                        if i < self@.directories.len() - 1 {
                            assert(self@.directories[i] == before[i]);
                            assert(before[i] == old(self)@.directories[i]);
                            assert(valid_path(old(self)@.directories[i].relpath));
                        } else {
                            assert(self@.directories[i] == dv);
                        }
                    }
                }
            },
        }
    }

    /// Compute the checksum for the directory from the entry checksums added
    /// so far: the MD5 of the canonical JSON listing, in compound form.
    pub fn checksum(&self) -> (r: DirChecksum)
        requires
            self.wf(),
        ensures
            r@.relpath == self@.relpath,
            r@.size == self@.size,
            r@.file_count == self@.file_count,
            r@.checksum == compound_digest(
                self@.files,
                self@.directories,
                self@.file_count,
                self@.size,
            ),
            crate::util::is_md5_hex(
                crate::util::md5_of(
                    crate::checksum::json::checksum_json_of(self@.files, self@.directories),
                ),
            ),
            is_compound_digest(r@.checksum),
            r.wf(),
    {
        proof {
            assert forall|i: int| 0 <= i < self.files@.len() implies valid_path(
                #[trigger] self.files@[i]@.relpath,
            ) by {
                assert(self@.files[i] == self.files@[i]@);
            }
            assert forall|i: int| 0 <= i < self.directories@.len() implies valid_path(
                #[trigger] self.directories@[i]@.relpath,
            ) by {
                assert(self@.directories[i] == self.directories@[i]@);
            }
        }
        let json = get_checksum_json(&self.files, &self.directories);
        let md5 = md5_string(json.as_str());
        let mut checksum = md5;
        checksum.append("-");
        let count_str = crate::text::u64_to_string(self.file_count);
        checksum.append(count_str.as_str());
        checksum.append("--");
        let size_str = crate::text::u64_to_string(self.size);
        checksum.append(size_str.as_str());
        let r = DirChecksum {
            relpath: self.relpath.clone(),
            checksum,
            size: self.size,
            file_count: self.file_count,
        };
        proof {
            assert(r@.checksum =~= compound_digest(
                self@.files,
                self@.directories,
                self@.file_count,
                self@.size,
            ));
            let m = crate::util::md5_of(
                crate::checksum::json::checksum_json_of(self@.files, self@.directories),
            );
            assert(r@.checksum == m + "-"@ + dec_str(self@.file_count as nat) + "--"@ + dec_str(
                self@.size as nat,
            ));
        }
        r
    }

    /// Add checksums for several entries in order.
    pub fn extend(&mut self, chksums: Vec<EntryChecksum>)
        requires
            old(self).wf(),
            forall|i: int| 0 <= i < chksums@.len() ==> (#[trigger] chksums@[i]).wf(),
        ensures
            final (self).wf(),
            final (self)@ == summer_after(old(self)@, chksums@.map_values(|c: EntryChecksum| c@)),
    {
        let ghost views = chksums@.map_values(|c: EntryChecksum| c@);
        let mut items = chksums;
        let mut i: usize = 0;
        let n = items.len();
        proof {
            assert(views.take(0) =~= Seq::<EntryChecksumV>::empty());
        }
        while i < n
            invariant
                n == items@.len(),
                i <= n,
                views == items@.map_values(|c: EntryChecksum| c@),
                forall|j: int| 0 <= j < items@.len() ==> (#[trigger] items@[j]).wf(),
                self.wf(),
                self@ == summer_after(old(self)@, views.take(i as int)),
            decreases n - i,
        {
            let item = clone_entry_checksum(&items[i]);
            let ghost iv = item@;
            self.push(item);
            proof {
                let t = views.take(i as int + 1);
                assert(t.drop_last() =~= views.take(i as int));
                assert(t.last() == iv);
            }
            i = i + 1;
        }
        proof {
            assert(views.take(n as int) =~= views);
        }
    }
}

/// The accumulator's state after pushing a run of entry checksums in order.
pub open spec fn summer_after(s: DirsummerV, xs: Seq<EntryChecksumV>) -> DirsummerV
    decreases xs.len(),
{
    if xs.len() == 0 {
        s
    } else {
        let prev = summer_after(s, xs.drop_last());
        match xs.last() {
            EntryChecksumV::File(f) => DirsummerV {
                relpath: prev.relpath,
                files: prev.files.push(f),
                directories: prev.directories,
                size: prev.size.wrapping_add(f.size),
                file_count: prev.file_count.wrapping_add(1),
            },
            EntryChecksumV::Directory(d) => DirsummerV {
                relpath: prev.relpath,
                files: prev.files,
                directories: prev.directories.push(d),
                size: prev.size.wrapping_add(d.size),
                file_count: prev.file_count.wrapping_add(d.file_count),
            },
        }
    }
}

/// The size one entry contributes to its directory's total.
pub open spec fn entry_size(c: EntryChecksumV) -> u64 {
    match c {
        EntryChecksumV::File(f) => f.size,
        EntryChecksumV::Directory(d) => d.size,
    }
}

/// The file count one entry contributes to its directory's total.
pub open spec fn entry_count(c: EntryChecksumV) -> u64 {
    match c {
        EntryChecksumV::File(_) => 1,
        EntryChecksumV::Directory(d) => d.file_count,
    }
}

/// Pushing entries never changes whose directory the accumulator is for.
pub proof fn lemma_summer_after_relpath(s: DirsummerV, xs: Seq<EntryChecksumV>)
    ensures
        summer_after(s, xs).relpath == s.relpath,
    decreases xs.len(),
{
    if xs.len() > 0 {
        lemma_summer_after_relpath(s, xs.drop_last());
    }
}

/// Clone one entry checksum, keeping its content.
pub fn clone_entry_checksum(c: &EntryChecksum) -> (r: EntryChecksum)
    ensures
        r@ == c@,
{
    match c {
        EntryChecksum::File(f) => EntryChecksum::File(f.clone()),
        EntryChecksum::Directory(d) => EntryChecksum::Directory(d.clone()),
    }
}

} // verus!
