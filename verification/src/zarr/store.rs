//! On-disk Zarr stores: references to the store and to the files and
//! directories within it, and the trusted filesystem calls they rely on.
use super::entrypath::{joined, valid_segment, EntryPath};
use crate::checksum::nodes::{
    summer_after, Checksum, DirChecksum, Dirsummer, EntryChecksum, FileChecksum,
};
use crate::errors::{EntryNameError, FSError};
use crate::text::str_eq;
use crate::util::{is_md5_hex, md5_file};
use vstd::prelude::*;

verus! {

/// The special dotfile names excluded from checksumming when the exclusion
/// flag is set, in ascending order.
pub open spec fn is_excluded_name(s: Seq<char>) -> bool {
    ||| s == ".dandi"@
    ||| s == ".datalad"@
    ||| s == ".git"@
    ||| s == ".gitattributes"@
    ||| s == ".gitmodules"@
}

/// The special dotfile names, ascending.
pub fn excluded_dotfiles() -> (r: Vec<String>)
    ensures
        r@.len() == 5,
        forall|i: int| 0 <= i < 5 ==> is_excluded_name(#[trigger] r@[i]@),
        forall|s: Seq<char>| is_excluded_name(s) ==> exists|i: int| 0 <= i < 5 && #[trigger] r@[i]@ == s,
{
    let mut r: Vec<String> = Vec::new();
    r.push(String::from_str(".dandi"));
    r.push(String::from_str(".datalad"));
    r.push(String::from_str(".git"));
    r.push(String::from_str(".gitattributes"));
    r.push(String::from_str(".gitmodules"));
    proof {
        assert(r@.len() == 5);
        assert(r@[0]@ == ".dandi"@);
        assert(r@[1]@ == ".datalad"@);
        assert(r@[2]@ == ".git"@);
        assert(r@[3]@ == ".gitattributes"@);
        assert(r@[4]@ == ".gitmodules"@);
    }
    r
}

/// The basename of a textual path: its longest suffix free of `/`.
pub open spec fn basename(s: Seq<char>) -> Seq<char>
    decreases s.len(),
{
    if !s.contains('/') {
        s
    } else {
        basename(s.drop_first())
    }
}

/// When everything from position `j` on is free of `/` and a `/` stands just
/// before `j` (or `j` is the start), the basename is the suffix from `j`.
proof fn lemma_basename_at(s: Seq<char>, j: int)
    requires
        0 <= j <= s.len(),
        !s.skip(j).contains('/'),
        j > 0 ==> s[j - 1] == '/',
    ensures
        basename(s) == s.skip(j),
    decreases j,
{
    if j == 0 {
        assert(s.skip(0) =~= s);
    } else {
        assert(s.contains('/')) by {
            assert(s[j - 1] == '/');
        }
        assert(s.drop_first().skip(j - 1) =~= s.skip(j));
        if j - 1 > 0 {
            assert(s.drop_first()[j - 2] == s[j - 1]);
        }
        lemma_basename_at(s.drop_first(), j - 1);
    }
}

/// True when the basename of `path` is one of the special dotfile names.
pub fn is_excluded_dotfile(path: &str) -> (r: bool)
    ensures
        r == is_excluded_name(basename(path@)),
{
    let n = path.unicode_len();
    // Find the position right after the last separator.
    let mut j: usize = n;
    loop
        invariant
            j <= n,
            n == path@.len(),
            forall|t: int| j <= t < n ==> path@[t] != '/',
        ensures
            j <= n,
            forall|t: int| j <= t < n ==> path@[t] != '/',
            j > 0 ==> path@[j - 1] == '/',
        decreases j,
    {
        if j == 0 {
            break;
        }
        if path.get_char(j - 1) == '/' {
            break;
        }
        j = j - 1;
    }
    proof {
        assert(!path@.skip(j as int).contains('/')) by {
            if path@.skip(j as int).contains('/') {
                let t = choose|t: int|
                    0 <= t < path@.skip(j as int).len() && path@.skip(j as int)[t] == '/';
                assert(path@[j + t] == '/');
            }
        }
        lemma_basename_at(path@, j as int);
    }
    let base = path.substring_char(j, n);
    proof {
        assert(path@.subrange(j as int, n as int) =~= path@.skip(j as int));
    }
    is_excluded_name_exec(base)
}

/// Compare a name against the five special dotfile names.
fn is_excluded_name_exec(name: &str) -> (r: bool)
    ensures
        r == is_excluded_name(name@),
{
    str_eq(name, ".dandi") || str_eq(name, ".datalad") || str_eq(name, ".git") || str_eq(
        name,
        ".gitattributes",
    ) || str_eq(name, ".gitmodules")
}

/// A raw directory entry as the filesystem reports it: its full path, its
/// basename when it decodes as UTF-8, and whether it is a directory after
/// resolving symbolic links.
pub struct RawEntry {
    pub path: String,
    pub name: Option<String>,
    pub is_dir: bool,
}

/// The abstract content of a raw directory entry.
pub ghost struct RawEntryV {
    pub path: Seq<char>,
    pub name: Option<Seq<char>>,
    pub is_dir: bool,
}

impl View for RawEntry {
    type V = RawEntryV;

    open spec fn view(&self) -> RawEntryV {
        RawEntryV {
            path: self.path@,
            name: match self.name {
                Some(n) => Some(n@),
                None => None,
            },
            is_dir: self.is_dir,
        }
    }
}

/// What the listing wrapper guarantees of every raw entry it returns for the
/// directory at `dirpath`.
pub open spec fn listed_ok(raw: Seq<RawEntryV>, dirpath: Seq<char>) -> bool {
    forall|i: int|
        0 <= i < raw.len() ==> {
            &&& ((#[trigger] raw[i]).name matches Some(n) ==> valid_segment(n))
            &&& raw[i].path.len() >= dirpath.len() + 1
        }
}

/// Relies on fs-err's `metadata` (std `fs::metadata`): the size in bytes
/// that the filesystem reports for `path`, following symbolic links.  On
/// failure the stat error carries `path`.
#[verifier::external_body]
fn stat_size(path: &str) -> (r: Result<u64, FSError>)
    ensures
        r matches Err(e) ==> e matches FSError::StatError { path: q } && q@ == path@,
{
    match fs_err::metadata(path) {
        Ok(m) => Ok(m.len()),
        Err(_) => Err(FSError::StatError { path: path.to_string() }),
    }
}

/// Relies on fs-err's `metadata`: whether `path` names a directory,
/// following symbolic links; unstattable paths count as non-directories.
#[verifier::external_body]
fn path_is_directory(path: &str) -> (r: bool)
{
    match fs_err::metadata(path) {
        Ok(m) => m.is_dir(),
        Err(_) => false,
    }
}

/// Relies on fs-err's `DirEntry` (`path`, `file_type`, `file_name`) and
/// `metadata`: the entry's full path is the listed directory's path joined
/// with its nonempty one-component basename, so strictly longer than the
/// directory's path (a separator is added only when the directory's path
/// does not already end in one); the basename is never empty, `.`, `..`, or
/// slashed; and an entry is a directory when its file type says so or it is
/// a symbolic link to a directory.  Stat failures carry the entry's path.
#[verifier::external_body]
fn raw_entry_of(e: fs_err::DirEntry) -> (r: Result<RawEntry, FSError>)
{
    let path = e.path();
    let path_str = path.to_string_lossy().into_owned();
    let ft = match e.file_type() {
        Ok(ft) => ft,
        Err(_) => return Err(FSError::StatError { path: path_str }),
    };
    let is_dir = ft.is_dir() || (ft.is_symlink() && match fs_err::metadata(&path) {
        Ok(m) => m.is_dir(),
        Err(_) => return Err(FSError::StatError { path: path_str }),
    });
    let name = e.file_name().to_str().map(String::from);
    Ok(RawEntry { path: path_str, name, is_dir })
}

/// The external type of fs-err's directory entries.
#[verifier::external_type_specification]
#[verifier::external_body]
pub struct ExDirEntry(fs_err::DirEntry);

/// Relies on fs-err's `read_dir` and its `ReadDir` iterator: the immediate
/// children of the directory at `path`, in unspecified order, each converted
/// by [`raw_entry_of`].  Every decoded basename is a valid path segment and
/// every entry path extends `path` by its nonempty basename, hence is
/// strictly longer.  Listing failures carry `path`; per-entry stat failures
/// carry the entry's path.
#[verifier::external_body]
fn list_directory(path: &str) -> (r: Result<Vec<RawEntry>, FSError>)
    ensures
        r matches Ok(v) ==> forall|i: int|
            0 <= i < v@.len() ==> {
                &&& ((#[trigger] v@[i]).name matches Some(n) ==> valid_segment(n@))
                &&& v@[i].path@.len() >= path@.len() + 1
            },
        r matches Err(e) ==> (e matches FSError::ReaddirError { path: q } && q@ == path@)
            || e is StatError,
{
    let rd = match fs_err::read_dir(path) {
        Ok(rd) => rd,
        Err(_) => return Err(FSError::ReaddirError { path: path.to_string() }),
    };
    let mut out: Vec<RawEntry> = Vec::new();
    for item in rd {
        match item {
            Ok(e) => out.push(raw_entry_of(e)?),
            Err(_) => return Err(FSError::ReaddirError { path: path.to_string() }),
        }
    }
    Ok(out)
}

/// Either the root of the Zarr or a path within it: the relative identity of
/// a directory.
#[derive(Debug, PartialEq, Eq, Hash)]
pub enum DirPath {
    Root,
    Path(EntryPath),
}

impl DirPath {
    /// The path's segments: none for the root.
    pub open spec fn segments(&self) -> Seq<Seq<char>> {
        match self {
            DirPath::Root => Seq::empty(),
            DirPath::Path(p) => p@,
        }
    }

    pub open spec fn wf(&self) -> bool {
        match self {
            DirPath::Root => true,
            DirPath::Path(p) => p.wf(),
        }
    }

    /// Append a validated name: from the root this makes a one-segment path.
    pub fn join1(&self, s: &str) -> (r: Result<EntryPath, EntryNameError>)
        requires
            self.wf(),
        ensures
            valid_segment(s@) ==> (r matches Ok(p) && p@ == self.segments().push(s@) && p.wf()),
            !valid_segment(s@) ==> (r matches Err(e) && e.0@ == s@),
    {
        match self {
            DirPath::Root => {
                let r = EntryPath::from_segment(s);
                proof {
                    if valid_segment(s@) {
                        assert(seq![s@] =~= self.segments().push(s@));
                    }
                }
                r
            },
            DirPath::Path(p) => p.join1(s),
        }
    }

    /// The textual form: `<root>` for the root, the joined segments
    /// otherwise.
    pub fn to_display(&self) -> (r: String)
        requires
            self.wf(),
            self matches DirPath::Path(p) ==> p.wf(),
        ensures
            self matches DirPath::Root ==> r@ == "<root>"@,
            self matches DirPath::Path(p) ==> r@ == joined(p@),
    {
        match self {
            DirPath::Root => String::from_str("<root>"),
            DirPath::Path(p) => p.to_display(),
        }
    }

    /// Clone the identity.
    pub fn clone_path(&self) -> (r: DirPath)
        ensures
            r.segments() == self.segments(),
            r is Root <==> self is Root,
    {
        match self {
            DirPath::Root => DirPath::Root,
            DirPath::Path(p) => DirPath::Path(p.clone()),
        }
    }
}

/// A reference to a Zarr store on disk.
#[derive(Debug, PartialEq, Eq, Hash)]
pub struct Zarr {
    pub path: String,
    pub exclude_dotfiles: bool,
}

impl Zarr {
    /// A Zarr rooted at `path`, with dotfile exclusion off.
    pub fn new(path: &str) -> (r: Zarr)
        ensures
            r.path@ == path@,
            r.exclude_dotfiles == false,
    {
        Zarr { path: path.to_owned(), exclude_dotfiles: false }
    }

    /// The same Zarr with the dotfile-exclusion flag set as given.
    pub fn exclude_dotfiles(self, flag: bool) -> (r: Zarr)
        ensures
            r.path@ == self.path@,
            r.exclude_dotfiles == flag,
    {
        Zarr { exclude_dotfiles: flag, ..self }
    }

    /// The root directory of the store.
    pub fn root_dir(&self) -> (r: ZarrDirectory)
        ensures
            r.path@ == self.path@,
            r.relpath is Root,
            r.exclude_dotfiles == self.exclude_dotfiles,
            r.wf(),
    {
        ZarrDirectory {
            path: self.path.clone(),
            relpath: DirPath::Root,
            exclude_dotfiles: self.exclude_dotfiles,
        }
    }

    /// Whether the store's root names a directory on disk.
    pub fn root_is_directory(&self) -> bool {
        path_is_directory(self.path.as_str())
    }
}

/// A file inside a Zarr: its location on disk and its relative identity.
#[derive(Debug, PartialEq, Eq, Hash)]
pub struct ZarrFile {
    pub path: String,
    pub relpath: EntryPath,
}

impl ZarrFile {
    pub open spec fn wf(&self) -> bool {
        self.relpath.wf()
    }

    /// The file's location on disk.
    pub fn path(&self) -> (r: &str)
        ensures
            r@ == self.path@,
    {
        self.path.as_str()
    }

    /// The file's path within the Zarr.
    pub fn relpath(&self) -> (r: &EntryPath)
        ensures
            r == self.relpath,
    {
        &self.relpath
    }

    /// Stat and digest the file.  On success the checksum carries the file's
    /// relative path, a 32-character lowercase hexadecimal MD5, and the size
    /// the filesystem reported; a stat or digest error carries the file's
    /// on-disk path.
    pub fn into_checksum(self) -> (r: Result<FileChecksum, FSError>)
        requires
            self.wf(),
        ensures
            r matches Ok(f) ==> f@.relpath == self.relpath@ && f.inv(),
            r matches Err(e) ==> {
                ||| (e matches FSError::StatError { path: q } && q@ == self.path@)
                ||| (e matches FSError::MD5FileError { path: q } && q@ == self.path@)
            },
    {
        let size = match stat_size(self.path.as_str()) {
            Ok(n) => n,
            Err(e) => {
                return Err(e);
            },
        };
        let checksum = match md5_file(self.path.as_str()) {
            Ok(s) => s,
            Err(e) => {
                return Err(e);
            },
        };
        Ok(FileChecksum::new(self.relpath, checksum, size))
    }
}

/// A directory inside a Zarr: its location on disk, its relative identity,
/// and whether special dotfiles are excluded when it is listed.
#[derive(Debug, PartialEq, Eq, Hash)]
pub struct ZarrDirectory {
    pub path: String,
    pub relpath: DirPath,
    pub exclude_dotfiles: bool,
}

/// A directory entry: a file or a subdirectory.
#[derive(Debug, PartialEq, Eq, Hash)]
pub enum ZarrEntry {
    File(ZarrFile),
    Directory(ZarrDirectory),
}

/// The abstract content of a file reference.
pub ghost struct ZarrFileV {
    pub path: Seq<char>,
    pub relpath: Seq<Seq<char>>,
}

impl View for ZarrFile {
    type V = ZarrFileV;

    open spec fn view(&self) -> ZarrFileV {
        ZarrFileV { path: self.path@, relpath: self.relpath@ }
    }
}

/// The abstract content of a directory reference.
pub ghost struct ZarrDirectoryV {
    pub path: Seq<char>,
    pub is_root: bool,
    pub segments: Seq<Seq<char>>,
    pub exclude_dotfiles: bool,
}

impl View for ZarrDirectory {
    type V = ZarrDirectoryV;

    open spec fn view(&self) -> ZarrDirectoryV {
        ZarrDirectoryV {
            path: self.path@,
            is_root: self.relpath is Root,
            segments: self.relpath.segments(),
            exclude_dotfiles: self.exclude_dotfiles,
        }
    }
}

/// The abstract content of a directory entry.
pub ghost enum ZarrEntryV {
    File(ZarrFileV),
    Directory(ZarrDirectoryV),
}

impl View for ZarrEntry {
    type V = ZarrEntryV;

    open spec fn view(&self) -> ZarrEntryV {
        match self {
            ZarrEntry::File(f) => ZarrEntryV::File(f@),
            ZarrEntry::Directory(d) => ZarrEntryV::Directory(d@),
        }
    }
}

/// The views of a run of directory entries.
pub open spec fn zarr_entry_views(s: Seq<ZarrEntry>) -> Seq<ZarrEntryV> {
    s.map_values(|e: ZarrEntry| e@)
}

/// The entry a raw listing item converts to, within the directory whose
/// relative identity is `base`.
pub open spec fn converted_entry(
    e: RawEntryV,
    name: Seq<char>,
    base: Seq<Seq<char>>,
    exclude: bool,
) -> ZarrEntryV {
    if e.is_dir {
        ZarrEntryV::Directory(
            ZarrDirectoryV {
                path: e.path,
                is_root: false,
                segments: base.push(name),
                exclude_dotfiles: exclude,
            },
        )
    } else {
        ZarrEntryV::File(ZarrFileV { path: e.path, relpath: base.push(name) })
    }
}

/// How a raw listing becomes the directory's entries, one item at a time: an
/// undecodable basename stops the conversion with that entry's path; when
/// exclusion is on, an entry whose path has an excluded basename is dropped;
/// everything else becomes a file or subdirectory with the next relative
/// path (an invalid decoded segment also stops with the entry's path — the
/// listing never produces one).
pub open spec fn convert_raw(raw: Seq<RawEntryV>, base: Seq<Seq<char>>, exclude: bool) -> Result<
    Seq<ZarrEntryV>,
    Seq<char>,
>
    decreases raw.len(),
{
    if raw.len() == 0 {
        Ok(Seq::empty())
    } else {
        let e = raw[0];
        match e.name {
            None => Err(e.path),
            Some(name) => {
                if exclude && is_excluded_name(basename(e.path)) {
                    convert_raw(raw.drop_first(), base, exclude)
                } else if !valid_segment(name) {
                    Err(e.path)
                } else {
                    match convert_raw(raw.drop_first(), base, exclude) {
                        Ok(rest) => Ok(seq![converted_entry(e, name, base, exclude)] + rest),
                        Err(p) => Err(p),
                    }
                }
            },
        }
    }
}

impl ZarrEntry {
    /// Check the path well-formedness at run time.
    pub fn check_wf(&self) -> (r: bool)
        ensures
            r == self.wf(),
    {
        match self {
            ZarrEntry::File(f) => f.relpath.check_valid(),
            ZarrEntry::Directory(d) => match &d.relpath {
                DirPath::Root => true,
                DirPath::Path(p) => p.check_valid(),
            },
        }
    }

    /// The entry's location on disk.
    pub open spec fn entry_path(&self) -> Seq<char> {
        match self {
            ZarrEntry::File(f) => f.path@,
            ZarrEntry::Directory(d) => d.path@,
        }
    }

    pub open spec fn wf(&self) -> bool {
        match self {
            ZarrEntry::File(f) => f.wf(),
            ZarrEntry::Directory(d) => d.wf(),
        }
    }
}

impl ZarrDirectory {
    /// Check the path well-formedness at run time.
    pub fn check_wf(&self) -> (r: bool)
        ensures
            r == self.wf(),
    {
        match &self.relpath {
            DirPath::Root => true,
            DirPath::Path(p) => p.check_valid(),
        }
    }

    pub open spec fn wf(&self) -> bool {
        match self.relpath {
            DirPath::Root => true,
            DirPath::Path(p) => p.wf(),
        }
    }

    /// The directory's location on disk.
    pub fn path(&self) -> (r: &str)
        ensures
            r@ == self.path@,
    {
        self.path.as_str()
    }

    /// The directory's identity within the Zarr.
    pub fn relpath(&self) -> (r: &DirPath)
        ensures
            r == self.relpath,
    {
        &self.relpath
    }

    /// List the directory's immediate children.  Each child extends this
    /// directory's relative path by its own validated name and lies strictly
    /// below it on disk; when dotfile exclusion is on, no child carries an
    /// excluded name.  An unreadable directory reports a readdir error with
    /// this directory's path; an undecodable basename reports the entry's
    /// path.
    pub fn entries(&self) -> (r: Result<Vec<ZarrEntry>, FSError>)
        requires
            self.wf(),
        ensures
            r matches Ok(v) ==> forall|i: int|
                0 <= i < v@.len() ==> {
                    &&& (#[trigger] v@[i]).wf()
                    &&& v@[i].entry_path().len() >= self.path@.len() + 1
                    &&& (v@[i] matches ZarrEntry::File(f) ==> f.relpath@.drop_last()
                        == self.relpath.segments())
                    &&& (v@[i] matches ZarrEntry::Directory(d) ==> {
                        &&& d.relpath matches DirPath::Path(p) && p@.drop_last()
                            == self.relpath.segments()
                        &&& d.exclude_dotfiles == self.exclude_dotfiles
                    })
                },
            r matches Ok(v) ==> exists|raw: Seq<RawEntryV>|
                #[trigger] listed_ok(raw, self.path@) && convert_raw(
                    raw,
                    self.relpath.segments(),
                    self.exclude_dotfiles,
                ) == Ok::<Seq<ZarrEntryV>, Seq<char>>(zarr_entry_views(v@)),
            r matches Err(e) ==> {
                ||| (e matches FSError::ReaddirError { path: q } && q@ == self.path@)
                ||| e is StatError
                ||| (e matches FSError::UndecodableName { path: q } && exists|raw: Seq<RawEntryV>|
                    #[trigger] listed_ok(raw, self.path@) && convert_raw(
                        raw,
                        self.relpath.segments(),
                        self.exclude_dotfiles,
                    ) == Err::<Seq<ZarrEntryV>, Seq<char>>(q@))
            },
    {
        let ghost base = self.relpath.segments();
        let ghost exclude = self.exclude_dotfiles;
        let raw = match list_directory(self.path.as_str()) {
            Ok(v) => v,
            Err(e) => {
                return Err(e);
            },
        };
        let ghost raw0 = raw@.map_values(|e: RawEntry| e@);
        proof {
            assert(listed_ok(raw0, self.path@)) by {
                assert forall|i: int| 0 <= i < raw0.len() implies ((#[trigger] raw0[i]).name
                    matches Some(n) ==> valid_segment(n)) && raw0[i].path.len() >= self.path@.len()
                    + 1 by {
                    assert(raw0[i] == raw@[i]@);
                }
            }
        }
        let mut out: Vec<ZarrEntry> = Vec::new();
        let mut items = raw;
        loop
            invariant
                self.wf(),
                base == self.relpath.segments(),
                exclude == self.exclude_dotfiles,
                listed_ok(raw0, self.path@),
                forall|j: int|
                    0 <= j < items@.len() ==> {
                        &&& ((#[trigger] items@[j]).name matches Some(nm) ==> valid_segment(nm@))
                        &&& items@[j].path@.len() >= self.path@.len() + 1
                    },
                forall|j: int|
                    0 <= j < out@.len() ==> {
                        &&& (#[trigger] out@[j]).wf()
                        &&& out@[j].entry_path().len() >= self.path@.len() + 1
                        &&& (out@[j] matches ZarrEntry::File(f) ==> f.relpath@.drop_last()
                            == self.relpath.segments())
                        &&& (out@[j] matches ZarrEntry::Directory(d) ==> {
                            &&& d.relpath matches DirPath::Path(p) && p@.drop_last()
                                == self.relpath.segments()
                            &&& d.exclude_dotfiles == self.exclude_dotfiles
                        })
                    },
                ({
                    let remaining = items@.map_values(|e: RawEntry| e@);
                    match convert_raw(remaining, base, exclude) {
                        Ok(rest) => convert_raw(raw0, base, exclude) == Ok::<
                            Seq<ZarrEntryV>,
                            Seq<char>,
                        >(zarr_entry_views(out@) + rest),
                        Err(p) => convert_raw(raw0, base, exclude) == Err::<
                            Seq<ZarrEntryV>,
                            Seq<char>,
                        >(p),
                    }
                }),
            ensures
                convert_raw(raw0, base, exclude) == Ok::<Seq<ZarrEntryV>, Seq<char>>(
                    zarr_entry_views(out@),
                ),
                forall|j: int|
                    0 <= j < out@.len() ==> {
                        &&& (#[trigger] out@[j]).wf()
                        &&& out@[j].entry_path().len() >= self.path@.len() + 1
                        &&& (out@[j] matches ZarrEntry::File(f) ==> f.relpath@.drop_last()
                            == self.relpath.segments())
                        &&& (out@[j] matches ZarrEntry::Directory(d) ==> {
                            &&& d.relpath matches DirPath::Path(p) && p@.drop_last()
                                == self.relpath.segments()
                            &&& d.exclude_dotfiles == self.exclude_dotfiles
                        })
                    },
            decreases items@.len(),
        {
            proof {
                if items@.len() == 0 {
                    let remaining = items@.map_values(|e: RawEntry| e@);
                    assert(remaining =~= Seq::<RawEntryV>::empty());
                    assert(convert_raw(remaining, base, exclude) == Ok::<
                        Seq<ZarrEntryV>,
                        Seq<char>,
                    >(Seq::empty()));
                    assert(zarr_entry_views(out@) + Seq::<ZarrEntryV>::empty() =~= zarr_entry_views(
                        out@,
                    ));
                }
            }
            if items.len() == 0 {
                break;
            }
            let ghost items0 = items@;
            let ghost remaining0 = items0.map_values(|e: RawEntry| e@);
            let entry = items.remove(0);
            let ghost ev = entry@;
            proof {
                assert(forall|j: int| 0 <= j < items@.len() ==> items@[j] == items0[j + 1]);
                assert(remaining0[0] == ev);
                assert(items@.map_values(|e: RawEntry| e@) =~= remaining0.drop_first());
            }
            let ghost remaining1 = items@.map_values(|e: RawEntry| e@);
            let RawEntry { path, name, is_dir } = entry;
            let name = match name {
                Some(nm) => nm,
                None => {
                    proof {
                        assert(convert_raw(remaining0, base, exclude) == Err::<
                            Seq<ZarrEntryV>,
                            Seq<char>,
                        >(ev.path));
                    }
                    return Err(FSError::UndecodableName { path });
                },
            };
            if self.exclude_dotfiles && is_excluded_dotfile(path.as_str()) {
                proof {
                    assert(convert_raw(remaining0, base, exclude) == convert_raw(
                        remaining1,
                        base,
                        exclude,
                    ));
                }
                continue;
            }
            let relpath = match self.relpath.join1(name.as_str()) {
                Ok(p) => p,
                Err(_) => {
                    proof {
                        assert(!valid_segment(name@));
                        assert(convert_raw(remaining0, base, exclude) == Err::<
                            Seq<ZarrEntryV>,
                            Seq<char>,
                        >(ev.path));
                    }
                    return Err(FSError::UndecodableName { path });
                },
            };
            proof {
                assert(relpath@.drop_last() =~= self.relpath.segments());
                assert(relpath@ == base.push(name@));
            }
            let ghost out0 = zarr_entry_views(out@);
            if is_dir {
                out.push(
                    ZarrEntry::Directory(
                        ZarrDirectory {
                            path,
                            relpath: DirPath::Path(relpath),
                            exclude_dotfiles: self.exclude_dotfiles,
                        },
                    ),
                );
            } else {
                out.push(ZarrEntry::File(ZarrFile { path, relpath }));
            }
            proof {
                let added = converted_entry(ev, name@, base, exclude);
                assert(zarr_entry_views(out@) =~= out0.push(added));
                match convert_raw(remaining1, base, exclude) {
                    Ok(rest) => {
                        assert(convert_raw(remaining0, base, exclude) == Ok::<
                            Seq<ZarrEntryV>,
                            Seq<char>,
                        >(seq![added] + rest));
                        assert(out0 + (seq![added] + rest) =~= out0.push(added) + rest);
                    },
                    Err(_) => {},
                }
            }
        }
        proof {
            assert(convert_raw(raw0, base, exclude) == Ok::<Seq<ZarrEntryV>, Seq<char>>(
                zarr_entry_views(out@),
            ));
        }
        Ok(out)
    }

    /// A fresh [`Dirsummer`] for this directory, carrying the root marker
    /// for the root.
    pub fn dirsummer(&self) -> (r: Dirsummer)
        requires
            self.wf(),
        ensures
            r@.relpath == (match self.relpath {
                DirPath::Root => seq!["<root>"@],
                DirPath::Path(p) => p@,
            }),
            r@.files == Seq::<crate::checksum::json::FileChecksumV>::empty(),
            r@.directories == Seq::<crate::checksum::json::DirChecksumV>::empty(),
            r@.size == 0,
            r@.file_count == 0,
            r.wf(),
    {
        let relpath = match &self.relpath {
            DirPath::Root => crate::checksum::tree::root_path(),
            DirPath::Path(p) => p.clone(),
        };
        Dirsummer::new(relpath)
    }

    /// Compute the checksum for the directory from the given checksums of
    /// its entries: the compound digest over their canonical JSON.
    ///
    /// It is the caller's responsibility that `nodes` holds all and only
    /// this directory's entries, with distinct names; otherwise the value
    /// reported does not describe the directory.
    pub fn get_checksum(&self, nodes: Vec<EntryChecksum>) -> (r: DirChecksum)
        requires
            self.wf(),
            forall|i: int| 0 <= i < nodes@.len() ==> (#[trigger] nodes@[i]).wf(),
        ensures
            ({
                let after = summer_after(
                    self.empty_summer(),
                    nodes@.map_values(|c: EntryChecksum| c@),
                );
                &&& r@.relpath == after.relpath
                &&& r@.size == after.size
                &&& r@.file_count == after.file_count
                &&& r@.checksum == crate::checksum::nodes::compound_digest(
                    after.files,
                    after.directories,
                    after.file_count,
                    after.size,
                )
                &&& is_md5_hex(
                    crate::util::md5_of(
                        crate::checksum::json::checksum_json_of(after.files, after.directories),
                    ),
                )
                &&& crate::checksum::nodes::is_compound_digest(r@.checksum)
                &&& r.wf()
            }),
    {
        let mut ds = self.dirsummer();
        proof {
            assert(ds@ == self.empty_summer());
        }
        ds.extend(nodes);
        ds.checksum()
    }

    /// The empty accumulator state for this directory.
    pub open spec fn empty_summer(&self) -> crate::checksum::nodes::DirsummerV {
        crate::checksum::nodes::DirsummerV {
            relpath: match self.relpath {
                DirPath::Root => seq!["<root>"@],
                DirPath::Path(p) => p@,
            },
            files: Seq::empty(),
            directories: Seq::empty(),
            size: 0,
            file_count: 0,
        }
    }
}

} // verus!
