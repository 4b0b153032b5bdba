//! Validated relative paths within a Zarr: nonempty sequences of normal
//! path segments.
use crate::errors::{EntryNameError, EntryPathError, RelativePathError};
use crate::text::str_eq;
use vstd::prelude::*;

verus! {

/// True when `s` may serve as a single path segment: nonempty, not `.` or
/// `..`, and free of `/`.
pub open spec fn valid_segment(s: Seq<char>) -> bool {
    &&& s.len() > 0
    &&& s != "."@
    &&& s != ".."@
    &&& !s.contains('/')
}

/// True when `s` is acceptable as a new final component of a path.
pub fn is_path_name(s: &str) -> (r: bool)
    ensures
        r == valid_segment(s@),
{
    proof {
        reveal_strlit(".");
        reveal_strlit("..");
    }
    let n = s.unicode_len();
    if n == 0 {
        return false;
    }
    let mut i: usize = 0;
    while i < n
        invariant
            0 <= i <= n,
            n == s@.len(),
            forall|j: int| 0 <= j < i ==> s@[j] != '/',
        decreases n - i,
    {
        if s.get_char(i) == '/' {
            assert(s@.contains('/'));
            return false;
        }
        i += 1;
    }
    assert(!s@.contains('/'));
    if n == 1 && s.get_char(0) == '.' {
        assert(s@ =~= "."@);
        return false;
    }
    if n == 2 && s.get_char(0) == '.' && s.get_char(1) == '.' {
        assert(s@ =~= ".."@);
        return false;
    }
    assert(s@ != "."@);
    assert(s@ != ".."@);
    true
}

/// Membership in a pushed sequence, spelled out.
proof fn lemma_contains_push<A>(s: Seq<A>, x: A, y: A)
    ensures
        s.push(x).contains(y) <==> (s.contains(y) || x == y),
{
    if s.push(x).contains(y) {
        let k = choose|k: int| 0 <= k < s.push(x).len() && s.push(x)[k] == y;
        if k < s.len() {
            assert(s[k] == y);
        }
    }
    if s.contains(y) {
        let k = choose|k: int| 0 <= k < s.len() && s[k] == y;
        assert(s.push(x)[k] == y);
    }
    assert(s.push(x)[s.len() as int] == x);
}

/// A normalized, nonempty, forward-slash-separated relative path.
#[derive(Debug, PartialEq, Eq, Hash)]
pub struct EntryPath {
    segments: Vec<String>,
}

impl View for EntryPath {
    type V = Seq<Seq<char>>;

    closed spec fn view(&self) -> Seq<Seq<char>> {
        self.segments.deep_view()
    }
}

impl Clone for EntryPath {
    /// Cloning a path preserves its segments.
    fn clone(&self) -> (r: Self)
        ensures
            r@ == self@,
    {
        let segments = clone_string_vec(&self.segments);
        EntryPath { segments }
    }
}

/// Clone a vector of strings, keeping its contents exactly.
fn clone_string_vec(v: &Vec<String>) -> (r: Vec<String>)
    ensures
        r.deep_view() == v.deep_view(),
{
    let r = v.clone();
    proof {
        assert forall|i: int| 0 <= i < v@.len() implies r@[i]@ == v@[i]@ by {
        }
        assert(r.deep_view() =~= v.deep_view());
    }
    r
}

/// True of the view of every well-formed [`EntryPath`].
pub open spec fn valid_path(p: Seq<Seq<char>>) -> bool {
    &&& p.len() >= 1
    &&& forall|i: int| 0 <= i < p.len() ==> valid_segment(#[trigger] p[i])
}

/// The textual form of a path: its segments joined by `/`.
pub open spec fn joined(p: Seq<Seq<char>>) -> Seq<char>
    decreases p.len(),
{
    if p.len() == 0 {
        Seq::empty()
    } else if p.len() == 1 {
        p[0]
    } else {
        joined(p.drop_last()) + seq!['/'] + p.last()
    }
}

/// Splitting a character sequence on `/`, processed left to right with the
/// current (unfinished) part and the finished parts as accumulators.
pub open spec fn split_acc(s: Seq<char>, cur: Seq<char>, acc: Seq<Seq<char>>) -> Seq<Seq<char>>
    decreases s.len(),
{
    if s.len() == 0 {
        acc.push(cur)
    } else if s[0] == '/' {
        split_acc(s.drop_first(), Seq::empty(), acc.push(cur))
    } else {
        split_acc(s.drop_first(), cur.push(s[0]), acc)
    }
}

/// The raw parts of a textual path: maximal runs between `/` separators,
/// empty runs included.
pub open spec fn raw_parts(s: Seq<char>) -> Seq<Seq<char>> {
    split_acc(s, Seq::empty(), Seq::empty())
}

/// Keep a raw part when normalization does not discard it.
pub open spec fn keep_part() -> spec_fn(Seq<char>) -> bool {
    |p: Seq<char>| p.len() > 0 && p != "."@
}

/// The segments that remain after dropping empty and `.` parts.
pub open spec fn norm_parts(s: Seq<char>) -> Seq<Seq<char>> {
    raw_parts(s).filter(keep_part())
}

/// True when a textual path denotes a well-formed relative path: it is not
/// absolute, contains no `..` part, and normalizes to at least one segment.
pub open spec fn parses_as_path(s: Seq<char>) -> bool {
    &&& !(s.len() > 0 && s[0] == '/')
    &&& !raw_parts(s).contains(".."@)
    &&& norm_parts(s).len() > 0
}

/// Split `path` on `/` and drop the parts that normalization discards,
/// reporting whether a `..` part was seen.
fn normalize_parts(path: &str) -> (r: (Vec<String>, bool))
    ensures
        r.0.deep_view() == norm_parts(path@),
        r.1 == raw_parts(path@).contains(".."@),
        forall|j: int| 0 <= j < r.0.deep_view().len() ==> (#[trigger] r.0.deep_view()[j]).len() > 0
            && r.0.deep_view()[j] != "."@ && !r.0.deep_view()[j].contains('/'),
        !r.1 ==> forall|j: int| 0 <= j < r.0.deep_view().len() ==> r.0.deep_view()[j] != ".."@,
{
    let n = path.unicode_len();
    let mut parts: Vec<String> = Vec::new();
    let mut cur = String::new();
    let ghost mut raw: Seq<Seq<char>> = Seq::empty();
    let mut bad = false;
    let mut i: usize = 0;
    proof {
        assert(path@.skip(0) =~= path@);
    }
    while i < n
        invariant
            n == path@.len(),
            i <= n,
            raw_parts(path@) == split_acc(path@.skip(i as int), cur@, raw),
            parts.deep_view() == raw.filter(keep_part()),
            bad == raw.contains(".."@),
            !cur@.contains('/'),
            forall|j: int|
                0 <= j < parts.deep_view().len() ==> (#[trigger] parts.deep_view()[j]).len() > 0
                    && parts.deep_view()[j] != "."@ && !parts.deep_view()[j].contains('/'),
            !bad ==> forall|j: int|
                0 <= j < parts.deep_view().len() ==> parts.deep_view()[j] != ".."@,
        decreases n - i,
    {
        let c = path.get_char(i);
        proof {
            assert(path@.skip(i as int)[0] == path@[i as int]);
            assert(path@.skip(i as int).drop_first() =~= path@.skip(i as int + 1));
        }
        if c == '/' {
            let ghost curv = cur@;
            proof {
                reveal(Seq::filter);
                assert(raw.push(curv).drop_last() =~= raw);
                lemma_contains_push(raw, curv, ".."@);
            }
            if str_eq(cur.as_str(), "..") {
                bad = true;
            }
            if cur.as_str().unicode_len() > 0 && !str_eq(cur.as_str(), ".") {
                let ghost before = parts.deep_view();
                parts.push(cur);
                proof {
                    assert(parts.deep_view() =~= before.push(curv));
                }
                cur = String::new();
            } else {
                cur = String::new();
            }
            proof {
                raw = raw.push(curv);
            }
        } else {
            let ghost curv = cur@;
            cur.push(c);
            proof {
                assert(cur@ =~= curv.push(c));
                assert(forall|k: int| 0 <= k < cur@.len() ==> cur@[k] != '/');
                assert(!cur@.contains('/'));
            }
        }
        i = i + 1;
    }
    // Close the final part.
    let ghost curv = cur@;
    proof {
        reveal(Seq::filter);
        assert(path@.skip(n as int).len() == 0);
        assert(raw_parts(path@) == raw.push(curv));
        assert(raw.push(curv).drop_last() =~= raw);
        lemma_contains_push(raw, curv, ".."@);
    }
    if str_eq(cur.as_str(), "..") {
        bad = true;
    }
    if cur.as_str().unicode_len() > 0 && !str_eq(cur.as_str(), ".") {
        let ghost before = parts.deep_view();
        parts.push(cur);
        proof {
            assert(parts.deep_view() =~= before.push(curv));
        }
    }
    (parts, bad)
}

impl EntryPath {
    /// The whole path is made of valid segments.
    pub open spec fn wf(&self) -> bool {
        valid_path(self@)
    }

    /// Construct an [`EntryPath`] from its textual form, normalizing away
    /// `.` components, empty components and redundant separators, and
    /// rejecting empty, absolute, and non-normal paths.
    pub fn parse(path: &str) -> (r: Result<EntryPath, EntryPathError>)
        ensures
            parses_as_path(path@) ==> (r matches Ok(p) && p@ == norm_parts(path@) && p.wf()),
            !parses_as_path(path@) ==> (r matches Err(e) && e.0@ == path@),
    {
        let n = path.unicode_len();
        if n > 0 && path.get_char(0) == '/' {
            return Err(EntryPathError(path.to_owned()));
        }
        let (parts, bad) = normalize_parts(path);
        if bad || parts.len() == 0 {
            return Err(EntryPathError(path.to_owned()));
        }
        Ok(EntryPath { segments: parts })
    }

    /// A path of a single validated segment.
    pub fn from_segment(s: &str) -> (r: Result<EntryPath, EntryNameError>)
        ensures
            valid_segment(s@) ==> (r matches Ok(p) && p@ == seq![s@] && p.wf()),
            !valid_segment(s@) ==> (r matches Err(e) && e.0@ == s@),
    {
        if is_path_name(s) {
            let mut segments: Vec<String> = Vec::new();
            segments.push(s.to_owned());
            proof {
                assert(segments.deep_view() =~= seq![s@]);
            }
            Ok(EntryPath { segments })
        } else {
            Err(EntryNameError(s.to_owned()))
        }
    }

    /// Check the well-formedness invariant at run time.
    pub fn check_valid(&self) -> (r: bool)
        ensures
            r == self.wf(),
    {
        if self.segments.len() == 0 {
            return false;
        }
        let mut i: usize = 0;
        while i < self.segments.len()
            invariant
                i <= self@.len(),
                self.segments.deep_view().len() == self.segments@.len(),
                forall|j: int| 0 <= j < i ==> valid_segment(#[trigger] self@[j]),
            decreases self@.len() - i,
        {
            if !is_path_name(self.segments[i].as_str()) {
                proof {
                    assert(self@[i as int] == self.segments@[i as int]@);
                }
                return false;
            }
            proof {
                assert(self@[i as int] == self.segments@[i as int]@);
            }
            i = i + 1;
        }
        true
    }

    /// The number of segments in the path.
    pub fn segment_count(&self) -> (r: usize)
        ensures
            r == self@.len(),
    {
        self.segments.len()
    }

    /// The segment at position `i`.
    pub fn segment(&self, i: usize) -> (r: &str)
        requires
            i < self@.len(),
        ensures
            r@ == self@[i as int],
    {
        self.segments[i].as_str()
    }

    /// The prefix made of the first `k` segments.
    pub fn take_prefix(&self, k: usize) -> (r: EntryPath)
        requires
            self.wf(),
            1 <= k <= self@.len(),
        ensures
            r@ == self@.take(k as int),
            r.wf(),
    {
        let mut segments = clone_string_vec(&self.segments);
        segments.truncate(k);
        proof {
            assert(segments.deep_view() =~= self@.take(k as int));
        }
        EntryPath { segments }
    }

    /// The basename of the path.
    pub fn file_name(&self) -> (r: &str)
        requires
            self.wf(),
        ensures
            r@ == self@.last(),
    {
        self.segments[self.segments.len() - 1].as_str()
    }

    /// Produce a new path by appending a validated segment.
    pub fn join1(&self, s: &str) -> (r: Result<EntryPath, EntryNameError>)
        requires
            self.wf(),
        ensures
            valid_segment(s@) ==> (r matches Ok(p) && p@ == self@.push(s@) && p.wf()),
            !valid_segment(s@) ==> (r matches Err(e) && e.0@ == s@),
    {
        if is_path_name(s) {
            let mut parts = clone_string_vec(&self.segments);
            parts.push(String::from_str(s));
            proof {
                assert(parts.deep_view() =~= self@.push(s@));
            }
            Ok(EntryPath { segments: parts })
        } else {
            Err(EntryNameError(s.to_owned()))
        }
    }

    /// An iterator over the proper prefixes of the path, shortest first and
    /// stopping before the path itself.
    pub fn parents(&self) -> (r: Parents)
        requires
            self.wf(),
        ensures
            r.parts() == self@,
            r.pos() == 0,
            r.wf(),
    {
        Parents { segments: clone_string_vec(&self.segments), i: 0 }
    }

    /// The textual form of the path: its segments joined by `/`.
    pub fn to_display(&self) -> (r: String)
        requires
            self.wf(),
        ensures
            r@ == joined(self@),
    {
        let mut r = String::new();
        let mut i: usize = 0;
        while i < self.segments.len()
            invariant
                self.wf(),
                i <= self@.len(),
                r@ == joined(self@.take(i as int)),
            decreases self@.len() - i,
        {
            if i > 0 {
                r.push('/');
            }
            r.append(self.segments[i].as_str());
            proof {
                let t = self@.take(i as int + 1);
                assert(t.drop_last() =~= self@.take(i as int));
                assert(t.last() == self@[i as int]);
                if i == 0 {
                    assert(r@ =~= t[0]);
                } else {
                    assert(r@ =~= joined(t.drop_last()) + seq!['/'] + t.last());
                }
            }
            i = i + 1;
        }
        proof {
            assert(self@.take(self@.len() as int) =~= self@);
        }
        r
    }
}

/// Iterator over the proper prefixes of an [`EntryPath`], shortest first.
///
/// This struct is returned by [`EntryPath::parents()`].
pub struct Parents {
    segments: Vec<String>,
    i: usize,
}

impl Parents {
    /// The segments of the underlying path.
    pub closed spec fn parts(&self) -> Seq<Seq<char>> {
        self.segments.deep_view()
    }

    /// How many prefixes have been yielded so far.
    pub closed spec fn pos(&self) -> nat {
        self.i as nat
    }

    pub open spec fn wf(&self) -> bool {
        valid_path(self.parts()) && self.pos() < self.parts().len()
    }

    /// The next longer proper prefix, or `None` when only the full path
    /// would remain.
    pub fn next(&mut self) -> (r: Option<EntryPath>)
        requires
            old(self).wf(),
        ensures
            final (self).wf(),
            final (self).parts() == old(self).parts(),
            old(self).pos() + 1 < old(self).parts().len() ==> {
                &&& final (self).pos() == old(self).pos() + 1
                &&& r matches Some(p) && p@ == old(self).parts().take(old(self).pos() + 1 as int)
                    && p.wf()
            },
            old(self).pos() + 1 >= old(self).parts().len() ==> {
                &&& final (self).pos() == old(self).pos()
                &&& r is None
            },
    {
        if self.i < self.segments.len() - 1 {
            self.i = self.i + 1;
            let mut parts: Vec<String> = Vec::new();
            let mut j: usize = 0;
            while j < self.i
                invariant
                    valid_path(self.parts()),
                    j <= self.i,
                    self.i < self.segments.len(),
                    self.segments.deep_view().len() == self.segments.len(),
                    parts.deep_view() =~= self.parts().take(j as int),
                decreases self.i - j,
            {
                let ghost before = parts.deep_view();
                let seg = self.segments[j].clone();
                proof {
                    assert(seg@ == self.segments@[j as int]@);
                }
                parts.push(seg);
                proof {
                    assert(parts.deep_view() =~= before.push(self.parts()[j as int]));
                    assert(self.parts().take(j as int + 1) =~= self.parts().take(j as int).push(
                        self.parts()[j as int],
                    ));
                }
                j = j + 1;
            }
            Some(EntryPath { segments: parts })
        } else {
            None
        }
    }
}

/// True when `path` extends `basepath` by a separator and a nonempty
/// normalizable remainder.
pub open spec fn descends_from(path: Seq<char>, basepath: Seq<char>) -> bool {
    &&& path.len() > basepath.len()
    &&& path.take(basepath.len() as int) == basepath
    &&& path[basepath.len() as int] == '/'
    &&& !raw_parts(path.skip(basepath.len() + 1 as int)).contains(".."@)
    &&& norm_parts(path.skip(basepath.len() + 1 as int)).len() > 0
}

/// Compute `path` relative to `basepath` as an [`EntryPath`], verifying that
/// `path` is lexically a descendant of `basepath`; a failure names both.
pub fn relative_to(path: &str, basepath: &str) -> (r: Result<EntryPath, RelativePathError>)
    ensures
        descends_from(path@, basepath@) ==> (r matches Ok(p) && p@ == norm_parts(
            path@.skip(basepath@.len() + 1 as int),
        ) && p.wf()),
        !descends_from(path@, basepath@) ==> (r matches Err(e) && e.path@ == path@ && e.basepath@
            == basepath@),
{
    let plen = path.unicode_len();
    let blen = basepath.unicode_len();
    if plen <= blen {
        return Err(RelativePathError { path: path.to_owned(), basepath: basepath.to_owned() });
    }
    let prefix = path.substring_char(0, blen);
    proof {
        assert(path@.subrange(0, blen as int) =~= path@.take(blen as int));
    }
    if !str_eq(prefix, basepath) {
        return Err(RelativePathError { path: path.to_owned(), basepath: basepath.to_owned() });
    }
    if path.get_char(blen) != '/' {
        return Err(RelativePathError { path: path.to_owned(), basepath: basepath.to_owned() });
    }
    let rest = path.substring_char(blen + 1, plen);
    proof {
        assert(path@.subrange(blen as int + 1, plen as int) =~= path@.skip(blen as int + 1));
    }
    let (parts, bad) = normalize_parts(rest);
    if bad || parts.len() == 0 {
        return Err(RelativePathError { path: path.to_owned(), basepath: basepath.to_owned() });
    }
    Ok(EntryPath { segments: parts })
}

} // verus!
