//! The canonical single-line JSON listing of a directory's children, from
//! which the directory's MD5 is computed.
use super::nodes::{DirChecksum, FileChecksum};
use crate::text::{chars_le, chars_lt, lemma_chars_le_total, lemma_chars_le_trans, str_eq, str_le,
    u64_to_string, dec_str};
use vstd::prelude::*;
use vstd::relations::{sorted_by, total_ordering};
use vstd::seq_lib::lemma_sorted_unique;
use vstd::utf8::is_scalar;

verus! {

/// One record of the canonical JSON listing: `{digest, name, size}`.
pub ghost struct EntryV {
    pub name: Seq<char>,
    pub digest: Seq<char>,
    pub size: u64,
}

/// The order of entries within one listing: ascending by name, then digest,
/// then size.
pub open spec fn entry_le(x: EntryV, y: EntryV) -> bool {
    if x.name != y.name {
        chars_lt(x.name, y.name)
    } else if x.digest != y.digest {
        chars_lt(x.digest, y.digest)
    } else {
        x.size <= y.size
    }
}

/// [`entry_le`] as a binary relation value.
pub open spec fn entry_leq() -> spec_fn(EntryV, EntryV) -> bool {
    |x: EntryV, y: EntryV| entry_le(x, y)
}

/// Applying [`entry_leq`] means [`entry_le`].
pub proof fn lemma_entry_leq_is(x: EntryV, y: EntryV)
    ensures
        entry_leq()(x, y) == entry_le(x, y),
{
}

/// The entry order is a total ordering, so sorting by it has a unique result.
pub proof fn lemma_entry_le_total()
    ensures
        total_ordering(entry_leq()),
{
    let leq = entry_leq();
    assert forall|x: EntryV| #[trigger] leq(x, x) by {
        lemma_chars_le_total(x.name, x.name);
    }
    assert forall|x: EntryV, y: EntryV| #[trigger] leq(x, y) && #[trigger] leq(y, x) implies x
        == y by {
        lemma_chars_le_total(x.name, y.name);
        lemma_chars_le_total(x.digest, y.digest);
    }
    assert forall|x: EntryV, y: EntryV, z: EntryV| #[trigger] leq(x, y) && #[trigger] leq(
        y,
        z,
    ) implies leq(x, z) by {
        lemma_chars_le_total(x.name, y.name);
        lemma_chars_le_total(y.name, z.name);
        lemma_chars_le_total(x.name, z.name);
        lemma_chars_le_trans(x.name, y.name, z.name);
        if x.name == z.name && x.name != y.name {
            // x.name < y.name and y.name < x.name cannot both hold.
            lemma_chars_le_total(x.name, y.name);
        }
        if x.name == y.name && y.name == z.name {
            lemma_chars_le_total(x.digest, y.digest);
            lemma_chars_le_total(y.digest, z.digest);
            lemma_chars_le_trans(x.digest, y.digest, z.digest);
        }
    }
    assert forall|x: EntryV, y: EntryV| #[trigger] leq(x, y) || #[trigger] leq(y, x) by {
        lemma_chars_le_total(x.name, y.name);
        lemma_chars_le_total(x.digest, y.digest);
    }
}

/// The lowercase hexadecimal digit for `n` (0 through 15).
pub open spec fn hex_digit(n: nat) -> char
    recommends
        n < 16,
{
    if n < 10 {
        ((48 + n) as u8) as char
    } else {
        ((87 + n) as u8) as char
    }
}

/// Four lowercase hexadecimal digits for a 16-bit code unit.
pub open spec fn hex4(u: nat) -> Seq<char>
    recommends
        u < 0x10000,
{
    seq![
        hex_digit(u / 0x1000 % 16),
        hex_digit(u / 0x100 % 16),
        hex_digit(u / 0x10 % 16),
        hex_digit(u % 16),
    ]
}

/// The escape of one character in a JSON string: the named two-character
/// escapes, printable ASCII verbatim, and `\uXXXX` code units (a surrogate
/// pair above U+FFFF) for everything else.
pub open spec fn escape_char(c: char) -> Seq<char> {
    if c == '"' {
        seq!['\\', '"']
    } else if c == '\\' {
        seq!['\\', '\\']
    } else if c == '\u{8}' {
        seq!['\\', 'b']
    } else if c == '\u{c}' {
        seq!['\\', 'f']
    } else if c == '\n' {
        seq!['\\', 'n']
    } else if c == '\r' {
        seq!['\\', 'r']
    } else if c == '\t' {
        seq!['\\', 't']
    } else if ' ' <= c && c <= '~' {
        seq![c]
    } else if (c as u32) < 0x10000 {
        seq!['\\', 'u'] + hex4(c as u32 as nat)
    } else {
        seq!['\\', 'u'] + hex4((0xD800 + ((c as u32) - 0x10000) / 0x400) as nat) + seq!['\\', 'u']
            + hex4((0xDC00 + ((c as u32) - 0x10000) % 0x400) as nat)
    }
}

/// The escape of a whole text.
pub open spec fn escape_str(s: Seq<char>) -> Seq<char>
    decreases s.len(),
{
    if s.len() == 0 {
        Seq::empty()
    } else {
        escape_str(s.drop_last()) + escape_char(s.last())
    }
}

/// A JSON string literal: the escaped text in double quotes.
pub open spec fn json_string(s: Seq<char>) -> Seq<char> {
    seq!['"'] + escape_str(s) + seq!['"']
}

/// The JSON object for one entry, with the fixed key order
/// `digest`, `name`, `size`.
pub open spec fn entry_json(e: EntryV) -> Seq<char> {
    "{\"digest\":"@ + json_string(e.digest) + ",\"name\":"@ + json_string(e.name) + ",\"size\":"@
        + dec_str(e.size as nat) + "}"@
}

/// A comma-separated run of entry objects.
pub open spec fn entries_json(s: Seq<EntryV>) -> Seq<char>
    decreases s.len(),
{
    if s.len() == 0 {
        Seq::empty()
    } else if s.len() == 1 {
        entry_json(s[0])
    } else {
        entries_json(s.drop_last()) + seq![','] + entry_json(s.last())
    }
}

/// The canonical JSON object for a directory listing, for already-sorted
/// entry sequences: key order `directories`, then `files`, no whitespace.
pub open spec fn collection_json(dirs: Seq<EntryV>, files: Seq<EntryV>) -> Seq<char> {
    "{\"directories\":["@ + entries_json(dirs) + "],\"files\":["@ + entries_json(files) + "]}"@
}

/// An entry of the canonical JSON listing.
#[derive(Debug)]
pub struct JSONEntry {
    pub digest: String,
    pub name: String,
    pub size: u64,
}

impl View for JSONEntry {
    type V = EntryV;

    open spec fn view(&self) -> EntryV {
        EntryV { name: self.name@, digest: self.digest@, size: self.size }
    }
}

/// The views of a sequence of entries.
pub open spec fn entry_views(s: Seq<JSONEntry>) -> Seq<EntryV> {
    s.map_values(|e: JSONEntry| e@)
}

/// Compare two entries in the order of [`entry_le`].
fn entry_le_exec(a: &JSONEntry, b: &JSONEntry) -> (r: bool)
    ensures
        r == entry_le(a@, b@),
{
    if !str_eq(a.name.as_str(), b.name.as_str()) {
        str_le(a.name.as_str(), b.name.as_str())
    } else if !str_eq(a.digest.as_str(), b.digest.as_str()) {
        str_le(a.digest.as_str(), b.digest.as_str())
    } else {
        a.size <= b.size
    }
}

/// Sort entries ascending by `(name, digest, size)`; the result is the unique
/// sorted permutation of the input.
pub(crate) fn sort_entries(v: Vec<JSONEntry>) -> (r: Vec<JSONEntry>)
    ensures
        entry_views(r@) == entry_views(v@).sort_by(entry_leq()),
{
    proof {
        lemma_entry_le_total();
    }
    let mut input = v;
    let mut out: Vec<JSONEntry> = Vec::new();
    let ghost all = entry_views(input@);
    proof {
        assert(entry_views(out@) =~= Seq::<EntryV>::empty());
        assert(entry_views(input@.take(0)) =~= Seq::<EntryV>::empty());
        assert(entry_views(out@).to_multiset() =~= entry_views(input@.take(0)).to_multiset());
    }
    let mut i: usize = 0;
    let n = input.len();
    while i < n
        invariant
            n == input@.len(),
            i <= n,
            all == entry_views(input@),
            pairwise_sorted(entry_views(out@)),
            entry_views(out@).to_multiset() == entry_views(input@.take(i as int)).to_multiset(),
        decreases n - i,
    {
        let ghost out0 = entry_views(out@);
        let x = clone_entry(&input[i]);
        let ghost xv = x@;
        // Find the first position whose entry does not precede `x`.
        let mut k: usize = 0;
        loop
            invariant
                k <= out@.len(),
                entry_views(out@) == out0,
                x@ == xv,
                forall|j: int| 0 <= j < k ==> entry_le(#[trigger] out0[j], xv),
            ensures
                k <= out0.len(),
                forall|j: int| 0 <= j < k ==> entry_le(#[trigger] out0[j], xv),
                k < out0.len() ==> !entry_le(out0[k as int], xv),
            decreases out@.len() - k,
        {
            if k >= out.len() {
                break;
            }
            let le = entry_le_exec(&out[k], &x);
            proof {
                assert(entry_views(out@)[k as int] == out@[k as int]@);
                assert(le == entry_le(out0[k as int], xv));
            }
            if !le {
                break;
            }
            k = k + 1;
        }
        let ghost kk = k as int;
        out.insert(k, x);
        proof {
            assert(entry_views(out@) =~= out0.insert(kk, xv)) by {
                assert forall|j: int| 0 <= j < entry_views(out@).len() implies entry_views(out@)[j]
                    == out0.insert(kk, xv)[j] by {
                    assert(entry_views(out@)[j] == out@[j]@);
                    if j < kk {
                        assert(out@[j]@ == out0[j]);
                    } else if j > kk {
                        assert(out@[j]@ == out0[j - 1]);
                    }
                }
            }
            assert forall|a: int, b: int| 0 <= a < b < out0.insert(kk, xv).len() implies entry_le(
                out0.insert(kk, xv)[a],
                out0.insert(kk, xv)[b],
            ) by {
                let s = out0.insert(kk, xv);
                lemma_entry_le_total();
                if b < kk {
                    assert(s[a] == out0[a] && s[b] == out0[b]);
                } else if a > kk {
                    assert(s[a] == out0[a - 1] && s[b] == out0[b - 1]);
                } else if a < kk && b == kk {
                    assert(s[a] == out0[a] && s[b] == xv);
                } else if a < kk && b > kk {
                    assert(s[a] == out0[a] && s[b] == out0[b - 1]);
                } else if a == kk && b > kk {
                    assert(s[a] == xv && s[b] == out0[b - 1]);
                    // x precedes the element it displaced, which precedes the rest.
                    assert(!entry_le(out0[kk], xv));
                    assert(entry_le(xv, out0[kk])) by {
                        lemma_entry_leq_is(out0[kk], xv);
                        lemma_entry_leq_is(xv, out0[kk]);
                    }
                    if b - 1 > kk {
                        assert(entry_le(out0[kk], out0[b - 1]));
                        lemma_entry_leq_is(out0[kk], out0[b - 1]);
                        lemma_entry_leq_is(xv, out0[kk]);
                        lemma_entry_leq_is(xv, out0[b - 1]);
                        assert(entry_leq()(xv, out0[kk]) && entry_leq()(out0[kk], out0[b - 1]));
                        assert(entry_leq()(xv, out0[b - 1]));
                    }
                }
            }
            broadcast use vstd::seq_lib::to_multiset_build, vstd::seq_lib::to_multiset_insert;

            assert(out0.insert(kk, xv).to_multiset() == out0.to_multiset().insert(xv));
            assert(entry_views(input@.take(i as int + 1)) =~= entry_views(
                input@.take(i as int),
            ).push(xv));
            assert(entry_views(input@.take(i as int)).push(xv).to_multiset() == entry_views(
                input@.take(i as int),
            ).to_multiset().insert(xv));
        }
        i = i + 1;
    }
    proof {
        let leq = entry_leq();
        lemma_entry_le_total();
        assert(input@.take(n as int) =~= input@);
        all.lemma_sort_by_ensures(leq);
        assert(sorted_by(entry_views(out@), leq)) by {
            assert forall|a: int, b: int|
                0 <= a < b < entry_views(out@).len() implies #[trigger] leq(
                entry_views(out@)[a],
                entry_views(out@)[b],
            ) by {
                lemma_entry_leq_is(entry_views(out@)[a], entry_views(out@)[b]);
            }
        }
        lemma_sorted_unique(entry_views(out@), all.sort_by(leq), leq);
    }
    out
}

/// Adjacent-free form of sortedness by the entry order.
pub open spec fn pairwise_sorted(s: Seq<EntryV>) -> bool {
    forall|a: int, b: int| 0 <= a < b < s.len() ==> entry_le(#[trigger] s[a], #[trigger] s[b])
}

/// The abstract content of a file checksum.
pub ghost struct FileChecksumV {
    pub relpath: Seq<Seq<char>>,
    pub checksum: Seq<char>,
    pub size: u64,
}

/// The abstract content of a directory checksum.
pub ghost struct DirChecksumV {
    pub relpath: Seq<Seq<char>>,
    pub checksum: Seq<char>,
    pub size: u64,
    pub file_count: u64,
}

/// The JSON record of a file: its basename, bare MD5, and size.
pub open spec fn file_entry(f: FileChecksumV) -> EntryV {
    EntryV { name: f.relpath.last(), digest: f.checksum, size: f.size }
}

/// The JSON record of a directory: its basename, compound digest, and size.
pub open spec fn dir_entry(d: DirChecksumV) -> EntryV {
    EntryV { name: d.relpath.last(), digest: d.checksum, size: d.size }
}

/// The JSON records of a run of file checksums, in order.
pub open spec fn file_entries(files: Seq<FileChecksumV>) -> Seq<EntryV>
    decreases files.len(),
{
    if files.len() == 0 {
        Seq::empty()
    } else {
        file_entries(files.drop_last()).push(file_entry(files.last()))
    }
}

/// The JSON records of a run of directory checksums, in order, with empty
/// directories (`file_count == 0`) omitted.
pub open spec fn dir_entries(dirs: Seq<DirChecksumV>) -> Seq<EntryV>
    decreases dirs.len(),
{
    if dirs.len() == 0 {
        Seq::empty()
    } else if dirs.last().file_count > 0 {
        dir_entries(dirs.drop_last()).push(dir_entry(dirs.last()))
    } else {
        dir_entries(dirs.drop_last())
    }
}

/// The canonical JSON listing for a directory with the given file and
/// subdirectory checksums, in any order: empty subdirectories are omitted and
/// both runs are sorted.
pub open spec fn checksum_json_of(files: Seq<FileChecksumV>, dirs: Seq<DirChecksumV>) -> Seq<
    char,
> {
    collection_json(
        dir_entries(dirs).sort_by(entry_leq()),
        file_entries(files).sort_by(entry_leq()),
    )
}

/// Render the canonical JSON listing for the given file and subdirectory
/// checksums: empty subdirectories are omitted, entries are sorted ascending
/// by `(name, digest, size)`, keys appear in the fixed order, and no
/// whitespace is inserted.
pub fn get_checksum_json(files: &Vec<FileChecksum>, directories: &Vec<DirChecksum>) -> (r: String)
    requires
        forall|i: int|
            0 <= i < files@.len() ==> crate::zarr::valid_path(#[trigger] files@[i]@.relpath),
        forall|i: int|
            0 <= i < directories@.len() ==> crate::zarr::valid_path(
                #[trigger] directories@[i]@.relpath,
            ),
    ensures
        r@ == checksum_json_of(
            files@.map_values(|f: FileChecksum| f@),
            directories@.map_values(|d: DirChecksum| d@),
        ),
{
    let ghost fviews = files@.map_values(|f: FileChecksum| f@);
    let ghost dviews = directories@.map_values(|d: DirChecksum| d@);
    let mut fentries: Vec<JSONEntry> = Vec::new();
    let mut i: usize = 0;
    proof {
        assert(file_entries(fviews.take(0)) =~= Seq::<EntryV>::empty());
        assert(entry_views(fentries@) =~= file_entries(fviews.take(0)));
    }
    while i < files.len()
        invariant
            i <= files@.len(),
            fviews == files@.map_values(|f: FileChecksum| f@),
            forall|j: int|
                0 <= j < files@.len() ==> crate::zarr::valid_path(#[trigger] files@[j]@.relpath),
            entry_views(fentries@) == file_entries(fviews.take(i as int)),
        decreases files@.len() - i,
    {
        let f = &files[i];
        let ghost before = entry_views(fentries@);
        proof {
            assert(files@[i as int]@.relpath == f.relpath@);
        }
        let e = JSONEntry {
            digest: f.checksum.clone(),
            name: String::from_str(f.relpath.file_name()),
            size: f.size,
        };
        proof {
            assert(e@ == file_entry(fviews[i as int]));
        }
        fentries.push(e);
        proof {
            assert(entry_views(fentries@) =~= before.push(file_entry(fviews[i as int])));
            let t = fviews.take(i as int + 1);
            assert(t.drop_last() =~= fviews.take(i as int));
            assert(t.last() == fviews[i as int]);
        }
        i = i + 1;
    }
    proof {
        assert(fviews.take(files@.len() as int) =~= fviews);
    }
    let mut dentries: Vec<JSONEntry> = Vec::new();
    let mut i: usize = 0;
    proof {
        assert(dir_entries(dviews.take(0)) =~= Seq::<EntryV>::empty());
        assert(entry_views(dentries@) =~= dir_entries(dviews.take(0)));
    }
    while i < directories.len()
        invariant
            i <= directories@.len(),
            dviews == directories@.map_values(|d: DirChecksum| d@),
            forall|j: int|
                0 <= j < directories@.len() ==> crate::zarr::valid_path(
                    #[trigger] directories@[j]@.relpath,
                ),
            entry_views(dentries@) == dir_entries(dviews.take(i as int)),
        decreases directories@.len() - i,
    {
        let d = &directories[i];
        let ghost before = entry_views(dentries@);
        proof {
            assert(directories@[i as int]@.relpath == d.relpath@);
        }
        if d.file_count > 0 {
            let e = JSONEntry {
                digest: d.checksum.clone(),
                name: String::from_str(d.relpath.file_name()),
                size: d.size,
            };
            proof {
                assert(e@ == dir_entry(dviews[i as int]));
            }
            dentries.push(e);
            proof {
                assert(entry_views(dentries@) =~= before.push(dir_entry(dviews[i as int])));
            }
        }
        proof {
            let t = dviews.take(i as int + 1);
            assert(t.drop_last() =~= dviews.take(i as int));
            assert(t.last() == dviews[i as int]);
        }
        i = i + 1;
    }
    proof {
        assert(dviews.take(directories@.len() as int) =~= dviews);
    }
    let collection = JSONEntryCollection {
        directories: sort_entries(dentries),
        files: sort_entries(fentries),
    };
    let mut buf = String::new();
    collection.write_json(&mut buf);
    proof {
        assert(buf@ =~= checksum_json_of(fviews, dviews));
    }
    buf
}

/// Clone one entry, keeping its fields exactly.
fn clone_entry(e: &JSONEntry) -> (r: JSONEntry)
    ensures
        r@ == e@,
{
    JSONEntry {
        digest: e.digest.clone(),
        name: e.name.clone(),
        size: e.size,
    }
}

/// Append `n` as four lowercase hexadecimal digits.
fn push_hex4(out: &mut String, u: u32)
    requires
        u < 0x10000,
    ensures
        final (out)@ == old(out)@ + hex4(u as nat),
{
    let ghost o = out@;
    out.push(hex_digit_exec((u / 0x1000 % 16) as u8));
    out.push(hex_digit_exec((u / 0x100 % 16) as u8));
    out.push(hex_digit_exec((u / 0x10 % 16) as u8));
    out.push(hex_digit_exec((u % 16) as u8));
    proof {
        assert(out@ =~= o + hex4(u as nat));
    }
}

/// The lowercase hexadecimal digit for `n`.
fn hex_digit_exec(n: u8) -> (r: char)
    requires
        n < 16,
    ensures
        r == hex_digit(n as nat),
{
    if n < 10 {
        (48 + n) as char
    } else {
        (87 + n) as char
    }
}

/// Append the JSON string literal for `s`: quoted, with `"`, `\`, and the
/// named control characters escaped, printable ASCII verbatim, and all other
/// code points as `\uXXXX` code units.
pub fn write_json_str(s: &str, out: &mut String)
    ensures
        final (out)@ == old(out)@ + json_string(s@),
{
    out.push('"');
    let n = s.unicode_len();
    let mut i: usize = 0;
    proof {
        assert(escape_str(s@.take(0)) =~= Seq::<char>::empty());
        assert(out@ =~= old(out)@ + seq!['"']);
    }
    while i < n
        invariant
            n == s@.len(),
            i <= n,
            out@ == old(out)@ + seq!['"'] + escape_str(s@.take(i as int)),
        decreases n - i,
    {
        let c = s.get_char(i);
        let ghost o = out@;
        if c == '"' {
            out.push('\\');
            out.push('"');
        } else if c == '\\' {
            out.push('\\');
            out.push('\\');
        } else if c == '\u{8}' {
            out.push('\\');
            out.push('b');
        } else if c == '\u{c}' {
            out.push('\\');
            out.push('f');
        } else if c == '\n' {
            out.push('\\');
            out.push('n');
        } else if c == '\r' {
            out.push('\\');
            out.push('r');
        } else if c == '\t' {
            out.push('\\');
            out.push('t');
        } else if ' ' <= c && c <= '~' {
            out.push(c);
        } else {
            let u = c as u32;
            if u < 0x10000 {
                out.push('\\');
                out.push('u');
                push_hex4(out, u);
            } else {
                out.push('\\');
                out.push('u');
                push_hex4(out, 0xD800 + (u - 0x10000) / 0x400);
                out.push('\\');
                out.push('u');
                push_hex4(out, 0xDC00 + (u - 0x10000) % 0x400);
            }
        }
        proof {
            assert(out@ =~= o + escape_char(s@[i as int]));
            let t = s@.take(i as int + 1);
            assert(t.drop_last() =~= s@.take(i as int));
            assert(t.last() == s@[i as int]);
            assert(out@ =~= old(out)@ + seq!['"'] + escape_str(t));
        }
        i = i + 1;
    }
    let ghost o = out@;
    out.push('"');
    proof {
        assert(s@.take(n as int) =~= s@);
        assert(out@ =~= old(out)@ + json_string(s@));
    }
}

impl JSONEntry {
    /// Append this entry's JSON object, with the fixed key order
    /// `digest`, `name`, `size`.
    pub fn write_json(&self, out: &mut String)
        ensures
            final (out)@ == old(out)@ + entry_json(self@),
    {
        out.append("{\"digest\":");
        write_json_str(self.digest.as_str(), out);
        out.append(",\"name\":");
        write_json_str(self.name.as_str(), out);
        out.append(",\"size\":");
        let num = u64_to_string(self.size);
        out.append(num.as_str());
        out.append("}");
        proof {
            assert(out@ =~= old(out)@ + entry_json(self@));
        }
    }
}

/// The two sorted halves of a directory listing.
pub struct JSONEntryCollection {
    pub directories: Vec<JSONEntry>,
    pub files: Vec<JSONEntry>,
}

impl JSONEntryCollection {
    /// Append the collection's JSON object: directories first, then files,
    /// each comma-separated, no whitespace.
    pub fn write_json(&self, out: &mut String)
        ensures
            final (out)@ == old(out)@ + collection_json(
                entry_views(self.directories@),
                entry_views(self.files@),
            ),
    {
        out.append("{\"directories\":[");
        write_entry_list(&self.directories, out);
        out.append("],\"files\":[");
        write_entry_list(&self.files, out);
        out.append("]}");
        proof {
            assert(out@ =~= old(out)@ + collection_json(
                entry_views(self.directories@),
                entry_views(self.files@),
            ));
        }
    }
}

/// Append a comma-separated run of entry objects.
fn write_entry_list(entries: &Vec<JSONEntry>, out: &mut String)
    ensures
        final (out)@ == old(out)@ + entries_json(entry_views(entries@)),
{
    let mut i: usize = 0;
    proof {
        assert(entries_json(entry_views(entries@.take(0))) =~= Seq::<char>::empty());
        assert(out@ =~= old(out)@ + entries_json(entry_views(entries@.take(0))));
    }
    while i < entries.len()
        invariant
            i <= entries@.len(),
            out@ == old(out)@ + entries_json(entry_views(entries@.take(i as int))),
        decreases entries@.len() - i,
    {
        let ghost o = out@;
        if i > 0 {
            out.push(',');
        }
        entries[i].write_json(out);
        proof {
            let t = entry_views(entries@.take(i as int + 1));
            assert(t.drop_last() =~= entry_views(entries@.take(i as int)));
            assert(t.last() == entries@[i as int]@);
            if i == 0 {
                assert(t.len() == 1);
                assert(entries_json(t) == entry_json(t[0]));
                assert(out@ =~= old(out)@ + entries_json(t));
            } else {
                assert(entries_json(t) == entries_json(t.drop_last()) + seq![','] + entry_json(
                    t.last(),
                ));
                assert(out@ =~= old(out)@ + entries_json(t));
            }
        }
        i = i + 1;
    }
    proof {
        assert(entries@.take(entries@.len() as int) =~= entries@);
    }
}

/// The escape of a text, built from the front; the same function as
/// [`escape_str`].
pub open spec fn escape_front(s: Seq<char>) -> Seq<char>
    decreases s.len(),
{
    if s.len() == 0 {
        Seq::empty()
    } else {
        escape_char(s[0]) + escape_front(s.drop_first())
    }
}

/// The front form peels the last character like the back form does.
proof fn lemma_escape_front_last(s: Seq<char>)
    requires
        s.len() >= 1,
    ensures
        escape_front(s) == escape_front(s.drop_last()) + escape_char(s.last()),
    decreases s.len(),
{
    if s.len() == 1 {
        assert(s.drop_last().len() == 0);
        assert(s.drop_first().len() == 0);
        assert(escape_front(s.drop_first()) =~= Seq::<char>::empty());
        assert(escape_front(s.drop_last()) =~= Seq::<char>::empty());
        assert(s.last() == s[0]);
        assert(escape_front(s) == escape_char(s[0]) + escape_front(s.drop_first()));
        assert(escape_front(s) =~= escape_front(s.drop_last()) + escape_char(s.last()));
    } else {
        lemma_escape_front_last(s.drop_first());
        assert(s.drop_first().drop_last() =~= s.drop_last().drop_first());
        assert(s.drop_last()[0] == s[0]);
        assert(s.drop_first().last() == s.last());
        assert(escape_char(s[0]) + (escape_front(s.drop_last().drop_first()) + escape_char(
            s.last(),
        )) =~= (escape_char(s[0]) + escape_front(s.drop_last().drop_first())) + escape_char(
            s.last(),
        ));
    }
}

/// The two forms of the escape agree.
proof fn lemma_escape_forms(s: Seq<char>)
    ensures
        escape_str(s) == escape_front(s),
    decreases s.len(),
{
    if s.len() > 0 {
        lemma_escape_forms(s.drop_last());
        lemma_escape_front_last(s);
    }
}

/// The character a short escape stands for.
pub open spec fn unescape_short(c: char) -> char {
    if c == '"' {
        '"'
    } else if c == '\\' {
        '\\'
    } else if c == 'b' {
        '\u{8}'
    } else if c == 'f' {
        '\u{c}'
    } else if c == 'n' {
        '\n'
    } else if c == 'r' {
        '\r'
    } else {
        '\t'
    }
}

/// The value of one lowercase hexadecimal digit.
pub open spec fn hex_val(c: char) -> nat {
    if '0' <= c && c <= '9' {
        ((c as u32) - 48) as nat
    } else {
        ((c as u32) - 87) as nat
    }
}

/// The value of the first four hexadecimal digits of `t`.
pub open spec fn hex4_val(t: Seq<char>) -> nat
    recommends
        t.len() >= 4,
{
    hex_val(t[0]) * 0x1000 + hex_val(t[1]) * 0x100 + hex_val(t[2]) * 0x10 + hex_val(t[3])
}

/// The scalar a surrogate pair stands for.
pub open spec fn pair_scalar(u1: nat, u2: nat) -> int {
    0x10000 + (u1 - 0xD800) * 0x400 + (u2 - 0xDC00)
}

/// Decode an escaped text: the inverse of [`escape_str`] on its outputs
/// (unspecified elsewhere).
pub open spec fn unescape(t: Seq<char>) -> Seq<char>
    decreases t.len(),
{
    if t.len() == 0 {
        Seq::empty()
    } else if t[0] == '\\' {
        if t.len() >= 2 && t[1] == 'u' {
            if t.len() >= 6 {
                let u1 = hex4_val(t.subrange(2, 6));
                if 0xD800 <= u1 < 0xDC00 && t.len() >= 12 {
                    let u2 = hex4_val(t.subrange(8, 12));
                    seq![(pair_scalar(u1, u2) as u32) as char] + unescape(t.skip(12))
                } else {
                    seq![(u1 as u32) as char] + unescape(t.skip(6))
                }
            } else {
                Seq::empty()
            }
        } else if t.len() >= 2 {
            seq![unescape_short(t[1])] + unescape(t.skip(2))
        } else {
            Seq::empty()
        }
    } else {
        seq![t[0]] + unescape(t.drop_first())
    }
}

/// Hexadecimal digits decode back to their values.
proof fn lemma_hex_digit_val(n: nat)
    requires
        n < 16,
    ensures
        hex_val(hex_digit(n)) == n,
{
    let c = hex_digit(n);
    if n < 10 {
        assert(c == ((48 + n) as u8) as char);
        assert(c as u32 == 48 + n);
    } else {
        assert(c == ((87 + n) as u8) as char);
        assert(c as u32 == 87 + n);
    }
}

/// Four hexadecimal digits decode back to the encoded code unit.
proof fn lemma_hex4_val(u: nat)
    requires
        u < 0x10000,
    ensures
        hex4_val(hex4(u)) == u,
{
    lemma_hex_digit_val(u / 0x1000 % 16);
    lemma_hex_digit_val(u / 0x100 % 16);
    lemma_hex_digit_val(u / 0x10 % 16);
    lemma_hex_digit_val(u % 16);
    assert(u / 0x1000 % 16 * 0x1000 + u / 0x100 % 16 * 0x100 + u / 0x10 % 16 * 0x10 + u % 16
        == u) by (nonlinear_arith)
        requires
            u < 0x10000,
    ;
}

/// Round trip: decoding the escape of any text gives the text back.  This is
/// the content-bearing half of parsing the canonical JSON: string values and
/// sizes (see [`lemma_dec_roundtrip`][crate::text::lemma_dec_roundtrip]) are
/// recovered exactly, so re-serializing reproduces the bytes.
/// Decoding one escaped character ahead of any tail peels it off exactly.
#[verifier::rlimit(100)]
proof fn lemma_unescape_chunk(c: char, rest: Seq<char>)
    ensures
        unescape(escape_char(c) + rest) == seq![c] + unescape(rest),
{
    vstd::utf8::char_is_scalar(c);
    let cu = c as u32;
    let chunk = escape_char(c);
    let t = chunk + rest;
    if c == '"' || c == '\\' || c == '\u{8}' || c == '\u{c}' || c == '\n' || c == '\r' || c
        == '\t' {
        assert(chunk.len() == 2 && chunk[0] == '\\' && chunk[1] != 'u');
        assert(t[0] == '\\' && t[1] == chunk[1]);
        assert(t.skip(2) =~= rest);
        assert(unescape_short(t[1]) == c);
        assert(unescape(t) =~= seq![c] + unescape(rest));
    } else if ' ' <= c && c <= '~' {
        assert(chunk =~= seq![c]);
        assert(t[0] == c && c != '\\');
        assert(t.drop_first() =~= rest);
        assert(unescape(t) =~= seq![c] + unescape(rest));
    } else if cu < 0x10000 {
        assert(chunk == seq!['\\', 'u'] + hex4(cu as nat));
        assert(chunk.len() == 6);
        assert(t[0] == '\\' && t[1] == 'u' && t.len() >= 6);
        assert(t.subrange(2, 6) =~= hex4(cu as nat));
        lemma_hex4_val(cu as nat);
        assert(hex4_val(t.subrange(2, 6)) == cu as nat);
        assert(!(0xD800 <= cu < 0xDC00));
        assert(t.skip(6) =~= rest);
        assert((cu as nat) as u32 == cu);
        vstd::utf8::char_u32_cast(c, cu);
        assert((cu as char) == c);
        assert(unescape(t) =~= seq![c] + unescape(rest));
    } else {
        let hi = (0xD800 + ((cu - 0x10000) as nat) / 0x400) as nat;
        let lo = (0xDC00 + ((cu - 0x10000) as nat) % 0x400) as nat;
        assert(cu <= 0x10FFFF);
        assert(((cu - 0x10000) as nat) / 0x400 < 0x400) by (nonlinear_arith)
            requires
                0x10000 <= cu <= 0x10FFFF,
        ;
        assert(((cu - 0x10000) as nat) % 0x400 < 0x400);
        assert(chunk == seq!['\\', 'u'] + hex4(hi) + seq!['\\', 'u'] + hex4(lo));
        assert(chunk.len() == 12);
        assert(t[0] == '\\' && t[1] == 'u' && t.len() >= 12);
        assert(t.subrange(2, 6) =~= hex4(hi));
        assert(t.subrange(8, 12) =~= hex4(lo));
        lemma_hex4_val(hi);
        lemma_hex4_val(lo);
        assert(0xD800 <= hi < 0xDC00);
        assert(pair_scalar(hi, lo) == cu) by {
            assert((hi - 0xD800) == ((cu - 0x10000) as nat) / 0x400);
            assert((lo - 0xDC00) == ((cu - 0x10000) as nat) % 0x400);
            assert(((cu - 0x10000) as nat) / 0x400 * 0x400 + ((cu - 0x10000) as nat) % 0x400 == ((
            cu - 0x10000) as nat));
        }
        assert(t.skip(12) =~= rest);
        assert((pair_scalar(hi, lo) as u32) == cu);
        vstd::utf8::char_u32_cast(c, cu);
        assert((cu as char) == c);
        assert(unescape(t) =~= seq![c] + unescape(rest));
    }
}

/// Round trip: decoding the escape of any text gives the text back.  This is
/// the content-bearing half of parsing the canonical JSON: string values and
/// sizes (see [`lemma_dec_roundtrip`][crate::text::lemma_dec_roundtrip]) are
/// recovered exactly, so re-serializing reproduces the bytes.
pub proof fn lemma_escape_roundtrip(s: Seq<char>)
    ensures
        unescape(escape_str(s)) == s,
    decreases s.len(),
{
    lemma_escape_forms(s);
    if s.len() == 0 {
        assert(unescape(escape_front(s)) =~= s);
    } else {
        lemma_escape_roundtrip(s.drop_first());
        lemma_escape_forms(s.drop_first());
        lemma_unescape_chunk(s[0], escape_front(s.drop_first()));
        assert(seq![s[0]] + s.drop_first() =~= s);
    }
}

} // verus!
