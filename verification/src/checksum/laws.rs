//! The general laws of the digest algebra, stated and proved once: absorbing
//! empty directories, invariance under reordering, and the canonicity of the
//! checksum tree's digest.
use super::json::{
    checksum_json_of, dir_entries, dir_entry, entry_leq, file_entries, file_entry,
    lemma_entry_le_total, DirChecksumV, EntryV, FileChecksumV,
};
use super::nodes::{compound_digest, entry_count, entry_size, lemma_summer_after_relpath,
    summer_after, DirsummerV, EntryChecksumV};
use super::tree::{adds_ok, lemma_insertion_order_irrelevant, map_after, ChecksumTree};
use vstd::prelude::*;
use vstd::seq_lib::lemma_sorted_unique;

verus! {

/// Empty-directory absorption: a subdirectory with no files (so zero size
/// and zero file count) leaves its parent's compound digest unchanged.
pub proof fn lemma_empty_directory_absorption(
    files: Seq<FileChecksumV>,
    dirs: Seq<DirChecksumV>,
    d: DirChecksumV,
    file_count: u64,
    size: u64,
)
    requires
        d.file_count == 0,
    ensures
        compound_digest(files, dirs.push(d), file_count, size) == compound_digest(
            files,
            dirs,
            file_count,
            size,
        ),
        size.wrapping_add(0) == size && file_count.wrapping_add(0) == file_count,
{
    assert(dirs.push(d).drop_last() =~= dirs);
    assert(dir_entries(dirs.push(d)) == dir_entries(dirs));
}

/// Sorting forgets order: two runs with equal multisets sort identically.
proof fn lemma_sort_of_multiset(s1: Seq<EntryV>, s2: Seq<EntryV>)
    requires
        s1.to_multiset() == s2.to_multiset(),
    ensures
        s1.sort_by(entry_leq()) == s2.sort_by(entry_leq()),
{
    lemma_entry_le_total();
    s1.lemma_sort_by_ensures(entry_leq());
    s2.lemma_sort_by_ensures(entry_leq());
    lemma_sorted_unique(s1.sort_by(entry_leq()), s2.sort_by(entry_leq()), entry_leq());
}

/// Removing one file checksum removes its JSON record from the multiset.
proof fn lemma_file_entries_remove(s: Seq<FileChecksumV>, i: int)
    requires
        0 <= i < s.len(),
    ensures
        file_entries(s).to_multiset() == file_entries(s.remove(i)).to_multiset().insert(
            file_entry(s[i]),
        ),
    decreases s.len(),
{
    broadcast use vstd::seq_lib::to_multiset_build;

    if i == s.len() - 1 {
        assert(s.remove(i) =~= s.drop_last());
    } else {
        assert(s.remove(i).drop_last() =~= s.drop_last().remove(i));
        assert(s.remove(i).last() == s.last());
        lemma_file_entries_remove(s.drop_last(), i);
        assert(file_entries(s.remove(i)).to_multiset() =~= file_entries(
            s.drop_last().remove(i),
        ).to_multiset().insert(file_entry(s.last())));
        assert(file_entries(s).to_multiset() =~= file_entries(s.drop_last()).to_multiset().insert(
            file_entry(s.last()),
        ));
        assert(file_entries(s.remove(i)).to_multiset().insert(file_entry(s[i]))
            =~= file_entries(s).to_multiset());
    }
}

/// Removing one directory checksum removes its JSON record (when it has any).
proof fn lemma_dir_entries_remove(s: Seq<DirChecksumV>, i: int)
    requires
        0 <= i < s.len(),
    ensures
        dir_entries(s).to_multiset() == if s[i].file_count > 0 {
            dir_entries(s.remove(i)).to_multiset().insert(dir_entry(s[i]))
        } else {
            dir_entries(s.remove(i)).to_multiset()
        },
    decreases s.len(),
{
    broadcast use vstd::seq_lib::to_multiset_build;

    if i == s.len() - 1 {
        assert(s.remove(i) =~= s.drop_last());
    } else {
        assert(s.remove(i).drop_last() =~= s.drop_last().remove(i));
        assert(s.remove(i).last() == s.last());
        lemma_dir_entries_remove(s.drop_last(), i);
        if s[i].file_count > 0 {
            assert(dir_entries(s.remove(i)).to_multiset().insert(dir_entry(s[i]))
                =~= dir_entries(s).to_multiset());
        } else {
            assert(dir_entries(s.remove(i)).to_multiset() =~= dir_entries(s).to_multiset());
        }
    }
}

/// The JSON records of file runs depend only on the multiset of checksums.
proof fn lemma_file_entries_multiset(s1: Seq<FileChecksumV>, s2: Seq<FileChecksumV>)
    requires
        s1.to_multiset() == s2.to_multiset(),
    ensures
        file_entries(s1).to_multiset() == file_entries(s2).to_multiset(),
    decreases s1.len(),
{
    broadcast use vstd::seq_lib::group_to_multiset_ensures;

    if s1.len() == 0 {
        assert(s1.to_multiset().len() == s1.len());
        assert(s2.to_multiset().len() == s2.len());
        assert(s2.len() == 0);
        assert(file_entries(s1).to_multiset() =~= file_entries(s2).to_multiset());
    } else {
        let x = s1.last();
        assert(s1.to_multiset().count(x) > 0) by {
            assert(s1.contains(x));
        }
        assert(s2.contains(x));
        let j = choose|j: int| 0 <= j < s2.len() && s2[j] == x;
        assert(s1.drop_last().to_multiset() =~= s1.to_multiset().remove(x)) by {
            assert(s1.drop_last().push(x) =~= s1);
        }
        assert(s2.remove(j).to_multiset() == s2.to_multiset().remove(x));
        lemma_file_entries_multiset(s1.drop_last(), s2.remove(j));
        lemma_file_entries_remove(s2, j);
        assert(file_entries(s1).to_multiset() =~= file_entries(s1.drop_last()).to_multiset().insert(
            file_entry(x),
        ));
    }
}

/// The JSON records of directory runs depend only on the multiset.
proof fn lemma_dir_entries_multiset(s1: Seq<DirChecksumV>, s2: Seq<DirChecksumV>)
    requires
        s1.to_multiset() == s2.to_multiset(),
    ensures
        dir_entries(s1).to_multiset() == dir_entries(s2).to_multiset(),
    decreases s1.len(),
{
    broadcast use vstd::seq_lib::group_to_multiset_ensures;

    if s1.len() == 0 {
        assert(s1.to_multiset().len() == s1.len());
        assert(s2.to_multiset().len() == s2.len());
        assert(s2.len() == 0);
        assert(dir_entries(s1).to_multiset() =~= dir_entries(s2).to_multiset());
    } else {
        let x = s1.last();
        assert(s1.to_multiset().count(x) > 0) by {
            assert(s1.contains(x));
        }
        assert(s2.contains(x));
        let j = choose|j: int| 0 <= j < s2.len() && s2[j] == x;
        assert(s1.drop_last().to_multiset() =~= s1.to_multiset().remove(x)) by {
            assert(s1.drop_last().push(x) =~= s1);
        }
        assert(s2.remove(j).to_multiset() == s2.to_multiset().remove(x));
        lemma_dir_entries_multiset(s1.drop_last(), s2.remove(j));
        lemma_dir_entries_remove(s2, j);
        if x.file_count > 0 {
            assert(dir_entries(s1).to_multiset() =~= dir_entries(
                s1.drop_last(),
            ).to_multiset().insert(dir_entry(x)));
        } else {
            assert(dir_entries(s1).to_multiset() =~= dir_entries(s1.drop_last()).to_multiset());
        }
    }
}

/// Permutation invariance: reordering a directory's children changes neither
/// the canonical JSON nor the compound digest.
pub proof fn lemma_permutation_invariance(
    files1: Seq<FileChecksumV>,
    files2: Seq<FileChecksumV>,
    dirs1: Seq<DirChecksumV>,
    dirs2: Seq<DirChecksumV>,
    file_count: u64,
    size: u64,
)
    requires
        files1.to_multiset() == files2.to_multiset(),
        dirs1.to_multiset() == dirs2.to_multiset(),
    ensures
        checksum_json_of(files1, dirs1) == checksum_json_of(files2, dirs2),
        compound_digest(files1, dirs1, file_count, size) == compound_digest(
            files2,
            dirs2,
            file_count,
            size,
        ),
{
    lemma_file_entries_multiset(files1, files2);
    lemma_dir_entries_multiset(dirs1, dirs2);
    lemma_sort_of_multiset(file_entries(files1), file_entries(files2));
    lemma_sort_of_multiset(dir_entries(dirs1), dir_entries(dirs2));
}

/// Wrapping addition lets later contributions trade places.
proof fn lemma_wrapping_exchange(a: u64, b: u64, c: u64)
    ensures
        a.wrapping_add(b).wrapping_add(c) == a.wrapping_add(c).wrapping_add(b),
{
}

/// Removing one pushed entry removes exactly its contribution from the
/// accumulator's sums and collections.
proof fn lemma_summer_after_remove(s: DirsummerV, xs: Seq<EntryChecksumV>, i: int)
    requires
        0 <= i < xs.len(),
    ensures
        ({
            let full = summer_after(s, xs);
            let part = summer_after(s, xs.remove(i));
            &&& full.size == part.size.wrapping_add(entry_size(xs[i]))
            &&& full.file_count == part.file_count.wrapping_add(entry_count(xs[i]))
            &&& full.files.to_multiset() == (match xs[i] {
                EntryChecksumV::File(f) => part.files.to_multiset().insert(f),
                EntryChecksumV::Directory(_) => part.files.to_multiset(),
            })
            &&& full.directories.to_multiset() == (match xs[i] {
                EntryChecksumV::File(_) => part.directories.to_multiset(),
                EntryChecksumV::Directory(d) => part.directories.to_multiset().insert(d),
            })
        }),
    decreases xs.len(),
{
    broadcast use vstd::seq_lib::to_multiset_build;

    if i == xs.len() - 1 {
        assert(xs.remove(i) =~= xs.drop_last());
    } else {
        assert(xs.remove(i).drop_last() =~= xs.drop_last().remove(i));
        assert(xs.remove(i).last() == xs.last());
        lemma_summer_after_remove(s, xs.drop_last(), i);
        let a = summer_after(s, xs.drop_last());
        let b = summer_after(s, xs.drop_last().remove(i));
        lemma_wrapping_exchange(b.size, entry_size(xs[i]), entry_size(xs.last()));
        lemma_wrapping_exchange(b.file_count, entry_count(xs[i]), entry_count(xs.last()));
        match xs[i] {
            EntryChecksumV::File(f) => {
                match xs.last() {
                    EntryChecksumV::File(g) => {
                        assert(a.files.to_multiset().insert(g) =~= b.files.to_multiset().insert(
                            f,
                        ).insert(g));
                        assert(b.files.to_multiset().insert(f).insert(g)
                            =~= b.files.to_multiset().insert(g).insert(f));
                    },
                    EntryChecksumV::Directory(_) => {},
                }
            },
            EntryChecksumV::Directory(d) => {
                match xs.last() {
                    EntryChecksumV::File(_) => {},
                    EntryChecksumV::Directory(d2) => {
                        assert(b.directories.to_multiset().insert(d).insert(d2)
                            =~= b.directories.to_multiset().insert(d2).insert(d));
                    },
                }
            },
        }
    }
}

/// The accumulator's sums and collected checksums are order-free: pushing
/// the same entries in any order gives the same sizes, counts, and
/// multisets — with [`lemma_permutation_invariance`], the same digest.
pub proof fn lemma_summer_after_permutation(
    s: DirsummerV,
    xs: Seq<EntryChecksumV>,
    ys: Seq<EntryChecksumV>,
)
    requires
        xs.to_multiset() == ys.to_multiset(),
    ensures
        ({
            let a = summer_after(s, xs);
            let b = summer_after(s, ys);
            &&& a.relpath == b.relpath
            &&& a.size == b.size
            &&& a.file_count == b.file_count
            &&& a.files.to_multiset() == b.files.to_multiset()
            &&& a.directories.to_multiset() == b.directories.to_multiset()
        }),
    decreases xs.len(),
{
    broadcast use vstd::seq_lib::group_to_multiset_ensures;

    lemma_summer_after_relpath(s, xs);
    lemma_summer_after_relpath(s, ys);
    if xs.len() == 0 {
        assert(xs.to_multiset().len() == xs.len());
        assert(ys.to_multiset().len() == ys.len());
        assert(ys.len() == 0);
    } else {
        let x = xs.last();
        assert(xs.to_multiset().count(x) > 0) by {
            assert(xs.contains(x));
        }
        assert(ys.contains(x));
        let j = choose|j: int| 0 <= j < ys.len() && ys[j] == x;
        assert(xs.drop_last().to_multiset() =~= xs.to_multiset().remove(x)) by {
            assert(xs.drop_last().push(x) =~= xs);
        }
        assert(ys.remove(j).to_multiset() == ys.to_multiset().remove(x));
        lemma_summer_after_permutation(s, xs.drop_last(), ys.remove(j));
        lemma_summer_after_remove(s, ys, j);
        match x {
            EntryChecksumV::File(f) => {
                assert(summer_after(s, xs).files.to_multiset() =~= summer_after(
                    s,
                    xs.drop_last(),
                ).files.to_multiset().insert(f));
            },
            EntryChecksumV::Directory(d) => {
                assert(summer_after(s, xs).directories.to_multiset() =~= summer_after(
                    s,
                    xs.drop_last(),
                ).directories.to_multiset().insert(d));
            },
        }
    }
}

/// Walker equivalence, at the point where traversals meet: two checksum
/// trees fed the same file checksums — in any order, by any traversal
/// discipline — collapse to the same digest.
pub proof fn lemma_same_files_same_checksum(
    t1: &ChecksumTree,
    t2: &ChecksumTree,
    xs: Seq<FileChecksumV>,
    ys: Seq<FileChecksumV>,
)
    requires
        adds_ok(xs),
        forall|i: int| 0 <= i < xs.len() ==> (#[trigger] xs[i]).relpath.len() > 0,
        xs.to_multiset() == ys.to_multiset(),
        t1.wf(),
        t2.wf(),
        t1@ == map_after(xs),
        t2@ == map_after(ys),
    ensures
        adds_ok(ys),
        t1.digest() == t2.digest(),
{
    lemma_insertion_order_irrelevant(xs, ys);
    ChecksumTree::lemma_digest_canonical(t1, t2);
}

} // verus!
