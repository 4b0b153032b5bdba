//! A trie of file checksums, keyed by path segments, for computing the
//! checksum of a whole Zarr one file at a time.
use super::json::{DirChecksumV, FileChecksumV};
use super::nodes::{compound_digest, is_compound_digest, Checksum, DirChecksum, Dirsummer,
    EntryChecksum, FileChecksum};
use crate::errors::ChecksumTreeError;
use crate::text::{chars_lt, lemma_chars_le_total, str_le, str_eq};
use crate::util::is_md5_hex;
use crate::zarr::{valid_path, valid_segment, EntryPath};
use vstd::prelude::*;

verus! {

/// A node of the trie: a file checksum at a leaf, or a subdirectory.
pub(crate) enum TreeNode {
    File(FileChecksum),
    Directory(DirTree),
}

/// An internal node: the directory's path and its children, kept strictly
/// sorted by name.
pub(crate) struct DirTree {
    pub(crate) relpath: EntryPath,
    pub(crate) children: Vec<TreeNode>,
}

/// The final segment of the node's path: its name within its directory.
pub(crate) open spec fn node_name(n: TreeNode) -> Seq<char> {
    match n {
        TreeNode::File(f) => f@.relpath.last(),
        TreeNode::Directory(d) => d.relpath@.last(),
    }
}

/// The node's full path within the Zarr.
pub(crate) open spec fn node_path(n: TreeNode) -> Seq<Seq<char>> {
    match n {
        TreeNode::File(f) => f@.relpath,
        TreeNode::Directory(d) => d.relpath@,
    }
}

/// The file checksums in the subtree rooted at `n`, keyed by full path.
pub(crate) open spec fn node_file_map(n: TreeNode) -> Map<Seq<Seq<char>>, FileChecksumV>
    decreases n,
{
    match n {
        TreeNode::File(f) => Map::empty().insert(f@.relpath, f@),
        TreeNode::Directory(d) => dir_file_map_upto(d, d.children.len() as int),
    }
}

/// The union of the file maps of the first `i` children of `d`.
pub(crate) open spec fn dir_file_map_upto(d: DirTree, i: int) -> Map<Seq<Seq<char>>, FileChecksumV>
    decreases d, i,
{
    if 0 < i <= d.children.len() {
        dir_file_map_upto(d, i - 1).union_prefer_right(node_file_map(d.children[i - 1]))
    } else {
        Map::empty()
    }
}

/// The file checksums in a whole directory.
pub(crate) open spec fn dir_file_map(d: DirTree) -> Map<Seq<Seq<char>>, FileChecksumV> {
    dir_file_map_upto(d, d.children.len() as int)
}

/// Well-formedness of a node standing at `path`: its stored path is `path`,
/// a file's digest is well formed, and a directory is nonempty with
/// well-formed children.
pub(crate) open spec fn node_wf(n: TreeNode, path: Seq<Seq<char>>) -> bool
    decreases n,
{
    match n {
        TreeNode::File(f) => f@.relpath == path && valid_path(path) && is_md5_hex(f@.checksum),
        TreeNode::Directory(d) => {
            &&& d.relpath@ == path
            &&& valid_path(path)
            &&& d.children.len() > 0
            &&& children_wf_upto(d, d.children.len() as int, path)
        },
    }
}

/// Well-formedness of the first `i` children of `d`, whose own path is
/// `prefix`: each child stands at `prefix` extended by its (valid) name, and
/// names strictly ascend.
pub(crate) open spec fn children_wf_upto(d: DirTree, i: int, prefix: Seq<Seq<char>>) -> bool
    decreases d, i,
{
    if 0 < i <= d.children.len() {
        &&& children_wf_upto(d, i - 1, prefix)
        &&& valid_segment(node_name(d.children[i - 1]))
        &&& node_wf(d.children[i - 1], prefix.push(node_name(d.children[i - 1])))
        &&& (i - 1 > 0 ==> chars_lt(node_name(d.children[i - 2]), node_name(d.children[i - 1])))
    } else {
        true
    }
}

/// Well-formedness of a whole directory standing at `prefix` (for the root,
/// the empty prefix), with any number of children.
pub(crate) open spec fn dir_wf(d: DirTree, prefix: Seq<Seq<char>>) -> bool {
    children_wf_upto(d, d.children.len() as int, prefix)
}

/// A file exists at a proper prefix of `p` of length `i`, and at no shorter
/// prefix longer than `depth`.
pub open spec fn first_conflict_at(
    m: Map<Seq<Seq<char>>, FileChecksumV>,
    p: Seq<Seq<char>>,
    i: int,
    depth: int,
) -> bool {
    &&& depth < i < p.len()
    &&& m.contains_key(p.take(i))
    &&& forall|j: int| depth < j < i ==> !m.contains_key(#[trigger] p.take(j))
}

/// A file exists at some proper prefix of `p` longer than `depth`.
pub open spec fn prefix_conflict(
    m: Map<Seq<Seq<char>>, FileChecksumV>,
    p: Seq<Seq<char>>,
    depth: int,
) -> bool {
    exists|i: int| depth < i < p.len() && m.contains_key(#[trigger] p.take(i))
}

/// `p` itself is taken: by a file (a key) or by a directory (a proper prefix
/// of a key).
pub open spec fn occupied(m: Map<Seq<Seq<char>>, FileChecksumV>, p: Seq<Seq<char>>) -> bool {
    m.contains_key(p) || exists|k: Seq<Seq<char>>|
        #[trigger] m.contains_key(k) && p.len() < k.len() && k.take(p.len() as int) == p
}

/// Some file lies in the subtree of child `j`.
pub(crate) open spec fn child_nonempty(d: DirTree, j: int) -> bool {
    exists|k: Seq<Seq<char>>| node_file_map(d.children[j]).contains_key(k)
}

/// From adjacent strict ascent to pairwise: names of the first `i` children
/// strictly ascend pairwise, and each child is well formed at its own path.
proof fn lemma_children_sorted(d: DirTree, i: int, prefix: Seq<Seq<char>>)
    requires
        0 <= i <= d.children.len(),
        children_wf_upto(d, i, prefix),
    ensures
        forall|a: int, b: int|
            #![trigger node_name(d.children[a]), node_name(d.children[b])]
            0 <= a < b < i ==> chars_lt(node_name(d.children[a]), node_name(d.children[b])),
        forall|j: int|
            0 <= j < i ==> valid_segment(#[trigger] node_name(d.children[j])) && node_wf(
                d.children[j],
                prefix.push(node_name(d.children[j])),
            ),
    decreases i,
{
    if i > 0 {
        lemma_children_sorted(d, i - 1, prefix);
        assert forall|a: int, b: int|
            #![trigger node_name(d.children[a]), node_name(d.children[b])]
            0 <= a < b < i implies chars_lt(node_name(d.children[a]), node_name(d.children[b])) by {
            if b == i - 1 && a < i - 2 {
                let na = node_name(d.children[a]);
                let nm = node_name(d.children[i - 2]);
                let nb = node_name(d.children[i - 1]);
                assert(chars_lt(na, nm));
                assert(chars_lt(nm, nb));
                crate::text::lemma_chars_le_trans(na, nm, nb);
                crate::text::lemma_chars_le_total(na, nb);
                if na == nb {
                    crate::text::lemma_chars_le_total(na, nm);
                }
            }
        }
    }
}

/// The shape of a subtree's key set: every key extends the node's path; a
/// file's key set is exactly its path; a directory's keys are strictly
/// longer; the map is never empty; and every value records its own key.
proof fn lemma_node_map_shape(n: TreeNode, path: Seq<Seq<char>>)
    requires
        node_wf(n, path),
    ensures
        forall|k: Seq<Seq<char>>|
            #[trigger] node_file_map(n).contains_key(k) ==> k.len() >= path.len() && k.take(
                path.len() as int,
            ) == path,
        n matches TreeNode::File(_) ==> forall|k: Seq<Seq<char>>|
            #[trigger] node_file_map(n).contains_key(k) <==> k == path,
        n matches TreeNode::Directory(_) ==> forall|k: Seq<Seq<char>>|
            #[trigger] node_file_map(n).contains_key(k) ==> k.len() > path.len(),
        exists|k: Seq<Seq<char>>| #[trigger] node_file_map(n).contains_key(k),
        forall|k: Seq<Seq<char>>|
            #[trigger] node_file_map(n).contains_key(k) ==> node_file_map(n)[k].relpath == k
                && valid_path(k) && is_md5_hex(node_file_map(n)[k].checksum),
    decreases n, 0int,
{
    match n {
        TreeNode::File(f) => {
            assert(node_file_map(n).contains_key(path));
            assert(path.take(path.len() as int) =~= path);
            assert forall|k: Seq<Seq<char>>|
                #[trigger] node_file_map(n).contains_key(k) implies k == path && node_file_map(n)[k]
                == f@ by {}
        },
        TreeNode::Directory(d) => {
            let len = d.children.len() as int;
            lemma_children_map(d, len, path);
            assert(node_file_map(n) == dir_file_map_upto(d, len));
            assert(len > 0);
            assert(child_nonempty(d, 0));
            let k0 = choose|k: Seq<Seq<char>>| node_file_map(d.children[0]).contains_key(k);
            assert(node_file_map(d.children[0]).contains_key(k0));
            assert(dir_file_map_upto(d, len).contains_key(k0));
        },
    }
}

/// Characterization of a directory's map in terms of its children: a key is
/// present iff it is present in some child, with the child's value; every
/// key routes to the unique child named by its segment at the directory's
/// depth; and each child's subtree is nonempty.
proof fn lemma_children_map(d: DirTree, i: int, prefix: Seq<Seq<char>>)
    requires
        0 <= i <= d.children.len(),
        children_wf_upto(d, i, prefix),
    ensures
        forall|k: Seq<Seq<char>>|
            #[trigger] dir_file_map_upto(d, i).contains_key(k) <==> exists|j: int|
                0 <= j < i && #[trigger] node_file_map(d.children[j]).contains_key(k),
        forall|k: Seq<Seq<char>>, j: int|
            0 <= j < i && #[trigger] node_file_map(d.children[j]).contains_key(k)
                ==> dir_file_map_upto(d, i)[k] == node_file_map(d.children[j])[k],
        forall|k: Seq<Seq<char>>, j: int|
            0 <= j < i && #[trigger] node_file_map(d.children[j]).contains_key(k) ==> k.len()
                > prefix.len() && k.take(prefix.len() as int) == prefix && k[prefix.len() as int]
                == node_name(d.children[j]),
        forall|j: int| 0 <= j < i ==> #[trigger] child_nonempty(d, j),
        forall|k: Seq<Seq<char>>|
            #[trigger] dir_file_map_upto(d, i).contains_key(k) ==> dir_file_map_upto(d, i)[k].relpath
                == k && valid_path(k) && is_md5_hex(dir_file_map_upto(d, i)[k].checksum),
    decreases d, i,
{
    if i > 0 {
        lemma_children_map(d, i - 1, prefix);
        lemma_children_sorted(d, i, prefix);
        let child = d.children[i - 1];
        let name = node_name(child);
        let cpath = prefix.push(name);
        lemma_node_map_shape(child, cpath);
        assert forall|k: Seq<Seq<char>>, j: int|
            0 <= j < i && #[trigger] node_file_map(d.children[j]).contains_key(k) implies k.len()
            > prefix.len() && k.take(prefix.len() as int) == prefix && k[prefix.len() as int]
            == node_name(d.children[j]) by {
            if j == i - 1 {
                assert(k.take(cpath.len() as int) == cpath);
                assert(k.take(prefix.len() as int) =~= k.take(cpath.len() as int).take(
                    prefix.len() as int,
                ));
                assert(cpath.take(prefix.len() as int) =~= prefix);
                assert(k[prefix.len() as int] == k.take(cpath.len() as int)[prefix.len() as int]);
            }
        }
        // Distinct names make the children's key sets pairwise disjoint.
        assert forall|k: Seq<Seq<char>>, j: int|
            0 <= j < i - 1 && #[trigger] node_file_map(d.children[j]).contains_key(k) implies
            !node_file_map(child).contains_key(k) by {
            if node_file_map(child).contains_key(k) {
                assert(k[prefix.len() as int] == node_name(d.children[j]));
                assert(k[prefix.len() as int] == name);
                assert(chars_lt(node_name(d.children[j]), name));
            }
        }
        assert forall|k: Seq<Seq<char>>|
            #[trigger] dir_file_map_upto(d, i).contains_key(k) implies exists|j: int|
            0 <= j < i && #[trigger] node_file_map(d.children[j]).contains_key(k) by {
            if node_file_map(child).contains_key(k) {
                assert(node_file_map(d.children[i - 1]).contains_key(k));
            } else {
                assert(dir_file_map_upto(d, i - 1).contains_key(k));
            }
        }
        assert forall|k: Seq<Seq<char>>, j: int|
            0 <= j < i && #[trigger] node_file_map(d.children[j]).contains_key(k) implies
            dir_file_map_upto(d, i).contains_key(k) && dir_file_map_upto(d, i)[k] == node_file_map(
            d.children[j],
        )[k] by {
            if j == i - 1 {
                assert(dir_file_map_upto(d, i)[k] == node_file_map(child)[k]);
            } else {
                assert(dir_file_map_upto(d, i - 1).contains_key(k));
                assert(!node_file_map(child).contains_key(k));
                assert(dir_file_map_upto(d, i)[k] == dir_file_map_upto(d, i - 1)[k]);
            }
        }
        assert forall|j: int| 0 <= j < i implies #[trigger] child_nonempty(d, j) by {
            if j == i - 1 {
                let k = choose|k: Seq<Seq<char>>| #[trigger] node_file_map(child).contains_key(k);
                assert(node_file_map(d.children[j]).contains_key(k));
            }
        }
        assert forall|k: Seq<Seq<char>>|
            #[trigger] dir_file_map_upto(d, i).contains_key(k) implies dir_file_map_upto(
            d,
            i,
        )[k].relpath == k && valid_path(k) && is_md5_hex(dir_file_map_upto(d, i)[k].checksum) by {
            if node_file_map(child).contains_key(k) {
                assert(dir_file_map_upto(d, i)[k] == node_file_map(child)[k]);
            } else {
                assert(dir_file_map_upto(d, i - 1).contains_key(k));
                assert(dir_file_map_upto(d, i)[k] == dir_file_map_upto(d, i - 1)[k]);
            }
        }
    }
}

/// Build well-formedness of the first `i` children from pointwise facts.
proof fn lemma_children_wf_build(d: DirTree, i: int, prefix: Seq<Seq<char>>)
    requires
        0 <= i <= d.children.len(),
        forall|j: int|
            0 <= j < i ==> valid_segment(#[trigger] node_name(d.children[j])) && node_wf(
                d.children[j],
                prefix.push(node_name(d.children[j])),
            ),
        forall|j: int|
            #![trigger node_name(d.children[j])]
            0 < j < i ==> chars_lt(node_name(d.children[j - 1]), node_name(d.children[j])),
    ensures
        children_wf_upto(d, i, prefix),
    decreases i,
{
    if i > 0 {
        lemma_children_wf_build(d, i - 1, prefix);
    }
}

/// Equal children make equal maps and equal well-formedness.
proof fn lemma_same_children_upto(d0: DirTree, d2: DirTree, i: int, prefix: Seq<Seq<char>>)
    requires
        d0.children@ == d2.children@,
        0 <= i <= d0.children.len(),
    ensures
        dir_file_map_upto(d2, i) == dir_file_map_upto(d0, i),
        children_wf_upto(d2, i, prefix) == children_wf_upto(d0, i, prefix),
    decreases i,
{
    if i > 0 {
        lemma_same_children_upto(d0, d2, i - 1, prefix);
        assert(d2.children[i - 1] == d0.children[i - 1]);
    }
}

/// Equal children make equal maps and equal well-formedness (whole
/// directory).
proof fn lemma_same_children_same_map(d0: DirTree, d2: DirTree, prefix: Seq<Seq<char>>)
    requires
        d0.children@ == d2.children@,
        dir_wf(d0, prefix),
    ensures
        dir_file_map(d2) == dir_file_map(d0),
        dir_wf(d2, prefix),
{
    lemma_same_children_upto(d0, d2, d0.children.len() as int, prefix);
}

/// When no child of `d` is named `seg`, nothing in `d`'s map reaches through
/// a child of that name.
proof fn lemma_no_such_child(d: DirTree, k: int, seg: Seq<char>, prefix: Seq<Seq<char>>)
    requires
        dir_wf(d, prefix),
        0 <= k <= d.children.len(),
        forall|j: int| 0 <= j < k ==> chars_lt(node_name(d.children[j]), seg),
        k < d.children.len() ==> chars_lt(seg, node_name(d.children[k])),
    ensures
        forall|j: int| 0 <= j < d.children.len() ==> node_name(#[trigger] d.children[j]) != seg,
{
    let len = d.children.len() as int;
    lemma_children_sorted(d, len, prefix);
    assert forall|j: int| 0 <= j < len implies node_name(#[trigger] d.children[j]) != seg by {
        if j < k {
        } else if j == k {
            if node_name(d.children[j]) == seg {
                crate::text::lemma_chars_le_total(seg, seg);
            }
        } else {
            assert(chars_lt(node_name(d.children[k]), node_name(d.children[j])));
            crate::text::lemma_chars_le_trans(seg, node_name(d.children[k]), node_name(
                d.children[j],
            ));
            crate::text::lemma_chars_le_total(seg, node_name(d.children[j]));
            if node_name(d.children[j]) == seg {
                crate::text::lemma_chars_le_total(seg, node_name(d.children[k]));
            }
        }
    }
}

/// Facts relating a directory's map to the map of its child named by the
/// next segment of `p`: membership at and below `p`'s prefixes transfers.
proof fn lemma_insert_frame(d: DirTree, k: int, prefix: Seq<Seq<char>>, p: Seq<Seq<char>>, depth: int)
    requires
        dir_wf(d, prefix),
        0 <= depth,
        depth + 1 <= p.len(),
        prefix == p.take(depth),
        0 <= k < d.children.len(),
        node_name(d.children[k]) == p[depth],
        d.children[k] matches TreeNode::Directory(_),
        node_wf(d.children[k], p.take(depth + 1)),
    ensures
        forall|i: int|
            depth < i <= p.len() ==> (dir_file_map(d).contains_key(#[trigger] p.take(i))
                <==> node_file_map(d.children[k]).contains_key(p.take(i))),
        occupied(dir_file_map(d), p) <==> occupied(node_file_map(d.children[k]), p),
{
    let len = d.children.len() as int;
    let m = dir_file_map(d);
    let msub = node_file_map(d.children[k]);
    lemma_children_map(d, len, prefix);
    lemma_children_sorted(d, len, prefix);
    lemma_node_map_shape(d.children[k], p.take(depth + 1));
    assert forall|i: int| depth < i <= p.len() implies (m.contains_key(#[trigger] p.take(i))
        <==> msub.contains_key(p.take(i))) by {
        if msub.contains_key(p.take(i)) {
            assert(m.contains_key(p.take(i)));
        }
        if m.contains_key(p.take(i)) {
            let j = choose|j: int|
                0 <= j < len && #[trigger] node_file_map(d.children[j]).contains_key(p.take(i));
            assert(p.take(i)[prefix.len() as int] == node_name(d.children[j]));
            assert(p.take(i)[depth] == p[depth]);
            if j != k {
                assert(chars_lt(node_name(d.children[j]), node_name(d.children[k])) || chars_lt(
                    node_name(d.children[k]),
                    node_name(d.children[j]),
                ));
                crate::text::lemma_chars_le_total(node_name(d.children[j]), node_name(
                    d.children[k],
                ));
            }
            assert(j == k);
        }
    }
    assert(occupied(m, p) <==> occupied(msub, p)) by {
        assert(p.take(p.len() as int) =~= p);
        if m.contains_key(p) {
            assert(m.contains_key(p.take(p.len() as int)));
            assert(msub.contains_key(p));
        }
        if msub.contains_key(p) {
            assert(m.contains_key(p));
        }
        if exists|q: Seq<Seq<char>>|
            #[trigger] m.contains_key(q) && p.len() < q.len() && q.take(p.len() as int) == p {
            let q = choose|q: Seq<Seq<char>>|
                #[trigger] m.contains_key(q) && p.len() < q.len() && q.take(p.len() as int) == p;
            let j = choose|j: int|
                0 <= j < len && #[trigger] node_file_map(d.children[j]).contains_key(q);
            assert(q[prefix.len() as int] == node_name(d.children[j]));
            assert(q[depth] == q.take(p.len() as int)[depth]);
            if j != k {
                crate::text::lemma_chars_le_total(node_name(d.children[j]), node_name(
                    d.children[k],
                ));
            }
            assert(j == k);
            assert(msub.contains_key(q));
        }
        if exists|q: Seq<Seq<char>>|
            #[trigger] msub.contains_key(q) && p.len() < q.len() && q.take(p.len() as int) == p {
            let q = choose|q: Seq<Seq<char>>|
                #[trigger] msub.contains_key(q) && p.len() < q.len() && q.take(p.len() as int)
                    == p;
            assert(m.contains_key(q));
        }
    }
}

/// Replacing the child at `k` by one with the same name and an updated map
/// updates the directory's map in the same way.
proof fn lemma_replace_child(
    d0: DirTree,
    d2: DirTree,
    k: int,
    newchild: TreeNode,
    prefix: Seq<Seq<char>>,
    p: Seq<Seq<char>>,
    v: FileChecksumV,
)
    requires
        dir_wf(d0, prefix),
        0 <= k < d0.children.len(),
        d2.children@ == d0.children@.update(k, newchild),
        node_name(newchild) == node_name(d0.children[k]),
        valid_segment(node_name(newchild)),
        node_wf(newchild, prefix.push(node_name(newchild))),
        node_file_map(newchild) == node_file_map(d0.children[k]).insert(p, v),
    ensures
        dir_wf(d2, prefix),
        d2.children.len() == d0.children.len(),
        dir_file_map(d2) == dir_file_map(d0).insert(p, v),
{
    let len = d0.children.len() as int;
    lemma_children_sorted(d0, len, prefix);
    assert forall|j: int| 0 <= j < len implies valid_segment(
        #[trigger] node_name(d2.children[j]),
    ) && node_wf(d2.children[j], prefix.push(node_name(d2.children[j]))) by {
        if j != k {
            assert(d2.children[j] == d0.children[j]);
        }
    }
    assert forall|j: int|
        #![trigger node_name(d2.children[j])]
        0 < j < len implies chars_lt(node_name(d2.children[j - 1]), node_name(d2.children[j])) by {
        assert(node_name(d2.children[j]) == node_name(d0.children[j]));
        assert(node_name(d2.children[j - 1]) == node_name(d0.children[j - 1]));
    }
    lemma_children_wf_build(d2, len, prefix);
    lemma_children_map(d0, len, prefix);
    lemma_children_map(d2, len, prefix);
    let m0 = dir_file_map(d0);
    let m2 = dir_file_map(d2);
    assert(m2 =~= m0.insert(p, v)) by {
        assert(node_file_map(newchild).contains_key(p));
        assert forall|q: Seq<Seq<char>>| #[trigger] m2.contains_key(q) implies m0.insert(
            p,
            v,
        ).contains_key(q) && m2[q] == m0.insert(p, v)[q] by {
            let j = choose|j: int|
                0 <= j < len && #[trigger] node_file_map(d2.children[j]).contains_key(q);
            if j == k {
                if q == p {
                    assert(m2[q] == node_file_map(newchild)[p]);
                } else {
                    assert(node_file_map(d0.children[k]).contains_key(q));
                    assert(m0[q] == node_file_map(d0.children[k])[q]);
                    assert(m2[q] == node_file_map(newchild)[q]);
                }
            } else {
                assert(d2.children[j] == d0.children[j]);
                assert(m0.contains_key(q));
                assert(m0[q] == node_file_map(d0.children[j])[q]);
                assert(q != p) by {
                    if q == p {
                        assert(q[prefix.len() as int] == node_name(d0.children[j]));
                        assert(node_file_map(newchild).contains_key(p));
                        assert(p[prefix.len() as int] == node_name(d2.children[k]));
                        crate::text::lemma_chars_le_total(node_name(d0.children[j]), node_name(
                            d0.children[k],
                        ));
                    }
                }
            }
        }
        assert forall|q: Seq<Seq<char>>| #[trigger] m0.insert(p, v).contains_key(q) implies
            m2.contains_key(q) by {
            if q == p {
                assert(node_file_map(d2.children[k]).contains_key(p));
            } else {
                assert(m0.contains_key(q));
                let j = choose|j: int|
                    0 <= j < len && #[trigger] node_file_map(d0.children[j]).contains_key(q);
                if j == k {
                    assert(node_file_map(newchild).contains_key(q));
                    assert(node_file_map(d2.children[k]).contains_key(q));
                } else {
                    assert(d2.children[j] == d0.children[j]);
                    assert(node_file_map(d2.children[j]).contains_key(q));
                }
            }
        }
    }
}

/// Replacing the child at `k` by one with the same name and the same map
/// leaves the directory's map unchanged.
proof fn lemma_replace_child_same(
    d0: DirTree,
    d2: DirTree,
    k: int,
    newchild: TreeNode,
    prefix: Seq<Seq<char>>,
)
    requires
        dir_wf(d0, prefix),
        0 <= k < d0.children.len(),
        d2.children@ == d0.children@.update(k, newchild),
        node_name(newchild) == node_name(d0.children[k]),
        valid_segment(node_name(newchild)),
        node_wf(newchild, prefix.push(node_name(newchild))),
        node_file_map(newchild) == node_file_map(d0.children[k]),
    ensures
        dir_wf(d2, prefix),
        d2.children.len() == d0.children.len(),
        dir_file_map(d2) == dir_file_map(d0),
{
    let len = d0.children.len() as int;
    lemma_children_sorted(d0, len, prefix);
    assert forall|j: int| 0 <= j < len implies valid_segment(
        #[trigger] node_name(d2.children[j]),
    ) && node_wf(d2.children[j], prefix.push(node_name(d2.children[j]))) by {
        if j != k {
            assert(d2.children[j] == d0.children[j]);
        }
    }
    assert forall|j: int|
        #![trigger node_name(d2.children[j])]
        0 < j < len implies chars_lt(node_name(d2.children[j - 1]), node_name(d2.children[j])) by {
        assert(node_name(d2.children[j]) == node_name(d0.children[j]));
        assert(node_name(d2.children[j - 1]) == node_name(d0.children[j - 1]));
    }
    lemma_children_wf_build(d2, len, prefix);
    lemma_children_map(d0, len, prefix);
    lemma_children_map(d2, len, prefix);
    let m0 = dir_file_map(d0);
    let m2 = dir_file_map(d2);
    assert(m2 =~= m0) by {
        assert forall|q: Seq<Seq<char>>| #[trigger] m2.contains_key(q) implies m0.contains_key(q)
            && m2[q] == m0[q] by {
            let j = choose|j: int|
                0 <= j < len && #[trigger] node_file_map(d2.children[j]).contains_key(q);
            if j == k {
                assert(node_file_map(d0.children[k]).contains_key(q));
                assert(m0[q] == node_file_map(d0.children[k])[q]);
                assert(m2[q] == node_file_map(newchild)[q]);
            } else {
                assert(d2.children[j] == d0.children[j]);
            }
        }
        assert forall|q: Seq<Seq<char>>| #[trigger] m0.contains_key(q) implies m2.contains_key(
            q,
        ) by {
            let j = choose|j: int|
                0 <= j < len && #[trigger] node_file_map(d0.children[j]).contains_key(q);
            if j == k {
                assert(node_file_map(d2.children[k]).contains_key(q));
            } else {
                assert(d2.children[j] == d0.children[j]);
                assert(node_file_map(d2.children[j]).contains_key(q));
            }
        }
    }
}

/// Inserting a fresh child carrying exactly the file at `p` adds `p` to the
/// directory's map.
proof fn lemma_add_child(
    d0: DirTree,
    d2: DirTree,
    k: int,
    newchild: TreeNode,
    prefix: Seq<Seq<char>>,
    p: Seq<Seq<char>>,
    v: FileChecksumV,
)
    requires
        dir_wf(d0, prefix),
        0 <= k <= d0.children.len(),
        d2.children@ == d0.children@.insert(k, newchild),
        valid_segment(node_name(newchild)),
        node_wf(newchild, prefix.push(node_name(newchild))),
        node_file_map(newchild) == Map::<Seq<Seq<char>>, FileChecksumV>::empty().insert(p, v),
        forall|j: int| 0 <= j < k ==> chars_lt(node_name(#[trigger] d0.children[j]), node_name(newchild)),
        k < d0.children.len() ==> chars_lt(node_name(newchild), node_name(d0.children[k])),
    ensures
        dir_wf(d2, prefix),
        d2.children.len() == d0.children.len() + 1,
        dir_file_map(d2) == dir_file_map(d0).insert(p, v),
{
    let len0 = d0.children.len() as int;
    let len2 = d2.children@.len() as int;
    lemma_children_sorted(d0, len0, prefix);
    assert forall|j: int| 0 <= j < len2 implies valid_segment(
        #[trigger] node_name(d2.children[j]),
    ) && node_wf(d2.children[j], prefix.push(node_name(d2.children[j]))) by {
        if j < k {
            assert(d2.children[j] == d0.children[j]);
        } else if j > k {
            assert(d2.children[j] == d0.children[j - 1]);
        }
    }
    assert forall|j: int|
        #![trigger node_name(d2.children[j])]
        0 < j < len2 implies chars_lt(node_name(d2.children[j - 1]), node_name(d2.children[j])) by {
        if j < k {
            assert(d2.children[j] == d0.children[j]);
            assert(d2.children[j - 1] == d0.children[j - 1]);
        } else if j == k {
            assert(d2.children[j - 1] == d0.children[j - 1]);
        } else if j == k + 1 {
            assert(d2.children[j] == d0.children[j - 1]);
        } else {
            assert(d2.children[j] == d0.children[j - 1]);
            assert(d2.children[j - 1] == d0.children[j - 2]);
        }
    }
    lemma_children_wf_build(d2, len2, prefix);
    lemma_children_map(d0, len0, prefix);
    lemma_children_map(d2, len2, prefix);
    let m0 = dir_file_map(d0);
    let m2 = dir_file_map(d2);
    assert(m2 =~= m0.insert(p, v)) by {
        assert(node_file_map(newchild).contains_key(p));
        assert forall|q: Seq<Seq<char>>| #[trigger] m2.contains_key(q) implies m0.insert(
            p,
            v,
        ).contains_key(q) && m2[q] == m0.insert(p, v)[q] by {
            let j = choose|j: int|
                0 <= j < len2 && #[trigger] node_file_map(d2.children[j]).contains_key(q);
            if j == k {
                assert(q == p && node_file_map(newchild)[q] == v);
                assert(m2[q] == v);
            } else {
                let j0: int = if j < k { j } else { j - 1 };
                assert(d2.children[j] == d0.children[j0]);
                assert(m0.contains_key(q));
                assert(m0[q] == node_file_map(d0.children[j0])[q]);
                assert(q != p) by {
                    if q == p {
                        assert(q[prefix.len() as int] == node_name(d2.children[j]));
                        assert(node_file_map(d2.children[k]).contains_key(p));
                        assert(p[prefix.len() as int] == node_name(d2.children[k]));
                        crate::text::lemma_chars_le_total(node_name(d2.children[j]), node_name(
                            d2.children[k],
                        ));
                        lemma_children_sorted(d2, len2, prefix);
                    }
                }
            }
        }
        assert forall|q: Seq<Seq<char>>| #[trigger] m0.insert(p, v).contains_key(q) implies
            m2.contains_key(q) by {
            if q == p {
                assert(node_file_map(d2.children[k]).contains_key(p));
            } else {
                assert(m0.contains_key(q));
                let j = choose|j: int|
                    0 <= j < len0 && #[trigger] node_file_map(d0.children[j]).contains_key(q);
                let j2: int = if j < k { j } else { j + 1 };
                assert(d2.children[j2] == d0.children[j]);
                assert(node_file_map(d2.children[j2]).contains_key(q));
            }
        }
    }
}

/// The name of a node: the final segment of its path.
fn node_name_exec(n: &TreeNode) -> (r: &str)
    requires
        valid_path(node_path(*n)),
    ensures
        r@ == node_name(*n),
{
    match n {
        TreeNode::File(f) => f.relpath.file_name(),
        TreeNode::Directory(d) => d.relpath.file_name(),
    }
}

/// Insert `node` into `dir`, which stands at depth `depth` on the way to
/// `node`'s path: descend or create the child named by the next segment.
/// On an error the directory comes back unchanged in content.
fn insert_at(dir: DirTree, node: FileChecksum, depth: usize) -> (res: Result<
    DirTree,
    (DirTree, ChecksumTreeError),
>)
    requires
        node.inv(),
        depth < node@.relpath.len(),
        dir_wf(dir, node@.relpath.take(depth as int)),
    ensures
        ({
            let p = node@.relpath;
            let m = dir_file_map(dir);
            match res {
                Ok(d2) => {
                    &&& d2.relpath@ == dir.relpath@
                    &&& dir_wf(d2, p.take(depth as int))
                    &&& d2.children.len() > 0
                    &&& dir_file_map(d2) == m.insert(p, node@)
                    &&& !prefix_conflict(m, p, depth as int)
                    &&& !occupied(m, p)
                },
                Err((d2, e)) => {
                    &&& d2.relpath@ == dir.relpath@
                    &&& dir_wf(d2, p.take(depth as int))
                    &&& d2.children.len() == dir.children.len()
                    &&& dir_file_map(d2) == m
                    &&& match e {
                        ChecksumTreeError::PathTypeConflict { path } => exists|i: int|
                            #[trigger] first_conflict_at(m, p, i, depth as int) && path@ == p.take(
                                i,
                            ),
                        ChecksumTreeError::DoubleAdd { path } => !prefix_conflict(
                            m,
                            p,
                            depth as int,
                        ) && occupied(m, p) && path@ == p,
                    }
                },
            }
        }),
    decreases node@.relpath.len() - depth,
{
    let ghost p = node@.relpath;
    let ghost prefix = node@.relpath.take(depth as int);
    let ghost m = dir_file_map(dir);
    let last = depth == node.relpath.segment_count() - 1;
    let DirTree { relpath: dir_relpath, mut children } = dir;
    let ghost d0 = DirTree { relpath: dir_relpath, children };
    proof {
        lemma_children_map(d0, d0.children.len() as int, prefix);
        lemma_children_sorted(d0, d0.children.len() as int, prefix);
    }
    // Find the first child whose name is not below the next segment.
    let seg = node.relpath.segment(depth);
    let ghost segv = p[depth as int];
    let mut k: usize = 0;
    let mut found = false;
    loop
        invariant_except_break
            !found,
        invariant
            k <= children@.len(),
            children@ == d0.children@,
            seg@ == segv,
            forall|j: int| 0 <= j < k ==> chars_lt(node_name(children[j]), segv),
            dir_wf(d0, prefix),
        ensures
            k <= children@.len(),
            children@ == d0.children@,
            forall|j: int| 0 <= j < k ==> chars_lt(node_name(children[j]), segv),
            found ==> k < children@.len() && node_name(children[k as int]) == segv,
            !found && k < children@.len() ==> chars_lt(segv, node_name(children[k as int])),
            !found && k < children@.len() ==> node_name(children[k as int]) != segv,
        decreases children@.len() - k,
    {
        if k >= children.len() {
            break;
        }
        proof {
            lemma_children_sorted(d0, d0.children.len() as int, prefix);
            assert(valid_path(prefix.push(node_name(children[k as int]))));
        }
        let name = node_name_exec(&children[k]);
        if str_eq(name, seg) {
            found = true;
            break;
        }
        if str_le(name, seg) {
            k = k + 1;
        } else {
            proof {
                crate::text::lemma_chars_le_total(name@, segv);
            }
            break;
        }
    }
    let ghost kk = k as int;
    let ghost len0 = d0.children@.len() as int;
    // Keys reaching below segments other than `segv` cannot collide with `p`.
    proof {
        assert(p.take(depth as int + 1).take(depth as int) =~= prefix);
        assert(p.take(depth as int + 1)[depth as int] == segv);
        assert forall|i: int| depth < i < p.len() && #[trigger] m.contains_key(p.take(i)) implies
            exists|j: int|
                0 <= j < len0 && node_name(d0.children[j]) == segv && #[trigger] node_file_map(
                d0.children[j],
            ).contains_key(p.take(i)) by {
            let j = choose|j: int|
                0 <= j < len0 && #[trigger] node_file_map(d0.children[j]).contains_key(p.take(i));
            assert(p.take(i)[prefix.len() as int] == node_name(d0.children[j]));
            assert(p.take(i)[depth as int] == p[depth as int]);
        }
        assert forall|q: Seq<Seq<char>>|
            #[trigger] m.contains_key(q) && p.len() <= q.len() && q.take(p.len() as int) == p
            implies exists|j: int|
                0 <= j < len0 && node_name(d0.children[j]) == segv && #[trigger] node_file_map(
                d0.children[j],
            ).contains_key(q) by {
            let j = choose|j: int|
                0 <= j < len0 && #[trigger] node_file_map(d0.children[j]).contains_key(q);
            assert(q[prefix.len() as int] == node_name(d0.children[j]));
            assert(q[depth as int] == q.take(p.len() as int)[depth as int]);
            assert(q.take(p.len() as int)[depth as int] == p[depth as int]);
        }
    }
    if found {
        // A child already carries the next segment's name.
        let is_last = last;
        proof {
            assert(node_wf(d0.children[kk], prefix.push(segv)));
            assert(prefix.push(segv) =~= p.take(depth as int + 1));
        }
        let child = children.remove(k);
        let ghost child0 = child;
        match child {
            TreeNode::File(f) => {
                // A file occupies the next segment: conflict or double add.
                children.insert(k, TreeNode::File(f));
                proof {
                    assert(children@ =~= d0.children@);
                }
                let d2 = DirTree { relpath: dir_relpath, children };
                proof {
                    assert(d2.children@ =~= d0.children@);
                    lemma_same_children_same_map(d0, d2, prefix);
                    assert(node_file_map(child0).contains_key(p.take(depth as int + 1)));
                    assert(m.contains_key(p.take(depth as int + 1)));
                }
                if is_last {
                    proof {
                        assert(p.take(p.len() as int) =~= p);
                        assert(p.take(depth as int + 1) == p);
                        assert(m.contains_key(p));
                        assert(occupied(m, p));
                        assert forall|i: int| depth < i < p.len() implies !m.contains_key(
                            #[trigger] p.take(i),
                        ) by {}
                    }
                    Err((d2, ChecksumTreeError::DoubleAdd { path: node.relpath }))
                } else {
                    let q = node.relpath.take_prefix(depth + 1);
                    proof {
                        assert(first_conflict_at(m, p, depth as int + 1, depth as int));
                    }
                    Err((d2, ChecksumTreeError::PathTypeConflict { path: q }))
                }
            },
            TreeNode::Directory(sub) => {
                if is_last {
                    // A directory occupies the final segment: double add.
                    children.insert(k, TreeNode::Directory(sub));
                    proof {
                        assert(children@ =~= d0.children@);
                    }
                    let d2 = DirTree { relpath: dir_relpath, children };
                    proof {
                        assert(d2.children@ =~= d0.children@);
                        lemma_same_children_same_map(d0, d2, prefix);
                        assert(child_nonempty(d0, kk));
                        let q = choose|q: Seq<Seq<char>>|
                            node_file_map(d0.children[kk]).contains_key(q);
                        lemma_node_map_shape(child0, p.take(depth as int + 1));
                        assert(m.contains_key(q));
                        assert(p.take(depth as int + 1) =~= p);
                        assert(q.len() > p.len() && q.take(p.len() as int) == p);
                        assert(occupied(m, p));
                        assert forall|i: int| depth < i < p.len() implies !m.contains_key(
                            #[trigger] p.take(i),
                        ) by {}
                    }
                    Err((d2, ChecksumTreeError::DoubleAdd { path: node.relpath }))
                } else {
                    // Descend into the existing subdirectory.
                    let ghost msub = dir_file_map(sub);
                    proof {
                        assert(node_file_map(child0) == msub);
                    }
                    match insert_at(sub, node, depth + 1) {
                        Ok(sub2) => {
                            proof {
                                lemma_insert_frame(d0, kk, prefix, p, depth as int);
                                lemma_node_map_shape(child0, p.take(depth as int + 1));
                                assert(!prefix_conflict(m, p, depth as int)) by {
                                    if prefix_conflict(m, p, depth as int) {
                                        let i = choose|i: int|
                                            depth < i < p.len() && m.contains_key(
                                                #[trigger] p.take(i),
                                            );
                                        assert(msub.contains_key(p.take(i)));
                                        assert(p.take(i).len() == i);
                                        assert(i != depth + 1);
                                        assert(prefix_conflict(msub, p, depth as int + 1));
                                    }
                                }
                            }
                            let ghost sub2g = sub2;
                            children.insert(k, TreeNode::Directory(sub2));
                            let d2 = DirTree { relpath: dir_relpath, children };
                            proof {
                                assert(d2.children@ =~= d0.children@.update(
                                    kk,
                                    TreeNode::Directory(sub2g),
                                ));
                                lemma_replace_child(
                                    d0,
                                    d2,
                                    kk,
                                    TreeNode::Directory(sub2g),
                                    prefix,
                                    p,
                                    node@,
                                );
                            }
                            Ok(d2)
                        },
                        Err((sub2, e)) => {
                            let ghost sub2g = sub2;
                            let ghost eg = e;
                            children.insert(k, TreeNode::Directory(sub2));
                            let d2 = DirTree { relpath: dir_relpath, children };
                            proof {
                                assert(d2.children@ =~= d0.children@.update(
                                    kk,
                                    TreeNode::Directory(sub2g),
                                ));
                                lemma_insert_frame(d0, kk, prefix, p, depth as int);
                                lemma_replace_child_same(
                                    d0,
                                    d2,
                                    kk,
                                    TreeNode::Directory(sub2g),
                                    prefix,
                                );
                                lemma_node_map_shape(child0, p.take(depth as int + 1));
                                match eg {
                                    ChecksumTreeError::PathTypeConflict { path } => {
                                        let i = choose|i: int|
                                            #[trigger] first_conflict_at(
                                                msub,
                                                p,
                                                i,
                                                depth as int + 1,
                                            ) && path@ == p.take(i);
                                        assert(first_conflict_at(m, p, i, depth as int)) by {
                                            assert(m.contains_key(p.take(i)));
                                            assert forall|j: int| depth < j < i implies
                                                !m.contains_key(#[trigger] p.take(j)) by {
                                                if m.contains_key(p.take(j)) {
                                                    assert(msub.contains_key(p.take(j)));
                                                    assert(p.take(j).len() == j);
                                                    assert(j != depth + 1);
                                                }
                                            }
                                        }
                                    },
                                    ChecksumTreeError::DoubleAdd { path } => {
                                        assert(!prefix_conflict(m, p, depth as int)) by {
                                            if prefix_conflict(m, p, depth as int) {
                                                let i = choose|i: int|
                                                    depth < i < p.len() && m.contains_key(
                                                        #[trigger] p.take(i),
                                                    );
                                                assert(msub.contains_key(p.take(i)));
                                                assert(p.take(i).len() == i);
                                                assert(i != depth + 1);
                                                assert(prefix_conflict(msub, p, depth as int + 1));
                                            }
                                        }
                                    },
                                }
                            }
                            Err((d2, e))
                        },
                    }
                }
            },
        }
    } else {
        // No child carries the segment: nothing at or below `p` exists yet.
        proof {
            assert forall|i: int| depth < i < p.len() implies !m.contains_key(
                #[trigger] p.take(i),
            ) by {
                if m.contains_key(p.take(i)) {
                    let j = choose|j: int|
                        0 <= j < len0 && node_name(d0.children[j]) == segv
                            && #[trigger] node_file_map(d0.children[j]).contains_key(p.take(i));
                    lemma_no_such_child(d0, kk, segv, prefix);
                }
            }
            assert(!occupied(m, p)) by {
                if m.contains_key(p) {
                    assert(p.take(p.len() as int) =~= p);
                    assert(m.contains_key(p.take(p.len() as int)));
                    let j = choose|j: int|
                        0 <= j < len0 && node_name(d0.children[j]) == segv
                            && #[trigger] node_file_map(d0.children[j]).contains_key(p);
                    lemma_no_such_child(d0, kk, segv, prefix);
                }
                if exists|q: Seq<Seq<char>>|
                    #[trigger] m.contains_key(q) && p.len() < q.len() && q.take(p.len() as int)
                        == p {
                    let q = choose|q: Seq<Seq<char>>|
                        #[trigger] m.contains_key(q) && p.len() < q.len() && q.take(
                            p.len() as int,
                        ) == p;
                    lemma_no_such_child(d0, kk, segv, prefix);
                }
            }
        }
        // Build the missing chain and insert it at the scan position.
        let new_child = build_chain(node, depth);
        let ghost ncg = new_child;
        children.insert(k, new_child);
        let d2 = DirTree { relpath: dir_relpath, children };
        proof {
            assert(prefix.push(p[depth as int]) =~= p.take(depth as int + 1));
            assert(valid_segment(p[depth as int]));
            lemma_add_child(d0, d2, kk, ncg, prefix, p, node@);
        }
        Ok(d2)
    }
}

/// Build the subtree holding exactly `node`, rooted at depth `depth` of its
/// path: a file leaf, or a chain of single-child directories ending in one.
fn build_chain(node: FileChecksum, depth: usize) -> (r: TreeNode)
    requires
        node.inv(),
        depth < node@.relpath.len(),
    ensures
        node_wf(r, node@.relpath.take(depth as int + 1)),
        node_name(r) == node@.relpath[depth as int],
        node_file_map(r) == Map::<Seq<Seq<char>>, FileChecksumV>::empty().insert(
            node@.relpath,
            node@,
        ),
    decreases node@.relpath.len() - depth,
{
    let ghost p = node@.relpath;
    if depth == node.relpath.segment_count() - 1 {
        proof {
            assert(p.take(depth as int + 1) =~= p);
        }
        TreeNode::File(node)
    } else {
        let relpath = node.relpath.take_prefix(depth + 1);
        let inner = build_chain(node, depth + 1);
        let ghost innerg = inner;
        let mut children: Vec<TreeNode> = Vec::new();
        children.push(inner);
        let d = DirTree { relpath, children };
        proof {
            assert(d.children@ =~= seq![innerg]);
            assert(d.children@.len() == 1);
            assert(d.children[0] == innerg);
            assert(valid_segment(p[depth as int + 1]));
            assert(node_name(innerg) == p[depth as int + 1]);
            assert(p.take(depth as int + 2).take(depth as int + 1) =~= p.take(depth as int + 1));
            assert(p.take(depth as int + 2)[depth as int + 1] == p[depth as int + 1]);
            assert(p.take(depth as int + 1).push(node_name(innerg)) =~= p.take(depth as int + 2));
            assert(children_wf_upto(d, 0, p.take(depth as int + 1)));
            assert(children_wf_upto(d, 1, p.take(depth as int + 1)));
            assert(dir_file_map_upto(d, 1) == dir_file_map_upto(d, 0).union_prefer_right(
                node_file_map(innerg),
            ));
            assert(dir_file_map_upto(d, 1) =~= Map::<Seq<Seq<char>>, FileChecksumV>::empty().insert(
                p,
                node@,
            ));
        }
        TreeNode::Directory(d)
    }
}

/// The running totals while a directory's children are combined, in child
/// order: the file and subdirectory checksums seen, and the wrapping sums of
/// sizes and file counts.
pub(crate) ghost struct DirSummaryV {
    pub files: Seq<FileChecksumV>,
    pub dirs: Seq<DirChecksumV>,
    pub size: u64,
    pub count: u64,
}

/// The summary of the first `i` children of `d`.
pub(crate) open spec fn dir_summary_upto(d: DirTree, i: int) -> DirSummaryV
    decreases d, i,
{
    if 0 < i <= d.children.len() {
        let prev = dir_summary_upto(d, i - 1);
        match d.children[i - 1] {
            TreeNode::File(f) => DirSummaryV {
                files: prev.files.push(f@),
                dirs: prev.dirs,
                size: prev.size.wrapping_add(f@.size),
                count: prev.count.wrapping_add(1),
            },
            TreeNode::Directory(sub) => {
                let sd = dir_checksum_v(sub);
                DirSummaryV {
                    files: prev.files,
                    dirs: prev.dirs.push(sd),
                    size: prev.size.wrapping_add(sd.size),
                    count: prev.count.wrapping_add(sd.file_count),
                }
            },
        }
    } else {
        DirSummaryV { files: Seq::empty(), dirs: Seq::empty(), size: 0, count: 0 }
    }
}

/// The checksum a directory node collapses to: combine the children's
/// checksums bottom-up and take the compound digest.
pub(crate) open spec fn dir_checksum_v(d: DirTree) -> DirChecksumV
    decreases d, d.children.len() as int + 1,
{
    let s = dir_summary_upto(d, d.children.len() as int);
    DirChecksumV {
        relpath: d.relpath@,
        checksum: compound_digest(s.files, s.dirs, s.count, s.size),
        size: s.size,
        file_count: s.count,
    }
}

/// Collapse one directory: push every child's checksum into a [`Dirsummer`]
/// and take the directory's own checksum.
fn dir_to_checksum(d: &DirTree, Ghost(prefix): Ghost<Seq<Seq<char>>>) -> (r: DirChecksum)
    requires
        dir_wf(*d, prefix),
        valid_path(d.relpath@),
    ensures
        r@ == dir_checksum_v(*d),
        is_compound_digest(r@.checksum),
        r.wf(),
    decreases *d,
{
    let mut ds = Dirsummer::new(d.relpath.clone());
    let mut i: usize = 0;
    let n = d.children.len();
    proof {
        lemma_children_sorted(*d, n as int, prefix);
    }
    while i < n
        invariant
            n == d.children@.len(),
            i <= n,
            dir_wf(*d, prefix),
            valid_path(d.relpath@),
            ds.wf(),
            ds@.relpath == d.relpath@,
            ds@.files == dir_summary_upto(*d, i as int).files,
            ds@.directories == dir_summary_upto(*d, i as int).dirs,
            ds@.size == dir_summary_upto(*d, i as int).size,
            ds@.file_count == dir_summary_upto(*d, i as int).count,
        decreases n - i,
    {
        proof {
            lemma_children_sorted(*d, n as int, prefix);
        }
        let child = &d.children[i];
        proof {
            assert(node_wf(
                d.children@[i as int],
                prefix.push(node_name(d.children@[i as int])),
            ));
        }
        match child {
            TreeNode::File(f) => {
                proof {
                    assert(d.children@[i as int] == TreeNode::File(*f));
                }
                ds.push(EntryChecksum::File(f.clone()));
            },
            TreeNode::Directory(sub) => {
                proof {
                    assert(d.children@[i as int] == TreeNode::Directory(*sub));
                }
                let sd = dir_to_checksum(sub, Ghost(sub.relpath@));
                ds.push(EntryChecksum::Directory(sd));
            },
        }
        i = i + 1;
    }
    ds.checksum()
}

/// A tree of [`FileChecksum`]s, for computing the final checksum of an
/// entire Zarr one file at a time.
///
/// Build one with [`ChecksumTree::new`], add files with
/// [`add_file()`][ChecksumTree::add_file], and collapse it with
/// [`checksum()`][ChecksumTree::checksum] or
/// [`into_checksum()`][ChecksumTree::into_checksum] — or do it all at once
/// with [`ChecksumTree::from_files`].  Its abstract value is the map from
/// inserted paths to file checksums.
pub struct ChecksumTree {
    root: DirTree,
}

impl View for ChecksumTree {
    type V = Map<Seq<Seq<char>>, FileChecksumV>;

    closed spec fn view(&self) -> Map<Seq<Seq<char>>, FileChecksumV> {
        dir_file_map(self.root)
    }
}

/// The path of every file inserted so far, together with the tree's shape
/// invariant.
impl ChecksumTree {
    /// The trie is well formed: the root carries the root marker and the
    /// children form sorted, nonempty, correctly-placed subtries.
    pub closed spec fn wf(&self) -> bool {
        &&& self.root.relpath@ =~= seq!["<root>"@]
        &&& valid_path(self.root.relpath@)
        &&& dir_wf(self.root, Seq::empty())
    }

    /// The compound digest this tree collapses to.
    pub closed spec fn digest(&self) -> Seq<char> {
        dir_checksum_v(self.root).checksum
    }

    /// The total number of files the digest reports (wrapping 64-bit count).
    pub closed spec fn total_file_count(&self) -> u64 {
        dir_checksum_v(self.root).file_count
    }

    /// The total number of bytes the digest reports (wrapping 64-bit sum).
    pub closed spec fn total_size(&self) -> u64 {
        dir_checksum_v(self.root).size
    }

    /// The digest's form: some MD5 text, then the tree's total file count
    /// and total size in decimal, with the fixed separators.
    pub proof fn lemma_digest_form(t: &ChecksumTree)
        ensures
            exists|md5: Seq<char>|
                t.digest() == #[trigger] (md5 + "-"@ + crate::text::dec_str(
                    t.total_file_count() as nat,
                ) + "--"@ + crate::text::dec_str(t.total_size() as nat)),
    {
        let s = dir_summary_upto(t.root, t.root.children.len() as int);
        let md5 = crate::util::md5_of(
            crate::checksum::json::checksum_json_of(s.files, s.dirs),
        );
        assert(t.digest() == md5 + "-"@ + crate::text::dec_str(t.total_file_count() as nat)
            + "--"@ + crate::text::dec_str(t.total_size() as nat));
    }

    /// Create a new, empty `ChecksumTree`.
    pub fn new() -> (r: Self)
        ensures
            r.wf(),
            r@ == Map::<Seq<Seq<char>>, FileChecksumV>::empty(),
    {
        let r = ChecksumTree { root: DirTree { relpath: root_path(), children: Vec::new() } };
        proof {
            assert(r@ =~= Map::<Seq<Seq<char>>, FileChecksumV>::empty());
        }
        r
    }

    /// Add the checksum for one file to the tree.  Fails with a
    /// path-type-conflict when a proper prefix of the file's path is already
    /// a file (carrying the shortest such prefix), and with a double-add
    /// when the path itself is already taken by a file or a directory
    /// (carrying the path); the tree's content is unchanged on failure.
    pub fn add_file(&mut self, node: FileChecksum) -> (r: Result<(), ChecksumTreeError>)
        requires
            old(self).wf(),
            node.inv(),
        ensures
            final (self).wf(),
            ({
                let p = node@.relpath;
                let m = old(self)@;
                match r {
                    Ok(()) => {
                        &&& !prefix_conflict(m, p, 0)
                        &&& !occupied(m, p)
                        &&& final (self)@ == m.insert(p, node@)
                    },
                    Err(ChecksumTreeError::PathTypeConflict { path }) => {
                        &&& final (self)@ == m
                        &&& exists|i: int|
                            #[trigger] first_conflict_at(m, p, i, 0) && path@ == p.take(i)
                    },
                    Err(ChecksumTreeError::DoubleAdd { path }) => {
                        &&& final (self)@ == m
                        &&& !prefix_conflict(m, p, 0)
                        &&& occupied(m, p)
                        &&& path@ == p
                    },
                }
            }),
    {
        let mut tmp = DirTree { relpath: root_path(), children: Vec::new() };
        core::mem::swap(&mut self.root, &mut tmp);
        proof {
            assert(node@.relpath.take(0) =~= Seq::<Seq<char>>::empty());
        }
        match insert_at(tmp, node, 0) {
            Ok(d2) => {
                self.root = d2;
                Ok(())
            },
            Err((d2, e)) => {
                self.root = d2;
                Err(e)
            },
        }
    }

    /// Insert every checksum in order, returning the tree or the first
    /// insertion error.
    pub fn from_files(files: Vec<FileChecksum>) -> (r: Result<ChecksumTree, ChecksumTreeError>)
        requires
            forall|j: int| 0 <= j < files@.len() ==> (#[trigger] files@[j]).inv(),
        ensures
            ({
                let views = files@.map_values(|f: FileChecksum| f@);
                match r {
                    Ok(t) => t.wf() && adds_ok(views) && t@ == map_after(views),
                    Err(e) => !adds_ok(views) && exists|i: int|
                        {
                            &&& 0 <= i < views.len()
                            &&& #[trigger] adds_ok(views.take(i))
                            &&& add_fails(map_after(views.take(i)), views[i])
                            &&& add_error_matches(map_after(views.take(i)), views[i], e)
                        },
                }
            }),
    {
        let ghost views = files@.map_values(|f: FileChecksum| f@);
        let mut tree = ChecksumTree::new();
        let mut i: usize = 0;
        let n = files.len();
        proof {
            assert(views.take(0) =~= Seq::<FileChecksumV>::empty());
            assert(tree@ =~= map_after(views.take(0)));
        }
        while i < n
            invariant
                n == files@.len(),
                i <= n,
                views == files@.map_values(|f: FileChecksum| f@),
                forall|j: int| 0 <= j < files@.len() ==> (#[trigger] files@[j]).inv(),
                tree.wf(),
                tree@ == map_after(views.take(i as int)),
                adds_ok(views.take(i as int)),
            decreases n - i,
        {
            let node = files[i].clone();
            let ghost nv = node@;
            proof {
                assert(nv == views[i as int]);
            }
            let res = tree.add_file(node);
            proof {
                let t = views.take(i as int + 1);
                assert(t.drop_last() =~= views.take(i as int));
                assert(t.last() == views[i as int]);
            }
            match res {
                Ok(()) => {},
                Err(e) => {
                    proof {
                        let gi = i as int;
                        assert(adds_ok(views.take(gi)) && add_fails(
                            map_after(views.take(gi)),
                            views[gi],
                        ) && add_error_matches(map_after(views.take(gi)), views[gi], e));
                        lemma_adds_ok_prefix_fails(views, gi);
                    }
                    return Err(e);
                },
            }
            i = i + 1;
        }
        proof {
            assert(views.take(n as int) =~= views);
        }
        Ok(tree)
    }

    /// Compute the Zarr checksum for the entire tree: collapse every
    /// directory bottom-up through the canonical JSON.
    pub fn checksum(&self) -> (r: String)
        requires
            self.wf(),
        ensures
            r@ == self.digest(),
            is_compound_digest(r@),
    {
        let d = dir_to_checksum(&self.root, Ghost(Seq::empty()));
        d.into_checksum()
    }

    /// Consume the tree and return its Zarr checksum.
    pub fn into_checksum(self) -> (r: String)
        requires
            self.wf(),
        ensures
            r@ == self.digest(),
            is_compound_digest(r@),
    {
        self.checksum()
    }
}

/// The file count a node's collapse reports: 1 for a file, the wrapping
/// total for a directory.
pub(crate) open spec fn node_count(n: TreeNode) -> u64 {
    match n {
        TreeNode::File(_) => 1,
        TreeNode::Directory(d) => dir_checksum_v(d).file_count,
    }
}

/// A node's reported file count is the number of files in its subtree,
/// wrapped to 64 bits, and its key set is finite.
proof fn lemma_node_count_content(n: TreeNode, path: Seq<Seq<char>>)
    requires
        node_wf(n, path),
    ensures
        node_file_map(n).dom().finite(),
        node_count(n) as nat == node_file_map(n).dom().len() % 0x1_0000_0000_0000_0000,
    decreases n, 1int,
{
    match n {
        TreeNode::File(f) => {
            assert(node_file_map(n).dom() =~= Set::<Seq<Seq<char>>>::empty().insert(f@.relpath));
        },
        TreeNode::Directory(d) => {
            lemma_children_count_content(d, d.children.len() as int, path);
        },
    }
}

/// The running file count over the first `i` children equals the size of
/// their combined key set, wrapped to 64 bits.
proof fn lemma_children_count_content(d: DirTree, i: int, prefix: Seq<Seq<char>>)
    requires
        0 <= i <= d.children.len(),
        children_wf_upto(d, i, prefix),
    ensures
        dir_file_map_upto(d, i).dom().finite(),
        dir_summary_upto(d, i).count as nat == dir_file_map_upto(d, i).dom().len()
            % 0x1_0000_0000_0000_0000,
    decreases d, i,
{
    broadcast use vstd::map_lib::lemma_disjoint_union_size, vstd::map_lib::lemma_union_dom;

    if i == 0 {
        assert(dir_file_map_upto(d, 0).dom() =~= Set::<Seq<Seq<char>>>::empty());
    } else {
        lemma_children_count_content(d, i - 1, prefix);
        lemma_children_sorted(d, i, prefix);
        lemma_children_map(d, i, prefix);
        lemma_children_map(d, i - 1, prefix);
        let child = d.children[i - 1];
        let cpath = prefix.push(node_name(child));
        lemma_node_count_content(child, cpath);
        let m1 = dir_file_map_upto(d, i - 1);
        let m2 = node_file_map(child);
        // Earlier children route to strictly smaller names, so the key sets
        // are disjoint.
        assert(m1.dom().disjoint(m2.dom())) by {
            lemma_node_map_shape(child, cpath);
            assert forall|k: Seq<Seq<char>>| m1.dom().contains(k) implies !m2.dom().contains(
                k,
            ) by {
                if m2.dom().contains(k) {
                    assert(m1.contains_key(k));
                    assert(dir_file_map_upto(d, i - 1).contains_key(k));
                    let j = choose|j: int|
                        0 <= j < i - 1 && #[trigger] node_file_map(d.children[j]).contains_key(k);
                    assert(k[prefix.len() as int] == node_name(d.children[j]));
                    assert(m2.contains_key(k));
                    assert(k.take(cpath.len() as int) == cpath);
                    assert(k.take(prefix.len() as int) =~= k.take(cpath.len() as int).take(
                        prefix.len() as int,
                    ));
                    assert(k[prefix.len() as int] == k.take(cpath.len() as int)[prefix.len() as int]);
                    assert(k[prefix.len() as int] == node_name(child));
                    assert(chars_lt(node_name(d.children[j]), node_name(child)));
                }
            }
        }
        assert(dir_file_map_upto(d, i) == m1.union_prefer_right(m2));
        assert(dir_file_map_upto(d, i).dom().len() == m1.dom().len() + m2.dom().len());
        let prev = dir_summary_upto(d, i - 1);
        let c: u64 = match child {
            TreeNode::File(_) => 1,
            TreeNode::Directory(sub) => dir_checksum_v(sub).file_count,
        };
        assert(dir_summary_upto(d, i).count == prev.count.wrapping_add(c));
        assert(prev.count.wrapping_add(c) as nat == (prev.count + c) % 0x1_0000_0000_0000_0000);
        vstd::arithmetic::div_mod::lemma_add_mod_noop(
            m1.dom().len() as int,
            m2.dom().len() as int,
            0x1_0000_0000_0000_0000,
        );
        assert(prev.count as nat == m1.dom().len() % 0x1_0000_0000_0000_0000);
        assert(c as nat == m2.dom().len() % 0x1_0000_0000_0000_0000);
        assert((prev.count + c) % 0x1_0000_0000_0000_0000 == (m1.dom().len() + m2.dom().len())
            % 0x1_0000_0000_0000_0000);
    }
}

impl ChecksumTree {
    /// The file count in the digest is the number of inserted files, wrapped
    /// to 64 bits (so exactly the number, for any store a filesystem can
    /// hold), and the tree's content is finite.
    pub proof fn lemma_count_is_content(t: &ChecksumTree)
        requires
            t.wf(),
        ensures
            t@.dom().finite(),
            t.total_file_count() as nat == t@.dom().len() % 0x1_0000_0000_0000_0000,
    {
        lemma_children_count_content(t.root, t.root.children.len() as int, Seq::empty());
    }
}

/// The wrapping 64-bit sum of the sizes of a run of file checksums.
pub open spec fn wrap_size_sum(xs: Seq<FileChecksumV>) -> u64
    decreases xs.len(),
{
    if xs.len() == 0 {
        0
    } else {
        wrap_size_sum(xs.drop_last()).wrapping_add(xs.last().size)
    }
}

/// The file checksums in the subtree rooted at `n`, leaves left to right.
pub(crate) open spec fn node_files(n: TreeNode) -> Seq<FileChecksumV>
    decreases n,
{
    match n {
        TreeNode::File(f) => seq![f@],
        TreeNode::Directory(d) => children_files(d, d.children.len() as int),
    }
}

/// The file checksums under the first `i` children of `d`.
pub(crate) open spec fn children_files(d: DirTree, i: int) -> Seq<FileChecksumV>
    decreases d, i,
{
    if 0 < i <= d.children.len() {
        children_files(d, i - 1) + node_files(d.children[i - 1])
    } else {
        Seq::empty()
    }
}

/// Concatenation splits a wrapping size sum.
proof fn lemma_wrap_size_sum_concat(a: Seq<FileChecksumV>, b: Seq<FileChecksumV>)
    ensures
        wrap_size_sum(a + b) == wrap_size_sum(a).wrapping_add(wrap_size_sum(b)),
    decreases b.len(),
{
    if b.len() == 0 {
        assert(a + b =~= a);
    } else {
        assert((a + b).drop_last() =~= a + b.drop_last());
        assert((a + b).last() == b.last());
        lemma_wrap_size_sum_concat(a, b.drop_last());
    }
}

/// Inserting a run's checksums one after another builds the union of the
/// two runs' maps, later inserts winning.
proof fn lemma_map_after_concat(a: Seq<FileChecksumV>, b: Seq<FileChecksumV>)
    ensures
        map_after(a + b) == map_after(a).union_prefer_right(map_after(b)),
    decreases b.len(),
{
    broadcast use vstd::map_lib::lemma_union_insert_right;

    if b.len() == 0 {
        assert(a + b =~= a);
        assert(map_after(a).union_prefer_right(map_after(b)) =~= map_after(a));
    } else {
        assert((a + b).drop_last() =~= a + b.drop_last());
        assert((a + b).last() == b.last());
        lemma_map_after_concat(a, b.drop_last());
        assert(map_after(a + b) =~= map_after(a).union_prefer_right(
            map_after(b.drop_last()).insert(b.last().relpath, b.last()),
        ));
    }
}

/// The structural content of a well-formed node: its leaves' paths all
/// extend the node's path (and equal it exactly for a file), the leaves are
/// pairwise conflict-free, their map is the node's map, and their wrapping
/// size sum is the size the node collapses to.
proof fn lemma_node_files_facts(n: TreeNode, path: Seq<Seq<char>>)
    requires
        node_wf(n, path),
    ensures
        forall|t: int|
            0 <= t < node_files(n).len() ==> {
                &&& (#[trigger] node_files(n)[t]).relpath.len() >= path.len()
                &&& node_files(n)[t].relpath.take(path.len() as int) == path
                &&& node_files(n)[t].relpath.len() > 0
            },
        n matches TreeNode::Directory(_) ==> forall|t: int|
            0 <= t < node_files(n).len() ==> (#[trigger] node_files(n)[t]).relpath.len()
                > path.len(),
        conflict_free(node_files(n)),
        map_after(node_files(n)) == node_file_map(n),
        wrap_size_sum(node_files(n)) == (match n {
            TreeNode::File(f) => f@.size,
            TreeNode::Directory(d) => dir_checksum_v(d).size,
        }),
    decreases n, 1int,
{
    match n {
        TreeNode::File(f) => {
            let fs = node_files(n);
            assert(fs =~= seq![f@]);
            assert(fs.len() == 1);
            assert(fs.last() == f@);
            assert(fs.drop_last() =~= Seq::<FileChecksumV>::empty());
            assert(f@.relpath.take(path.len() as int) =~= path);
            assert(map_after(fs.drop_last()) =~= Map::<Seq<Seq<char>>, FileChecksumV>::empty());
            assert(map_after(fs) == map_after(fs.drop_last()).insert(f@.relpath, f@));
            assert(map_after(fs) =~= Map::<Seq<Seq<char>>, FileChecksumV>::empty().insert(
                f@.relpath,
                f@,
            ));
            assert(wrap_size_sum(fs.drop_last()) == 0);
            assert(wrap_size_sum(fs) == wrap_size_sum(fs.drop_last()).wrapping_add(f@.size));
        },
        TreeNode::Directory(d) => {
            lemma_children_files_facts(d, d.children.len() as int, path);
        },
    }
}

/// The structural content of the first `i` children of a well-formed
/// directory.
proof fn lemma_children_files_facts(d: DirTree, i: int, prefix: Seq<Seq<char>>)
    requires
        0 <= i <= d.children.len(),
        children_wf_upto(d, i, prefix),
    ensures
        forall|t: int|
            0 <= t < children_files(d, i).len() ==> {
                &&& (#[trigger] children_files(d, i)[t]).relpath.len() > prefix.len()
                &&& children_files(d, i)[t].relpath.take(prefix.len() as int) == prefix
                &&& children_files(d, i)[t].relpath.len() > 0
            },
        conflict_free(children_files(d, i)),
        map_after(children_files(d, i)) == dir_file_map_upto(d, i),
        wrap_size_sum(children_files(d, i)) == dir_summary_upto(d, i).size,
    decreases d, i,
{
    if i == 0 {
        assert(map_after(children_files(d, 0)) =~= dir_file_map_upto(d, 0));
    } else {
        lemma_children_files_facts(d, i - 1, prefix);
        lemma_children_sorted(d, i, prefix);
        lemma_children_map(d, i, prefix);
        lemma_children_map(d, i - 1, prefix);
        let child = d.children[i - 1];
        let cpath = prefix.push(node_name(child));
        lemma_node_files_facts(child, cpath);
        lemma_node_map_shape(child, cpath);
        let a = children_files(d, i - 1);
        let b = node_files(child);
        let whole = children_files(d, i);
        assert(whole == a + b);
        // Shape facts for the appended leaves.
        assert forall|t: int| 0 <= t < whole.len() implies ((#[trigger] whole[t]).relpath.len()
            > prefix.len() && whole[t].relpath.take(prefix.len() as int) == prefix
            && whole[t].relpath.len() > 0) by {
            if t < a.len() {
                assert(whole[t] == a[t]);
            } else {
                assert(whole[t] == b[t - a.len()]);
                let q = b[t - a.len()].relpath;
                assert(q.len() >= cpath.len());
                assert(q.take(cpath.len() as int) == cpath);
                assert(q.take(prefix.len() as int) =~= q.take(cpath.len() as int).take(
                    prefix.len() as int,
                ));
                assert(cpath.take(prefix.len() as int) =~= prefix);
            }
        }
        // The leaves under earlier children and under this child route to
        // different names, so their paths neither repeat nor nest.
        assert forall|t: int, u: int|
            #![trigger whole[t], whole[u]]
            0 <= t < whole.len() && 0 <= u < whole.len() && t != u implies whole[t].relpath
            != whole[u].relpath && !proper_prefix_of(whole[u].relpath, whole[t].relpath) by {
            if t < a.len() && u < a.len() {
                assert(whole[t] == a[t] && whole[u] == a[u]);
            } else if t >= a.len() && u >= a.len() {
                assert(whole[t] == b[t - a.len()] && whole[u] == b[u - a.len()]);
            } else {
                let (ai, bi): (int, int) = if t < a.len() {
                    (t, u - a.len())
                } else {
                    (u, t - a.len())
                };
                assert(whole[if t < a.len() {
                    t
                } else {
                    u
                }] == a[ai]);
                let p = a[ai].relpath;
                let q = b[bi].relpath;
                // `p` lies under an earlier child, `q` under this one: they
                // differ at the segment after `prefix`.
                assert(map_after(a).contains_key(p)) by {
                    lemma_map_after_contains(a);
                }
                assert(dir_file_map_upto(d, i - 1).contains_key(p));
                let j = choose|j: int|
                    0 <= j < i - 1 && #[trigger] node_file_map(d.children[j]).contains_key(p);
                assert(p[prefix.len() as int] == node_name(d.children[j]));
                assert(map_after(b).contains_key(q)) by {
                    lemma_map_after_contains(b);
                }
                assert(node_file_map(child).contains_key(q));
                assert(q.take(cpath.len() as int) == cpath);
                assert(q[prefix.len() as int] == q.take(cpath.len() as int)[prefix.len() as int]);
                assert(q[prefix.len() as int] == node_name(child));
                assert(chars_lt(node_name(d.children[j]), node_name(child)));
                assert(p[prefix.len() as int] != q[prefix.len() as int]) by {
                    if node_name(d.children[j]) == node_name(child) {
                        crate::text::lemma_chars_le_total(node_name(d.children[j]), node_name(
                            child,
                        ));
                    }
                }
                assert(p != q);
                assert(!proper_prefix_of(p, q)) by {
                    if proper_prefix_of(p, q) {
                        assert(q.take(p.len() as int) == p);
                        assert(q[prefix.len() as int] == q.take(p.len() as int)[prefix.len() as int]);
                    }
                }
                assert(!proper_prefix_of(q, p)) by {
                    if proper_prefix_of(q, p) {
                        assert(p.take(q.len() as int) == q);
                        assert(p[prefix.len() as int] == p.take(q.len() as int)[prefix.len() as int]);
                    }
                }
            }
        }
        lemma_map_after_concat(a, b);
        lemma_wrap_size_sum_concat(a, b);
    }
}

/// How often a value occurs in a conflict-free run: once when the inserted
/// map holds it at its own path, never otherwise.
proof fn lemma_cf_count(xs: Seq<FileChecksumV>, v: FileChecksumV)
    requires
        conflict_free(xs),
    ensures
        xs.to_multiset().count(v) == (if map_after(xs).contains_key(v.relpath) && map_after(xs)[
            v.relpath
        ] == v {
            1nat
        } else {
            0nat
        }),
    decreases xs.len(),
{
    broadcast use vstd::seq_lib::group_to_multiset_ensures;

    if xs.len() == 0 {
        assert(!xs.contains(v));
        assert(xs.to_multiset().count(v) == 0) by {
            if xs.to_multiset().count(v) > 0 {
                assert(xs.contains(v));
            }
        }
    } else {
        let rest = xs.drop_last();
        let x = xs.last();
        assert(conflict_free(rest)) by {
            assert forall|t: int, u: int|
                #![trigger rest[t], rest[u]]
                0 <= t < rest.len() && 0 <= u < rest.len() && t != u implies rest[t].relpath
                != rest[u].relpath && !proper_prefix_of(rest[u].relpath, rest[t].relpath) by {
                assert(rest[t] == xs[t] && rest[u] == xs[u]);
            }
        }
        lemma_cf_count(rest, v);
        lemma_map_after_contains(rest);
        assert(rest.push(x) =~= xs);
        assert(xs.to_multiset() == rest.to_multiset().insert(x));
        assert(!map_after(rest).contains_key(x.relpath)) by {
            if map_after(rest).contains_key(x.relpath) {
                let j = choose|j: int|
                    0 <= j < rest.len() && (#[trigger] rest[j]).relpath == x.relpath;
                assert(xs[j] == rest[j] && xs[xs.len() - 1] == x);
            }
        }
        if v == x {
            assert(rest.to_multiset().count(v) == 0);
        } else if v.relpath == x.relpath {
            assert(map_after(xs)[v.relpath] == x);
        } else {
            assert(map_after(xs).contains_key(v.relpath) == map_after(rest).contains_key(
                v.relpath,
            ));
        }
    }
}

/// Two conflict-free runs building the same map hold the same checksums.
pub proof fn lemma_content_determines_files(xs: Seq<FileChecksumV>, ys: Seq<FileChecksumV>)
    requires
        conflict_free(xs),
        conflict_free(ys),
        map_after(xs) == map_after(ys),
    ensures
        xs.to_multiset() == ys.to_multiset(),
{
    assert forall|v: FileChecksumV| true implies #[trigger] xs.to_multiset().count(v)
        == ys.to_multiset().count(v) by {
        lemma_cf_count(xs, v);
        lemma_cf_count(ys, v);
    }
    assert(xs.to_multiset() =~= ys.to_multiset());
}

/// A wrapping size sum forgets order.
proof fn lemma_wrap_size_sum_remove(xs: Seq<FileChecksumV>, i: int)
    requires
        0 <= i < xs.len(),
    ensures
        wrap_size_sum(xs) == wrap_size_sum(xs.remove(i)).wrapping_add(xs[i].size),
    decreases xs.len(),
{
    if i == xs.len() - 1 {
        assert(xs.remove(i) =~= xs.drop_last());
    } else {
        assert(xs.remove(i).drop_last() =~= xs.drop_last().remove(i));
        assert(xs.remove(i).last() == xs.last());
        lemma_wrap_size_sum_remove(xs.drop_last(), i);
    }
}

/// Runs with the same checksums have the same wrapping size sum.
pub proof fn lemma_wrap_size_sum_permutation(xs: Seq<FileChecksumV>, ys: Seq<FileChecksumV>)
    requires
        xs.to_multiset() == ys.to_multiset(),
    ensures
        wrap_size_sum(xs) == wrap_size_sum(ys),
    decreases xs.len(),
{
    broadcast use vstd::seq_lib::group_to_multiset_ensures;

    if xs.len() == 0 {
        assert(xs.to_multiset().len() == xs.len());
        assert(ys.to_multiset().len() == ys.len());
        assert(ys.len() == 0);
    } else {
        let x = xs.last();
        assert(xs.to_multiset().count(x) > 0) by {
            assert(xs.contains(x));
        }
        assert(ys.contains(x));
        let j = choose|j: int| 0 <= j < ys.len() && ys[j] == x;
        assert(xs.drop_last().to_multiset() =~= xs.to_multiset().remove(x)) by {
            assert(xs.drop_last().push(x) =~= xs);
        }
        assert(ys.remove(j).to_multiset() == ys.to_multiset().remove(x));
        lemma_wrap_size_sum_permutation(xs.drop_last(), ys.remove(j));
        lemma_wrap_size_sum_remove(ys, j);
    }
}

/// An insertable run never repeats a path, so the inserted map has exactly
/// one key per run element.
pub proof fn lemma_map_after_len(xs: Seq<FileChecksumV>)
    requires
        adds_ok(xs),
    ensures
        map_after(xs).dom().finite(),
        map_after(xs).dom().len() == xs.len(),
    decreases xs.len(),
{
    if xs.len() == 0 {
        assert(map_after(xs).dom() =~= Set::<Seq<Seq<char>>>::empty());
    } else {
        lemma_map_after_len(xs.drop_last());
        let m = map_after(xs.drop_last());
        let p = xs.last().relpath;
        assert(!m.contains_key(p)) by {
            if m.contains_key(p) {
                assert(occupied(m, p));
            }
        }
        assert(map_after(xs).dom() =~= m.dom().insert(p));
    }
}

impl ChecksumTree {
    /// The file count in the digest of a tree built from an insertable run
    /// is the length of the run, wrapped to 64 bits: one per inserted file.
    pub proof fn lemma_count_is_files(t: &ChecksumTree, xs: Seq<FileChecksumV>)
        requires
            t.wf(),
            adds_ok(xs),
            t@ == map_after(xs),
        ensures
            t.total_file_count() as nat == xs.len() % 0x1_0000_0000_0000_0000,
    {
        ChecksumTree::lemma_count_is_content(t);
        lemma_map_after_len(xs);
    }

    /// The size in the digest of a tree built from an insertable run is the
    /// wrapping sum of the inserted files' sizes, in any insertion order.
    pub proof fn lemma_size_is_files(t: &ChecksumTree, xs: Seq<FileChecksumV>)
        requires
            t.wf(),
            adds_ok(xs),
            forall|i: int| 0 <= i < xs.len() ==> (#[trigger] xs[i]).relpath.len() > 0,
            t@ == map_after(xs),
        ensures
            t.total_size() == wrap_size_sum(xs),
    {
        lemma_children_files_facts(t.root, t.root.children.len() as int, Seq::empty());
        let content = children_files(t.root, t.root.children.len() as int);
        lemma_adds_ok_is_conflict_free(xs);
        lemma_content_determines_files(xs, content);
        lemma_wrap_size_sum_permutation(xs, content);
    }
}

/// Build a tree from the given file checksums and render its drawing, or
/// report the first insertion error, exactly as
/// [`from_files`][ChecksumTree::from_files] would.
pub fn draw_files(files: Vec<FileChecksum>) -> (r: Result<String, ChecksumTreeError>)
    requires
        forall|j: int| 0 <= j < files@.len() ==> (#[trigger] files@[j]).inv(),
    ensures
        ({
            let views = files@.map_values(|f: FileChecksum| f@);
            match r {
                Ok(s) => adds_ok(views) && exists|t: ChecksumTree|
                    (#[trigger] t.wf()) && t@ == map_after(views) && s@ == t.drawing(),
                Err(e) => !adds_ok(views) && exists|i: int|
                    {
                        &&& 0 <= i < views.len()
                        &&& #[trigger] adds_ok(views.take(i))
                        &&& add_fails(map_after(views.take(i)), views[i])
                        &&& add_error_matches(map_after(views.take(i)), views[i], e)
                    },
            }
        }),
{
    match ChecksumTree::from_files(files) {
        Ok(tree) => {
            let ghost t = tree;
            let s = tree.draw();
            proof {
                assert(t.wf() && s@ == t.drawing());
            }
            Ok(s)
        },
        Err(e) => Err(e),
    }
}

impl Default for ChecksumTree {
    /// The default tree is empty.
    fn default() -> (r: Self)
        ensures
            r.wf(),
            r@ == Map::<Seq<Seq<char>>, FileChecksumV>::empty(),
    {
        ChecksumTree::new()
    }
}

/// The path holding only the root marker.
pub(crate) fn root_path() -> (r: EntryPath)
    ensures
        r@ =~= seq!["<root>"@],
        r.wf(),
{
    proof {
        reveal_strlit("<root>");
        reveal_strlit(".");
        reveal_strlit("..");
        assert(!("<root>"@).contains('/')) by {
            assert forall|j: int| 0 <= j < ("<root>"@).len() implies ("<root>"@)[j] != '/' by {}
        }
        assert(valid_segment("<root>"@));
    }
    match EntryPath::from_segment("<root>") {
        Ok(p) => p,
        Err(_) => vstd::pervasive::unreached(),
    }
}

/// The map after inserting a run of file checksums in order (later wins,
/// though a conflict-free run never repeats a path).
pub open spec fn map_after(xs: Seq<FileChecksumV>) -> Map<Seq<Seq<char>>, FileChecksumV>
    decreases xs.len(),
{
    if xs.len() == 0 {
        Map::empty()
    } else {
        map_after(xs.drop_last()).insert(xs.last().relpath, xs.last())
    }
}

/// One insertion into the map `m` would fail.
pub open spec fn add_fails(m: Map<Seq<Seq<char>>, FileChecksumV>, f: FileChecksumV) -> bool {
    prefix_conflict(m, f.relpath, 0) || occupied(m, f.relpath)
}

/// Every insertion in the run succeeds, in order.
pub open spec fn adds_ok(xs: Seq<FileChecksumV>) -> bool
    decreases xs.len(),
{
    if xs.len() == 0 {
        true
    } else {
        adds_ok(xs.drop_last()) && !add_fails(map_after(xs.drop_last()), xs.last())
    }
}

/// The error that a failing insertion into `m` reports.
pub open spec fn add_error_matches(
    m: Map<Seq<Seq<char>>, FileChecksumV>,
    f: FileChecksumV,
    e: ChecksumTreeError,
) -> bool {
    match e {
        ChecksumTreeError::PathTypeConflict { path } => exists|i: int|
            #[trigger] first_conflict_at(m, f.relpath, i, 0) && path@ == f.relpath.take(i),
        ChecksumTreeError::DoubleAdd { path } => !prefix_conflict(m, f.relpath, 0) && occupied(
            m,
            f.relpath,
        ) && path@ == f.relpath,
    }
}

/// Two strictly ascending name runs with the same members are equal.
proof fn lemma_sorted_names_equal(a: Seq<Seq<char>>, b: Seq<Seq<char>>)
    requires
        forall|i: int, j: int|
            #![trigger a[i], a[j]]
            0 <= i < j < a.len() ==> chars_lt(a[i], a[j]),
        forall|i: int, j: int|
            #![trigger b[i], b[j]]
            0 <= i < j < b.len() ==> chars_lt(b[i], b[j]),
        forall|x: Seq<char>| a.contains(x) <==> b.contains(x),
    ensures
        a == b,
    decreases a.len(),
{
    if a.len() == 0 {
        if b.len() > 0 {
            assert(b.contains(b[0]));
            assert(a.contains(b[0]));
        }
        assert(a =~= b);
    } else {
        assert(a.contains(a[0]));
        assert(b.contains(a[0]));
        let j = choose|j: int| 0 <= j < b.len() && b[j] == a[0];
        assert(b.contains(b[0]));
        assert(a.contains(b[0]));
        let k = choose|k: int| 0 <= k < a.len() && a[k] == b[0];
        // The two heads are mutual lower bounds, so they are equal.
        assert(a[0] == b[0]) by {
            if j > 0 {
                assert(chars_lt(b[0], b[j]));
            }
            if k > 0 {
                assert(chars_lt(a[0], a[k]));
            }
            lemma_chars_le_total(a[0], b[0]);
        }
        let at = a.drop_first();
        let bt = b.drop_first();
        assert forall|x: Seq<char>| at.contains(x) <==> bt.contains(x) by {
            if at.contains(x) {
                let i = choose|i: int| 0 <= i < at.len() && at[i] == x;
                assert(a[i + 1] == x);
                assert(chars_lt(a[0], x));
                assert(a.contains(x));
                assert(b.contains(x));
                let i2 = choose|i2: int| 0 <= i2 < b.len() && b[i2] == x;
                assert(i2 != 0) by {
                    if i2 == 0 {
                        lemma_chars_le_total(a[0], x);
                    }
                }
                assert(bt[i2 - 1] == x);
                assert(bt.contains(x));
            }
            if bt.contains(x) {
                let i = choose|i: int| 0 <= i < bt.len() && bt[i] == x;
                assert(b[i + 1] == x);
                assert(chars_lt(b[0], x));
                assert(b.contains(x));
                assert(a.contains(x));
                let i2 = choose|i2: int| 0 <= i2 < a.len() && a[i2] == x;
                assert(i2 != 0) by {
                    if i2 == 0 {
                        lemma_chars_le_total(b[0], x);
                    }
                }
                assert(at[i2 - 1] == x);
                assert(at.contains(x));
            }
        }
        assert forall|i: int, j2: int|
            #![trigger at[i], at[j2]]
            0 <= i < j2 < at.len() implies chars_lt(at[i], at[j2]) by {
            assert(at[i] == a[i + 1] && at[j2] == a[j2 + 1]);
        }
        assert forall|i: int, j2: int|
            #![trigger bt[i], bt[j2]]
            0 <= i < j2 < bt.len() implies chars_lt(bt[i], bt[j2]) by {
            assert(bt[i] == b[i + 1] && bt[j2] == b[j2 + 1]);
        }
        lemma_sorted_names_equal(at, bt);
        assert(a =~= b) by {
            assert forall|i: int| 0 <= i < a.len() implies a[i] == b[i] by {
                if i > 0 {
                    assert(a[i] == at[i - 1] && b[i] == bt[i - 1]);
                }
            }
        }
    }
}

/// The collapses of two nodes agree.
spec fn node_summary_eq(c1: TreeNode, c2: TreeNode) -> bool {
    match c1 {
        TreeNode::File(f1) => match c2 {
            TreeNode::File(f2) => f1@ == f2@,
            TreeNode::Directory(_) => false,
        },
        TreeNode::Directory(s1) => match c2 {
            TreeNode::File(_) => false,
            TreeNode::Directory(s2) => dir_checksum_v(s1) == dir_checksum_v(s2),
        },
    }
}

/// Pointwise agreeing children produce equal running summaries.
proof fn lemma_summary_upto_eq(d1: DirTree, d2: DirTree, i: int)
    requires
        d1.children.len() == d2.children.len(),
        0 <= i <= d1.children.len(),
        forall|j: int| 0 <= j < i ==> node_summary_eq(#[trigger] d1.children[j], d2.children[j]),
    ensures
        dir_summary_upto(d1, i) == dir_summary_upto(d2, i),
    decreases i,
{
    if i > 0 {
        lemma_summary_upto_eq(d1, d2, i - 1);
    }
}

/// Two well-formed directories holding the same files collapse to the same
/// summary, sizes and counts included.
proof fn lemma_dirs_collapse_eq(d1: DirTree, d2: DirTree, prefix: Seq<Seq<char>>)
    requires
        dir_wf(d1, prefix),
        dir_wf(d2, prefix),
        dir_file_map(d1) == dir_file_map(d2),
    ensures
        dir_summary_upto(d1, d1.children.len() as int) == dir_summary_upto(
            d2,
            d2.children.len() as int,
        ),
        d1.children.len() == d2.children.len(),
    decreases d1, 1int,
{
    let len1 = d1.children.len() as int;
    let len2 = d2.children.len() as int;
    let m = dir_file_map(d1);
    lemma_children_map(d1, len1, prefix);
    lemma_children_map(d2, len2, prefix);
    lemma_children_sorted(d1, len1, prefix);
    lemma_children_sorted(d2, len2, prefix);
    let names1 = Seq::new(len1 as nat, |j: int| node_name(d1.children[j]));
    let names2 = Seq::new(len2 as nat, |j: int| node_name(d2.children[j]));
    assert forall|x: Seq<char>| names1.contains(x) <==> names2.contains(x) by {
        if names1.contains(x) {
            let j = choose|j: int| 0 <= j < len1 && names1[j] == x;
            assert(child_nonempty(d1, j));
            let k = choose|k: Seq<Seq<char>>| node_file_map(d1.children[j]).contains_key(k);
            assert(node_file_map(d1.children[j]).contains_key(k));
            assert(k[prefix.len() as int] == x);
            assert(dir_file_map_upto(d1, len1).contains_key(k));
            assert(dir_file_map_upto(d2, len2).contains_key(k));
            let j2 = choose|j2: int|
                0 <= j2 < len2 && #[trigger] node_file_map(d2.children[j2]).contains_key(k);
            assert(k[prefix.len() as int] == node_name(d2.children[j2]));
            assert(names2[j2] == x);
            assert(names2.contains(x));
        }
        if names2.contains(x) {
            let j = choose|j: int| 0 <= j < len2 && names2[j] == x;
            assert(child_nonempty(d2, j));
            let k = choose|k: Seq<Seq<char>>| node_file_map(d2.children[j]).contains_key(k);
            assert(node_file_map(d2.children[j]).contains_key(k));
            assert(k[prefix.len() as int] == x);
            assert(dir_file_map_upto(d2, len2).contains_key(k));
            assert(dir_file_map_upto(d1, len1).contains_key(k));
            let j2 = choose|j2: int|
                0 <= j2 < len1 && #[trigger] node_file_map(d1.children[j2]).contains_key(k);
            assert(k[prefix.len() as int] == node_name(d1.children[j2]));
            assert(names1[j2] == x);
            assert(names1.contains(x));
        }
    }
    assert forall|i: int, j: int|
        #![trigger names1[i], names1[j]]
        0 <= i < j < names1.len() implies chars_lt(names1[i], names1[j]) by {
        assert(chars_lt(node_name(d1.children[i]), node_name(d1.children[j])));
    }
    assert forall|i: int, j: int|
        #![trigger names2[i], names2[j]]
        0 <= i < j < names2.len() implies chars_lt(names2[i], names2[j]) by {
        assert(chars_lt(node_name(d2.children[i]), node_name(d2.children[j])));
    }
    lemma_sorted_names_equal(names1, names2);
    assert(len1 == len2);
    // Each pair of same-named children holds the same keys of `m`.
    assert forall|j: int| 0 <= j < len1 implies node_summary_eq(
        #[trigger] d1.children[j],
        d2.children[j],
    ) by {
        let name = node_name(d1.children[j]);
        assert(names1[j] == name && names2[j] == name);
        assert(node_name(d2.children[j]) == name);
        let c1 = d1.children[j];
        let c2 = d2.children[j];
        let cpath = prefix.push(name);
        assert(node_wf(c1, cpath));
        assert(node_wf(c2, cpath));
        assert(node_file_map(c1) =~= node_file_map(c2)) by {
            assert forall|k: Seq<Seq<char>>| #[trigger] node_file_map(c1).contains_key(k) implies
                node_file_map(c2).contains_key(k) && node_file_map(c1)[k] == node_file_map(c2)[k] by {
                assert(dir_file_map_upto(d1, len1).contains_key(k));
                assert(dir_file_map_upto(d1, len1)[k] == node_file_map(c1)[k]);
                assert(dir_file_map_upto(d2, len2).contains_key(k));
                let j2 = choose|j2: int|
                    0 <= j2 < len2 && #[trigger] node_file_map(d2.children[j2]).contains_key(k);
                assert(k[prefix.len() as int] == node_name(d2.children[j2]));
                assert(k[prefix.len() as int] == name);
                assert(names2[j2] == names2[j]) by {
                    assert(names2[j2] == node_name(d2.children[j2]));
                }
                assert(j2 == j) by {
                    if j2 < j {
                        assert(chars_lt(names2[j2], names2[j]));
                        lemma_chars_le_total(names2[j2], names2[j]);
                    }
                    if j2 > j {
                        assert(chars_lt(names2[j], names2[j2]));
                        lemma_chars_le_total(names2[j], names2[j2]);
                    }
                }
                assert(dir_file_map_upto(d2, len2)[k] == node_file_map(c2)[k]);
            }
            assert forall|k: Seq<Seq<char>>| #[trigger] node_file_map(c2).contains_key(k) implies
                node_file_map(c1).contains_key(k) by {
                assert(dir_file_map_upto(d2, len2).contains_key(k));
                assert(dir_file_map_upto(d1, len1).contains_key(k));
                let j2 = choose|j2: int|
                    0 <= j2 < len1 && #[trigger] node_file_map(d1.children[j2]).contains_key(k);
                assert(k[prefix.len() as int] == node_name(d1.children[j2]));
                assert(k[prefix.len() as int] == name);
                assert(names1[j2] == names1[j]) by {
                    assert(names1[j2] == node_name(d1.children[j2]));
                }
                assert(j2 == j) by {
                    if j2 < j {
                        assert(chars_lt(names1[j2], names1[j]));
                        lemma_chars_le_total(names1[j2], names1[j]);
                    }
                    if j2 > j {
                        assert(chars_lt(names1[j], names1[j2]));
                        lemma_chars_le_total(names1[j], names1[j2]);
                    }
                }
            }
        }
        lemma_nodes_collapse_eq(c1, c2, cpath);
    }
    lemma_summary_upto_eq(d1, d2, len1);
}

/// Two well-formed nodes at the same path holding the same files collapse
/// alike: equal file records, or equal subdirectory checksums.
proof fn lemma_nodes_collapse_eq(c1: TreeNode, c2: TreeNode, path: Seq<Seq<char>>)
    requires
        node_wf(c1, path),
        node_wf(c2, path),
        node_file_map(c1) == node_file_map(c2),
    ensures
        node_summary_eq(c1, c2),
    decreases c1, 0int,
{
    lemma_node_map_shape(c1, path);
    lemma_node_map_shape(c2, path);
    match c1 {
        TreeNode::File(f1) => {
            match c2 {
                TreeNode::File(f2) => {
                    assert(node_file_map(c1).contains_key(path));
                    assert(node_file_map(c1)[path] == f1@);
                    assert(node_file_map(c2)[path] == f2@);
                },
                TreeNode::Directory(_) => {
                    assert(node_file_map(c1).contains_key(path));
                    assert(node_file_map(c2).contains_key(path));
                    assert(path.len() > path.len());
                },
            }
        },
        TreeNode::Directory(s1) => {
            match c2 {
                TreeNode::File(_) => {
                    assert(node_file_map(c2).contains_key(path));
                    assert(node_file_map(c1).contains_key(path));
                    assert(path.len() > path.len());
                },
                TreeNode::Directory(s2) => {
                    lemma_dirs_collapse_eq(s1, s2, path);
                },
            }
        },
    }
}

impl ChecksumTree {
    /// An empty tree collapses to the compound digest of an empty listing
    /// with zero files and zero bytes.
    pub proof fn lemma_empty_tree_digest(t: &ChecksumTree)
        requires
            t.wf(),
            t@ == Map::<Seq<Seq<char>>, FileChecksumV>::empty(),
        ensures
            t.digest() == compound_digest(
                Seq::<FileChecksumV>::empty(),
                Seq::<DirChecksumV>::empty(),
                0,
                0,
            ),
    {
        let len = t.root.children.len() as int;
        if len > 0 {
            lemma_children_map(t.root, len, Seq::empty());
            assert(child_nonempty(t.root, 0));
            let k = choose|k: Seq<Seq<char>>| node_file_map(t.root.children[0]).contains_key(k);
            assert(node_file_map(t.root.children[0]).contains_key(k));
            assert(dir_file_map_upto(t.root, len).contains_key(k));
        }
        assert(dir_summary_upto(t.root, 0).files =~= Seq::<FileChecksumV>::empty());
        assert(dir_summary_upto(t.root, 0).dirs =~= Seq::<DirChecksumV>::empty());
    }

    /// Canonicity: the digest a tree collapses to is a function of the file
    /// checksums it holds alone.  Any two well-formed trees with the same
    /// content — however their files were discovered or in whatever order
    /// they were inserted — report the same checksum, which also makes every
    /// collapse deterministic.
    pub proof fn lemma_digest_canonical(t1: &ChecksumTree, t2: &ChecksumTree)
        requires
            t1.wf(),
            t2.wf(),
            t1@ == t2@,
        ensures
            t1.digest() == t2.digest(),
            t1.total_file_count() == t2.total_file_count(),
            t1.total_size() == t2.total_size(),
    {
        lemma_dirs_collapse_eq(t1.root, t2.root, Seq::empty());
    }
}

/// One path standing strictly inside another.
pub open spec fn proper_prefix_of(shorter: Seq<Seq<char>>, longer: Seq<Seq<char>>) -> bool {
    shorter.len() < longer.len() && longer.take(shorter.len() as int) == shorter
}

/// No two checksums of the run share a path or nest one path inside the
/// other: the order-free account of insertability.
pub open spec fn conflict_free(xs: Seq<FileChecksumV>) -> bool {
    forall|i: int, j: int|
        #![trigger xs[i], xs[j]]
        0 <= i < xs.len() && 0 <= j < xs.len() && i != j ==> xs[i].relpath != xs[j].relpath
            && !proper_prefix_of(xs[j].relpath, xs[i].relpath)
}

/// The inserted map holds exactly the run's paths; under conflict freedom
/// each maps to its own record.
proof fn lemma_map_after_contains(xs: Seq<FileChecksumV>)
    ensures
        forall|k: Seq<Seq<char>>|
            #[trigger] map_after(xs).contains_key(k) <==> exists|i: int|
                0 <= i < xs.len() && (#[trigger] xs[i]).relpath == k,
        conflict_free(xs) ==> forall|i: int|
            0 <= i < xs.len() ==> map_after(xs)[(#[trigger] xs[i]).relpath] == xs[i],
    decreases xs.len(),
{
    if xs.len() > 0 {
        lemma_map_after_contains(xs.drop_last());
        assert forall|k: Seq<Seq<char>>| #[trigger] map_after(xs).contains_key(k) implies exists|
            i: int,
        |
            0 <= i < xs.len() && (#[trigger] xs[i]).relpath == k by {
            if k == xs.last().relpath {
                assert(xs[xs.len() - 1].relpath == k);
            } else {
                assert(map_after(xs.drop_last()).contains_key(k));
                let i = choose|i: int|
                    0 <= i < xs.drop_last().len() && (#[trigger] xs.drop_last()[i]).relpath == k;
                assert(xs.drop_last()[i] == xs[i]);
                assert(xs[i].relpath == k);
            }
        }
        assert forall|i: int| 0 <= i < xs.len() implies map_after(xs).contains_key(
            (#[trigger] xs[i]).relpath,
        ) by {
            if i < xs.len() - 1 {
                assert(xs.drop_last()[i] == xs[i]);
                assert(map_after(xs.drop_last()).contains_key(xs[i].relpath));
            }
        }
        if conflict_free(xs) {
            assert(conflict_free(xs.drop_last())) by {
                assert forall|i: int, j: int|
                    #![trigger xs.drop_last()[i], xs.drop_last()[j]]
                    0 <= i < xs.drop_last().len() && 0 <= j < xs.drop_last().len() && i
                        != j implies xs.drop_last()[i].relpath != xs.drop_last()[j].relpath
                    && !proper_prefix_of(xs.drop_last()[j].relpath, xs.drop_last()[i].relpath) by {
                    assert(xs.drop_last()[i] == xs[i] && xs.drop_last()[j] == xs[j]);
                }
            }
            assert forall|i: int| 0 <= i < xs.len() implies map_after(xs)[(#[trigger] xs[i]).relpath]
                == xs[i] by {
                if i < xs.len() - 1 {
                    assert(xs.drop_last()[i] == xs[i]);
                    assert(xs[i].relpath != xs.last().relpath) by {
                        assert(xs[xs.len() - 1] == xs.last());
                    }
                    assert(map_after(xs.drop_last())[xs[i].relpath] == xs[i]);
                }
            }
        }
    }
}

/// Insertability in order is exactly conflict freedom, for runs of nonempty
/// paths.
pub proof fn lemma_adds_ok_is_conflict_free(xs: Seq<FileChecksumV>)
    requires
        forall|i: int| 0 <= i < xs.len() ==> (#[trigger] xs[i]).relpath.len() > 0,
    ensures
        adds_ok(xs) <==> conflict_free(xs),
    decreases xs.len(),
{
    if xs.len() == 0 {
    } else {
        let rest = xs.drop_last();
        let x = xs.last();
        let m = map_after(rest);
        lemma_adds_ok_is_conflict_free(rest);
        lemma_map_after_contains(rest);
        if adds_ok(xs) {
            assert(conflict_free(rest));
            assert forall|i: int, j: int|
                #![trigger xs[i], xs[j]]
                0 <= i < xs.len() && 0 <= j < xs.len() && i != j implies xs[i].relpath
                != xs[j].relpath && !proper_prefix_of(xs[j].relpath, xs[i].relpath) by {
                if i < xs.len() - 1 && j < xs.len() - 1 {
                    assert(rest[i] == xs[i] && rest[j] == xs[j]);
                } else if j == xs.len() - 1 {
                    // An earlier path equal to or inside the last one would
                    // have conflicted on insertion.
                    assert(rest[i] == xs[i] && xs[j] == x);
                    assert(!m.contains_key(x.relpath));
                    assert(m.contains_key(rest[i].relpath));
                    if proper_prefix_of(x.relpath, xs[i].relpath) {
                        assert(m.contains_key(xs[i].relpath));
                        assert(occupied(m, x.relpath));
                    }
                } else {
                    assert(rest[j] == xs[j] && xs[i] == x);
                    assert(m.contains_key(rest[j].relpath));
                    if proper_prefix_of(xs[j].relpath, x.relpath) {
                        assert(x.relpath.take(xs[j].relpath.len() as int) == xs[j].relpath);
                        assert(1 <= xs[j].relpath.len() < x.relpath.len());
                        assert(prefix_conflict(m, x.relpath, 0)) by {
                            assert(m.contains_key(x.relpath.take(xs[j].relpath.len() as int)));
                        }
                    }
                }
            }
        }
        if conflict_free(xs) {
            assert(conflict_free(rest)) by {
                assert forall|i: int, j: int|
                    #![trigger rest[i], rest[j]]
                    0 <= i < rest.len() && 0 <= j < rest.len() && i != j implies rest[i].relpath
                    != rest[j].relpath && !proper_prefix_of(rest[j].relpath, rest[i].relpath) by {
                    assert(rest[i] == xs[i] && rest[j] == xs[j]);
                }
            }
            assert(adds_ok(rest));
            assert(!prefix_conflict(m, x.relpath, 0)) by {
                if prefix_conflict(m, x.relpath, 0) {
                    let i = choose|i: int|
                        0 < i < x.relpath.len() && m.contains_key(#[trigger] x.relpath.take(i));
                    let j = choose|j: int|
                        0 <= j < rest.len() && (#[trigger] rest[j]).relpath == x.relpath.take(i);
                    assert(xs[j] == rest[j]);
                    assert(proper_prefix_of(xs[j].relpath, xs[xs.len() - 1].relpath)) by {
                        assert(xs[xs.len() - 1] == x);
                    }
                }
            }
            assert(!occupied(m, x.relpath)) by {
                if m.contains_key(x.relpath) {
                    let j = choose|j: int|
                        0 <= j < rest.len() && (#[trigger] rest[j]).relpath == x.relpath;
                    assert(xs[j] == rest[j] && xs[xs.len() - 1] == x);
                }
                if exists|q: Seq<Seq<char>>|
                    #[trigger] m.contains_key(q) && x.relpath.len() < q.len() && q.take(
                        x.relpath.len() as int,
                    ) == x.relpath {
                    let q = choose|q: Seq<Seq<char>>|
                        #[trigger] m.contains_key(q) && x.relpath.len() < q.len() && q.take(
                            x.relpath.len() as int,
                        ) == x.relpath;
                    let j = choose|j: int|
                        0 <= j < rest.len() && (#[trigger] rest[j]).relpath == q;
                    assert(xs[j] == rest[j] && xs[xs.len() - 1] == x);
                    assert(proper_prefix_of(xs[xs.len() - 1].relpath, xs[j].relpath));
                }
            }
        }
    }
}

/// A value occurring at two positions occurs at least twice in the multiset,
/// and the other way round.
proof fn lemma_count_two(s: Seq<FileChecksumV>, v: FileChecksumV)
    ensures
        (exists|i: int, j: int|
            #![trigger s[i], s[j]]
            0 <= i < j < s.len() && s[i] == v && s[j] == v) <==> s.to_multiset().count(v) >= 2,
    decreases s.len(),
{
    broadcast use vstd::seq_lib::group_to_multiset_ensures;

    if s.len() == 0 {
        assert(s.to_multiset().count(v) == 0) by {
            assert(!s.contains(v));
        }
    } else {
        lemma_count_two(s.drop_last(), v);
        assert(s.drop_last().push(s.last()) =~= s);
        assert(s.to_multiset() == s.drop_last().to_multiset().insert(s.last()));
        if s.last() == v {
            if s.to_multiset().count(v) >= 2 {
                assert(s.drop_last().to_multiset().count(v) >= 1);
                assert(s.drop_last().contains(v));
                let i = choose|i: int| 0 <= i < s.drop_last().len() && s.drop_last()[i] == v;
                assert(s[i] == v && s[s.len() - 1] == v);
            }
            if exists|i: int, j: int|
                #![trigger s[i], s[j]]
                0 <= i < j < s.len() && s[i] == v && s[j] == v {
                let (i, j): (int, int) = choose|i: int, j: int|
                    #![trigger s[i], s[j]]
                    0 <= i < j < s.len() && s[i] == v && s[j] == v;
                assert(s.drop_last()[i] == v);
                assert(s.drop_last().contains(v));
                assert(s.drop_last().to_multiset().count(v) >= 1);
            }
        } else {
            assert(s.to_multiset().count(v) == s.drop_last().to_multiset().count(v));
            if exists|i: int, j: int|
                #![trigger s[i], s[j]]
                0 <= i < j < s.len() && s[i] == v && s[j] == v {
                let (i, j): (int, int) = choose|i: int, j: int|
                    #![trigger s[i], s[j]]
                    0 <= i < j < s.len() && s[i] == v && s[j] == v;
                assert(j < s.len() - 1);
                assert(s.drop_last()[i] == v && s.drop_last()[j] == v);
            }
            if s.to_multiset().count(v) >= 2 {
                let (i, j): (int, int) = choose|i: int, j: int|
                    #![trigger s.drop_last()[i], s.drop_last()[j]]
                    0 <= i < j < s.drop_last().len() && s.drop_last()[i] == v && s.drop_last()[j]
                        == v;
                assert(s[i] == v && s[j] == v);
            }
        }
    }
}

/// Incremental consistency: a conflict-free run may be reordered freely —
/// every permutation is still insertable and yields the same map, hence (by
/// [`ChecksumTree::lemma_digest_canonical`]) the same checksum.
pub proof fn lemma_insertion_order_irrelevant(xs: Seq<FileChecksumV>, ys: Seq<FileChecksumV>)
    requires
        adds_ok(xs),
        forall|i: int| 0 <= i < xs.len() ==> (#[trigger] xs[i]).relpath.len() > 0,
        xs.to_multiset() == ys.to_multiset(),
    ensures
        adds_ok(ys),
        map_after(xs) == map_after(ys),
{
    broadcast use vstd::seq_lib::group_to_multiset_ensures;

    assert forall|i: int| 0 <= i < ys.len() implies (#[trigger] ys[i]).relpath.len() > 0 by {
        assert(ys.contains(ys[i]));
        assert(xs.to_multiset().count(ys[i]) > 0);
        assert(xs.contains(ys[i]));
        let j = choose|j: int| 0 <= j < xs.len() && xs[j] == ys[i];
        assert(xs[j].relpath.len() > 0);
    }
    lemma_adds_ok_is_conflict_free(xs);
    lemma_adds_ok_is_conflict_free(ys);
    assert(conflict_free(ys)) by {
        assert forall|i: int, j: int|
            #![trigger ys[i], ys[j]]
            0 <= i < ys.len() && 0 <= j < ys.len() && i != j implies ys[i].relpath != ys[j].relpath
            && !proper_prefix_of(ys[j].relpath, ys[i].relpath) by {
            if ys[i] == ys[j] {
                let (a, b): (int, int) = if i < j {
                    (i, j)
                } else {
                    (j, i)
                };
                assert(ys[a] == ys[i] && ys[b] == ys[i]);
                lemma_count_two(ys, ys[i]);
                assert(ys.to_multiset().count(ys[i]) >= 2);
                lemma_count_two(xs, ys[i]);
                let (a2, b2): (int, int) = choose|a2: int, b2: int|
                    #![trigger xs[a2], xs[b2]]
                    0 <= a2 < b2 < xs.len() && xs[a2] == ys[i] && xs[b2] == ys[i];
                assert(xs[a2].relpath != xs[b2].relpath);
            } else {
                assert(ys.contains(ys[i]) && ys.contains(ys[j]));
                assert(xs.to_multiset().count(ys[i]) > 0 && xs.to_multiset().count(ys[j]) > 0);
                assert(xs.contains(ys[i]) && xs.contains(ys[j]));
                let a = choose|a: int| 0 <= a < xs.len() && xs[a] == ys[i];
                let b = choose|b: int| 0 <= b < xs.len() && xs[b] == ys[j];
                assert(a != b);
                assert(xs[a].relpath != xs[b].relpath && !proper_prefix_of(
                    xs[b].relpath,
                    xs[a].relpath,
                ));
            }
        }
    }
    lemma_map_after_contains(xs);
    lemma_map_after_contains(ys);
    assert(map_after(xs) =~= map_after(ys)) by {
        assert forall|k: Seq<Seq<char>>| #[trigger] map_after(xs).contains_key(k) implies
            map_after(ys).contains_key(k) && map_after(xs)[k] == map_after(ys)[k] by {
            let i = choose|i: int| 0 <= i < xs.len() && (#[trigger] xs[i]).relpath == k;
            assert(xs.contains(xs[i]));
            assert(ys.to_multiset().count(xs[i]) > 0);
            assert(ys.contains(xs[i]));
            let j = choose|j: int| 0 <= j < ys.len() && ys[j] == xs[i];
            assert(ys[j].relpath == k);
            assert(map_after(xs)[k] == xs[i]);
            assert(map_after(ys)[ys[j].relpath] == ys[j]);
        }
        assert forall|k: Seq<Seq<char>>| #[trigger] map_after(ys).contains_key(k) implies
            map_after(xs).contains_key(k) by {
            let i = choose|i: int| 0 <= i < ys.len() && (#[trigger] ys[i]).relpath == k;
            assert(ys.contains(ys[i]));
            assert(xs.to_multiset().count(ys[i]) > 0);
            assert(xs.contains(ys[i]));
            let j = choose|j: int| 0 <= j < xs.len() && xs[j] == ys[i];
            assert(xs[j].relpath == k);
        }
    }
}

/// One line of the tree drawing for a leaf or a directory, and the block of
/// lines below a directory: children ascend by name, with the conventional
/// box-drawing connectors.
pub(crate) open spec fn node_block(n: TreeNode, indent: Seq<char>, last: bool) -> Seq<char>
    decreases n, 1int,
{
    let connector = if last {
        "\u{2514}\u{2500}\u{2500} "@
    } else {
        "\u{251c}\u{2500}\u{2500} "@
    };
    let continuation = if last {
        "    "@
    } else {
        "\u{2502}   "@
    };
    match n {
        TreeNode::File(f) => indent + connector + f@.relpath.last() + " = "@ + f@.checksum
            + "\n"@,
        TreeNode::Directory(sub) => indent + connector + sub.relpath@.last() + "/ = "@
            + dir_checksum_v(sub).checksum + "\n"@ + children_blocks(
            sub,
            sub.children.len() as int,
            indent + continuation,
        ),
    }
}

/// The drawing of the first `i` children of `d`.
pub(crate) open spec fn children_blocks(d: DirTree, i: int, indent: Seq<char>) -> Seq<char>
    decreases d, i, 0int,
{
    if 0 < i <= d.children.len() {
        children_blocks(d, i - 1, indent) + node_block(
            d.children[i - 1],
            indent,
            i == d.children.len(),
        )
    } else {
        Seq::empty()
    }
}

/// Append the drawing of the children of `d`.
#[verifier::rlimit(100)]
fn draw_children(d: &DirTree, indent: &str, out: &mut String, Ghost(prefix): Ghost<Seq<Seq<char>>>)
    requires
        dir_wf(*d, prefix),
    ensures
        final(out)@ == old(out)@ + children_blocks(*d, d.children.len() as int, indent@),
    decreases *d,
{
    let n = d.children.len();
    let mut i: usize = 0;
    proof {
        assert(children_blocks(*d, 0, indent@) =~= Seq::<char>::empty());
        assert(out@ =~= old(out)@ + children_blocks(*d, 0, indent@));
    }
    while i < n
        invariant
            n == d.children@.len(),
            i <= n,
            dir_wf(*d, prefix),
            out@ == old(out)@ + children_blocks(*d, i as int, indent@),
        decreases n - i,
    {
        let last = i == n - 1;
        let ghost before = out@;
        proof {
            lemma_children_sorted(*d, n as int, prefix);
            assert(node_wf(
                d.children@[i as int],
                prefix.push(node_name(d.children@[i as int])),
            ));
        }
        out.append(indent);
        if last {
            out.append("\u{2514}\u{2500}\u{2500} ");
        } else {
            out.append("\u{251c}\u{2500}\u{2500} ");
        }
        let child = &d.children[i];
        match child {
            TreeNode::File(f) => {
                proof {
                    assert(d.children@[i as int] == TreeNode::File(*f));
                }
                out.append(f.relpath.file_name());
                out.append(" = ");
                out.append(f.checksum.as_str());
                out.append("\n");
                proof {
                    assert(out@ =~= before + node_block(d.children@[i as int], indent@, last));
                }
            },
            TreeNode::Directory(sub) => {
                proof {
                    assert(d.children@[i as int] == TreeNode::Directory(*sub));
                }
                let dc = dir_to_checksum(sub, Ghost(sub.relpath@));
                out.append(sub.relpath.file_name());
                out.append("/ = ");
                out.append(dc.checksum.as_str());
                out.append("\n");
                let mut deeper = String::new();
                deeper.append(indent);
                if last {
                    deeper.append("    ");
                } else {
                    deeper.append("\u{2502}   ");
                }
                draw_children(sub, deeper.as_str(), out, Ghost(sub.relpath@));
                proof {
                    assert(out@ =~= before + node_block(d.children@[i as int], indent@, last));
                }
            },
        }
        proof {
            assert(children_blocks(*d, i as int + 1, indent@) == children_blocks(
                *d,
                i as int,
                indent@,
            ) + node_block(d.children@[i as int], indent@, last));
            assert(out@ =~= old(out)@ + children_blocks(*d, i as int + 1, indent@));
        }
        i = i + 1;
    }
}

impl ChecksumTree {
    /// The full text of the tree drawing: the root's compound digest, then
    /// one line per node with box-drawing connectors, children ascending by
    /// name, directories suffixed with `/` and their compound digests, files
    /// with their bare MD5s.
    pub closed spec fn drawing(&self) -> Seq<char> {
        dir_checksum_v(self.root).checksum + "\n"@ + children_blocks(
            self.root,
            self.root.children.len() as int,
            Seq::empty(),
        )
    }

    /// Render the tree as text, one node per line.
    pub fn draw(&self) -> (r: String)
        requires
            self.wf(),
        ensures
            r@ == self.drawing(),
    {
        let dc = dir_to_checksum(&self.root, Ghost(Seq::empty()));
        let mut out = String::new();
        out.append(dc.checksum.as_str());
        out.append("\n");
        let ghost mid = out@;
        draw_children(&self.root, "", &mut out, Ghost(Seq::empty()));
        proof {
            reveal_strlit("");
            assert(""@ =~= Seq::<char>::empty());
            assert(out@ =~= self.drawing());
        }
        out
    }
}

/// A failing insertion after a sound prefix makes the whole run unsound.
proof fn lemma_adds_ok_prefix_fails(xs: Seq<FileChecksumV>, i: int)
    requires
        0 <= i < xs.len(),
        add_fails(map_after(xs.take(i)), xs[i]),
    ensures
        !adds_ok(xs),
    decreases xs.len(),
{
    if xs.len() == i + 1 {
        assert(xs.drop_last() =~= xs.take(i));
        assert(xs.last() == xs[i]);
    } else {
        assert(xs.drop_last().take(i) =~= xs.take(i));
        assert(xs.drop_last()[i] == xs[i]);
        lemma_adds_ok_prefix_fails(xs.drop_last(), i);
    }
}

} // verus!
