//! The canonical JSON listing over plain name-to-digest tables: the same
//! serialization as the checksum pipeline, taking each entry's digest string
//! as given and omitting nothing.
use crate::checksum::json::{
    collection_json, entry_leq, entry_views, sort_entries, EntryV, JSONEntry, JSONEntryCollection,
};
use vstd::prelude::*;

verus! {

/// A digest as an opaque string plus the size and file count it covers.
#[derive(Debug, PartialEq, Eq, Hash)]
pub struct ZarrDigest {
    pub digest: String,
    pub size: u64,
    pub file_count: u64,
}

/// The JSON record of a named digest.
pub open spec fn named_entry(name: Seq<char>, digest: Seq<char>, size: u64) -> EntryV {
    EntryV { name, digest, size }
}

/// The JSON records of a run of named digests, in order.
pub open spec fn named_entries(s: Seq<(String, ZarrDigest)>) -> Seq<EntryV>
    decreases s.len(),
{
    if s.len() == 0 {
        Seq::empty()
    } else {
        named_entries(s.drop_last()).push(
            named_entry(s.last().0@, s.last().1.digest@, s.last().1.size),
        )
    }
}

/// Render the canonical JSON listing for the given named digests: both runs
/// sorted ascending by `(name, digest, size)`, fixed key order, no
/// whitespace, nothing omitted.
pub fn get_checksum_json(
    files: &Vec<(String, ZarrDigest)>,
    directories: &Vec<(String, ZarrDigest)>,
) -> (r: String)
    ensures
        r@ == collection_json(
            named_entries(directories@).sort_by(entry_leq()),
            named_entries(files@).sort_by(entry_leq()),
        ),
{
    let fentries = pair_entries(files);
    let dentries = pair_entries(directories);
    let collection = JSONEntryCollection {
        directories: sort_entries(dentries),
        files: sort_entries(fentries),
    };
    let mut buf = String::new();
    collection.write_json(&mut buf);
    proof {
        assert(buf@ =~= collection_json(
            named_entries(directories@).sort_by(entry_leq()),
            named_entries(files@).sort_by(entry_leq()),
        ));
    }
    buf
}

/// Turn named digests into JSON entries, in order.
fn pair_entries(pairs: &Vec<(String, ZarrDigest)>) -> (r: Vec<JSONEntry>)
    ensures
        entry_views(r@) == named_entries(pairs@),
{
    let mut out: Vec<JSONEntry> = Vec::new();
    let mut i: usize = 0;
    proof {
        assert(named_entries(pairs@.take(0)) =~= Seq::<EntryV>::empty());
        assert(entry_views(out@) =~= named_entries(pairs@.take(0)));
    }
    while i < pairs.len()
        invariant
            i <= pairs@.len(),
            entry_views(out@) == named_entries(pairs@.take(i as int)),
        decreases pairs@.len() - i,
    {
        let pair = &pairs[i];
        let ghost before = entry_views(out@);
        let e = JSONEntry { digest: pair.1.digest.clone(), name: pair.0.clone(), size: pair.1.size };
        proof {
            assert(e@ == named_entry(pairs@[i as int].0@, pairs@[i as int].1.digest@, pairs@[i as int].1.size));
        }
        out.push(e);
        proof {
            assert(entry_views(out@) =~= before.push(e@));
            let t = pairs@.take(i as int + 1);
            assert(t.drop_last() =~= pairs@.take(i as int));
            assert(t.last() == pairs@[i as int]);
        }
        i = i + 1;
    }
    proof {
        assert(pairs@.take(pairs@.len() as int) =~= pairs@);
    }
    out
}

} // verus!
