//! What the git plumbing hands back, read into values: the top of the
//! working tree, and the blobs listed in a commit's tree.

use vstd::prelude::*;
use crate::text::{
    chars_eq, chars_of, split_chars, split_on, split_once, split_once_chars, string_of, trim,
    trim_chars,
};

verus! {

/// The top of the working tree, from what `git rev-parse --show-toplevel`
/// printed: the output without surrounding white space.
pub fn repo_root(toplevel_output: &str) -> (root: String)
    ensures
        root@ == trim(toplevel_output@),
{
    let cs = chars_of(toplevel_output);
    let t = trim_chars(cs.as_slice());
    string_of(t.as_slice())
}

/// A blob in a commit's tree.
pub struct TreeEntry {
    pub oid: String,
    pub path: String,
}

pub open spec fn lit_blob() -> Seq<char> {
    seq!['b', 'l', 'o', 'b']
}

/// The (object id, path) a record `<mode> <type> <oid>\t<path>` of
/// `git ls-tree -r -z` lists, when it is a blob.
pub open spec fn tree_entry_of(record: Seq<char>) -> Option<(Seq<char>, Seq<char>)> {
    if record.len() == 0 {
        None
    } else {
        match split_once(record, '\t') {
            None => None,
            Some((meta, path)) => {
                let parts = split_on(meta, ' ');
                let typ = if parts.len() > 1 {
                    parts[1]
                } else {
                    Seq::<char>::empty()
                };
                let oid = if parts.len() > 2 {
                    parts[2]
                } else {
                    Seq::<char>::empty()
                };
                if typ == lit_blob() {
                    Some((oid, path))
                } else {
                    None
                }
            },
        }
    }
}

/// The blobs listed by the records, in order.
pub open spec fn tree_entries(records: Seq<Seq<char>>) -> Seq<(Seq<char>, Seq<char>)>
    decreases records.len(),
{
    if records.len() == 0 {
        Seq::empty()
    } else {
        let rest = tree_entries(records.drop_last());
        match tree_entry_of(records.last()) {
            Some(e) => rest.push(e),
            None => rest,
        }
    }
}

fn entry_of(record: &Vec<char>) -> (r: Option<TreeEntry>)
    ensures
        match r {
            Some(e) => tree_entry_of(record@) == Some((e.oid@, e.path@)),
            None => tree_entry_of(record@) is None,
        },
{
    if record.len() == 0 {
        return None;
    }
    match split_once_chars(record.as_slice(), '\t') {
        None => None,
        Some((meta, path)) => {
            let parts = split_chars(meta.as_slice(), ' ');
            let empty: Vec<char> = Vec::new();
            let typ = if parts.len() > 1 {
                &parts[1]
            } else {
                &empty
            };
            let oid = if parts.len() > 2 {
                &parts[2]
            } else {
                &empty
            };
            let blob: Vec<char> = vec!['b', 'l', 'o', 'b'];
            assert(blob@ =~= lit_blob());
            assert(empty@ =~= Seq::<char>::empty());
            if chars_eq(typ.as_slice(), blob.as_slice()) {
                Some(TreeEntry { oid: string_of(oid.as_slice()), path: string_of(path.as_slice()) })
            } else {
                None
            }
        },
    }
}

/// Every blob in a commit's tree, from the NUL-separated output of
/// `git ls-tree -r -z`: records that are not blobs, or have no tab, are
/// skipped.
pub fn ls_tree(listing: &str) -> (entries: Vec<TreeEntry>)
    ensures
        entries@.len() == tree_entries(split_on(listing@, '\0')).len(),
        forall|i: int|
            0 <= i < entries@.len() ==> ((#[trigger] entries@[i]).oid@, entries@[i].path@)
                == tree_entries(split_on(listing@, '\0'))[i],
{
    let cs = chars_of(listing);
    let records = split_chars(cs.as_slice(), '\0');
    let ghost recs = split_on(listing@, '\0');
    let mut entries: Vec<TreeEntry> = Vec::new();
    let mut i: usize = 0;
    while i < records.len()
        invariant
            i <= records@.len() == recs.len(),
            recs == split_on(listing@, '\0'),
            forall|j: int| 0 <= j < records@.len() ==> #[trigger] records@[j]@ == recs[j],
            entries@.len() == tree_entries(recs.subrange(0, i as int)).len(),
            forall|j: int|
                0 <= j < entries@.len() ==> ((#[trigger] entries@[j]).oid@, entries@[j].path@)
                    == tree_entries(recs.subrange(0, i as int))[j],
        decreases records@.len() - i,
    {
        let ghost pre = recs.subrange(0, i as int);
        let ghost nxt = recs.subrange(0, i + 1);
        proof {
            assert(nxt.drop_last() =~= pre);
            assert(nxt.last() == records@[i as int]@);
        }
        let ghost before = entries@;
        match entry_of(&records[i]) {
            Some(e) => {
                entries.push(e);
                proof {
                    assert forall|j: int| 0 <= j < entries@.len() implies ((
                    #[trigger] entries@[j]).oid@, entries@[j].path@) == tree_entries(nxt)[j] by {
                        if j < before.len() {
                            assert(entries@[j] == before[j]);
                        }
                    }
                }
            },
            None => {},
        }
        i = i + 1;
    }
    assert(recs.subrange(0, recs.len() as int) =~= recs);
    entries
}

} // verus!
