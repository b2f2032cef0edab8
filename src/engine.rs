use vstd::prelude::*;
use crate::digest::{content_digest, sha256_of};
use crate::entry::{Event, FileEntry, Resolution};
use crate::size_index::{hash_candidates, shares_size};
use crate::table::{run, DigestTable};

verus! {

/// The (entry, digest) pairs that resolution sees when the files at the
/// positions `order` are hashed in that order.
pub open spec fn hashed(files: Seq<FileEntry>, contents: Seq<Vec<u8>>, order: Seq<usize>) -> Seq<(FileEntry, Seq<u8>)> {
    Seq::new(order.len(), |m: int| (files[order[m] as int], sha256_of(contents[order[m] as int]@)))
}

/// The byte length of each file.
pub open spec fn sizes_of(files: Seq<FileEntry>) -> Seq<u64> {
    files.map_values(|f: FileEntry| f.size)
}

/// Digest of a file's content, unless the content's length no longer matches
/// the size under which the file was bucketed: that race is reported.
pub fn check_content(entry: &FileEntry, content: &[u8]) -> (r: Result<Vec<u8>, Event>)
    ensures
        content@.len() == entry.size ==> r == Ok::<Vec<u8>, Event>(r->Ok_0) && r->Ok_0@ == sha256_of(content@),
        content@.len() != entry.size ==> r == Err::<Vec<u8>, Event>(Event::RaceAnomaly { path: entry.path }),
{
    if content.len() as u64 != entry.size {
        return Err(Event::RaceAnomaly { path: entry.path.clone() });
    }
    Ok(content_digest(content))
}

/// The event reporting a removal: `failure` holds the reason it failed, if
/// it did.
pub fn deletion_event(path: String, failure: Option<String>) -> (r: Event)
    ensures
        failure.is_none() ==> r == (Event::Deleted { path }),
        failure.is_some() ==> r == (Event::DeleteFailed { path, reason: failure->Some_0 }),
{
    match failure {
        None => Event::Deleted { path },
        Some(reason) => Event::DeleteFailed { path, reason },
    }
}

/// One whole run on files already read: buckets by size, hashes the files
/// whose size another file shares, in bucket order, and resolves them
/// against a fresh table. Returns the positions hashed and the resolutions.
pub fn deduplicate(files: &Vec<FileEntry>, contents: &Vec<Vec<u8>>) -> (r: (Vec<usize>, Vec<Resolution>))
    requires
        contents@.len() == files@.len(),
    ensures
        r.0@.no_duplicates(),
        forall|k: int| 0 <= k < r.0@.len() ==> r.0@[k] < files@.len(),
        forall|i: int| 0 <= i < files@.len() ==> (#[trigger] r.0@.contains(i as usize) <==> shares_size(sizes_of(files@), i)),
        r.1@ == run(hashed(files@, contents@, r.0@)).1,
{
    let mut sizes: Vec<u64> = Vec::new();
    let mut i: usize = 0;
    while i < files.len()
        invariant
            0 <= i <= files@.len(),
            sizes@ == files@.subrange(0, i as int).map_values(|f: FileEntry| f.size),
        decreases files@.len() - i,
    {
        sizes.push(files[i].size);
        proof {
            assert(sizes@ =~= files@.subrange(0, i as int + 1).map_values(|f: FileEntry| f.size));
        }
        i = i + 1;
    }
    proof {
        assert(files@.subrange(0, i as int) =~= files@);
    }
    let order = hash_candidates(&sizes);
    let mut table = DigestTable::new();
    let mut out: Vec<Resolution> = Vec::new();
    let mut m: usize = 0;
    while m < order.len()
        invariant
            0 <= m <= order@.len(),
            contents@.len() == files@.len(),
            forall|k: int| 0 <= k < order@.len() ==> order@[k] < files@.len(),
            table.wf(),
            (table@, out@) == run(hashed(files@, contents@, order@.subrange(0, m as int))),
        decreases order@.len() - m,
    {
        let c = order[m];
        let digest = content_digest(contents[c].as_slice());
        let res = table.resolve(files[c].copied(), digest);
        out.push(res);
        proof {
            let pre = hashed(files@, contents@, order@.subrange(0, m as int + 1));
            assert(pre.drop_last() =~= hashed(files@, contents@, order@.subrange(0, m as int)));
        }
        m = m + 1;
    }
    proof {
        assert(order@.subrange(0, m as int) =~= order@);
    }
    (order, out)
}

} // verus!
