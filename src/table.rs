use vstd::prelude::*;
use crate::entry::{FileEntry, Resolution};

verus! {

/// One step of resolution: what the table becomes and what is reported when
/// `e`, whose content has digest `d`, is resolved against table `t`.
///
/// A later-or-equal discovery time loses to the tabled entry (on equal times
/// the entry seen first is kept); a strictly earlier one replaces it.
pub open spec fn step(t: Map<Seq<u8>, FileEntry>, e: FileEntry, d: Seq<u8>) -> (Map<Seq<u8>, FileEntry>, Resolution) {
    if !t.contains_key(d) {
        (t.insert(d, e), Resolution::Keep)
    } else if e.discovered_at >= t[d].discovered_at {
        (t, Resolution::Delete { kept: t[d].path, removed: e.path })
    } else {
        (t.insert(d, e), Resolution::Delete { kept: e.path, removed: t[d].path })
    }
}

/// Resolving each (entry, digest) pair in order, from an empty table.
pub open spec fn run(items: Seq<(FileEntry, Seq<u8>)>) -> (Map<Seq<u8>, FileEntry>, Seq<Resolution>)
    decreases items.len(),
{
    if items.len() == 0 {
        (Map::empty(), Seq::empty())
    } else {
        let prev = run(items.drop_last());
        let s = step(prev.0, items.last().0, items.last().1);
        (s.0, prev.1.push(s.1))
    }
}

/// One cell of the table: a digest and the copy kept for it.
pub struct Slot {
    pub digest: Vec<u8>,
    pub entry: FileEntry,
}

/// Maps each content digest to the single entry currently kept for it.
pub struct DigestTable {
    slots: Vec<Slot>,
    contents: Ghost<Map<Seq<u8>, FileEntry>>,
}

impl View for DigestTable {
    type V = Map<Seq<u8>, FileEntry>;

    closed spec fn view(&self) -> Map<Seq<u8>, FileEntry> {
        self.contents@
    }
}

/// Whether two byte vectors hold the same bytes.
fn same_bytes(a: &Vec<u8>, b: &Vec<u8>) -> (r: bool)
    ensures
        r == (a@ == b@),
{
    if a.len() != b.len() {
        return false;
    }
    let mut i: usize = 0;
    while i < a.len()
        invariant
            a@.len() == b@.len(),
            0 <= i <= a@.len(),
            forall|k: int| 0 <= k < i ==> a@[k] == b@[k],
        decreases a@.len() - i,
    {
        if a[i] != b[i] {
            return false;
        }
        i = i + 1;
    }
    assert(a@ =~= b@);
    true
}

impl DigestTable {
    /// The slots hold distinct digests and exactly the table's contents.
    pub closed spec fn wf(&self) -> bool {
        &&& forall|i: int, j: int|
            0 <= i < j < self.slots@.len() ==> self.slots@[i].digest@ != self.slots@[j].digest@
        &&& forall|i: int|
            0 <= i < self.slots@.len() ==> #[trigger] self.contents@.contains_key(self.slots@[i].digest@)
                && self.contents@[self.slots@[i].digest@] == self.slots@[i].entry
        &&& forall|d: Seq<u8>|
            #[trigger] self.contents@.contains_key(d) ==> exists|i: int|
                0 <= i < self.slots@.len() && self.slots@[i].digest@ == d
    }

    pub fn new() -> (r: DigestTable)
        ensures
            r.wf(),
            r@ == Map::<Seq<u8>, FileEntry>::empty(),
    {
        DigestTable { slots: Vec::new(), contents: Ghost(Map::empty()) }
    }

    /// Number of distinct digests in the table.
    pub fn len(&self) -> (r: usize)
        requires
            self.wf(),
        ensures
            r == self@.dom().len(),
    {
        proof {
            self.lemma_dom_len();
        }
        self.slots.len()
    }

    proof fn lemma_dom_len(&self)
        requires
            self.wf(),
        ensures
            self@.dom().len() == self.slots@.len(),
    {
        let ds = self.slots@.map_values(|s: Slot| s.digest@);
        assert forall|d: Seq<u8>| self@.dom().contains(d) <==> ds.to_set().contains(d) by {
            if self@.dom().contains(d) {
                let i = choose|i: int| 0 <= i < self.slots@.len() && self.slots@[i].digest@ == d;
                assert(ds[i] == d);
            }
            if ds.to_set().contains(d) {
                let i = choose|i: int| 0 <= i < ds.len() && ds[i] == d;
                assert(self.contents@.contains_key(self.slots@[i].digest@));
            }
        }
        assert(self@.dom() =~= ds.to_set());
        assert(ds.no_duplicates());
        ds.unique_seq_to_set();
    }

    /// Position of the slot holding `d`, if any.
    fn find(&self, d: &Vec<u8>) -> (r: Option<usize>)
        requires
            self.wf(),
        ensures
            match r {
                Some(i) => i < self.slots@.len() && self.slots@[i as int].digest@ == d@,
                None => !self@.contains_key(d@),
            },
    {
        let mut i: usize = 0;
        while i < self.slots.len()
            invariant
                self.wf(),
                0 <= i <= self.slots@.len(),
                forall|k: int| 0 <= k < i ==> self.slots@[k].digest@ != d@,
            decreases self.slots@.len() - i,
        {
            if same_bytes(&self.slots[i].digest, d) {
                return Some(i);
            }
            i = i + 1;
        }
        None
    }

    /// The entry kept for digest `d`, if any.
    pub fn kept(&self, d: &Vec<u8>) -> (r: Option<&FileEntry>)
        requires
            self.wf(),
        ensures
            match r {
                Some(e) => self@.contains_key(d@) && *e == self@[d@],
                None => !self@.contains_key(d@),
            },
    {
        match self.find(d) {
            Some(i) => {
                proof {
                    assert(self.contents@.contains_key(self.slots@[i as int].digest@));
                }
                Some(&self.slots[i].entry)
            },
            None => None,
        }
    }

    /// Resolves `entry`, whose content has digest `digest`, against the
    /// table, updating it as `step` describes.
    pub fn resolve(&mut self, entry: FileEntry, digest: Vec<u8>) -> (r: Resolution)
        requires
            old(self).wf(),
        ensures
            final(self).wf(),
            (final(self)@, r) == step(old(self)@, entry, digest@),
    {
        let ghost d = digest@;
        match self.find(&digest) {
            None => {
                self.slots.push(Slot { digest, entry: entry.copied() });
                self.contents = Ghost(self.contents@.insert(d, entry));
                proof {
                    let n = self.slots@.len() - 1;
                    assert forall|k: Seq<u8>| #[trigger] self.contents@.contains_key(k) implies exists|i: int|
                        0 <= i < self.slots@.len() && self.slots@[i].digest@ == k by {
                        if k == d {
                            assert(self.slots@[n].digest@ == k);
                        } else {
                            assert(old(self).contents@.contains_key(k));
                            let i = choose|i: int| 0 <= i < old(self).slots@.len() && old(self).slots@[i].digest@ == k;
                            assert(self.slots@[i] == old(self).slots@[i]);
                        }
                    }
                }
                Resolution::Keep
            },
            Some(i) => {
                proof {
                    assert(self.contents@.contains_key(d));
                }
                let original_time = self.slots[i].entry.discovered_at;
                if entry.discovered_at >= original_time {
                    let kept = self.slots[i].entry.path.clone();
                    Resolution::Delete { kept, removed: entry.path }
                } else {
                    let ghost before = self.slots@;
                    let removed = self.slots[i].entry.path.clone();
                    let kept = entry.path.clone();
                    let ghost e = entry;
                    self.slots.set(i, Slot { digest, entry });
                    self.contents = Ghost(self.contents@.insert(d, e));
                    proof {
                        assert forall|k: Seq<u8>| #[trigger] self.contents@.contains_key(k) implies exists|j: int|
                            0 <= j < self.slots@.len() && self.slots@[j].digest@ == k by {
                            if k == d {
                                assert(self.slots@[i as int].digest@ == k);
                            } else {
                                assert(old(self).contents@.contains_key(k));
                                let j = choose|j: int| 0 <= j < before.len() && before[j].digest@ == k;
                                assert(self.slots@[j] == before[j]);
                            }
                        }
                    }
                    Resolution::Delete { kept, removed }
                }
            },
        }
    }
}

} // verus!
