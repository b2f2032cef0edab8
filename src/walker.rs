use vstd::prelude::*;
use crate::entry::{Event, FileEntry};

verus! {

/// One object found while listing a directory.
#[derive(Debug)]
pub enum Listed {
    File { path: String, size: u64, discovered_at: i128 },
    Directory { path: String },
    /// Neither a regular file nor a directory (symbolic links included, so
    /// the walk never follows a cycle).
    Other { path: String },
    /// Its metadata could not be read.
    Failed { path: String, reason: String },
}

/// The files that a listing contributes.
pub open spec fn files_of(l: Seq<Listed>) -> Seq<FileEntry>
    decreases l.len(),
{
    if l.len() == 0 {
        Seq::empty()
    } else {
        match l.last() {
            Listed::File { path, size, discovered_at } =>
                files_of(l.drop_last()).push(FileEntry { path, size, discovered_at }),
            _ => files_of(l.drop_last()),
        }
    }
}

/// The subdirectories that a listing contributes.
pub open spec fn dirs_of(l: Seq<Listed>) -> Seq<String>
    decreases l.len(),
{
    if l.len() == 0 {
        Seq::empty()
    } else {
        match l.last() {
            Listed::Directory { path } => dirs_of(l.drop_last()).push(path),
            _ => dirs_of(l.drop_last()),
        }
    }
}

/// The events that a listing reports.
pub open spec fn events_of(l: Seq<Listed>) -> Seq<Event>
    decreases l.len(),
{
    if l.len() == 0 {
        Seq::empty()
    } else {
        match l.last() {
            Listed::Other { path } => events_of(l.drop_last()).push(Event::UnhandledEntry { path }),
            Listed::Failed { path, reason } => events_of(l.drop_last()).push(Event::ScanError { path, reason }),
            _ => events_of(l.drop_last()),
        }
    }
}

/// The state of a depth-first walk: directories still to list, files found
/// and problems met so far.
pub struct Walker {
    pending: Vec<String>,
    found: Vec<FileEntry>,
    events: Vec<Event>,
}

impl Walker {
    pub closed spec fn pending(&self) -> Seq<String> {
        self.pending@
    }

    pub closed spec fn found(&self) -> Seq<FileEntry> {
        self.found@
    }

    pub closed spec fn events(&self) -> Seq<Event> {
        self.events@
    }

    /// A walk that starts at `root`.
    pub fn new(root: String) -> (r: Walker)
        ensures
            r.pending() == seq![root],
            r.found() == Seq::<FileEntry>::empty(),
            r.events() == Seq::<Event>::empty(),
    {
        let mut pending = Vec::new();
        pending.push(root);
        Walker { pending, found: Vec::new(), events: Vec::new() }
    }

    /// Takes the next directory to list; `None` once the walk is over.
    pub fn next_directory(&mut self) -> (r: Option<String>)
        ensures
            old(self).pending().len() == 0 ==> r.is_none() && final(self).pending() == old(self).pending(),
            old(self).pending().len() > 0 ==> r == Some(old(self).pending().last())
                && final(self).pending() == old(self).pending().drop_last(),
            final(self).found() == old(self).found(),
            final(self).events() == old(self).events(),
    {
        self.pending.pop()
    }

    /// A directory could not be opened: it is reported and skipped, and the
    /// walk goes on with the others.
    pub fn directory_failed(&mut self, path: String, reason: String)
        ensures
            final(self).pending() == old(self).pending(),
            final(self).found() == old(self).found(),
            final(self).events() == old(self).events().push(Event::ScanError { path, reason }),
    {
        self.events.push(Event::ScanError { path, reason });
    }

    /// Takes in the listing of one directory: files are recorded,
    /// subdirectories queued, anything else reported.
    pub fn directory_listed(&mut self, listing: Vec<Listed>)
        ensures
            final(self).pending() == old(self).pending() + dirs_of(listing@),
            final(self).found() == old(self).found() + files_of(listing@),
            final(self).events() == old(self).events() + events_of(listing@),
    {
        let ghost l = listing@;
        let n = listing.len();
        let mut rest = listing;
        let ghost start = *self;
        let mut k: usize = 0;
        while rest.len() > 0
            invariant
                0 <= k <= l.len(),
                n == l.len(),
                rest@ == l.subrange(k as int, l.len() as int),
                self.pending@ == start.pending@ + dirs_of(l.subrange(0, k as int)),
                self.found@ == start.found@ + files_of(l.subrange(0, k as int)),
                self.events@ == start.events@ + events_of(l.subrange(0, k as int)),
            decreases rest@.len(),
        {
            let item = rest.remove(0);
            proof {
                let pre = l.subrange(0, k as int + 1);
                assert(pre.drop_last() =~= l.subrange(0, k as int));
                assert(pre.last() == item);
                assert(rest@ =~= l.subrange(k as int + 1, l.len() as int));
            }
            match item {
                Listed::File { path, size, discovered_at } => {
                    self.found.push(FileEntry::new(path, size, discovered_at));
                },
                Listed::Directory { path } => {
                    self.pending.push(path);
                },
                Listed::Other { path } => {
                    self.events.push(Event::UnhandledEntry { path });
                },
                Listed::Failed { path, reason } => {
                    self.events.push(Event::ScanError { path, reason });
                },
            }
            proof {
                let pre = l.subrange(0, k as int + 1);
                assert(self.pending@ =~= start.pending@ + dirs_of(pre));
                assert(self.found@ =~= start.found@ + files_of(pre));
                assert(self.events@ =~= start.events@ + events_of(pre));
            }
            k = k + 1;
        }
        proof {
            assert(l.subrange(0, k as int) =~= l);
        }
    }

    /// Ends the walk, handing over the files found and the events reported.
    pub fn finish(self) -> (r: (Vec<FileEntry>, Vec<Event>))
        ensures
            r.0@ == self.found(),
            r.1@ == self.events(),
    {
        (self.found, self.events)
    }
}

} // verus!
