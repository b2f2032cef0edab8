use vstd::prelude::*;

verus! {

/// A regular file found during the walk.
#[derive(Debug)]
pub struct FileEntry {
    pub path: String,
    /// Byte length of the file when it was discovered.
    pub size: u64,
    /// Creation time (or, where unavailable, last modification time), in
    /// nanoseconds relative to the Unix epoch.
    pub discovered_at: i128,
}

impl FileEntry {
    pub fn new(path: String, size: u64, discovered_at: i128) -> (r: FileEntry)
        ensures
            r.path == path,
            r.size == size,
            r.discovered_at == discovered_at,
    {
        FileEntry { path, size, discovered_at }
    }

    /// A field-by-field copy.
    pub fn copied(&self) -> (r: FileEntry)
        ensures
            r == *self,
    {
        FileEntry { path: self.path.clone(), size: self.size, discovered_at: self.discovered_at }
    }
}

/// The outcome of resolving one hashed file against the digest table.
#[derive(Debug, PartialEq, Eq)]
pub enum Resolution {
    /// First file seen with this content: nothing to delete.
    Keep,
    /// A duplicate was found: `removed` is to be deleted, `kept` survives.
    Delete { kept: String, removed: String },
}

/// A structured notification for the presentation layer.
#[derive(Debug, PartialEq, Eq)]
pub enum Event {
    DuplicateFound { kept: String, removed: String },
    Deleted { path: String },
    DeleteFailed { path: String, reason: String },
    ScanError { path: String, reason: String },
    /// An object that is neither a regular file nor a directory.
    UnhandledEntry { path: String },
    /// The file's length changed between bucketing and hashing.
    RaceAnomaly { path: String },
}

} // verus!
