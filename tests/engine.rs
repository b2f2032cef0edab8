use dedup_engine::digest::content_digest;
use dedup_engine::engine::{check_content, deduplicate, deletion_event};
use dedup_engine::entry::{Event, FileEntry, Resolution};
use dedup_engine::size_index::{hash_candidates, SizeIndex};
use dedup_engine::table::DigestTable;
use dedup_engine::walker::{Listed, Walker};

fn entry(path: &str, size: u64, t: i128) -> FileEntry {
    FileEntry::new(path.to_string(), size, t)
}

fn delete(kept: &str, removed: &str) -> Resolution {
    Resolution::Delete { kept: kept.to_string(), removed: removed.to_string() }
}

fn hex(b: &[u8]) -> String {
    b.iter().map(|x| format!("{:02x}", x)).collect()
}

#[test]
fn digest_is_sha256() {
    let d = content_digest(b"abc");
    assert_eq!(d.len(), 32);
    assert_eq!(hex(&d), "ba7816bf8f01cfea414140de5dae2223b00361a396177a9cb410ff61f20015ad");
    assert_eq!(hex(&content_digest(b"")), "e3b0c44298fc1c149afbf4c8996fb92427ae41e4649b934ca495991b7852b855");
}

#[test]
fn newer_copy_is_deleted() {
    let files = vec![entry("/r/a.txt", 1, 100), entry("/r/b/b.txt", 1, 200)];
    let contents = vec![b"X".to_vec(), b"X".to_vec()];
    let (hashed, res) = deduplicate(&files, &contents);
    assert_eq!(hashed, vec![0, 1]);
    assert_eq!(res, vec![Resolution::Keep, delete("/r/a.txt", "/r/b/b.txt")]);
}

#[test]
fn older_copy_replaces_kept_one() {
    let files = vec![entry("/r/b/b.txt", 1, 200), entry("/r/a.txt", 1, 100)];
    let contents = vec![b"X".to_vec(), b"X".to_vec()];
    let (_, res) = deduplicate(&files, &contents);
    assert_eq!(res, vec![Resolution::Keep, delete("/r/a.txt", "/r/b/b.txt")]);
}

#[test]
fn two_equal_one_distinct() {
    let files = vec![entry("x1", 1, 10), entry("x2", 1, 20), entry("y", 1, 5)];
    let contents = vec![b"X".to_vec(), b"X".to_vec(), b"Y".to_vec()];
    let (hashed, res) = deduplicate(&files, &contents);
    assert_eq!(hashed, vec![0, 1, 2]);
    assert_eq!(res, vec![Resolution::Keep, delete("x1", "x2"), Resolution::Keep]);
}

#[test]
fn equal_times_keep_first_seen() {
    for _ in 0..3 {
        let files = vec![entry("first", 2, 7), entry("second", 2, 7)];
        let contents = vec![b"ab".to_vec(), b"ab".to_vec()];
        let (_, res) = deduplicate(&files, &contents);
        assert_eq!(res, vec![Resolution::Keep, delete("first", "second")]);
    }
}

#[test]
fn unique_size_is_never_hashed() {
    assert_eq!(hash_candidates(&vec![3, 5, 3]), vec![0, 2]);
    assert_eq!(hash_candidates(&vec![1, 2, 3]), Vec::<usize>::new());
    assert_eq!(hash_candidates(&vec![]), Vec::<usize>::new());
    assert_eq!(hash_candidates(&vec![4, 9, 9, 4, 9, 1]), vec![0, 3, 1, 2, 4]);
    let files = vec![entry("a", 1, 1), entry("b", 2, 1), entry("c", 1, 2)];
    let contents = vec![b"Q".to_vec(), b"QQ".to_vec(), b"Q".to_vec()];
    let (hashed, res) = deduplicate(&files, &contents);
    assert_eq!(hashed, vec![0, 2]);
    assert_eq!(res, vec![Resolution::Keep, delete("a", "c")]);
}

#[test]
fn distinct_content_all_survive() {
    let files = vec![entry("a", 3, 1), entry("b", 3, 2), entry("c", 3, 3)];
    let contents = vec![b"abc".to_vec(), b"abd".to_vec(), b"abe".to_vec()];
    let (_, res) = deduplicate(&files, &contents);
    assert_eq!(res, vec![Resolution::Keep, Resolution::Keep, Resolution::Keep]);
}

#[test]
fn exactly_one_of_many_copies_survives() {
    let files = vec![entry("a", 1, 5), entry("b", 1, 3), entry("c", 1, 9), entry("d", 1, 1)];
    let contents = vec![b"Z".to_vec(); 4];
    let (_, res) = deduplicate(&files, &contents);
    assert_eq!(
        res,
        vec![Resolution::Keep, delete("b", "a"), delete("b", "c"), delete("d", "b")]
    );
}

#[test]
fn second_run_deletes_nothing() {
    let files = vec![entry("a", 1, 5), entry("b", 1, 3), entry("c", 1, 9), entry("e", 1, 4)];
    let contents = vec![b"Z".to_vec(), b"Z".to_vec(), b"Z".to_vec(), b"W".to_vec()];
    let (_, res) = deduplicate(&files, &contents);
    let removed: Vec<String> = res
        .iter()
        .filter_map(|r| match r {
            Resolution::Delete { removed, .. } => Some(removed.clone()),
            Resolution::Keep => None,
        })
        .collect();
    let mut left_files = Vec::new();
    let mut left_contents = Vec::new();
    for (f, c) in files.iter().zip(contents.iter()) {
        if !removed.contains(&f.path) {
            left_files.push(f.copied());
            left_contents.push(c.clone());
        }
    }
    assert_eq!(left_files.len(), 2);
    let (_, again) = deduplicate(&left_files, &left_contents);
    assert!(again.iter().all(|r| *r == Resolution::Keep));
}

#[test]
fn table_resolution_steps() {
    let mut t = DigestTable::new();
    let d = content_digest(b"same");
    assert_eq!(t.resolve(entry("p", 4, 50), d.clone()), Resolution::Keep);
    assert_eq!(t.len(), 1);
    assert_eq!(t.resolve(entry("q", 4, 50), d.clone()), delete("p", "q"));
    assert_eq!(t.kept(&d).unwrap().path, "p");
    assert_eq!(t.resolve(entry("r", 4, 10), d.clone()), delete("r", "p"));
    assert_eq!(t.kept(&d).unwrap().path, "r");
    assert_eq!(t.resolve(entry("s", 4, 60), d.clone()), delete("r", "s"));
    let other = content_digest(b"else");
    assert!(t.kept(&other).is_none());
    assert_eq!(t.resolve(entry("u", 4, 1), other), Resolution::Keep);
    assert_eq!(t.len(), 2);
}

#[test]
fn size_index_counts_group() {
    let mut idx = SizeIndex::new();
    assert_eq!(idx.insert(10, 0), 1);
    assert_eq!(idx.insert(20, 1), 1);
    assert_eq!(idx.insert(10, 2), 2);
    assert_eq!(idx.insert(10, 3), 3);
    assert_eq!(idx.candidates(), vec![0, 2, 3]);
    assert_eq!(idx.insert(20, 4), 2);
    assert_eq!(idx.candidates(), vec![0, 2, 3, 1, 4]);
}

#[test]
fn content_length_change_is_reported() {
    let e = entry("grew", 2, 1);
    assert_eq!(check_content(&e, b"abc"), Err(Event::RaceAnomaly { path: "grew".to_string() }));
    let d = check_content(&e, b"ab").unwrap();
    assert_eq!(d, content_digest(b"ab"));
}

#[test]
fn deletion_outcomes() {
    assert_eq!(deletion_event("f".to_string(), None), Event::Deleted { path: "f".to_string() });
    assert_eq!(
        deletion_event("f".to_string(), Some("gone".to_string())),
        Event::DeleteFailed { path: "f".to_string(), reason: "gone".to_string() }
    );
}

#[test]
fn unreadable_subdirectory_is_reported_and_siblings_scanned() {
    let mut w = Walker::new("/r".to_string());
    assert_eq!(w.next_directory(), Some("/r".to_string()));
    w.directory_listed(vec![
        Listed::Directory { path: "/r/locked".to_string() },
        Listed::File { path: "/r/a.txt".to_string(), size: 1, discovered_at: 1 },
        Listed::Directory { path: "/r/open".to_string() },
    ]);
    assert_eq!(w.next_directory(), Some("/r/open".to_string()));
    w.directory_listed(vec![Listed::File { path: "/r/open/b.txt".to_string(), size: 1, discovered_at: 2 }]);
    assert_eq!(w.next_directory(), Some("/r/locked".to_string()));
    w.directory_failed("/r/locked".to_string(), "permission denied".to_string());
    assert_eq!(w.next_directory(), None);
    let (found, events) = w.finish();
    let paths: Vec<&str> = found.iter().map(|f| f.path.as_str()).collect();
    assert_eq!(paths, vec!["/r/a.txt", "/r/open/b.txt"]);
    assert_eq!(
        events,
        vec![Event::ScanError { path: "/r/locked".to_string(), reason: "permission denied".to_string() }]
    );
}

#[test]
fn other_objects_and_stat_failures_are_reported() {
    let mut w = Walker::new("/r".to_string());
    w.next_directory();
    w.directory_listed(vec![
        Listed::Other { path: "/r/link".to_string() },
        Listed::Failed { path: "/r/bad".to_string(), reason: "stat".to_string() },
        Listed::File { path: "/r/f".to_string(), size: 0, discovered_at: 0 },
    ]);
    assert_eq!(w.next_directory(), None);
    let (found, events) = w.finish();
    assert_eq!(found.len(), 1);
    assert_eq!(
        events,
        vec![
            Event::UnhandledEntry { path: "/r/link".to_string() },
            Event::ScanError { path: "/r/bad".to_string(), reason: "stat".to_string() },
        ]
    );
}
