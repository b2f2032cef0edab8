use vstd::prelude::*;
use crate::entry::{FileEntry, Resolution};
use crate::digest::sha256_of;
use crate::engine::hashed;
use crate::table::{run, step};

verus! {

/// Paths scheduled for deletion by a sequence of resolutions.
pub open spec fn removed_paths(rs: Seq<Resolution>) -> Set<String>
    decreases rs.len(),
{
    if rs.len() == 0 {
        Set::empty()
    } else {
        let prev = removed_paths(rs.drop_last());
        match rs.last() {
            Resolution::Delete { kept, removed } => prev.insert(removed),
            Resolution::Keep => prev,
        }
    }
}

/// Each file of a tree is seen once: no two items share a path.
pub open spec fn paths_distinct(items: Seq<(FileEntry, Seq<u8>)>) -> bool {
    forall|i: int, j: int| 0 <= i < j < items.len() ==> items[i].0.path != items[j].0.path
}

/// Whether the file of `items[j]` survives the run over `items`.
pub open spec fn survives(items: Seq<(FileEntry, Seq<u8>)>, j: int) -> bool {
    !removed_paths(run(items).1).contains(items[j].0.path)
}

proof fn lemma_run_invariant(items: Seq<(FileEntry, Seq<u8>)>)
    requires
        paths_distinct(items),
    ensures
        run(items).1.len() == items.len(),
        forall|d: Seq<u8>| #[trigger] run(items).0.contains_key(d) ==> exists|i: int|
            0 <= i < items.len() && items[i].0 == run(items).0[d] && items[i].1 == d,
        forall|i: int| 0 <= i < items.len() ==> #[trigger] run(items).0.contains_key(items[i].1),
        forall|j: int| 0 <= j < items.len() ==>
            (#[trigger] removed_paths(run(items).1).contains(items[j].0.path)
                <==> run(items).0[items[j].1].path != items[j].0.path),
        forall|p: String| #[trigger] removed_paths(run(items).1).contains(p) ==> exists|j: int|
            0 <= j < items.len() && items[j].0.path == p,
    decreases items.len(),
{
    if items.len() > 0 {
        let prev = items.drop_last();
        assert(paths_distinct(prev));
        lemma_run_invariant(prev);
        let n = items.len() - 1;
        let t = run(prev).0;
        let rs = run(prev).1;
        let e = items.last().0;
        let d = items.last().1;
        let s = step(t, e, d);
        assert(run(items) == (s.0, rs.push(s.1)));
        assert(rs.push(s.1).drop_last() =~= rs);
        let rem = removed_paths(rs);
        let rem2 = removed_paths(rs.push(s.1));
        assert forall|i: int| 0 <= i < n implies items[i] == #[trigger] prev[i] by {}
        assert(!rem.contains(e.path)) by {
            if rem.contains(e.path) {
                let j = choose|j: int| 0 <= j < prev.len() && prev[j].0.path == e.path;
                assert(items[j].0.path != items[n].0.path);
            }
        }
        if t.contains_key(d) {
            let o = t[d];
            let io = choose|i: int| 0 <= i < prev.len() && prev[i].0 == t[d] && prev[i].1 == d;
            assert(items[io].0.path != items[n].0.path);
        }
        assert forall|dd: Seq<u8>| #[trigger] s.0.contains_key(dd) implies exists|i: int|
            0 <= i < items.len() && items[i].0 == s.0[dd] && items[i].1 == dd by {
            if dd == d && s.0[dd] == e {
                assert(items[n].0 == s.0[dd] && items[n].1 == dd);
            } else {
                assert(t.contains_key(dd));
                let i = choose|i: int| 0 <= i < prev.len() && prev[i].0 == t[dd] && prev[i].1 == dd;
                assert(items[i] == prev[i]);
            }
        }
        assert forall|i: int| 0 <= i < items.len() implies #[trigger] s.0.contains_key(items[i].1) by {
            if i < n {
                assert(t.contains_key(prev[i].1));
            }
        }
        assert forall|j: int| 0 <= j < items.len() implies
            (#[trigger] rem2.contains(items[j].0.path) <==> s.0[items[j].1].path != items[j].0.path) by {
            if j < n {
                assert(items[j] == prev[j]);
                assert(t.contains_key(prev[j].1));
                assert(items[j].0.path != e.path);
                if t.contains_key(d) {
                    let io = choose|i: int| 0 <= i < prev.len() && prev[i].0 == t[d] && prev[i].1 == d;
                    if io != j {
                        assert(prev[io].0.path != prev[j].0.path || io > j);
                        assert(prev[io].0.path != prev[j].0.path || io < j);
                    }
                }
            }
        }
        assert forall|p: String| #[trigger] rem2.contains(p) implies exists|j: int|
            0 <= j < items.len() && items[j].0.path == p by {
            if rem.contains(p) {
                let j = choose|j: int| 0 <= j < prev.len() && prev[j].0.path == p;
                assert(items[j] == prev[j]);
            } else if p == e.path {
                assert(items[n].0.path == p);
            } else {
                let io = choose|i: int| 0 <= i < prev.len() && prev[i].0 == t[d] && prev[i].1 == d;
                assert(items[io] == prev[io]);
            }
        }
    }
}

/// Among files with identical digests, exactly one survives the run,
/// whatever the order in which they are resolved.
pub proof fn lemma_exactly_one_survivor(items: Seq<(FileEntry, Seq<u8>)>, j: int)
    requires
        paths_distinct(items),
        0 <= j < items.len(),
    ensures
        exists|i: int| 0 <= i < items.len() && items[i].1 == items[j].1 && survives(items, i),
        forall|i: int, k: int|
            0 <= i < items.len() && 0 <= k < items.len() && items[i].1 == items[j].1
                && items[k].1 == items[j].1 && survives(items, i) && survives(items, k) ==> i == k,
{
    lemma_run_invariant(items);
    let t = run(items).0;
    let d = items[j].1;
    assert(t.contains_key(d));
    let w = choose|i: int| 0 <= i < items.len() && items[i].0 == t[d] && items[i].1 == d;
    assert(survives(items, w));
    assert forall|i: int, k: int|
        0 <= i < items.len() && 0 <= k < items.len() && items[i].1 == d && items[k].1 == d
            && survives(items, i) && survives(items, k) implies i == k by {
        if i != k {
            assert(items[i].0.path == t[d].path);
            assert(items[k].0.path == t[d].path);
            if i < k {
                assert(items[i].0.path != items[k].0.path);
            } else {
                assert(items[k].0.path != items[i].0.path);
            }
        }
    }
}

/// A file whose digest no other file shares is never deleted.
pub proof fn lemma_distinct_content_survives(items: Seq<(FileEntry, Seq<u8>)>, j: int)
    requires
        paths_distinct(items),
        0 <= j < items.len(),
        forall|i: int| 0 <= i < items.len() && i != j ==> items[i].1 != items[j].1,
    ensures
        survives(items, j),
{
    lemma_run_invariant(items);
    let t = run(items).0;
    let d = items[j].1;
    assert(t.contains_key(d));
    let w = choose|i: int| 0 <= i < items.len() && items[i].0 == t[d] && items[i].1 == d;
    assert(w == j);
}

/// When no two items share a digest, every resolution is `Keep`.
pub proof fn lemma_distinct_digests_keep_all(items: Seq<(FileEntry, Seq<u8>)>)
    requires
        forall|i: int, k: int| 0 <= i < k < items.len() ==> items[i].1 != items[k].1,
    ensures
        run(items).1.len() == items.len(),
        forall|i: int| 0 <= i < items.len() ==> run(items).1[i] == Resolution::Keep,
        forall|d: Seq<u8>| #[trigger] run(items).0.contains_key(d) ==> exists|i: int|
            0 <= i < items.len() && items[i].1 == d,
    decreases items.len(),
{
    if items.len() > 0 {
        let prev = items.drop_last();
        lemma_distinct_digests_keep_all(prev);
        let n = items.len() - 1;
        let t = run(prev).0;
        let d = items.last().1;
        if t.contains_key(d) {
            let i = choose|i: int| 0 <= i < prev.len() && prev[i].1 == d;
            assert(items[i].1 != items[n].1);
        }
        assert forall|dd: Seq<u8>| #[trigger] run(items).0.contains_key(dd) implies exists|i: int|
            0 <= i < items.len() && items[i].1 == dd by {
            if dd != d {
                let i = choose|i: int| 0 <= i < prev.len() && prev[i].1 == dd;
                assert(items[i] == prev[i]);
            }
        }
    }
}

/// Running again over the files that survived a run, in any order, deletes
/// nothing: the tree is already free of duplicates.
pub proof fn lemma_second_run_deletes_nothing(
    items: Seq<(FileEntry, Seq<u8>)>,
    again: Seq<(FileEntry, Seq<u8>)>,
)
    requires
        paths_distinct(items),
        paths_distinct(again),
        forall|k: int| 0 <= k < again.len() ==> exists|j: int|
            0 <= j < items.len() && #[trigger] again[k] == items[j] && survives(items, j),
    ensures
        removed_paths(run(again).1) == Set::<String>::empty(),
{
    lemma_run_invariant(items);
    let t = run(items).0;
    assert forall|a: int, b: int| 0 <= a < b < again.len() implies again[a].1 != again[b].1 by {
        let ja = choose|j: int| 0 <= j < items.len() && again[a] == items[j] && survives(items, j);
        let jb = choose|j: int| 0 <= j < items.len() && again[b] == items[j] && survives(items, j);
        if again[a].1 == again[b].1 {
            assert(items[ja].0.path == t[items[ja].1].path);
            assert(items[jb].0.path == t[items[jb].1].path);
            assert(again[a].0.path != again[b].0.path);
        }
    }
    lemma_distinct_digests_keep_all(again);
    lemma_all_keep_removes_nothing(run(again).1);
}

proof fn lemma_all_keep_removes_nothing(rs: Seq<Resolution>)
    requires
        forall|i: int| 0 <= i < rs.len() ==> rs[i] == Resolution::Keep,
    ensures
        removed_paths(rs) == Set::<String>::empty(),
    decreases rs.len(),
{
    if rs.len() > 0 {
        lemma_all_keep_removes_nothing(rs.drop_last());
    }
}

/// Two files with the same digest and the same discovery time: the one
/// resolved first is kept and the other is deleted, on every run.
pub proof fn lemma_equal_times_keep_first(a: FileEntry, b: FileEntry, d: Seq<u8>)
    requires
        a.discovered_at == b.discovered_at,
    ensures
        run(seq![(a, d), (b, d)]).0 == Map::<Seq<u8>, FileEntry>::empty().insert(d, a),
        run(seq![(a, d), (b, d)]).1 == seq![
            Resolution::Keep,
            Resolution::Delete { kept: a.path, removed: b.path },
        ],
{
    let items = seq![(a, d), (b, d)];
    let one = seq![(a, d)];
    let none = Seq::<(FileEntry, Seq<u8>)>::empty();
    assert(items.drop_last() =~= one);
    assert(one.drop_last() =~= none);
    assert(run(none) == (Map::<Seq<u8>, FileEntry>::empty(), Seq::<Resolution>::empty()));
    assert(one.last() == (a, d));
    assert(run(one).0 == Map::<Seq<u8>, FileEntry>::empty().insert(d, a));
    assert(run(one).1 =~= seq![Resolution::Keep]);
    assert(items.last() == (b, d));
    assert(run(items).1 =~= seq![
        Resolution::Keep,
        Resolution::Delete { kept: a.path, removed: b.path },
    ]);
}

/// No two files of a tree share a path.
pub open spec fn file_paths_distinct(files: Seq<FileEntry>) -> bool {
    forall|i: int, j: int| 0 <= i < j < files.len() ==> files[i].path != files[j].path
}

proof fn lemma_hashed_paths_distinct(files: Seq<FileEntry>, contents: Seq<Vec<u8>>, order: Seq<usize>)
    requires
        file_paths_distinct(files),
        order.no_duplicates(),
        forall|k: int| 0 <= k < order.len() ==> order[k] < files.len(),
    ensures
        paths_distinct(hashed(files, contents, order)),
{
    let items = hashed(files, contents, order);
    assert forall|a: int, b: int| 0 <= a < b < items.len() implies items[a].0.path != items[b].0.path by {
        assert(order[a] != order[b]);
        if order[a] < order[b] {
            assert(files[order[a] as int].path != files[order[b] as int].path);
        } else {
            assert(files[order[b] as int].path != files[order[a] as int].path);
        }
    }
}

/// A file that a run never hashes (its size matches no other file's) is
/// never deleted by that run.
pub proof fn lemma_unhashed_file_survives(
    files: Seq<FileEntry>,
    contents: Seq<Vec<u8>>,
    order: Seq<usize>,
    i: int,
)
    requires
        file_paths_distinct(files),
        order.no_duplicates(),
        forall|k: int| 0 <= k < order.len() ==> order[k] < files.len(),
        files.len() <= usize::MAX,
        0 <= i < files.len(),
        !order.contains(i as usize),
    ensures
        !removed_paths(run(hashed(files, contents, order)).1).contains(files[i].path),
{
    let items = hashed(files, contents, order);
    lemma_hashed_paths_distinct(files, contents, order);
    lemma_run_invariant(items);
    if removed_paths(run(items).1).contains(files[i].path) {
        let m = choose|m: int| 0 <= m < items.len() && items[m].0.path == files[i].path;
        let k = order[m] as int;
        assert(k != i);
        if k < i {
            assert(files[k].path != files[i].path);
        } else {
            assert(files[i].path != files[k].path);
        }
    }
}

/// Over a whole run: among the hashed files whose content digest is that of
/// hashed file `i`, exactly one survives.
pub proof fn lemma_run_keeps_one_per_digest(
    files: Seq<FileEntry>,
    contents: Seq<Vec<u8>>,
    order: Seq<usize>,
    i: int,
)
    requires
        file_paths_distinct(files),
        contents.len() == files.len(),
        order.no_duplicates(),
        forall|k: int| 0 <= k < order.len() ==> order[k] < files.len(),
        files.len() <= usize::MAX,
        0 <= i < files.len(),
        order.contains(i as usize),
    ensures
        exists|k: int| 0 <= k < files.len() && #[trigger] order.contains(k as usize)
            && sha256_of(contents[k]@) == sha256_of(contents[i]@)
            && !removed_paths(run(hashed(files, contents, order)).1).contains(files[k].path),
        forall|k1: int, k2: int|
            0 <= k1 < files.len() && 0 <= k2 < files.len() && order.contains(k1 as usize)
                && order.contains(k2 as usize) && sha256_of(contents[k1]@) == sha256_of(contents[i]@)
                && sha256_of(contents[k2]@) == sha256_of(contents[i]@)
                && !removed_paths(run(hashed(files, contents, order)).1).contains(files[k1].path)
                && !removed_paths(run(hashed(files, contents, order)).1).contains(files[k2].path)
                ==> k1 == k2,
{
    let items = hashed(files, contents, order);
    lemma_hashed_paths_distinct(files, contents, order);
    let mi = choose|m: int| 0 <= m < order.len() && order[m] == i as usize;
    lemma_exactly_one_survivor(items, mi);
    let w = choose|m: int| 0 <= m < items.len() && items[m].1 == items[mi].1 && survives(items, m);
    let kw = order[w] as int;
    assert(order.contains(kw as usize));
    assert forall|k1: int, k2: int|
        0 <= k1 < files.len() && 0 <= k2 < files.len() && order.contains(k1 as usize)
            && order.contains(k2 as usize) && sha256_of(contents[k1]@) == sha256_of(contents[i]@)
            && sha256_of(contents[k2]@) == sha256_of(contents[i]@)
            && !removed_paths(run(items).1).contains(files[k1].path)
            && !removed_paths(run(items).1).contains(files[k2].path) implies k1 == k2 by {
        let m1 = choose|m: int| 0 <= m < order.len() && order[m] == k1 as usize;
        let m2 = choose|m: int| 0 <= m < order.len() && order[m] == k2 as usize;
        assert(order[m1] as int == k1 && order[mi] as int == i);
        assert(items[m1].1 == items[mi].1);
        assert(order[m2] as int == k2);
        assert(items[m2].1 == items[mi].1);
        assert(survives(items, m1));
        assert(survives(items, m2));
    }
}

} // verus!
