use vstd::prelude::*;

verus! {

/// The files of one byte length, by their position in the walk.
pub struct SizeGroup {
    pub size: u64,
    pub ids: Vec<usize>,
}

/// Buckets discovered files by byte length, in order of first appearance.
pub struct SizeIndex {
    groups: Vec<SizeGroup>,
}

impl View for SizeIndex {
    type V = Seq<(u64, Seq<usize>)>;

    closed spec fn view(&self) -> Seq<(u64, Seq<usize>)> {
        self.groups@.map_values(|g: SizeGroup| (g.size, g.ids@))
    }
}

/// No two groups share a size.
pub open spec fn sizes_distinct(groups: Seq<(u64, Seq<usize>)>) -> bool {
    forall|i: int, j: int| 0 <= i < j < groups.len() ==> groups[i].0 != groups[j].0
}

/// The group of `sizes` holds, in order, exactly the positions below `n`
/// whose size is its key, and every such position lies in a group.
pub open spec fn indexes(groups: Seq<(u64, Seq<usize>)>, sizes: Seq<u64>, n: int) -> bool {
    &&& sizes_distinct(groups)
    &&& forall|g: int| 0 <= g < groups.len() ==> #[trigger] groups[g].1.len() > 0
    &&& forall|g: int, a: int, b: int|
        0 <= g < groups.len() && 0 <= a < b < groups[g].1.len() ==> groups[g].1[a] < groups[g].1[b]
    &&& forall|g: int, a: int|
        0 <= g < groups.len() && 0 <= a < groups[g].1.len() ==> groups[g].1[a] < n
            && sizes[groups[g].1[a] as int] == groups[g].0
    &&& forall|k: int| 0 <= k < n ==> #[trigger] placed(groups, sizes, k)
}

/// Position `k` lies in the group of its size.
pub open spec fn placed(groups: Seq<(u64, Seq<usize>)>, sizes: Seq<u64>, k: int) -> bool {
    exists|g: int| 0 <= g < groups.len() && groups[g].0 == sizes[k] && #[trigger] groups[g].1.contains(k as usize)
}

impl SizeIndex {
    pub open spec fn wf(&self) -> bool {
        sizes_distinct(self@)
    }

    pub fn new() -> (r: SizeIndex)
        ensures
            r@ == Seq::<(u64, Seq<usize>)>::empty(),
    {
        SizeIndex { groups: Vec::new() }
    }

    /// Appends `id` to the group of `size`, opening the group if needed, and
    /// returns the group's new length.
    pub fn insert(&mut self, size: u64, id: usize) -> (r: usize)
        requires
            old(self).wf(),
        ensures
            final(self).wf(),
            match find_group(old(self)@, size) {
                Some(g) => final(self)@ == old(self)@.update(g, (size, old(self)@[g].1.push(id)))
                    && r == old(self)@[g].1.len() + 1,
                None => final(self)@ == old(self)@.push((size, seq![id])) && r == 1,
            },
    {
        let mut g: usize = 0;
        while g < self.groups.len()
            invariant
                0 <= g <= self.groups@.len(),
                self.groups@ == old(self).groups@,
                old(self).wf(),
                forall|k: int| 0 <= k < g ==> self.groups@[k].size != size,
            decreases self.groups@.len() - g,
        {
            if self.groups[g].size == size {
                proof {
                    lemma_find_group(old(self)@, size, g as int);
                }
                let ghost before = self.groups@;
                let group = self.groups.remove(g);
                let mut ids = group.ids;
                ids.push(id);
                let n = ids.len();
                self.groups.insert(g, SizeGroup { size, ids });
                proof {
                    let want = old(self)@.update(g as int, (size, old(self)@[g as int].1.push(id)));
                    assert(before[g as int].ids@ == old(self)@[g as int].1);
                    assert forall|k: int| 0 <= k < want.len() implies self@[k] == want[k] by {
                        if k != g {
                            assert(self.groups@[k] == before[k]);
                        }
                    }
                    assert(self@ =~= want);
                }
                return n;
            }
            g = g + 1;
        }
        proof {
            lemma_no_group(old(self)@, size);
        }
        self.groups.push(SizeGroup { size, ids: vec![id] });
        proof {
            let want = old(self)@.push((size, seq![id]));
            assert forall|k: int| 0 <= k < want.len() implies self@[k] == want[k] by {
                if k < old(self)@.len() {
                    assert(self.groups@[k] == old(self).groups@[k]);
                }
            }
            assert(self@ =~= want);
        }
        1
    }
}

/// Position of the group keyed by `size`, if there is one.
pub open spec fn find_group(groups: Seq<(u64, Seq<usize>)>, size: u64) -> Option<int> {
    if exists|g: int| 0 <= g < groups.len() && groups[g].0 == size {
        Some(choose|g: int| 0 <= g < groups.len() && groups[g].0 == size)
    } else {
        None
    }
}

proof fn lemma_find_group(groups: Seq<(u64, Seq<usize>)>, size: u64, g: int)
    requires
        sizes_distinct(groups),
        0 <= g < groups.len(),
        groups[g].0 == size,
    ensures
        find_group(groups, size) == Some(g),
{
    let c = choose|c: int| 0 <= c < groups.len() && groups[c].0 == size;
    if c < g {
        assert(groups[c].0 != groups[g].0);
    } else if c > g {
        assert(groups[g].0 != groups[c].0);
    }
}

proof fn lemma_no_group(groups: Seq<(u64, Seq<usize>)>, size: u64)
    requires
        forall|k: int| 0 <= k < groups.len() ==> groups[k].0 != size,
    ensures
        find_group(groups, size) == None::<int>,
{
}

/// The positions of every group holding two files or more, group by group.
pub open spec fn eligible(groups: Seq<(u64, Seq<usize>)>) -> Seq<usize>
    decreases groups.len(),
{
    if groups.len() == 0 {
        Seq::empty()
    } else if groups.last().1.len() >= 2 {
        eligible(groups.drop_last()) + groups.last().1
    } else {
        eligible(groups.drop_last())
    }
}

impl SizeIndex {
    /// The files that share their size with another file: only these need
    /// hashing.
    pub fn candidates(&self) -> (r: Vec<usize>)
        ensures
            r@ == eligible(self@),
    {
        let mut out: Vec<usize> = Vec::new();
        let mut g: usize = 0;
        while g < self.groups.len()
            invariant
                0 <= g <= self.groups@.len(),
                out@ == eligible(self@.subrange(0, g as int)),
            decreases self.groups@.len() - g,
        {
            proof {
                let pre = self@.subrange(0, g as int + 1);
                assert(pre.drop_last() =~= self@.subrange(0, g as int));
                assert(pre.last() == self@[g as int]);
            }
            let ids = &self.groups[g].ids;
            if ids.len() >= 2 {
                let mut k: usize = 0;
                let ghost start = out@;
                while k < ids.len()
                    invariant
                        0 <= k <= ids@.len(),
                        out@ == start + ids@.subrange(0, k as int),
                    decreases ids@.len() - k,
                {
                    out.push(ids[k]);
                    proof {
                        assert(ids@.subrange(0, k as int + 1) =~= ids@.subrange(0, k as int).push(ids@[k as int]));
                    }
                    k = k + 1;
                }
                proof {
                    assert(ids@.subrange(0, k as int) =~= ids@);
                }
            }
            g = g + 1;
        }
        proof {
            assert(self@.subrange(0, g as int) =~= self@);
        }
        out
    }
}

proof fn lemma_insert_indexes(
    groups: Seq<(u64, Seq<usize>)>,
    next: Seq<(u64, Seq<usize>)>,
    sizes: Seq<u64>,
    n: int,
)
    requires
        indexes(groups, sizes, n),
        0 <= n < sizes.len(),
        n <= usize::MAX,
        match find_group(groups, sizes[n]) {
            Some(g) => next == groups.update(g, (sizes[n], groups[g].1.push(n as usize))),
            None => next == groups.push((sizes[n], seq![n as usize])),
        },
    ensures
        indexes(next, sizes, n + 1),
{
    match find_group(groups, sizes[n]) {
        Some(p) => {
            assert(groups[p].0 == sizes[n]);
            assert forall|i: int, j: int| 0 <= i < j < next.len() implies next[i].0 != next[j].0 by {
                assert(next[i].0 == groups[i].0);
                assert(next[j].0 == groups[j].0);
            }
            assert forall|g: int| 0 <= g < next.len() implies #[trigger] next[g].1.len() > 0 by {
                if g != p {
                    assert(next[g] == groups[g]);
                }
            }
            assert forall|g: int, a: int, b: int|
                0 <= g < next.len() && 0 <= a < b < next[g].1.len() implies next[g].1[a] < next[g].1[b] by {
                if g == p && b == groups[p].1.len() {
                    assert(groups[g].1[a] < n);
                } else if g == p {
                    assert(next[g].1[a] == groups[g].1[a]);
                    assert(next[g].1[b] == groups[g].1[b]);
                } else {
                    assert(next[g] == groups[g]);
                }
            }
            assert forall|g: int, a: int|
                0 <= g < next.len() && 0 <= a < next[g].1.len() implies next[g].1[a] < n + 1
                    && sizes[next[g].1[a] as int] == next[g].0 by {
                if g == p && a == groups[p].1.len() {
                } else if g == p {
                    assert(next[g].1[a] == groups[g].1[a]);
                } else {
                    assert(next[g] == groups[g]);
                }
            }
            assert forall|k: int| 0 <= k < n + 1 implies #[trigger] placed(next, sizes, k) by {
                if k == n {
                    assert(next[p].1.last() == n as usize);
                    assert(next[p].1.contains(k as usize));
                } else {
                    assert(placed(groups, sizes, k));
                    let g = choose|g: int|
                        0 <= g < groups.len() && groups[g].0 == sizes[k] && #[trigger] groups[g].1.contains(k as usize);
                    let a = choose|a: int| 0 <= a < groups[g].1.len() && groups[g].1[a] == k as usize;
                    assert(next[g].1[a] == k as usize);
                    assert(next[g].1.contains(k as usize));
                }
            }
        },
        None => {
            assert forall|g: int| 0 <= g < groups.len() implies groups[g].0 != sizes[n] by {
                if groups[g].0 == sizes[n] {
                    assert(exists|c: int| 0 <= c < groups.len() && groups[c].0 == sizes[n]);
                }
            }
            assert forall|i: int, j: int| 0 <= i < j < next.len() implies next[i].0 != next[j].0 by {
                assert(next[i] == groups[i]);
                if j < groups.len() {
                    assert(next[j] == groups[j]);
                }
            }
            assert forall|g: int| 0 <= g < next.len() implies #[trigger] next[g].1.len() > 0 by {
                if g < groups.len() {
                    assert(next[g] == groups[g]);
                }
            }
            assert forall|g: int, a: int, b: int|
                0 <= g < next.len() && 0 <= a < b < next[g].1.len() implies next[g].1[a] < next[g].1[b] by {
                if g < groups.len() {
                    assert(next[g] == groups[g]);
                }
            }
            assert forall|g: int, a: int|
                0 <= g < next.len() && 0 <= a < next[g].1.len() implies next[g].1[a] < n + 1
                    && sizes[next[g].1[a] as int] == next[g].0 by {
                if g < groups.len() {
                    assert(next[g] == groups[g]);
                }
            }
            assert forall|k: int| 0 <= k < n + 1 implies #[trigger] placed(next, sizes, k) by {
                if k == n {
                    assert(next[groups.len() as int].1[0] == n as usize);
                    assert(next[groups.len() as int].1.contains(k as usize));
                } else {
                    assert(placed(groups, sizes, k));
                    let g = choose|g: int|
                        0 <= g < groups.len() && groups[g].0 == sizes[k] && #[trigger] groups[g].1.contains(k as usize);
                    assert(next[g] == groups[g]);
                }
            }
        },
    }
}

/// Whether another position of `sizes` holds the same size as position `i`.
pub open spec fn shares_size(sizes: Seq<u64>, i: int) -> bool {
    exists|j: int| 0 <= j < sizes.len() && j != i && sizes[j] == sizes[i]
}

/// Positions of the files to hash, given the byte length of each file found:
/// exactly those whose size matches another file's, each once. A file of a
/// size that no other file has is never hashed.
pub fn hash_candidates(sizes: &Vec<u64>) -> (r: Vec<usize>)
    ensures
        r@.no_duplicates(),
        forall|k: int| 0 <= k < r@.len() ==> r@[k] < sizes@.len(),
        forall|i: int| 0 <= i < sizes@.len() ==> (r@.contains(i as usize) <==> shares_size(sizes@, i)),
{
    let mut index = SizeIndex::new();
    let mut i: usize = 0;
    while i < sizes.len()
        invariant
            0 <= i <= sizes@.len(),
            index.wf(),
            indexes(index@, sizes@, i as int),
        decreases sizes@.len() - i,
    {
        let ghost before = index@;
        index.insert(sizes[i], i);
        proof {
            lemma_insert_indexes(before, index@, sizes@, i as int);
        }
        i = i + 1;
    }
    let r = index.candidates();
    proof {
        lemma_eligible(index@, sizes@);
    }
    r
}

proof fn lemma_eligible_members(groups: Seq<(u64, Seq<usize>)>, x: usize)
    ensures
        eligible(groups).contains(x) <==> exists|g: int|
            0 <= g < groups.len() && groups[g].1.len() >= 2 && #[trigger] groups[g].1.contains(x),
    decreases groups.len(),
{
    if groups.len() > 0 {
        let prev = groups.drop_last();
        lemma_eligible_members(prev, x);
        let last = groups.last().1;
        if eligible(groups).contains(x) {
            if last.len() >= 2 {
                let e = eligible(prev) + last;
                let k = choose|k: int| 0 <= k < e.len() && e[k] == x;
                if k >= eligible(prev).len() {
                    assert(last[k - eligible(prev).len()] == x);
                    assert(groups[groups.len() - 1].1.contains(x));
                } else {
                    assert(eligible(prev).contains(x));
                    let g = choose|g: int| 0 <= g < prev.len() && prev[g].1.len() >= 2 && #[trigger] prev[g].1.contains(x);
                    assert(groups[g] == prev[g]);
                }
            } else {
                let g = choose|g: int| 0 <= g < prev.len() && prev[g].1.len() >= 2 && #[trigger] prev[g].1.contains(x);
                assert(groups[g] == prev[g]);
            }
        }
        if exists|g: int| 0 <= g < groups.len() && groups[g].1.len() >= 2 && #[trigger] groups[g].1.contains(x) {
            let g = choose|g: int| 0 <= g < groups.len() && groups[g].1.len() >= 2 && #[trigger] groups[g].1.contains(x);
            if g == groups.len() - 1 {
                let k = choose|k: int| 0 <= k < last.len() && last[k] == x;
                assert((eligible(prev) + last)[eligible(prev).len() + k] == x);
            } else {
                assert(prev[g] == groups[g]);
                assert(eligible(prev).contains(x));
                let k = choose|k: int| 0 <= k < eligible(prev).len() && eligible(prev)[k] == x;
                if last.len() >= 2 {
                    assert((eligible(prev) + last)[k] == x);
                }
            }
        }
    }
}

proof fn lemma_eligible_no_duplicates_prefix(groups: Seq<(u64, Seq<usize>)>, sizes: Seq<u64>, n: int)
    requires
        sizes_distinct(groups),
        forall|g: int, a: int, b: int|
            0 <= g < groups.len() && 0 <= a < b < groups[g].1.len() ==> groups[g].1[a] < groups[g].1[b],
        forall|g: int, a: int|
            0 <= g < groups.len() && 0 <= a < groups[g].1.len() ==> groups[g].1[a] < n
                && sizes[groups[g].1[a] as int] == groups[g].0,
    ensures
        eligible(groups).no_duplicates(),
    decreases groups.len(),
{
    if groups.len() > 0 {
        let prev = groups.drop_last();
        assert forall|g: int, a: int, b: int|
            0 <= g < prev.len() && 0 <= a < b < prev[g].1.len() implies prev[g].1[a] < prev[g].1[b] by {
            assert(prev[g] == groups[g]);
        }
        assert forall|g: int, a: int|
            0 <= g < prev.len() && 0 <= a < prev[g].1.len() implies prev[g].1[a] < n
                && sizes[prev[g].1[a] as int] == prev[g].0 by {
            assert(prev[g] == groups[g]);
        }
        lemma_eligible_no_duplicates_prefix(prev, sizes, n);
        let last = groups.last().1;
        if last.len() >= 2 {
            let e = eligible(prev);
            let l = groups.len() - 1;
            assert forall|a: int, b: int| 0 <= a < b < (e + last).len() implies (e + last)[a] != (e + last)[b] by {
                if b < e.len() {
                } else if a >= e.len() {
                    assert(last[a - e.len()] < last[b - e.len()]);
                } else {
                    let x = e[a];
                    assert(e.contains(x));
                    lemma_eligible_members(prev, x);
                    let g = choose|g: int| 0 <= g < prev.len() && prev[g].1.len() >= 2 && #[trigger] prev[g].1.contains(x);
                    let c = choose|c: int| 0 <= c < prev[g].1.len() && prev[g].1[c] == x;
                    assert(prev[g] == groups[g]);
                    assert(sizes[x as int] == groups[g].0);
                    if x == last[b - e.len()] {
                        assert(sizes[x as int] == groups[l].0);
                        assert(groups[g].0 != groups[l].0);
                    }
                }
            }
        }
    }
}

proof fn lemma_eligible(groups: Seq<(u64, Seq<usize>)>, sizes: Seq<u64>)
    requires
        indexes(groups, sizes, sizes.len() as int),
        sizes.len() <= usize::MAX,
    ensures
        eligible(groups).no_duplicates(),
        forall|k: int| 0 <= k < eligible(groups).len() ==> eligible(groups)[k] < sizes.len(),
        forall|i: int| 0 <= i < sizes.len() ==> (eligible(groups).contains(i as usize) <==> shares_size(sizes, i)),
{
    lemma_eligible_no_duplicates_prefix(groups, sizes, sizes.len() as int);
    assert forall|k: int| 0 <= k < eligible(groups).len() implies eligible(groups)[k] < sizes.len() by {
        let x = eligible(groups)[k];
        lemma_eligible_members(groups, x);
        let g = choose|g: int| 0 <= g < groups.len() && groups[g].1.len() >= 2 && #[trigger] groups[g].1.contains(x);
        let c = choose|c: int| 0 <= c < groups[g].1.len() && groups[g].1[c] == x;
    }
    assert forall|i: int| 0 <= i < sizes.len() implies (eligible(groups).contains(i as usize) <==> shares_size(sizes, i)) by {
        let x = i as usize;
        lemma_eligible_members(groups, x);
        assert(placed(groups, sizes, i));
        let gi = choose|g: int| 0 <= g < groups.len() && groups[g].0 == sizes[i] && #[trigger] groups[g].1.contains(x);
        if eligible(groups).contains(x) {
            let g = choose|g: int| 0 <= g < groups.len() && groups[g].1.len() >= 2 && #[trigger] groups[g].1.contains(x);
            let c = choose|c: int| 0 <= c < groups[g].1.len() && groups[g].1[c] == x;
            let other = if c == 0 { 1int } else { 0int };
            let j = groups[g].1[other];
            assert(groups[g].1[0] < groups[g].1[1]);
            assert(sizes[j as int] == groups[g].0);
            assert(j != x);
            assert(sizes[j as int] == sizes[i]);
        }
        if shares_size(sizes, i) {
            let j = choose|j: int| 0 <= j < sizes.len() && j != i && sizes[j] == sizes[i];
            assert(placed(groups, sizes, j));
            let gj = choose|g: int| 0 <= g < groups.len() && groups[g].0 == sizes[j] && #[trigger] groups[g].1.contains(j as usize);
            if gi != gj {
                if gi < gj {
                    assert(groups[gi].0 != groups[gj].0);
                } else {
                    assert(groups[gj].0 != groups[gi].0);
                }
            }
            let a = choose|a: int| 0 <= a < groups[gi].1.len() && groups[gi].1[a] == x;
            let b = choose|b: int| 0 <= b < groups[gi].1.len() && groups[gi].1[b] == j as usize;
            assert(x != j as usize);
            assert(a != b);
            assert(groups[gi].1.len() >= 2);
        }
    }
}

} // verus!
