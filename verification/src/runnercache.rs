use vstd::prelude::*;

use crate::runner::{Runner, RunnerV};

verus! {

/// Mathematical value of a [`CacheEntry`].
#[verifier::ext_equal]
pub ghost struct CacheEntryV {
    pub path: Seq<char>,
    pub runner: RunnerV,
}

/// One remembered choice: the runner last used in the directory at `path`.
pub struct CacheEntry {
    /// Canonical absolute path of the working directory the choice was made in.
    pub path: String,
    /// The runner to use again there.
    pub runner: Runner,
}

impl View for CacheEntry {
    type V = CacheEntryV;

    open spec fn view(&self) -> CacheEntryV {
        CacheEntryV { path: self.path@, runner: self.runner@ }
    }
}

impl DeepView for CacheEntry {
    type V = CacheEntryV;

    open spec fn deep_view(&self) -> CacheEntryV {
        self.view()
    }
}

impl Clone for CacheEntry {
    fn clone(&self) -> (r: Self)
        ensures
            r@ == self@,
    {
        CacheEntry { path: self.path.clone(), runner: self.runner.clone() }
    }
}

/// Whether no two entries of the sequence share a directory path.
pub open spec fn distinct_paths(s: Seq<CacheEntryV>) -> bool {
    forall|i: int, j: int| 0 <= i < j < s.len() ==> s[i].path != s[j].path
}

/// The mapping an entry sequence stands for: directory path to remembered
/// runner, a later entry for a path overriding an earlier one.
pub open spec fn cache_map(s: Seq<CacheEntryV>) -> Map<Seq<char>, RunnerV>
    decreases s.len(),
{
    if s.len() == 0 {
        Map::empty()
    } else {
        cache_map(s.drop_last()).insert(s.last().path, s.last().runner)
    }
}

pub proof fn lemma_cache_map_dom(s: Seq<CacheEntryV>)
    ensures
        forall|p: Seq<char>| #[trigger]
            cache_map(s).dom().contains(p) <==> (exists|i: int| 0 <= i < s.len() && s[i].path
                == p),
    decreases s.len(),
{
    if s.len() == 0 {
    } else {
        let t = s.drop_last();
        lemma_cache_map_dom(t);
        assert forall|p: Seq<char>| #[trigger] cache_map(s).dom().contains(p) implies (exists|
            i: int,
        | 0 <= i < s.len() && s[i].path == p) by {
            if p == s.last().path {
                assert(s[s.len() - 1].path == p);
            } else {
                assert(cache_map(t).dom().contains(p));
                let w = choose|w: int| 0 <= w < t.len() && t[w].path == p;
                assert(s[w].path == p);
            }
        }
        assert forall|p: Seq<char>| (exists|i: int| 0 <= i < s.len() && s[i].path == p) implies
            #[trigger] cache_map(s).dom().contains(p) by {
            let w = choose|w: int| 0 <= w < s.len() && s[w].path == p;
            if w < s.len() - 1 {
                assert(t[w].path == p);
                assert(cache_map(t).dom().contains(p));
            }
        }
    }
}

pub proof fn lemma_cache_map_get(s: Seq<CacheEntryV>, i: int)
    requires
        distinct_paths(s),
        0 <= i < s.len(),
    ensures
        cache_map(s).dom().contains(s[i].path),
        cache_map(s)[s[i].path] == s[i].runner,
    decreases s.len(),
{
    if i == s.len() - 1 {
    } else {
        let t = s.drop_last();
        assert(t[i] == s[i]);
        lemma_cache_map_get(t, i);
        assert(s[i].path != s.last().path);
    }
}

proof fn lemma_cache_map_remove(s: Seq<CacheEntryV>, i: int)
    requires
        distinct_paths(s),
        0 <= i < s.len(),
    ensures
        cache_map(s.remove(i)) == cache_map(s).remove(s[i].path),
    decreases s.len(),
{
    let p = s[i].path;
    let t = s.drop_last();
    if i == s.len() - 1 {
        assert(s.remove(i) =~= t);
        lemma_cache_map_dom(t);
        assert(!cache_map(t).dom().contains(p)) by {
            if cache_map(t).dom().contains(p) {
                let w = choose|w: int| 0 <= w < t.len() && t[w].path == p;
                assert(s[w].path == s[i].path);
            }
        }
        assert(cache_map(s).remove(p) =~= cache_map(t));
    } else {
        assert(s.remove(i) =~= t.remove(i).push(s.last()));
        assert(t.remove(i).push(s.last()).drop_last() =~= t.remove(i));
        lemma_cache_map_remove(t, i);
        assert(t[i] == s[i]);
        assert(p != s.last().path);
        assert(cache_map(t).remove(p).insert(s.last().path, s.last().runner) =~= cache_map(
            t,
        ).insert(s.last().path, s.last().runner).remove(p));
    }
}

/// The persistent per-directory store: at most one remembered runner for each
/// working directory.
pub struct RunnerCache {
    entries: Vec<CacheEntry>,
}

impl View for RunnerCache {
    type V = Seq<CacheEntryV>;

    closed spec fn view(&self) -> Seq<CacheEntryV> {
        self.entries.deep_view()
    }
}

fn find_path(entries: &Vec<CacheEntry>, p: &String) -> (r: Option<usize>)
    ensures
        match r {
            Some(i) => i < entries@.len() && entries.deep_view()[i as int].path == p@,
            None => forall|m: int| 0 <= m < entries@.len() ==> entries.deep_view()[m].path != p@,
        },
{
    let mut i: usize = 0;
    while i < entries.len()
        invariant
            i <= entries.len(),
            forall|m: int| 0 <= m < i ==> entries.deep_view()[m].path != p@,
        decreases entries.len() - i,
    {
        if entries[i].path == *p {
            proof {
                assert(entries.deep_view()[i as int].path == p@);
            }
            return Some(i);
        }
        i = i + 1;
    }
    None
}

impl RunnerCache {
    /// Whether the store is well formed: no directory appears twice.
    pub open spec fn wf(&self) -> bool {
        distinct_paths(self@)
    }

    /// The number of remembered directories.
    pub fn len(&self) -> (n: usize)
        ensures
            n == self@.len(),
    {
        self.entries.len()
    }

    /// The remembered directory paths, in entry order.
    pub fn paths(&self) -> (ps: Vec<String>)
        ensures
            ps.deep_view() == self@.map_values(|e: CacheEntryV| e.path),
    {
        let mut ps: Vec<String> = Vec::new();
        let mut i: usize = 0;
        while i < self.entries.len()
            invariant
                i <= self.entries.len(),
                ps.deep_view() == self@.take(i as int).map_values(|e: CacheEntryV| e.path),
            decreases self.entries.len() - i,
        {
            let ghost pre = ps.deep_view();
            ps.push(self.entries[i].path.clone());
            proof {
                assert(ps.deep_view() =~= pre.push(self@[i as int].path));
                assert(self@.take(i + 1).map_values(|e: CacheEntryV| e.path) =~= pre.push(
                    self@[i as int].path,
                ));
            }
            i = i + 1;
        }
        proof {
            assert(self@.take(self@.len() as int) =~= self@);
        }
        ps
    }

    /// Returns the remembered runner for the given working directory, or
    /// nothing when no entry carries that directory. A pure lookup: nothing is
    /// changed.
    pub fn try_get_runner(&self, current_dir: &String) -> (r: Option<Runner>)
        requires
            self.wf(),
        ensures
            match r {
                Some(rr) => cache_map(self@).dom().contains(current_dir@) && rr@ == cache_map(
                    self@,
                )[current_dir@],
                None => !cache_map(self@).dom().contains(current_dir@),
            },
    {
        match find_path(&self.entries, current_dir) {
            Some(i) => {
                proof {
                    lemma_cache_map_get(self@, i as int);
                }
                Some(self.entries[i].runner.clone())
            },
            None => {
                proof {
                    lemma_cache_map_dom(self@);
                }
                None
            },
        }
    }

    /// Remembers `runner` for the given working directory. A directory already
    /// present has its entry replaced entirely; any other entry is untouched.
    pub fn add_runner(&mut self, current_dir: String, runner: &Runner)
        requires
            old(self).wf(),
        ensures
            final(self).wf(),
            cache_map(final(self)@) == cache_map(old(self)@).insert(current_dir@, runner@),
    {
        let ghost s0 = self@;
        let ghost p = current_dir@;
        match find_path(&self.entries, &current_dir) {
            Some(i) => {
                self.entries.remove(i);
                proof {
                    assert(self@ =~= s0.remove(i as int));
                    lemma_cache_map_remove(s0, i as int);
                    assert(cache_map(self@) == cache_map(s0).remove(p));
                    assert forall|m: int| 0 <= m < self@.len() implies self@[m].path != p by {
                        if m < i {
                            assert(self@[m] == s0[m]);
                        } else {
                            assert(self@[m] == s0[m + 1]);
                        }
                    }
                    assert(distinct_paths(self@)) by {
                        assert forall|a: int, b: int|
                            0 <= a < b < self@.len() implies self@[a].path != self@[b].path by {
                            let a0: int = if a < i {
                                a
                            } else {
                                a + 1
                            };
                            let b0: int = if b < i {
                                b
                            } else {
                                b + 1
                            };
                            assert(self@[a] == s0[a0]);
                            assert(self@[b] == s0[b0]);
                        }
                    }
                }
            },
            None => {},
        }
        let ghost s1 = self@;
        self.entries.push(CacheEntry { path: current_dir, runner: runner.clone() });
        proof {
            assert(self@ =~= s1.push(CacheEntryV { path: p, runner: runner@ }));
            assert(self@.drop_last() =~= s1);
            assert(cache_map(self@) == cache_map(s1).insert(p, runner@));
            assert(cache_map(s1).insert(p, runner@) =~= cache_map(s0).insert(p, runner@));
            assert forall|a: int, b: int|
                0 <= a < b < self@.len() implies self@[a].path != self@[b].path by {
                if b == s1.len() {
                    assert(s1[a].path != p);
                }
            }
        }
    }
}

/// The entries whose flag is set, in order: entry `i` survives exactly when
/// `keep[i]` is true.
pub open spec fn filter_keep(s: Seq<CacheEntryV>, keep: Seq<bool>) -> Seq<CacheEntryV>
    decreases s.len(),
{
    if s.len() == 0 {
        Seq::empty()
    } else {
        let rest = filter_keep(s.drop_last(), keep.drop_last());
        if keep.last() {
            rest.push(s.last())
        } else {
            rest
        }
    }
}

/// How many flags of the sequence are false.
pub open spec fn count_false(keep: Seq<bool>) -> int
    decreases keep.len(),
{
    if keep.len() == 0 {
        0int
    } else {
        count_false(keep.drop_last()) + if keep.last() {
            0int
        } else {
            1int
        }
    }
}

proof fn lemma_filter_keep(s: Seq<CacheEntryV>, keep: Seq<bool>)
    requires
        keep.len() == s.len(),
    ensures
        filter_keep(s, keep).len() == s.len() - count_false(keep),
        forall|k: int| #![trigger filter_keep(s, keep)[k]]
            0 <= k < filter_keep(s, keep).len() ==> (exists|m: int|
                0 <= m < s.len() && filter_keep(s, keep)[k] == s[m]),
        distinct_paths(s) ==> distinct_paths(filter_keep(s, keep)),
    decreases s.len(),
{
    if s.len() == 0 {
    } else {
        let t = s.drop_last();
        let kt = keep.drop_last();
        let rest = filter_keep(t, kt);
        let f = filter_keep(s, keep);
        lemma_filter_keep(t, kt);
        assert(distinct_paths(s) ==> distinct_paths(t));
        assert forall|k: int| #![trigger f[k]] 0 <= k < f.len() implies (exists|m: int|
            0 <= m < s.len() && f[k] == s[m]) by {
            if keep.last() && k == rest.len() {
                assert(f[k] == s[s.len() - 1]);
            } else {
                assert(f[k] == rest[k]);
                assert(exists|m: int| 0 <= m < t.len() && rest[k] == t[m]);
                let m = choose|m: int| 0 <= m < t.len() && rest[k] == t[m];
                assert(f[k] == s[m]);
            }
        }
        if distinct_paths(s) {
            assert forall|a: int, b: int| 0 <= a < b < f.len() implies f[a].path != f[b].path by {
                if keep.last() && b == rest.len() {
                    assert(f[a] == rest[a]);
                    assert(exists|m: int| 0 <= m < t.len() && rest[a] == t[m]);
                    let m = choose|m: int| 0 <= m < t.len() && rest[a] == t[m];
                    assert(s[m].path != s[s.len() - 1].path);
                }
            }
        }
    }
}

impl RunnerCache {
    /// The store an explicit reset yields, independent of whatever is loaded:
    /// it remembers no directory at all.
    pub fn reset_cache() -> (c: RunnerCache)
        ensures
            c.wf(),
            c@.len() == 0,
            cache_map(c@) == Map::<Seq<char>, RunnerV>::empty(),
    {
        let c = RunnerCache { entries: Vec::new() };
        proof {
            assert(c@ =~= Seq::<CacheEntryV>::empty());
            assert(cache_map(c@) =~= Map::<Seq<char>, RunnerV>::empty());
        }
        c
    }

    /// Builds a store from parsed entries. A path occurring twice keeps its
    /// last entry, as a rewritten mapping would.
    pub fn from_entries(entries: &Vec<CacheEntry>) -> (c: RunnerCache)
        ensures
            c.wf(),
            cache_map(c@) == cache_map(entries.deep_view()),
    {
        let mut c = RunnerCache { entries: Vec::new() };
        proof {
            assert(c@ =~= Seq::<CacheEntryV>::empty());
            assert(cache_map(c@) =~= cache_map(entries.deep_view().take(0)));
        }
        let mut i: usize = 0;
        while i < entries.len()
            invariant
                i <= entries.len(),
                c.wf(),
                cache_map(c@) == cache_map(entries.deep_view().take(i as int)),
            decreases entries.len() - i,
        {
            c.add_runner(entries[i].path.clone(), &entries[i].runner);
            proof {
                assert(entries.deep_view().take(i + 1).drop_last() =~= entries.deep_view().take(
                    i as int,
                ));
                assert(entries.deep_view().take(i + 1).last() == entries.deep_view()[i as int]);
                assert(cache_map(c@) == cache_map(entries.deep_view().take(i + 1)));
            }
            i = i + 1;
        }
        proof {
            assert(entries.deep_view().take(entries@.len() as int) =~= entries.deep_view());
        }
        c
    }

    /// The store a run starts from. A missing file yields a present, empty
    /// store; a file that parsed yields the store its entries stand for; a file
    /// that exists but did not parse yields nothing - a state distinct from an
    /// empty store, so that the run can decline to overwrite the file.
    pub fn load(file_exists: bool, parsed: Option<Vec<CacheEntry>>) -> (r: Option<RunnerCache>)
        ensures
            r is None <==> (file_exists && parsed is None),
            !file_exists ==> (r matches Some(c) && c.wf() && c@.len() == 0 && cache_map(c@)
                == Map::<Seq<char>, RunnerV>::empty()),
            file_exists ==> (parsed matches Some(es) ==> (r matches Some(c) && c.wf() && cache_map(
                c@,
            ) == cache_map(es.deep_view()))),
    {
        if !file_exists {
            return Some(Self::reset_cache());
        }
        match parsed {
            Some(es) => Some(Self::from_entries(&es)),
            None => None,
        }
    }

    /// Drops every entry whose flag is false - the caller sets `keep[i]` to
    /// whether the directory of entry `i` still exists - and returns how many
    /// entries were dropped. Entries whose flag is true survive unchanged, in
    /// order.
    pub fn clean_cache(&mut self, keep: &Vec<bool>) -> (removed: u32)
        requires
            old(self).wf(),
            keep@.len() == old(self)@.len(),
            old(self)@.len() <= u32::MAX,
        ensures
            final(self).wf(),
            final(self)@ == filter_keep(old(self)@, keep@),
            removed == count_false(keep@),
            final(self)@.len() == old(self)@.len() - removed,
    {
        let ghost s0 = self@;
        let mut kept: Vec<CacheEntry> = Vec::new();
        let mut removed: u32 = 0;
        let mut i: usize = 0;
        proof {
            assert(kept.deep_view() =~= filter_keep(s0.take(0), keep@.take(0)));
        }
        while i < self.entries.len()
            invariant
                i <= self.entries.len(),
                self@ == s0,
                keep@.len() == s0.len(),
                s0.len() <= u32::MAX,
                kept.deep_view() == filter_keep(s0.take(i as int), keep@.take(i as int)),
                removed == count_false(keep@.take(i as int)),
                removed <= i,
            decreases self.entries.len() - i,
        {
            let ghost pre = kept.deep_view();
            if keep[i] {
                kept.push(self.entries[i].clone());
                proof {
                    assert(kept.deep_view() =~= pre.push(s0[i as int]));
                }
            } else {
                removed = removed + 1;
            }
            proof {
                assert(s0.take(i + 1).drop_last() =~= s0.take(i as int));
                assert(keep@.take(i + 1).drop_last() =~= keep@.take(i as int));
                assert(s0.take(i + 1).last() == s0[i as int]);
                assert(keep@.take(i + 1).last() == keep@[i as int]);
                assert(kept.deep_view() == filter_keep(s0.take(i + 1), keep@.take(i + 1)));
                assert(removed == count_false(keep@.take(i + 1)));
            }
            i = i + 1;
        }
        proof {
            assert(s0.take(s0.len() as int) =~= s0);
            assert(keep@.take(keep@.len() as int) =~= keep@);
            lemma_filter_keep(s0, keep@);
        }
        self.entries = kept;
        removed
    }
}

/// Putting a runner for a directory and reading that directory back yields
/// exactly the runner just put; a second put for the same directory replaces
/// the first entry entirely, every field of it.
pub proof fn lemma_put_then_get(
    m: Map<Seq<char>, RunnerV>,
    dir: Seq<char>,
    r1: RunnerV,
    r2: RunnerV,
)
    ensures
        m.insert(dir, r1).dom().contains(dir),
        m.insert(dir, r1)[dir] == r1,
        m.insert(dir, r1).insert(dir, r2) == m.insert(dir, r2),
{
    assert(m.insert(dir, r1).insert(dir, r2) =~= m.insert(dir, r2));
}

} // verus!
