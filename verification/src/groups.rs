//! Exact-duplicate groups: files grouped by content hash, the selection rules that
//! decide which files an action may touch, and the text reports.

use vstd::prelude::*;
use crate::pathset::PathSet;
use crate::sorting::{in_path_order, rearranges, sort_paths};
use crate::paths::path_key;
use crate::text::{
    chars_before, chars_of, decimal, lemma_chars_before_asymmetric, lemma_chars_before_irreflexive,
    lemma_chars_before_transitive,
    order_chars, push_count, push_text, KeyOrder,
};

verus! {

/// One group of files with identical content.
#[derive(Clone, Debug)]
pub struct DuplicateGroup {
    /// The SHA-256 hash of the files' content, in lower-case hex.
    pub hash: String,
    /// The paths of the files.
    pub paths: Vec<String>,
}

/// The texts of a list of paths.
pub open spec fn path_texts(v: Seq<String>) -> Seq<Seq<char>> {
    v.map_values(|p: String| p@)
}

/// A group as plain values: its hash and its paths.
pub open spec fn group_view(g: DuplicateGroup) -> (Seq<char>, Seq<Seq<char>>) {
    (g.hash@, path_texts(g.paths@))
}

/// Duplicate paths grouped by content hash, in increasing hash order
/// (`BTreeMap<String, Vec<PathBuf>>`).
#[derive(Debug)]
pub struct DuplicateGroups {
    groups: Vec<DuplicateGroup>,
}

/// Hashes in strictly increasing order.
pub open spec fn hashes_sorted(v: Seq<(Seq<char>, Seq<Seq<char>>)>) -> bool {
    forall|a: int, b: int| 0 <= a < b < v.len() ==> chars_before(#[trigger] v[a].0, #[trigger] v[b].0)
}

/// Position of `hash` among the groups, if present.
pub open spec fn hash_position(v: Seq<(Seq<char>, Seq<Seq<char>>)>, hash: Seq<char>) -> Option<int> {
    if exists|k: int| 0 <= k < v.len() && (#[trigger] v[k]).0 == hash {
        Some(choose|k: int| 0 <= k < v.len() && (#[trigger] v[k]).0 == hash)
    } else {
        None
    }
}

impl View for DuplicateGroups {
    /// The groups, each as its hash and the texts of its paths, in hash order.
    type V = Seq<(Seq<char>, Seq<Seq<char>>)>;

    closed spec fn view(&self) -> Seq<(Seq<char>, Seq<Seq<char>>)> {
        self.groups@.map_values(|g: DuplicateGroup| group_view(g))
    }
}

impl DuplicateGroups {
    /// Hashes are in strictly increasing order.
    #[verifier::type_invariant]
    pub closed spec fn wf(&self) -> bool {
        hashes_sorted(self@)
    }

    /// A well-formed value has its hashes in strictly increasing order.
    pub proof fn lemma_sorted(&self)
        requires
            self.wf(),
        ensures
            hashes_sorted(self@),
    {
    }

    /// No groups.
    pub fn new() -> (g: Self)
        ensures
            g.wf(),
            g@ == Seq::<(Seq<char>, Seq<Seq<char>>)>::empty(),
    {
        let g = DuplicateGroups { groups: Vec::new() };
        assert(g@ =~= Seq::<(Seq<char>, Seq<Seq<char>>)>::empty());
        g
    }

    /// The number of groups.
    pub fn len(&self) -> (n: usize)
        ensures
            n == self@.len(),
    {
        self.groups.len()
    }

    /// There are no groups.
    pub fn is_empty(&self) -> (r: bool)
        ensures
            r == (self@.len() == 0),
    {
        self.groups.len() == 0
    }

    /// The groups, in hash order.
    pub fn groups(&self) -> (v: &Vec<DuplicateGroup>)
        ensures
            v@.map_values(|g: DuplicateGroup| group_view(g)) == self@,
    {
        &self.groups
    }

    /// Position where `hash` is or would be.
    fn locate(&self, hash: &Vec<char>) -> (r: (usize, bool))
        requires
            self.wf(),
        ensures
            r.0 <= self@.len(),
            r.1 ==> r.0 < self@.len() && self@[r.0 as int].0 == hash@,
            !r.1 ==> hash_position(self@, hash@) is None,
            forall|k: int| 0 <= k < r.0 ==> chars_before(#[trigger] self@[k].0, hash@),
            forall|k: int| r.0 <= k < self@.len() ==> (r.1 || chars_before(hash@, #[trigger] self@[k].0)),
    {
        let ghost v = self@;
        let mut lo: usize = 0;
        let mut hi: usize = self.groups.len();
        while lo < hi
            invariant
                v == self@,
                hashes_sorted(v),
                lo <= hi <= self.groups.len() == v.len(),
                forall|k: int| 0 <= k < lo ==> chars_before(#[trigger] v[k].0, hash@),
                forall|k: int| hi <= k < v.len() ==> chars_before(hash@, #[trigger] v[k].0),
            decreases hi - lo,
        {
            let mid = lo + (hi - lo) / 2;
            let mid_hash = chars_of(self.groups[mid].hash.as_str());
            assert(v[mid as int].0 == mid_hash@);
            match order_chars(&mid_hash, hash) {
                KeyOrder::Same => {
                    proof {
                        assert forall|k: int| 0 <= k < mid implies chars_before(#[trigger] v[k].0, hash@) by {
                            assert(chars_before(v[k].0, v[mid as int].0));
                        }
                    }
                    return (mid, true);
                },
                KeyOrder::Before => {
                    proof {
                        assert forall|k: int| 0 <= k < mid + 1 implies chars_before(#[trigger] v[k].0, hash@) by {
                            if k < mid {
                                assert(chars_before(v[k].0, v[mid as int].0));
                                lemma_chars_before_transitive(v[k].0, v[mid as int].0, hash@);
                            }
                        }
                    }
                    lo = mid + 1;
                },
                KeyOrder::After => {
                    proof {
                        assert forall|k: int| mid <= k < v.len() implies chars_before(hash@, #[trigger] v[k].0) by {
                            if k > mid {
                                assert(chars_before(v[mid as int].0, v[k].0));
                                lemma_chars_before_transitive(hash@, v[mid as int].0, v[k].0);
                            }
                        }
                    }
                    hi = mid;
                },
            }
        }
        proof {
            if exists|k: int| 0 <= k < v.len() && (#[trigger] v[k]).0 == hash@ {
                let k = choose|k: int| 0 <= k < v.len() && (#[trigger] v[k]).0 == hash@;
                lemma_chars_before_irreflexive(hash@);
            }
        }
        (lo, false)
    }

    /// The paths of the group with `hash`, if there is one.
    pub fn get(&self, hash: &str) -> (paths: Option<&Vec<String>>)
        requires
            self.wf(),
        ensures
            match paths {
                Some(p) => exists|k: int| 0 <= k < self@.len() && self@[k].0 == hash@ && #[trigger] self@[k].1 == path_texts(p@),
                None => hash_position(self@, hash@) is None,
            },
    {
        let key = chars_of(hash);
        let (pos, found) = self.locate(&key);
        if found {
            let p = &self.groups[pos].paths;
            assert(self@[pos as int] == group_view(self.groups@[pos as int]));
            assert(self@[pos as int].1 == path_texts(p@));
            Some(p)
        } else {
            None
        }
    }

    /// Sets the paths of the group with `hash`, returning the paths it replaced
    /// (`BTreeMap::insert`).
    pub fn insert(&mut self, hash: String, paths: Vec<String>) -> (replaced: Option<Vec<String>>)
        requires
            old(self).wf(),
        ensures
            final(self).wf(),
            final(self)@ == groups_insert(old(self)@, hash@, path_texts(paths@)),
            match hash_position(old(self)@, hash@) {
                Some(k) => replaced matches Some(r) && path_texts(r@) == old(self)@[k].1,
                None => replaced is None,
            },
    {
        let key = chars_of(hash.as_str());
        let (pos, found) = self.locate(&key);
        let ghost old_v = self@;
        let ghost entry = (hash@, path_texts(paths@));
        let group = DuplicateGroup { hash, paths };
        assert(group_view(group) == entry);
        let mut groups: Vec<DuplicateGroup> = Vec::new();
        std::mem::swap(&mut groups, &mut self.groups);
        if found {
            let mut group = group;
            std::mem::swap(&mut groups[pos], &mut group);
            proof {
                let nv = groups@.map_values(|g: DuplicateGroup| group_view(g));
                lemma_hash_position_unique(old_v, pos as int);
                assert(nv =~= old_v.update(pos as int, entry));
                assert(group_view(group) == old_v[pos as int]);
                assert forall|a: int, b: int| 0 <= a < b < nv.len() implies chars_before(
                    #[trigger] nv[a].0,
                    #[trigger] nv[b].0,
                ) by {
                    assert(chars_before(old_v[a].0, old_v[b].0));
                }
            }
            self.groups = groups;
            Some(group.paths)
        } else {
            groups.insert(pos, group);
            proof {
                let nv = groups@.map_values(|g: DuplicateGroup| group_view(g));
                assert forall|k: int| pos <= k < old_v.len() implies !chars_before(#[trigger] old_v[k].0, entry.0) by {
                    lemma_chars_before_asymmetric(entry.0, old_v[k].0);
                }
                lemma_lower_bound(old_v, entry.0, pos as int);
                assert(nv =~= old_v.insert(pos as int, entry));
                assert forall|a: int, b: int| 0 <= a < b < nv.len() implies chars_before(
                    #[trigger] nv[a].0,
                    #[trigger] nv[b].0,
                ) by {
                    if b < pos {
                        assert(chars_before(old_v[a].0, old_v[b].0));
                    } else if b == pos {
                        assert(chars_before(old_v[a].0, entry.0));
                    } else if a == pos {
                        assert(chars_before(entry.0, old_v[b - 1].0));
                    } else if a < pos {
                        assert(chars_before(old_v[a].0, old_v[b - 1].0));
                    } else {
                        assert(chars_before(old_v[a - 1].0, old_v[b - 1].0));
                    }
                }
            }
            self.groups = groups;
            None
        }
    }

    /// Adds `path` to the group with `hash`, creating the group when there is none
    /// (`entry(hash).or_default().push(path)`).
    pub fn push_path(&mut self, hash: String, path: String)
        requires
            old(self).wf(),
        ensures
            final(self).wf(),
            final(self)@ == groups_push(old(self)@, hash@, path@),
    {
        let key = chars_of(hash.as_str());
        let (pos, found) = self.locate(&key);
        let ghost old_v = self@;
        let mut groups: Vec<DuplicateGroup> = Vec::new();
        std::mem::swap(&mut groups, &mut self.groups);
        if found {
            let mut group = DuplicateGroup { hash: String::new(), paths: Vec::new() };
            std::mem::swap(&mut groups[pos], &mut group);
            let ghost before = group_view(group);
            assert(before == old_v[pos as int]);
            group.paths.push(path);
            let ghost entry = group_view(group);
            assert(entry.1 =~= before.1.push(path@));
            std::mem::swap(&mut groups[pos], &mut group);
            proof {
                let nv = groups@.map_values(|g: DuplicateGroup| group_view(g));
                lemma_hash_position_unique(old_v, pos as int);
                assert(nv =~= old_v.update(pos as int, (hash@, old_v[pos as int].1.push(path@))));
                assert forall|a: int, b: int| 0 <= a < b < nv.len() implies chars_before(
                    #[trigger] nv[a].0,
                    #[trigger] nv[b].0,
                ) by {
                    assert(chars_before(old_v[a].0, old_v[b].0));
                }
            }
            self.groups = groups;
        } else {
            let mut paths: Vec<String> = Vec::new();
            paths.push(path);
            let group = DuplicateGroup { hash, paths };
            let ghost entry = group_view(group);
            assert(entry.1 =~= seq![path@]);
            groups.insert(pos, group);
            proof {
                let nv = groups@.map_values(|g: DuplicateGroup| group_view(g));
                assert forall|k: int| pos <= k < old_v.len() implies !chars_before(#[trigger] old_v[k].0, entry.0) by {
                    lemma_chars_before_asymmetric(entry.0, old_v[k].0);
                }
                lemma_lower_bound(old_v, entry.0, pos as int);
                assert(nv =~= old_v.insert(pos as int, entry));
                assert forall|a: int, b: int| 0 <= a < b < nv.len() implies chars_before(
                    #[trigger] nv[a].0,
                    #[trigger] nv[b].0,
                ) by {
                    if b < pos {
                        assert(chars_before(old_v[a].0, old_v[b].0));
                    } else if b == pos {
                        assert(chars_before(old_v[a].0, entry.0));
                    } else if a == pos {
                        assert(chars_before(entry.0, old_v[b - 1].0));
                    } else if a < pos {
                        assert(chars_before(old_v[a].0, old_v[b - 1].0));
                    } else {
                        assert(chars_before(old_v[a - 1].0, old_v[b - 1].0));
                    }
                }
            }
            self.groups = groups;
        }
    }

    /// The groups with two or more paths, in hash order, each with its paths sorted
    /// into path order.
    pub fn keep_duplicates(&self) -> (w: DuplicateGroups)
        requires
            self.wf(),
        ensures
            w.wf(),
            forall|i: int| 0 <= i < w@.len() ==> sorted_copy_of(self@, #[trigger] w@[i]),
            forall|j: int| 0 <= j < self@.len() && (#[trigger] self@[j]).1.len() > 1 ==> hash_position(w@, self@[j].0) is Some,
    {
        let ghost v = self@;
        let mut out: Vec<DuplicateGroup> = Vec::new();
        let ghost mut idx: Seq<int> = Seq::empty();
        let mut k: usize = 0;
        while k < self.groups.len()
            invariant
                v == self@,
                hashes_sorted(v),
                k <= self.groups.len(),
                idx.len() == out.len(),
                forall|a: int, b: int| 0 <= a < b < idx.len() ==> #[trigger] idx[a] < #[trigger] idx[b],
                forall|i: int| 0 <= i < idx.len() ==> {
                    let j = #[trigger] idx[i];
                    &&& 0 <= j < k
                    &&& group_view(out@[i]).0 == v[j].0
                    &&& v[j].1.len() > 1
                    &&& rearranges(group_view(out@[i]).1, v[j].1)
                    &&& in_path_order(group_view(out@[i]).1)
                },
                forall|j: int| 0 <= j < k && (#[trigger] v[j]).1.len() > 1 ==> exists|i: int| 0 <= i < idx.len() && idx[i] == j,
            decreases self.groups.len() - k,
        {
            let group = &self.groups[k];
            assert(v[k as int] == group_view(*group));
            if group.paths.len() > 1 {
                let sorted = sort_paths(&group.paths);
                let entry = DuplicateGroup { hash: group.hash.clone(), paths: sorted };
                let ghost old_idx = idx;
                out.push(entry);
                proof {
                    idx = idx.push(k as int);
                    assert forall|i: int| 0 <= i < idx.len() implies {
                        let j = #[trigger] idx[i];
                        &&& 0 <= j < k + 1
                        &&& group_view(out@[i]).0 == v[j].0
                        &&& v[j].1.len() > 1
                        &&& rearranges(group_view(out@[i]).1, v[j].1)
                        &&& in_path_order(group_view(out@[i]).1)
                    } by {
                        if i < old_idx.len() {
                            assert(idx[i] == old_idx[i]);
                            assert(out@[i] == out@.drop_last()[i]);
                        }
                    }
                    assert forall|j: int| 0 <= j < k + 1 && (#[trigger] v[j]).1.len() > 1 implies exists|i: int| 0 <= i < idx.len() && idx[i] == j by {
                        if j == k {
                            assert(idx[idx.len() - 1] == j);
                        } else {
                            let i = choose|i: int| 0 <= i < old_idx.len() && old_idx[i] == j;
                            assert(idx[i] == j);
                        }
                    }
                }
            }
            k += 1;
        }
        let ghost wv = out@.map_values(|g: DuplicateGroup| group_view(g));
        proof {
            assert forall|a: int, b: int| 0 <= a < b < wv.len() implies chars_before(#[trigger] wv[a].0, #[trigger] wv[b].0) by {
                assert(wv[a] == group_view(out@[a]));
                assert(wv[b] == group_view(out@[b]));
                assert(idx[a] < idx[b]);
                assert(chars_before(v[idx[a]].0, v[idx[b]].0));
            }
        }
        let w = DuplicateGroups { groups: out };
        proof {
            assert forall|i: int| 0 <= i < w@.len() implies sorted_copy_of(v, #[trigger] w@[i]) by {
                assert(w@[i] == group_view(out@[i]));
                let j = idx[i];
                assert(0 <= j < v.len());
                assert(w@[i].0 == v[j].0 && v[j].1.len() > 1 && rearranges(w@[i].1, v[j].1) && in_path_order(w@[i].1));
                assert(v[j] == self@[j]);
            }
            assert forall|j: int| 0 <= j < v.len() && (#[trigger] v[j]).1.len() > 1 implies hash_position(w@, v[j].0) is Some by {
                let i = choose|i: int| 0 <= i < idx.len() && idx[i] == j;
                assert(w@[i] == group_view(out@[i]));
                assert(w@[i].0 == v[j].0);
            }
        }
        w
    }

    /// Groups built by inserting each entry in turn, so that a later entry for the
    /// same hash replaces an earlier one (`BTreeMap::from`).
    pub fn from_entries(entries: Vec<(String, Vec<String>)>) -> (g: Self)
        ensures
            g.wf(),
            g@ == groups_from(entries@.map_values(|e: (String, Vec<String>)| (e.0@, path_texts(e.1@)))),
    {
        let mut g = DuplicateGroups::new();
        let ghost all = entries@.map_values(|e: (String, Vec<String>)| (e.0@, path_texts(e.1@)));
        let ghost n = all.len();
        let ghost orig = entries@;
        let mut src = entries;
        let mut rest: Vec<(String, Vec<String>)> = Vec::new();
        while src.len() > 0
            invariant
                orig.len() == n,
                rest.len() + src.len() == n,
                forall|k: int| 0 <= k < src.len() ==> #[trigger] src@[k] == orig[k],
                forall|k: int| 0 <= k < rest.len() ==> #[trigger] rest@[k] == orig[n - 1 - k],
            decreases src.len(),
        {
            let e = src.pop().unwrap();
            rest.push(e);
        }
        assert forall|k: int| 0 <= k < rest@.len() implies (#[trigger] rest@[k]).0@ == all[n - 1 - k].0 && path_texts(rest@[k].1@) == all[n - 1 - k].1 by {
            assert(rest@[k] == orig[n - 1 - k]);
        }
        let mut i: usize = 0;
        assert(all.take(0) =~= Seq::<(Seq<char>, Seq<Seq<char>>)>::empty());
        while rest.len() > 0
            invariant
                g.wf(),
                n == all.len(),
                n <= usize::MAX,
                i <= n,
                rest@.len() == n - i,
                forall|k: int| 0 <= k < rest@.len() ==> (#[trigger] rest@[k]).0@ == all[n - 1 - k].0 && path_texts(rest@[k].1@) == all[n - 1 - k].1,
                g@ == groups_from(all.take(i as int)),
            decreases rest.len(),
        {
            let ghost last = rest@.len() - 1;
            let (hash, paths) = rest.pop().unwrap();
            assert(hash@ == all[i as int].0 && path_texts(paths@) == all[i as int].1);
            let _ = g.insert(hash, paths);
            proof {
                assert(all.take(i + 1).drop_last() =~= all.take(i as int));
                assert(all.take(i + 1).last() == all[i as int]);
            }
            i = i + 1;
        }
        assert(all.take(i as int) =~= all);
        g
    }
}

/// Number of groups whose hash sorts before `hash` (in a sorted sequence, the
/// position at which `hash` belongs).
pub open spec fn lower_bound(v: Seq<(Seq<char>, Seq<Seq<char>>)>, hash: Seq<char>) -> int
    decreases v.len(),
{
    if v.len() == 0 {
        0
    } else if chars_before(v.last().0, hash) {
        v.len() as int
    } else {
        lower_bound(v.drop_last(), hash)
    }
}

/// Sets the paths for `hash`: replaced in place when the hash is present,
/// otherwise added at its sorted position.
pub open spec fn groups_insert(v: Seq<(Seq<char>, Seq<Seq<char>>)>, hash: Seq<char>, paths: Seq<Seq<char>>) -> Seq<(Seq<char>, Seq<Seq<char>>)> {
    match hash_position(v, hash) {
        Some(k) => v.update(k, (hash, paths)),
        None => v.insert(lower_bound(v, hash), (hash, paths)),
    }
}

/// `g` is a group of `v` with two or more paths, its paths sorted into path order.
pub open spec fn sorted_copy_of(v: Seq<(Seq<char>, Seq<Seq<char>>)>, g: (Seq<char>, Seq<Seq<char>>)) -> bool {
    exists|j: int|
        0 <= j < v.len() && (#[trigger] v[j]).0 == g.0 && v[j].1.len() > 1 && rearranges(g.1, v[j].1)
            && in_path_order(g.1)
}

/// Adds `path` to the group of `hash`: appended when the group exists, otherwise a
/// new group at the hash's sorted position.
pub open spec fn groups_push(v: Seq<(Seq<char>, Seq<Seq<char>>)>, hash: Seq<char>, path: Seq<char>) -> Seq<(Seq<char>, Seq<Seq<char>>)> {
    match hash_position(v, hash) {
        Some(k) => v.update(k, (hash, v[k].1.push(path))),
        None => v.insert(lower_bound(v, hash), (hash, seq![path])),
    }
}

/// The groups that inserting each entry in order produces, starting from none.
pub open spec fn groups_from(entries: Seq<(Seq<char>, Seq<Seq<char>>)>) -> Seq<(Seq<char>, Seq<Seq<char>>)>
    decreases entries.len(),
{
    if entries.len() == 0 {
        Seq::empty()
    } else {
        groups_insert(groups_from(entries.drop_last()), entries.last().0, entries.last().1)
    }
}

proof fn lemma_lower_bound(v: Seq<(Seq<char>, Seq<Seq<char>>)>, hash: Seq<char>, pos: int)
    requires
        0 <= pos <= v.len(),
        forall|k: int| 0 <= k < pos ==> chars_before(#[trigger] v[k].0, hash),
        forall|k: int| pos <= k < v.len() ==> !chars_before(#[trigger] v[k].0, hash),
    ensures
        lower_bound(v, hash) == pos,
    decreases v.len(),
{
    if v.len() > 0 && pos < v.len() {
        assert(!chars_before(v[v.len() - 1].0, hash));
        lemma_lower_bound(v.drop_last(), hash, pos);
    }
}

pub proof fn lemma_hash_position_unique(v: Seq<(Seq<char>, Seq<Seq<char>>)>, k: int)
    requires
        hashes_sorted(v),
        0 <= k < v.len(),
    ensures
        hash_position(v, v[k].0) == Some(k),
{
    let h = v[k].0;
    assert(exists|j: int| 0 <= j < v.len() && (#[trigger] v[j]).0 == h);
    let c = hash_position(v, h)->0;
    assert(0 <= c < v.len() && v[c].0 == h);
    if c < k {
        assert(chars_before(v[c].0, v[k].0));
        lemma_chars_before_irreflexive(h);
    } else if c > k {
        assert(chars_before(v[k].0, v[c].0));
        lemma_chars_before_irreflexive(h);
    }
}

/// The paths of `paths` that `set` holds, in order.
pub open spec fn paths_in(paths: Seq<Seq<char>>, set: Seq<Seq<char>>) -> Seq<Seq<char>>
    decreases paths.len(),
{
    if paths.len() == 0 {
        Seq::empty()
    } else if set.contains(path_key(paths.last())) {
        paths_in(paths.drop_last(), set).push(paths.last())
    } else {
        paths_in(paths.drop_last(), set)
    }
}

/// The paths of `paths` that `set` does not hold, in order.
pub open spec fn paths_not_in(paths: Seq<Seq<char>>, set: Seq<Seq<char>>) -> Seq<Seq<char>>
    decreases paths.len(),
{
    if paths.len() == 0 {
        Seq::empty()
    } else if set.contains(path_key(paths.last())) {
        paths_not_in(paths.drop_last(), set)
    } else {
        paths_not_in(paths.drop_last(), set).push(paths.last())
    }
}

/// Over all groups in order, the paths that `set` holds.
pub open spec fn group_paths_in(v: Seq<(Seq<char>, Seq<Seq<char>>)>, set: Seq<Seq<char>>) -> Seq<Seq<char>>
    decreases v.len(),
{
    if v.len() == 0 {
        Seq::empty()
    } else {
        group_paths_in(v.drop_last(), set) + paths_in(v.last().1, set)
    }
}

/// Over all groups in order, the paths that `set` does not hold.
pub open spec fn group_paths_not_in(v: Seq<(Seq<char>, Seq<Seq<char>>)>, set: Seq<Seq<char>>) -> Seq<Seq<char>>
    decreases v.len(),
{
    if v.len() == 0 {
        Seq::empty()
    } else {
        group_paths_not_in(v.drop_last(), set) + paths_not_in(v.last().1, set)
    }
}

/// `set` holds some path of the group.
pub open spec fn holds_some(paths: Seq<Seq<char>>, set: Seq<Seq<char>>) -> bool {
    exists|i: int| 0 <= i < paths.len() && set.contains(path_key(#[trigger] paths[i]))
}

/// `set` holds every path of the group.
pub open spec fn holds_all(paths: Seq<Seq<char>>, set: Seq<Seq<char>>) -> bool {
    forall|i: int| 0 <= i < paths.len() ==> set.contains(path_key(#[trigger] paths[i]))
}

/// The message given when an action would leave a group without any copy.
pub open spec fn keeper_required_message() -> Seq<char> {
    "Each duplicate group must retain at least one item."@
}

pub(crate) fn keeper_required() -> (m: String)
    ensures
        m@ == keeper_required_message(),
{
    String::from_str("Each duplicate group must retain at least one item.")
}

/// Appends to `out` the paths of `paths` that `set` holds (`inside`) or does not
/// hold (`!inside`); returns whether `set` holds some path, and whether it holds all.
pub(crate) fn collect_paths(paths: &Vec<String>, set: &PathSet, inside: bool, out: &mut Vec<String>) -> (r: (bool, bool))
    requires
        set.wf(),
    ensures
        r.0 == holds_some(path_texts(paths@), set@),
        r.1 == holds_all(path_texts(paths@), set@),
        path_texts(final(out)@) == path_texts(old(out)@) + (if inside {
            paths_in(path_texts(paths@), set@)
        } else {
            paths_not_in(path_texts(paths@), set@)
        }),
{
    let ghost pv = path_texts(paths@);
    let ghost start = path_texts(out@);
    let mut some = false;
    let mut all = true;
    let mut j: usize = 0;
    while j < paths.len()
        invariant
            set.wf(),
            pv == path_texts(paths@),
            j <= paths.len(),
            some == holds_some(pv.take(j as int), set@),
            all == holds_all(pv.take(j as int), set@),
            path_texts(out@) == start + (if inside {
                paths_in(pv.take(j as int), set@)
            } else {
                paths_not_in(pv.take(j as int), set@)
            }),
        decreases paths.len() - j,
    {
        let held = set.contains(paths[j].as_str());
        let ghost before_out = out@;
        if held == inside {
            out.push(paths[j].clone());
        }
        proof {
            let t = pv.take(j + 1);
            assert(t.drop_last() =~= pv.take(j as int));
            assert(t.last() == paths@[j as int]@);
            assert(path_texts(out@) =~= path_texts(before_out) + (if held == inside {
                seq![paths@[j as int]@]
            } else {
                Seq::empty()
            }));
            if held {
                assert(t[j as int] == pv[j as int]);
            }
            assert(holds_some(t, set@) == (some || held)) by {
                if holds_some(t, set@) && !held {
                    let i = choose|i: int| 0 <= i < t.len() && set@.contains(path_key(#[trigger] t[i]));
                    assert(i < j);
                    assert(pv.take(j as int)[i] == t[i]);
                }
                if some {
                    let i = choose|i: int| 0 <= i < j && set@.contains(path_key(#[trigger] pv.take(j as int)[i]));
                    assert(t[i] == pv.take(j as int)[i]);
                }
            }
            assert(holds_all(t, set@) == (all && held)) by {
                if all && held {
                    assert forall|i: int| 0 <= i < t.len() implies set@.contains(path_key(#[trigger] t[i])) by {
                        if i < j {
                            assert(t[i] == pv.take(j as int)[i]);
                        }
                    }
                }
                if holds_all(t, set@) {
                    assert forall|i: int| 0 <= i < j implies set@.contains(path_key(#[trigger] pv.take(j as int)[i])) by {
                        assert(t[i] == pv.take(j as int)[i]);
                    }
                    assert(set@.contains(path_key(t[j as int])));
                }
            }
        }
        some = some || held;
        all = all && held;
        j += 1;
    }
    assert(pv.take(j as int) =~= pv);
    (some, all)
}

/// Returns the paths that may be actioned: all unkept files, only when every group
/// retains a keeper.
pub fn unkept_duplicate_paths(groups: &DuplicateGroups, kept: &PathSet) -> (r: Result<Vec<String>, String>)
    requires
        kept.wf(),
    ensures
        r is Ok <==> forall|k: int| 0 <= k < groups@.len() ==> holds_some(#[trigger] groups@[k].1, kept@),
        r matches Ok(paths) ==> path_texts(paths@) == group_paths_not_in(groups@, kept@),
        r matches Err(e) ==> e@ == keeper_required_message(),
{
    let gs = groups.groups();
    let ghost v = groups@;
    let mut unkept: Vec<String> = Vec::new();
    let mut k: usize = 0;
    assert(v.take(0) =~= Seq::<(Seq<char>, Seq<Seq<char>>)>::empty());
    while k < gs.len()
        invariant
            kept.wf(),
            gs@.map_values(|g: DuplicateGroup| group_view(g)) == v,
            v == groups@,
            k <= gs.len(),
            forall|i: int| 0 <= i < k ==> holds_some(#[trigger] v[i].1, kept@),
            path_texts(unkept@) == group_paths_not_in(v.take(k as int), kept@),
        decreases gs.len() - k,
    {
        assert(v[k as int] == group_view(gs@[k as int]));
        let (some, _) = collect_paths(&gs[k].paths, kept, false, &mut unkept);
        if !some {
            assert(!holds_some(v[k as int].1, kept@));
            return Err(keeper_required());
        }
        proof {
            assert(v.take(k + 1).drop_last() =~= v.take(k as int));
        }
        k += 1;
    }
    assert(v.take(k as int) =~= v);
    Ok(unkept)
}

/// Returns the explicitly selected duplicate paths, when every group still retains
/// a copy. The selection stays empty for the safe default in which every file is kept.
pub fn selected_duplicate_paths(groups: &DuplicateGroups, selected: &PathSet) -> (r: Result<Vec<String>, String>)
    requires
        selected.wf(),
    ensures
        r is Ok <==> forall|k: int| 0 <= k < groups@.len() ==> !holds_all(#[trigger] groups@[k].1, selected@),
        r matches Ok(paths) ==> path_texts(paths@) == group_paths_in(groups@, selected@),
        r matches Err(e) ==> e@ == keeper_required_message(),
{
    let gs = groups.groups();
    let ghost v = groups@;
    let mut k: usize = 0;
    while k < gs.len()
        invariant
            selected.wf(),
            gs@.map_values(|g: DuplicateGroup| group_view(g)) == v,
            v == groups@,
            k <= gs.len(),
            forall|i: int| 0 <= i < k ==> !holds_all(#[trigger] v[i].1, selected@),
        decreases gs.len() - k,
    {
        assert(v[k as int] == group_view(gs@[k as int]));
        let mut scratch: Vec<String> = Vec::new();
        let (_, all) = collect_paths(&gs[k].paths, selected, true, &mut scratch);
        if all {
            assert(holds_all(v[k as int].1, selected@));
            return Err(keeper_required());
        }
        k += 1;
    }
    let mut chosen: Vec<String> = Vec::new();
    let mut k: usize = 0;
    assert(v.take(0) =~= Seq::<(Seq<char>, Seq<Seq<char>>)>::empty());
    while k < gs.len()
        invariant
            selected.wf(),
            gs@.map_values(|g: DuplicateGroup| group_view(g)) == v,
            v == groups@,
            k <= gs.len(),
            path_texts(chosen@) == group_paths_in(v.take(k as int), selected@),
        decreases gs.len() - k,
    {
        assert(v[k as int] == group_view(gs@[k as int]));
        let _ = collect_paths(&gs[k].paths, selected, true, &mut chosen);
        proof {
            assert(v.take(k + 1).drop_last() =~= v.take(k as int));
        }
        k += 1;
    }
    assert(v.take(k as int) =~= v);
    Ok(chosen)
}


proof fn lemma_group_kept_selected(p: Seq<Seq<char>>, kept: Seq<Seq<char>>, selected: Seq<Seq<char>>)
    requires
        forall|i: int| 0 <= i < p.len() ==> (kept.contains(path_key(#[trigger] p[i])) <==> !selected.contains(path_key(p[i]))),
    ensures
        paths_not_in(p, kept) == paths_in(p, selected),
        holds_some(p, kept) <==> !holds_all(p, selected),
    decreases p.len(),
{
    if p.len() > 0 {
        assert forall|i: int| 0 <= i < p.drop_last().len() implies (kept.contains(path_key(#[trigger] p.drop_last()[i])) <==> !selected.contains(path_key(p.drop_last()[i]))) by {
            assert(p.drop_last()[i] == p[i]);
        }
        lemma_group_kept_selected(p.drop_last(), kept, selected);
        assert(p.last() == p[p.len() - 1]);
    }
    if holds_some(p, kept) {
        let i = choose|i: int| 0 <= i < p.len() && kept.contains(path_key(#[trigger] p[i]));
        assert(!selected.contains(path_key(p[i])));
    }
    if !holds_all(p, selected) {
        let i = choose|i: int| 0 <= i < p.len() && !selected.contains(path_key(#[trigger] p[i]));
        assert(kept.contains(path_key(p[i])));
    }
}

/// A choice can be recorded as the copies kept or as the copies selected for an
/// action. When each path of the groups is kept exactly when it is not selected,
/// the two records agree: every group keeps a copy under one exactly when it does
/// under the other, and the paths left unkept are the paths selected, in the same
/// order.
pub proof fn lemma_kept_and_selected_agree(
    v: Seq<(Seq<char>, Seq<Seq<char>>)>,
    kept: Seq<Seq<char>>,
    selected: Seq<Seq<char>>,
)
    requires
        forall|a: int, i: int|
            0 <= a < v.len() && 0 <= i < v[a].1.len() ==> (kept.contains(path_key(#[trigger] v[a].1[i]))
                <==> !selected.contains(path_key(v[a].1[i]))),
    ensures
        (forall|k: int| 0 <= k < v.len() ==> holds_some(#[trigger] v[k].1, kept)) <==> (forall|k: int|
            0 <= k < v.len() ==> !holds_all(#[trigger] v[k].1, selected)),
        group_paths_not_in(v, kept) == group_paths_in(v, selected),
    decreases v.len(),
{
    assert forall|k: int| 0 <= k < v.len() implies (holds_some(#[trigger] v[k].1, kept) <==> !holds_all(v[k].1, selected)) by {
        assert forall|i: int| 0 <= i < v[k].1.len() implies (kept.contains(path_key(#[trigger] v[k].1[i])) <==> !selected.contains(path_key(v[k].1[i]))) by {}
        lemma_group_kept_selected(v[k].1, kept, selected);
    }
    if v.len() > 0 {
        assert forall|a: int, i: int|
            0 <= a < v.drop_last().len() && 0 <= i < v.drop_last()[a].1.len() implies (kept.contains(path_key(#[trigger] v.drop_last()[a].1[i]))
                <==> !selected.contains(path_key(v.drop_last()[a].1[i]))) by {
            assert(v.drop_last()[a] == v[a]);
        }
        lemma_kept_and_selected_agree(v.drop_last(), kept, selected);
        let l = v.len() - 1;
        assert forall|i: int| 0 <= i < v[l].1.len() implies (kept.contains(path_key(#[trigger] v[l].1[i])) <==> !selected.contains(path_key(v[l].1[i]))) by {}
        lemma_group_kept_selected(v[l].1, kept, selected);
    }
}


/// The paths recorded with `hash`, in the order recorded.
pub open spec fn paths_with_hash(records: Seq<(Seq<char>, Seq<char>)>, hash: Seq<char>) -> Seq<Seq<char>>
    decreases records.len(),
{
    if records.len() == 0 {
        Seq::empty()
    } else if records.last().0 == hash {
        paths_with_hash(records.drop_last(), hash).push(records.last().1)
    } else {
        paths_with_hash(records.drop_last(), hash)
    }
}

/// The groups hold, for each recorded hash, the paths recorded with it, in order.
pub open spec fn grouped(v: Seq<(Seq<char>, Seq<Seq<char>>)>, records: Seq<(Seq<char>, Seq<char>)>) -> bool {
    &&& forall|k: int| 0 <= k < v.len() ==> (#[trigger] v[k]).1 == paths_with_hash(records, v[k].0)
    &&& forall|k: int| 0 <= k < v.len() ==> (#[trigger] v[k]).1.len() > 0
    &&& forall|h: Seq<char>| #[trigger] paths_with_hash(records, h).len() > 0 ==> hash_position(v, h) is Some
}

proof fn lemma_grouped_push(
    v: Seq<(Seq<char>, Seq<Seq<char>>)>,
    records: Seq<(Seq<char>, Seq<char>)>,
    hash: Seq<char>,
    path: Seq<char>,
)
    requires
        hashes_sorted(v),
        grouped(v, records),
    ensures
        grouped(groups_push(v, hash, path), records.push((hash, path))),
{
    let r2 = records.push((hash, path));
    let w = groups_push(v, hash, path);
    assert(r2.drop_last() =~= records);
    assert forall|x: Seq<char>| #[trigger] paths_with_hash(r2, x) == if x == hash {
        paths_with_hash(records, x).push(path)
    } else {
        paths_with_hash(records, x)
    } by {
        assert(r2.last() == (hash, path));
    }
    match hash_position(v, hash) {
        Some(k0) => {
            assert(0 <= k0 < v.len() && v[k0].0 == hash);
            assert(w == v.update(k0, (hash, v[k0].1.push(path))));
            assert forall|k: int| 0 <= k < w.len() implies (#[trigger] w[k]).1 == paths_with_hash(r2, w[k].0) && w[k].1.len() > 0 by {
                if k != k0 {
                    assert(w[k] == v[k]);
                    if v[k].0 == hash {
                        lemma_hash_position_unique(v, k);
                    }
                    assert(v[k].1 == paths_with_hash(records, v[k].0));
                } else {
                    assert(v[k0].1 == paths_with_hash(records, hash));
                }
            }
            assert forall|h: Seq<char>| #[trigger] paths_with_hash(r2, h).len() > 0 implies hash_position(w, h) is Some by {
                if h == hash {
                    assert(w[k0].0 == h);
                } else {
                    assert(paths_with_hash(r2, h) == paths_with_hash(records, h));
                    let j = hash_position(v, h)->0;
                    assert(0 <= j < v.len() && v[j].0 == h);
                    assert(j != k0);
                    assert(w[j].0 == h);
                }
            }
        },
        None => {
            let lb = lower_bound(v, hash);
            lemma_lower_bound_bounds(v, hash);
            assert(w == v.insert(lb, (hash, seq![path])));
            if paths_with_hash(records, hash).len() > 0 {
                assert(hash_position(v, hash) is Some);
            }
            assert(paths_with_hash(records, hash).len() == 0);
            assert forall|k: int| 0 <= k < w.len() implies (#[trigger] w[k]).1 == paths_with_hash(r2, w[k].0) && w[k].1.len() > 0 by {
                if k < lb {
                    assert(w[k] == v[k]);
                    assert(v[k].0 != hash);
                    assert(v[k].1 == paths_with_hash(records, v[k].0));
                } else if k == lb {
                    assert(w[k] == (hash, seq![path]));
                    assert(paths_with_hash(records, hash) =~= Seq::<Seq<char>>::empty());
                    assert(paths_with_hash(r2, hash) =~= seq![path]);
                } else {
                    assert(w[k] == v[k - 1]);
                    assert(v[k - 1].0 != hash);
                    assert(v[k - 1].1 == paths_with_hash(records, v[k - 1].0));
                }
            }
            assert forall|h: Seq<char>| #[trigger] paths_with_hash(r2, h).len() > 0 implies hash_position(w, h) is Some by {
                if h == hash {
                    assert(w[lb].0 == h);
                } else {
                    assert(paths_with_hash(r2, h) == paths_with_hash(records, h));
                    let j = hash_position(v, h)->0;
                    assert(0 <= j < v.len() && v[j].0 == h);
                    if j < lb {
                        assert(w[j].0 == h);
                    } else {
                        assert(w[j + 1].0 == h);
                    }
                }
            }
        },
    }
}

proof fn lemma_lower_bound_bounds(v: Seq<(Seq<char>, Seq<Seq<char>>)>, hash: Seq<char>)
    ensures
        0 <= lower_bound(v, hash) <= v.len(),
    decreases v.len(),
{
    if v.len() > 0 {
        lemma_lower_bound_bounds(v.drop_last(), hash);
    }
}

/// The hash records as plain values.
pub open spec fn record_texts(records: Seq<(String, String)>) -> Seq<(Seq<char>, Seq<char>)> {
    records.map_values(|r: (String, String)| (r.0@, r.1@))
}

/// Groups the recorded paths by hash: one group per hash, holding its paths in the
/// order recorded.
pub fn group_by_hash(records: &Vec<(String, String)>) -> (g: DuplicateGroups)
    ensures
        g.wf(),
        grouped(g@, record_texts(records@)),
{
    let ghost all = record_texts(records@);
    let mut g = DuplicateGroups::new();
    let mut i: usize = 0;
    assert(all.take(0) =~= Seq::<(Seq<char>, Seq<char>)>::empty());
    while i < records.len()
        invariant
            all == record_texts(records@),
            i <= records.len(),
            g.wf(),
            grouped(g@, all.take(i as int)),
        decreases records.len() - i,
    {
        let hash = records[i].0.clone();
        let path = records[i].1.clone();
        proof {
            g.lemma_sorted();
            lemma_grouped_push(g@, all.take(i as int), hash@, path@);
            assert(all.take(i + 1) =~= all.take(i as int).push((hash@, path@)));
        }
        g.push_path(hash, path);
        i += 1;
    }
    assert(all.take(i as int) =~= all);
    g
}


/// In hash order no hash occurs twice.
proof fn lemma_sorted_hashes_distinct(v: Seq<(Seq<char>, Seq<Seq<char>>)>, a: int, b: int)
    requires
        hashes_sorted(v),
        0 <= a < v.len(),
        0 <= b < v.len(),
        a != b,
    ensures
        v[a].0 != v[b].0,
{
    if a < b {
        assert(chars_before(v[a].0, v[b].0));
    } else {
        assert(chars_before(v[b].0, v[a].0));
    }
    lemma_chars_before_irreflexive(v[a].0);
}

/// What a change to the group of `hash` does: the group of `hash` becomes
/// `(hash, paths)`, every other group stays as it was, and the count grows by one
/// exactly when `hash` had no group.
proof fn lemma_set_group(
    v: Seq<(Seq<char>, Seq<Seq<char>>)>,
    hash: Seq<char>,
    paths: Seq<Seq<char>>,
    w: Seq<(Seq<char>, Seq<Seq<char>>)>,
)
    requires
        hashes_sorted(v),
        w == match hash_position(v, hash) {
            Some(k) => v.update(k, (hash, paths)),
            None => v.insert(lower_bound(v, hash), (hash, paths)),
        },
    ensures
        exists|k: int| 0 <= k < w.len() && w[k] == (hash, paths),
        forall|k: int| 0 <= k < w.len() && (#[trigger] w[k]).0 == hash ==> w[k].1 == paths,
        forall|g: (Seq<char>, Seq<Seq<char>>)|
            g.0 != hash ==> (w.contains(g) <==> v.contains(g)),
        w.len() == v.len() + if hash_position(v, hash) is Some { 0int } else { 1int },
{
    match hash_position(v, hash) {
        Some(k) => {
            assert(w[k] == (hash, paths));
            assert forall|j: int| 0 <= j < w.len() && (#[trigger] w[j]).0 == hash implies w[j].1 == paths by {
                if j != k {
                    lemma_sorted_hashes_distinct(v, j, k);
                }
            }
            assert forall|g: (Seq<char>, Seq<Seq<char>>)| g.0 != hash implies (w.contains(g) <==> v.contains(g)) by {
                if w.contains(g) {
                    let j = w.index_of(g);
                    assert(j != k);
                    assert(v[j] == g);
                }
                if v.contains(g) {
                    let j = v.index_of(g);
                    assert(j != k);
                    assert(w[j] == g);
                }
            }
        },
        None => {
            lemma_lower_bound_bounds(v, hash);
            let pos = lower_bound(v, hash);
            assert(w[pos] == (hash, paths));
            assert forall|j: int| 0 <= j < w.len() && (#[trigger] w[j]).0 == hash implies w[j].1 == paths by {
                if j < pos {
                    assert(w[j] == v[j]);
                } else if j > pos {
                    assert(w[j] == v[j - 1]);
                }
            }
            assert forall|g: (Seq<char>, Seq<Seq<char>>)| g.0 != hash implies (w.contains(g) <==> v.contains(g)) by {
                if w.contains(g) {
                    let j = w.index_of(g);
                    if j < pos {
                        assert(v[j] == g);
                    } else {
                        assert(j != pos);
                        assert(v[j - 1] == g);
                    }
                }
                if v.contains(g) {
                    let j = v.index_of(g);
                    if j < pos {
                        assert(w[j] == g);
                    } else {
                        assert(w[j + 1] == g);
                    }
                }
            }
        },
    }
}

/// Reading back what was written: after the paths of `hash` are set, the group of
/// `hash` holds exactly those paths, every other group is unchanged, and a new
/// hash adds one group.
pub proof fn lemma_insert_then_read(v: Seq<(Seq<char>, Seq<Seq<char>>)>, hash: Seq<char>, paths: Seq<Seq<char>>)
    requires
        hashes_sorted(v),
    ensures
        exists|k: int| 0 <= k < groups_insert(v, hash, paths).len() && groups_insert(v, hash, paths)[k] == (hash, paths),
        forall|k: int|
            0 <= k < groups_insert(v, hash, paths).len() && (#[trigger] groups_insert(v, hash, paths)[k]).0 == hash
                ==> groups_insert(v, hash, paths)[k].1 == paths,
        forall|g: (Seq<char>, Seq<Seq<char>>)|
            g.0 != hash ==> (#[trigger] groups_insert(v, hash, paths).contains(g) <==> v.contains(g)),
        groups_insert(v, hash, paths).len() == v.len() + if hash_position(v, hash) is Some { 0int } else { 1int },
{
    lemma_set_group(v, hash, paths, groups_insert(v, hash, paths));
}

/// Adding a path to the group of `hash` appends it to that group's paths (or
/// starts the group with it), and leaves every other group unchanged.
pub proof fn lemma_push_then_read(v: Seq<(Seq<char>, Seq<Seq<char>>)>, hash: Seq<char>, path: Seq<char>)
    requires
        hashes_sorted(v),
    ensures
        ({
            let before = match hash_position(v, hash) {
                Some(k) => v[k].1,
                None => Seq::<Seq<char>>::empty(),
            };
            &&& exists|k: int| 0 <= k < groups_push(v, hash, path).len() && groups_push(v, hash, path)[k] == (hash, before.push(path))
            &&& forall|k: int|
                0 <= k < groups_push(v, hash, path).len() && (#[trigger] groups_push(v, hash, path)[k]).0 == hash
                    ==> groups_push(v, hash, path)[k].1 == before.push(path)
        }),
        forall|g: (Seq<char>, Seq<Seq<char>>)|
            g.0 != hash ==> (#[trigger] groups_push(v, hash, path).contains(g) <==> v.contains(g)),
{
    let before = match hash_position(v, hash) {
        Some(k) => v[k].1,
        None => Seq::<Seq<char>>::empty(),
    };
    if hash_position(v, hash) is None {
        assert(before.push(path) =~= seq![path]);
    }
    lemma_set_group(v, hash, before.push(path), groups_push(v, hash, path));
}

} // verus!
