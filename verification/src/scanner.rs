//! The exact-duplicate scan as a sequence of steps: the walk over the scan
//! locations feeds it the entries it finds, the files that share a size with
//! another are hashed, and the hashes then decide the duplicate groups.

use vstd::prelude::*;
use std::collections::HashMap;
use crate::groups::{
    group_by_hash, hash_position, hashes_sorted, path_texts, paths_with_hash, record_texts,
    sorted_copy_of, DuplicateGroups,
};
use crate::media::{media_kind, media_kind_of};
use crate::pathset::PathSet;
use crate::paths::path_key;
use crate::progress::{progress_at_most, ScanProgress};
use crate::sorting::{in_path_order, rearranges};
use crate::text::push_text;

verus! {

broadcast use vstd::std_specs::hash::group_hash_axioms;

/// What became of a file found by the walk.
#[derive(Clone, Copy, Debug, PartialEq, Eq, Structural)]
pub enum FileVisit {
    /// Not a known media file.
    Ignored,
    /// A media file already seen under an overlapping location.
    Repeated,
    /// A media file seen for the first time.
    Media,
}

/// The refusal of a scan without locations.
pub open spec fn no_locations_message() -> Seq<char> {
    "Select at least one scan location."@
}

/// How many of the sized files have the size `size`.
pub open spec fn size_count(sized: Seq<(u64, Seq<char>)>, size: u64) -> nat
    decreases sized.len(),
{
    if sized.len() == 0 {
        0
    } else {
        size_count(sized.drop_last(), size) + if sized.last().0 == size {
            1nat
        } else {
            0nat
        }
    }
}

/// The paths among `sized` whose size occurs at least twice in `all`, in order.
pub open spec fn shared_size_paths(sized: Seq<(u64, Seq<char>)>, all: Seq<(u64, Seq<char>)>) -> Seq<Seq<char>>
    decreases sized.len(),
{
    if sized.len() == 0 {
        Seq::empty()
    } else if size_count(all, sized.last().0) >= 2 {
        shared_size_paths(sized.drop_last(), all).push(sized.last().1)
    } else {
        shared_size_paths(sized.drop_last(), all)
    }
}

/// The duplicate groups that hash records make: one group per hash recorded with
/// two or more paths, in hash order, each listing exactly those paths, in path
/// order.
pub open spec fn duplicate_groups_of(records: Seq<(Seq<char>, Seq<char>)>, w: Seq<(Seq<char>, Seq<Seq<char>>)>) -> bool {
    &&& hashes_sorted(w)
    &&& forall|i: int| 0 <= i < w.len() ==> {
        &&& in_path_order((#[trigger] w[i]).1)
        &&& rearranges(w[i].1, paths_with_hash(records, w[i].0))
        &&& w[i].1.len() > 1
    }
    &&& forall|h: Seq<char>| #[trigger] paths_with_hash(records, h).len() > 1 ==> hash_position(w, h) is Some
}

/// The state of an exact-duplicate scan.
pub struct DuplicateScanner {
    progress: ScanProgress,
    seen: PathSet,
    sized: Vec<(u64, String)>,
    hashed: Vec<(String, String)>,
}

impl DuplicateScanner {
    /// The counters so far.
    pub closed spec fn progress_view(&self) -> ScanProgress {
        self.progress
    }

    /// The keys of the media files seen so far.
    pub closed spec fn seen_view(&self) -> Seq<Seq<char>> {
        self.seen@
    }

    /// The media files whose size was read, with their sizes, in the order found.
    pub closed spec fn sized_view(&self) -> Seq<(u64, Seq<char>)> {
        self.sized@.map_values(|e: (u64, String)| (e.0, e.1@))
    }

    /// The hashes computed so far, each with its file, in the order computed.
    pub closed spec fn records(&self) -> Seq<(Seq<char>, Seq<char>)> {
        record_texts(self.hashed@)
    }

    /// The internal sets are well formed.
    pub closed spec fn wf(&self) -> bool {
        self.seen.wf()
    }

    /// A scan of `roots`; there must be at least one.
    pub fn start(roots: &Vec<String>) -> (r: Result<Self, String>)
        ensures
            r is Ok <==> roots@.len() > 0,
            r matches Ok(s) ==> {
                &&& s.wf()
                &&& s.progress_view() == ScanProgress::zero()
                &&& s.seen_view().len() == 0
                &&& s.sized_view().len() == 0
                &&& s.records().len() == 0
            },
            r matches Err(e) ==> e@ == no_locations_message(),
    {
        if roots.len() == 0 {
            let mut e = String::new();
            push_text(&mut e, "Select at least one scan location.");
            return Err(e);
        }
        let s = DuplicateScanner {
            progress: ScanProgress::default(),
            seen: PathSet::new(),
            sized: Vec::new(),
            hashed: Vec::new(),
        };
        assert(s.sized_view() =~= Seq::<(u64, Seq<char>)>::empty());
        assert(s.records() =~= Seq::<(Seq<char>, Seq<char>)>::empty());
        Ok(s)
    }

    /// The counters so far.
    pub fn progress(&self) -> (p: ScanProgress)
        ensures
            p == self.progress_view(),
    {
        self.progress
    }

    /// The walk starts on one more location.
    pub fn begin_root(&mut self)
        requires
            old(self).progress_view().roots_started < usize::MAX,
        ensures
            final(self).progress_view() == (ScanProgress {
                roots_started: (old(self).progress_view().roots_started + 1) as usize,
                ..old(self).progress_view()
            }),
            final(self).seen_view() == old(self).seen_view(),
            final(self).sized_view() == old(self).sized_view(),
            final(self).records() == old(self).records(),
            final(self).wf() == old(self).wf(),
            progress_at_most(old(self).progress_view(), final(self).progress_view()),
    {
        self.progress.roots_started = self.progress.roots_started + 1;
    }

    /// The walk found a directory.
    pub fn visit_directory(&mut self)
        requires
            old(self).progress_view().directories_visited < usize::MAX,
        ensures
            final(self).progress_view() == (ScanProgress {
                directories_visited: (old(self).progress_view().directories_visited + 1) as usize,
                ..old(self).progress_view()
            }),
            final(self).seen_view() == old(self).seen_view(),
            final(self).sized_view() == old(self).sized_view(),
            final(self).records() == old(self).records(),
            final(self).wf() == old(self).wf(),
            progress_at_most(old(self).progress_view(), final(self).progress_view()),
    {
        self.progress.directories_visited = self.progress.directories_visited + 1;
    }

    /// The walk found the file `path`: it is counted, and a known media file not
    /// seen before is remembered and counted as media.
    pub fn visit_file(&mut self, path: String) -> (v: FileVisit)
        requires
            old(self).wf(),
            old(self).progress_view().files_visited < usize::MAX,
            old(self).progress_view().media_files_found < usize::MAX,
        ensures
            final(self).wf(),
            v == if media_kind_of(path@) is None {
                FileVisit::Ignored
            } else if old(self).seen_view().contains(path_key(path@)) {
                FileVisit::Repeated
            } else {
                FileVisit::Media
            },
            final(self).progress_view() == (ScanProgress {
                files_visited: (old(self).progress_view().files_visited + 1) as usize,
                media_files_found: (old(self).progress_view().media_files_found + if v == FileVisit::Media {
                    1int
                } else {
                    0int
                }) as usize,
                ..old(self).progress_view()
            }),
            forall|k: Seq<char>| #[trigger] final(self).seen_view().contains(k) <==> (old(self).seen_view().contains(k)
                || (v == FileVisit::Media && k == path_key(path@))),
            final(self).sized_view() == old(self).sized_view(),
            final(self).records() == old(self).records(),
            progress_at_most(old(self).progress_view(), final(self).progress_view()),
    {
        self.progress.files_visited = self.progress.files_visited + 1;
        if media_kind(path.as_str()).is_none() {
            return FileVisit::Ignored;
        }
        if !self.seen.insert(path) {
            return FileVisit::Repeated;
        }
        self.progress.media_files_found = self.progress.media_files_found + 1;
        FileVisit::Media
    }

    /// Progress is reported after a visited file that was not a repeat, once every
    /// 250 files.
    pub fn traversal_report_due(&self, visit: FileVisit) -> (r: bool)
        ensures
            r == (visit != FileVisit::Repeated && self.progress_view().files_visited % 250 == 0),
    {
        visit != FileVisit::Repeated && self.progress.files_visited % 250 == 0
    }

    /// The media file `path` has `size` bytes.
    pub fn record_size(&mut self, path: String, size: u64)
        ensures
            final(self).sized_view() == old(self).sized_view().push((size, path@)),
            final(self).progress_view() == old(self).progress_view(),
            final(self).seen_view() == old(self).seen_view(),
            final(self).records() == old(self).records(),
            final(self).wf() == old(self).wf(),
            progress_at_most(old(self).progress_view(), final(self).progress_view()),
    {
        let ghost before = self.sized@;
        self.sized.push((size, path));
        assert(self.sized_view() =~= before.map_values(|e: (u64, String)| (e.0, e.1@)).push((size, self.sized@.last().1@)));
    }

    /// The files that may have a duplicate: those whose size another file shares,
    /// in the order found. Files with a size of their own are never read.
    pub fn hash_candidates(&self) -> (r: Vec<String>)
        ensures
            path_texts(r@) == shared_size_paths(self.sized_view(), self.sized_view()),
    {
        let ghost all = self.sized_view();
        let mut counts: HashMap<u64, usize> = HashMap::new();
        let mut i: usize = 0;
        assert(all.take(0) =~= Seq::<(u64, Seq<char>)>::empty());
        while i < self.sized.len()
            invariant
                all == self.sized_view(),
                i <= self.sized.len(),
                forall|s: u64| #[trigger] counts@.contains_key(s) ==> counts@[s] == size_count(all.take(i as int), s),
                forall|s: u64| !(#[trigger] counts@.contains_key(s)) ==> size_count(all.take(i as int), s) == 0,
                forall|s: u64| #[trigger] size_count(all.take(i as int), s) <= i,
            decreases self.sized.len() - i,
        {
            let size = self.sized[i].0;
            proof {
                assert(all.take(i + 1).drop_last() =~= all.take(i as int));
                assert(all.take(i + 1).last() == all[i as int]);
                assert(all[i as int].0 == size);
                assert forall|s: u64| #[trigger] size_count(all.take(i + 1), s) <= i + 1 by {
                    assert(size_count(all.take(i as int), s) <= i);
                }
            }
            let current: usize = match counts.get(&size) {
                Some(n) => *n,
                None => 0,
            };
            assert(current == size_count(all.take(i as int), size));
            assert(current <= i);
            counts.insert(size, current + 1);
            i += 1;
        }
        assert(all.take(i as int) =~= all);
        let mut r: Vec<String> = Vec::new();
        let mut j: usize = 0;
        assert(all.take(0) =~= Seq::<(u64, Seq<char>)>::empty());
        while j < self.sized.len()
            invariant
                all == self.sized_view(),
                j <= self.sized.len(),
                forall|s: u64| #[trigger] counts@.contains_key(s) ==> counts@[s] == size_count(all, s),
                forall|s: u64| !(#[trigger] counts@.contains_key(s)) ==> size_count(all, s) == 0,
                path_texts(r@) == shared_size_paths(all.take(j as int), all),
            decreases self.sized.len() - j,
        {
            let size = self.sized[j].0;
            proof {
                assert(all.take(j + 1).drop_last() =~= all.take(j as int));
                assert(all.take(j + 1).last() == all[j as int]);
                assert(all[j as int] == (size, self.sized@[j as int].1@));
            }
            let shared = match counts.get(&size) {
                Some(n) => *n >= 2,
                None => false,
            };
            if shared {
                let ghost before = r@;
                r.push(self.sized[j].1.clone());
                assert(path_texts(r@) =~= path_texts(before).push(all[j as int].1));
            }
            j += 1;
        }
        assert(all.take(j as int) =~= all);
        r
    }

    /// The hash of `path` was computed (`Some`), or the file could not be read
    /// (`None`); either way it counts as hashed. Returns whether progress is due,
    /// once every 25 files hashed.
    pub fn record_hash(&mut self, path: String, hash: Option<String>) -> (due: bool)
        requires
            old(self).progress_view().files_hashed < usize::MAX,
        ensures
            final(self).records() == match hash {
                Some(h) => old(self).records().push((h@, path@)),
                None => old(self).records(),
            },
            final(self).progress_view() == (ScanProgress {
                files_hashed: (old(self).progress_view().files_hashed + 1) as usize,
                ..old(self).progress_view()
            }),
            due == (final(self).progress_view().files_hashed % 25 == 0),
            final(self).seen_view() == old(self).seen_view(),
            final(self).sized_view() == old(self).sized_view(),
            final(self).wf() == old(self).wf(),
            progress_at_most(old(self).progress_view(), final(self).progress_view()),
    {
        match hash {
            Some(h) => {
                let ghost before = self.hashed@;
                let ghost entry = (h@, path@);
                self.hashed.push((h, path));
                assert(record_texts(self.hashed@) =~= record_texts(before).push(entry));
            },
            None => {},
        }
        self.progress.files_hashed = self.progress.files_hashed + 1;
        self.progress.files_hashed % 25 == 0
    }

    /// Ends the scan: the duplicate groups that the hashes make, and the final
    /// counters, which now count those groups.
    pub fn finish(&self) -> (r: (DuplicateGroups, ScanProgress))
        ensures
            r.0.wf(),
            duplicate_groups_of(self.records(), r.0@),
            r.1 == (ScanProgress { duplicate_groups: r.0@.len() as usize, ..self.progress_view() }),
    {
        let grouped = group_by_hash(&self.hashed);
        let groups = grouped.keep_duplicates();
        let ghost recs = self.records();
        let ghost v = grouped@;
        let ghost w = groups@;
        proof {
            groups.lemma_sorted();
            assert forall|i: int| 0 <= i < w.len() implies {
                &&& in_path_order((#[trigger] w[i]).1)
                &&& rearranges(w[i].1, paths_with_hash(recs, w[i].0))
                &&& w[i].1.len() > 1
            } by {
                assert(sorted_copy_of(v, w[i]));
                let j = choose|j: int|
                    0 <= j < v.len() && (#[trigger] v[j]).0 == w[i].0 && v[j].1.len() > 1 && rearranges(w[i].1, v[j].1)
                        && in_path_order(w[i].1);
                assert(v[j].1 == paths_with_hash(recs, v[j].0));
            }
            assert forall|h: Seq<char>| #[trigger] paths_with_hash(recs, h).len() > 1 implies hash_position(w, h) is Some by {
                assert(paths_with_hash(recs, h).len() > 0);
                let j = hash_position(v, h)->0;
                assert(0 <= j < v.len() && v[j].0 == h);
                assert(v[j].1 == paths_with_hash(recs, v[j].0));
                assert(v[j].1.len() > 1);
            }
        }
        let mut progress = self.progress;
        progress.duplicate_groups = groups.len();
        (groups, progress)
    }
}


/// A size occurs at least once, or at least twice, among the sized files exactly
/// when one entry, or two different entries, have it.
proof fn lemma_size_count_twins(all: Seq<(u64, Seq<char>)>, x: u64)
    ensures
        size_count(all, x) >= 1 <==> exists|i: int| 0 <= i < all.len() && (#[trigger] all[i]).0 == x,
        size_count(all, x) >= 2 <==> exists|i: int, j: int|
            0 <= i < j < all.len() && (#[trigger] all[i]).0 == x && (#[trigger] all[j]).0 == x,
    decreases all.len(),
{
    if all.len() > 0 {
        let p = all.drop_last();
        let n = all.len() - 1;
        lemma_size_count_twins(p, x);
        if exists|i: int| 0 <= i < p.len() && (#[trigger] p[i]).0 == x {
            let i = choose|i: int| 0 <= i < p.len() && (#[trigger] p[i]).0 == x;
            assert(all[i] == p[i]);
        }
        if exists|i: int| 0 <= i < all.len() && (#[trigger] all[i]).0 == x {
            let i = choose|i: int| 0 <= i < all.len() && (#[trigger] all[i]).0 == x;
            if i < n {
                assert(all[i] == p[i]);
            }
        }
        if exists|i: int, j: int| 0 <= i < j < p.len() && (#[trigger] p[i]).0 == x && (#[trigger] p[j]).0 == x {
            let (i, j) = choose|i: int, j: int|
                0 <= i < j < p.len() && (#[trigger] p[i]).0 == x && (#[trigger] p[j]).0 == x;
            assert(all[i] == p[i] && all[j] == p[j]);
        }
        if size_count(p, x) >= 1 && all[n].0 == x {
            let i = choose|i: int| 0 <= i < p.len() && (#[trigger] p[i]).0 == x;
            assert(all[i] == p[i]);
            assert(0 <= i < n < all.len() && all[i].0 == x && all[n].0 == x);
        }
        if exists|i: int, j: int| 0 <= i < j < all.len() && (#[trigger] all[i]).0 == x && (#[trigger] all[j]).0 == x {
            let (i, j) = choose|i: int, j: int|
                0 <= i < j < all.len() && (#[trigger] all[i]).0 == x && (#[trigger] all[j]).0 == x;
            assert(all[i] == p[i]);
            if j < n {
                assert(all[j] == p[j]);
            }
        }
    }
}

/// The paths that the sizes let through are those of the entries whose size
/// occurs twice or more.
proof fn lemma_shared_members(sized: Seq<(u64, Seq<char>)>, all: Seq<(u64, Seq<char>)>)
    ensures
        forall|k: int|
            0 <= k < sized.len() && size_count(all, (#[trigger] sized[k]).0) >= 2
                ==> shared_size_paths(sized, all).contains(sized[k].1),
        forall|q: Seq<char>|
            #[trigger] shared_size_paths(sized, all).contains(q) ==> exists|k: int|
                0 <= k < sized.len() && (#[trigger] sized[k]).1 == q && size_count(all, sized[k].0) >= 2,
    decreases sized.len(),
{
    if sized.len() > 0 {
        let p = sized.drop_last();
        let n = sized.len() - 1;
        lemma_shared_members(p, all);
        let r = shared_size_paths(sized, all);
        let rp = shared_size_paths(p, all);
        assert forall|k: int|
            0 <= k < sized.len() && size_count(all, (#[trigger] sized[k]).0) >= 2 implies r.contains(sized[k].1) by {
            if k < n {
                assert(sized[k] == p[k]);
                let t = rp.index_of(sized[k].1);
                if size_count(all, sized.last().0) >= 2 {
                    assert(r[t] == rp[t]);
                }
            } else {
                assert(r.last() == sized[k].1);
                assert(r[r.len() - 1] == sized[k].1);
            }
        }
        assert forall|q: Seq<char>| #[trigger] r.contains(q) implies exists|k: int|
            0 <= k < sized.len() && (#[trigger] sized[k]).1 == q && size_count(all, sized[k].0) >= 2 by {
            let t = r.index_of(q);
            if size_count(all, sized.last().0) >= 2 && t == rp.len() {
                assert(sized[n].1 == q);
            } else {
                assert(rp[t] == q);
                assert(rp.contains(q));
                let k = choose|k: int| 0 <= k < p.len() && (#[trigger] p[k]).1 == q && size_count(all, p[k].0) >= 2;
                assert(sized[k] == p[k]);
            }
        }
    }
}

/// Size pre-grouping: a file is hashed exactly when another sized file has the
/// same size. Every file that shares its size with a different entry is a
/// candidate, and every candidate is the path of such an entry.
pub proof fn lemma_candidates_share_a_size(s: Seq<(u64, Seq<char>)>)
    ensures
        forall|i: int, j: int|
            0 <= i < s.len() && 0 <= j < s.len() && i != j && (#[trigger] s[i]).0 == (#[trigger] s[j]).0
                ==> shared_size_paths(s, s).contains(s[i].1),
        forall|q: Seq<char>|
            #[trigger] shared_size_paths(s, s).contains(q) ==> exists|i: int, j: int|
                0 <= i < s.len() && 0 <= j < s.len() && i != j && (#[trigger] s[i]).0 == (#[trigger] s[j]).0
                    && s[i].1 == q,
{
    lemma_shared_members(s, s);
    assert forall|i: int, j: int|
        0 <= i < s.len() && 0 <= j < s.len() && i != j && (#[trigger] s[i]).0 == (#[trigger] s[j]).0
            implies shared_size_paths(s, s).contains(s[i].1) by {
        lemma_size_count_twins(s, s[i].0);
        if i < j {
            assert(0 <= i < j < s.len() && s[i].0 == s[i].0 && s[j].0 == s[i].0);
        } else {
            assert(0 <= j < i < s.len() && s[j].0 == s[i].0 && s[i].0 == s[i].0);
        }
    }
    assert forall|q: Seq<char>| #[trigger] shared_size_paths(s, s).contains(q) implies exists|i: int, j: int|
        0 <= i < s.len() && 0 <= j < s.len() && i != j && (#[trigger] s[i]).0 == (#[trigger] s[j]).0
            && s[i].1 == q by {
        let k = choose|k: int| 0 <= k < s.len() && (#[trigger] s[k]).1 == q && size_count(s, s[k].0) >= 2;
        lemma_size_count_twins(s, s[k].0);
        let (a, b) = choose|a: int, b: int|
            0 <= a < b < s.len() && (#[trigger] s[a]).0 == s[k].0 && (#[trigger] s[b]).0 == s[k].0;
        if a != k {
            assert(s[k].0 == s[a].0 && s[k].1 == q);
        } else {
            assert(s[k].0 == s[b].0 && s[k].1 == q);
        }
    }
}

} // verus!
