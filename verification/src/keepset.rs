//! A review that records the kept copies explicitly: every path that is not kept is
//! an action candidate.

use vstd::prelude::*;
use crate::groups::{
    group_view, holds_some, path_texts, paths_not_in, group_paths_not_in, DuplicateGroup,
    DuplicateGroups,
};
use crate::pathset::PathSet;
use crate::paths::path_key;
use crate::reports::{extra_copies, groups_nonempty, lemma_sums_prefix, total_paths};
use crate::review::{origin_listed, paths_distinct};

verus! {

/// When `set` holds every path of the groups, no path is left out of it.
proof fn lemma_none_left(v: Seq<(Seq<char>, Seq<Seq<char>>)>, set: Seq<Seq<char>>)
    requires
        forall|a: int, i: int| 0 <= a < v.len() && 0 <= i < v[a].1.len() ==> set.contains(path_key(#[trigger] v[a].1[i])),
    ensures
        group_paths_not_in(v, set).len() == 0,
    decreases v.len(),
{
    if v.len() > 0 {
        assert forall|a: int, i: int| 0 <= a < v.drop_last().len() && 0 <= i < v.drop_last()[a].1.len() implies set.contains(path_key(#[trigger] v.drop_last()[a].1[i])) by {
            assert(v.drop_last()[a] == v[a]);
        }
        lemma_none_left(v.drop_last(), set);
        lemma_group_none_left(v.last().1, set);
    }
}

proof fn lemma_group_none_left(p: Seq<Seq<char>>, set: Seq<Seq<char>>)
    requires
        forall|i: int| 0 <= i < p.len() ==> set.contains(path_key(#[trigger] p[i])),
    ensures
        paths_not_in(p, set).len() == 0,
    decreases p.len(),
{
    if p.len() > 0 {
        assert(set.contains(path_key(p[p.len() - 1])));
        assert forall|i: int| 0 <= i < p.drop_last().len() implies set.contains(path_key(#[trigger] p.drop_last()[i])) by {
            assert(p.drop_last()[i] == p[i]);
        }
        lemma_group_none_left(p.drop_last(), set);
    }
}

/// A group whose first path alone is held leaves out all its other paths.
proof fn lemma_group_all_but_first(p: Seq<Seq<char>>, set: Seq<Seq<char>>)
    requires
        p.len() > 0,
        set.contains(path_key(p[0])),
        forall|i: int| 1 <= i < p.len() ==> !set.contains(path_key(#[trigger] p[i])),
    ensures
        paths_not_in(p, set).len() == p.len() - 1,
    decreases p.len(),
{
    assert(p.last() == p[p.len() - 1]);
    if p.len() > 1 {
        assert(!set.contains(path_key(p[p.len() - 1])));
        assert forall|i: int| 1 <= i < p.drop_last().len() implies !set.contains(path_key(#[trigger] p.drop_last()[i])) by {
            assert(p.drop_last()[i] == p[i]);
        }
        assert(p.drop_last()[0] == p[0]);
        lemma_group_all_but_first(p.drop_last(), set);
    } else {
        assert(set.contains(path_key(p.last())));
        assert(p.drop_last().len() == 0);
        assert(paths_not_in(p.drop_last(), set).len() == 0);
    }
}

/// With only the first path of each group held, and all paths distinct, the
/// paths left out are the extra copies.
proof fn lemma_extra_left(v: Seq<(Seq<char>, Seq<Seq<char>>)>, all: Seq<(Seq<char>, Seq<Seq<char>>)>, set: Seq<Seq<char>>)
    requires
        v.len() <= all.len(),
        forall|a: int| 0 <= a < v.len() ==> #[trigger] v[a] == all[a],
        paths_distinct(all),
        forall|k: Seq<char>| #[trigger] set.contains(k) <==> exists|a: int|
            0 <= a < all.len() && all[a].1.len() > 0 && k == path_key(#[trigger] all[a].1[0]),
    ensures
        group_paths_not_in(v, set).len() == extra_copies(v),
    decreases v.len(),
{
    if v.len() > 0 {
        let g = v.len() - 1;
        assert forall|a: int| 0 <= a < v.drop_last().len() implies #[trigger] v.drop_last()[a] == all[a] by {
            assert(v.drop_last()[a] == v[a]);
        }
        lemma_extra_left(v.drop_last(), all, set);
        let p = v.last().1;
        assert(p == all[g].1);
        if p.len() > 0 {
            assert(set.contains(path_key(p[0])));
            assert forall|i: int| 1 <= i < p.len() implies !set.contains(path_key(#[trigger] p[i])) by {
                if set.contains(path_key(p[i])) {
                    let a = choose|a: int| 0 <= a < all.len() && all[a].1.len() > 0 && path_key(p[i]) == path_key(#[trigger] all[a].1[0]);
                    assert(path_key(all[g].1[i]) != path_key(all[a].1[0]));
                }
            }
            lemma_group_all_but_first(p, set);
        }
    }
}

/// A review in which the kept copies are listed; every other copy is an action
/// candidate.
pub struct KeepSetReview {
    groups: DuplicateGroups,
    kept: PathSet,
    roots: Vec<String>,
}

impl KeepSetReview {
    /// The groups under review.
    pub closed spec fn groups_view(&self) -> Seq<(Seq<char>, Seq<Seq<char>>)> {
        self.groups@
    }

    /// The keys of the kept paths.
    pub closed spec fn kept_view(&self) -> Seq<Seq<char>> {
        self.kept@
    }

    /// The scanned locations.
    pub closed spec fn roots_view(&self) -> Seq<Seq<char>> {
        path_texts(self.roots@)
    }

    /// The kept set is well formed.
    pub closed spec fn wf(&self) -> bool {
        self.kept.wf()
    }

    /// A review of `groups` in which nothing is kept yet.
    pub fn new(groups: DuplicateGroups) -> (r: Self)
        ensures
            r.wf(),
            r.groups_view() == groups@,
            r.kept_view() == Seq::<Seq<char>>::empty(),
            r.roots_view() == Seq::<Seq<char>>::empty(),
    {
        let r = KeepSetReview { groups, kept: PathSet::new(), roots: Vec::new() };
        assert(path_texts(r.roots@) =~= Seq::<Seq<char>>::empty());
        r
    }

    /// The number of groups.
    pub fn group_count(&self) -> (n: usize)
        ensures
            n == self.groups_view().len(),
    {
        self.groups.len()
    }

    /// The number of kept paths.
    pub fn kept_count(&self) -> (n: usize)
        requires
            self.wf(),
        ensures
            n == self.kept_view().len(),
    {
        self.kept.len()
    }

    /// The number of files in all groups.
    pub fn total_files(&self) -> (n: usize)
        requires
            total_paths(self.groups_view()) <= usize::MAX,
        ensures
            n == total_paths(self.groups_view()),
    {
        let gs = self.groups.groups();
        let ghost v = self.groups@;
        let mut total: usize = 0;
        let mut k: usize = 0;
        assert(v.take(0) =~= Seq::<(Seq<char>, Seq<Seq<char>>)>::empty());
        while k < gs.len()
            invariant
                gs@.map_values(|g: DuplicateGroup| group_view(g)) == v,
                total_paths(v) <= usize::MAX,
                k <= gs.len(),
                total == total_paths(v.take(k as int)),
            decreases gs.len() - k,
        {
            assert(v[k as int] == group_view(gs@[k as int]));
            proof {
                assert(v.take(k + 1).drop_last() =~= v.take(k as int));
                lemma_sums_prefix(v, k + 1);
            }
            total = total + gs[k].paths.len();
            k += 1;
        }
        assert(v.take(k as int) =~= v);
        total
    }

    /// The number of copies beyond the first in each group.
    pub fn extra_copies(&self) -> (n: usize)
        requires
            total_paths(self.groups_view()) <= usize::MAX,
        ensures
            n == extra_copies(self.groups_view()),
    {
        let gs = self.groups.groups();
        let ghost v = self.groups@;
        let mut extra: usize = 0;
        let mut k: usize = 0;
        assert(v.take(0) =~= Seq::<(Seq<char>, Seq<Seq<char>>)>::empty());
        while k < gs.len()
            invariant
                gs@.map_values(|g: DuplicateGroup| group_view(g)) == v,
                total_paths(v) <= usize::MAX,
                k <= gs.len(),
                extra == extra_copies(v.take(k as int)),
            decreases gs.len() - k,
        {
            assert(v[k as int] == group_view(gs@[k as int]));
            proof {
                assert(v.take(k + 1).drop_last() =~= v.take(k as int));
                lemma_sums_prefix(v, k + 1);
            }
            extra = extra + gs[k].paths.len().saturating_sub(1);
            k += 1;
        }
        assert(v.take(k as int) =~= v);
        extra
    }

    /// The number of files that are not kept.
    pub fn action_count(&self) -> (n: usize)
        requires
            self.wf(),
            total_paths(self.groups_view()) <= usize::MAX,
        ensures
            n == group_paths_not_in(self.groups_view(), self.kept_view()).len(),
    {
        let gs = self.groups.groups();
        let ghost v = self.groups@;
        let ghost set = self.kept@;
        let mut count: usize = 0;
        let mut k: usize = 0;
        assert(v.take(0) =~= Seq::<(Seq<char>, Seq<Seq<char>>)>::empty());
        while k < gs.len()
            invariant
                self.wf(),
                gs@.map_values(|g: DuplicateGroup| group_view(g)) == v,
                set == self.kept@,
                total_paths(v) <= usize::MAX,
                k <= gs.len(),
                count == group_paths_not_in(v.take(k as int), set).len(),
                count <= total_paths(v.take(k as int)),
            decreases gs.len() - k,
        {
            assert(v[k as int] == group_view(gs@[k as int]));
            let paths = &gs[k].paths;
            let ghost p = v[k as int].1;
            let ghost before = count;
            proof {
                assert(v.take(k + 1).drop_last() =~= v.take(k as int));
                lemma_sums_prefix(v, k + 1);
            }
            let mut j: usize = 0;
            assert(p.take(0) =~= Seq::<Seq<char>>::empty());
            while j < paths.len()
                invariant
                    self.wf(),
                    set == self.kept@,
                    p == path_texts(paths@),
                    j <= paths.len(),
                    count == before + paths_not_in(p.take(j as int), set).len(),
                    paths_not_in(p.take(j as int), set).len() <= j,
                    before <= total_paths(v.take(k as int)),
                    total_paths(v.take(k + 1)) == total_paths(v.take(k as int)) + p.len(),
                    total_paths(v.take(k + 1)) <= usize::MAX,
                decreases paths.len() - j,
            {
                proof {
                    assert(p.take(j + 1).drop_last() =~= p.take(j as int));
                    assert(p.take(j + 1).last() == p[j as int]);
                }
                if !self.kept.contains(paths[j].as_str()) {
                    count = count + 1;
                }
                j += 1;
            }
            assert(p.take(j as int) =~= p);
            k += 1;
        }
        assert(v.take(k as int) =~= v);
        count
    }

    /// Keeps every copy.
    pub fn keep_all(&mut self)
        requires
            old(self).wf(),
        ensures
            final(self).wf(),
            final(self).groups_view() == old(self).groups_view(),
            final(self).roots_view() == old(self).roots_view(),
            forall|k: Seq<char>| #[trigger] final(self).kept_view().contains(k) <==> exists|a: int, j: int|
                0 <= a < old(self).groups_view().len() && 0 <= j < old(self).groups_view()[a].1.len()
                    && k == path_key(#[trigger] old(self).groups_view()[a].1[j]),
            group_paths_not_in(final(self).groups_view(), final(self).kept_view()).len() == 0,
            groups_nonempty(final(self).groups_view()) ==> forall|k: int|
                0 <= k < final(self).groups_view().len() ==> holds_some(
                    #[trigger] final(self).groups_view()[k].1,
                    final(self).kept_view(),
                ),
    {
        let gs = self.groups.groups();
        let ghost v = self.groups@;
        let mut all: Vec<String> = Vec::new();
        let ghost mut origins: Seq<(int, int)> = Seq::empty();
        let mut k: usize = 0;
        while k < gs.len()
            invariant
                gs@.map_values(|g: DuplicateGroup| group_view(g)) == v,
                k <= gs.len(),
                all.len() == origins.len(),
                forall|e: int| 0 <= e < all.len() ==> {
                    let o = #[trigger] origins[e];
                    &&& 0 <= o.0 < k
                    &&& 0 <= o.1 < v[o.0].1.len()
                    &&& all@[e]@ == v[o.0].1[o.1]
                },
                forall|a: int, j: int| 0 <= a < k && 0 <= j < v[a].1.len() ==> #[trigger] origin_listed(origins, a, j),
            decreases gs.len() - k,
        {
            assert(v[k as int] == group_view(gs@[k as int]));
            let paths = &gs[k].paths;
            let mut i: usize = 0;
            while i < paths.len()
                invariant
                    gs@.map_values(|g: DuplicateGroup| group_view(g)) == v,
                    v[k as int].1 == path_texts(paths@),
                    k < gs.len(),
                    i <= paths.len(),
                    all.len() == origins.len(),
                    forall|e: int| 0 <= e < all.len() ==> {
                        let o = #[trigger] origins[e];
                        &&& (0 <= o.0 < k || (o.0 == k && 0 <= o.1 < i))
                        &&& 0 <= o.1 < v[o.0].1.len()
                        &&& all@[e]@ == v[o.0].1[o.1]
                    },
                    forall|a: int, j: int| ((0 <= a < k && 0 <= j < v[a].1.len()) || (a == k && 0 <= j < i))
                        ==> #[trigger] origin_listed(origins, a, j),
                decreases paths.len() - i,
            {
                all.push(paths[i].clone());
                proof {
                    let old_origins = origins;
                    origins = origins.push((k as int, i as int));
                    assert(all@[all.len() - 1]@ == v[k as int].1[i as int]);
                    assert forall|e: int| 0 <= e < all.len() implies {
                        let o = #[trigger] origins[e];
                        &&& (0 <= o.0 < k || (o.0 == k && 0 <= o.1 < i + 1))
                        &&& 0 <= o.1 < v[o.0].1.len()
                        &&& all@[e]@ == v[o.0].1[o.1]
                    } by {
                        if e < old_origins.len() {
                            assert(origins[e] == old_origins[e]);
                            assert(all@[e] == all@.drop_last()[e]);
                        }
                    }
                    assert forall|a: int, j: int| ((0 <= a < k && 0 <= j < v[a].1.len()) || (a == k && 0 <= j < i + 1))
                        implies #[trigger] origin_listed(origins, a, j) by {
                        if a == k && j == i {
                            assert(origins[origins.len() - 1] == (a, j));
                        } else {
                            assert(origin_listed(old_origins, a, j));
                            let e = choose|e: int| 0 <= e < old_origins.len() && old_origins[e] == (a, j);
                            assert(origins[e] == (a, j));
                        }
                    }
                }
                i += 1;
            }
            k += 1;
        }
        self.kept = PathSet::from_paths(&all);
        proof {
            let set = self.kept@;
            assert forall|key: Seq<char>| #[trigger] set.contains(key) <==> exists|a: int, j: int|
                0 <= a < v.len() && 0 <= j < v[a].1.len() && key == path_key(#[trigger] v[a].1[j]) by {
                if set.contains(key) {
                    let e = choose|e: int| 0 <= e < all.len() && key == path_key(#[trigger] all@[e]@);
                    let o = origins[e];
                    assert(key == path_key(v[o.0].1[o.1]));
                }
                if exists|a: int, j: int| 0 <= a < v.len() && 0 <= j < v[a].1.len() && key == path_key(#[trigger] v[a].1[j]) {
                    let (a, j) = choose|a: int, j: int| 0 <= a < v.len() && 0 <= j < v[a].1.len() && key == path_key(#[trigger] v[a].1[j]);
                    assert(origin_listed(origins, a, j));
                    let e = choose|e: int| 0 <= e < origins.len() && origins[e] == (a, j);
                    assert(key == path_key(all@[e]@));
                }
            }
            assert forall|a: int, i: int| 0 <= a < v.len() && 0 <= i < v[a].1.len() implies set.contains(path_key(#[trigger] v[a].1[i])) by {
                assert(origin_listed(origins, a, i));
                let e = choose|e: int| 0 <= e < origins.len() && origins[e] == (a, i);
                assert(path_key(v[a].1[i]) == path_key(all@[e]@));
            }
            lemma_none_left(v, set);
            if groups_nonempty(v) {
                assert forall|g: int| 0 <= g < v.len() implies holds_some(#[trigger] v[g].1, set) by {
                    assert(v[g].1.len() > 0);
                    assert(set.contains(path_key(v[g].1[0])));
                }
            }
        }
    }

    /// Keeps the first copy in each group and nothing else.
    pub fn keep_first_in_each_group(&mut self)
        requires
            old(self).wf(),
        ensures
            final(self).wf(),
            final(self).groups_view() == old(self).groups_view(),
            final(self).roots_view() == old(self).roots_view(),
            forall|k: Seq<char>| #[trigger] final(self).kept_view().contains(k) <==> exists|a: int|
                0 <= a < old(self).groups_view().len() && old(self).groups_view()[a].1.len() > 0
                    && k == path_key(#[trigger] old(self).groups_view()[a].1[0]),
            groups_nonempty(final(self).groups_view()) ==> forall|k: int|
                0 <= k < final(self).groups_view().len() ==> holds_some(
                    #[trigger] final(self).groups_view()[k].1,
                    final(self).kept_view(),
                ),
            paths_distinct(final(self).groups_view()) ==> group_paths_not_in(
                final(self).groups_view(),
                final(self).kept_view(),
            ).len() == extra_copies(final(self).groups_view()),
    {
        let gs = self.groups.groups();
        let ghost v = self.groups@;
        let mut firsts: Vec<String> = Vec::new();
        let ghost mut origins: Seq<(int, int)> = Seq::empty();
        let mut k: usize = 0;
        while k < gs.len()
            invariant
                gs@.map_values(|g: DuplicateGroup| group_view(g)) == v,
                k <= gs.len(),
                firsts.len() == origins.len(),
                forall|e: int| 0 <= e < firsts.len() ==> {
                    let o = #[trigger] origins[e];
                    &&& 0 <= o.0 < k
                    &&& o.1 == 0
                    &&& v[o.0].1.len() > 0
                    &&& firsts@[e]@ == v[o.0].1[0]
                },
                forall|a: int| 0 <= a < k && v[a].1.len() > 0 ==> #[trigger] origin_listed(origins, a, 0),
            decreases gs.len() - k,
        {
            assert(v[k as int] == group_view(gs@[k as int]));
            if gs[k].paths.len() > 0 {
                firsts.push(gs[k].paths[0].clone());
                proof {
                    let old_origins = origins;
                    origins = origins.push((k as int, 0int));
                    assert(firsts@[firsts.len() - 1]@ == v[k as int].1[0]);
                    assert forall|e: int| 0 <= e < firsts.len() implies {
                        let o = #[trigger] origins[e];
                        &&& 0 <= o.0 < k + 1
                        &&& o.1 == 0
                        &&& v[o.0].1.len() > 0
                        &&& firsts@[e]@ == v[o.0].1[0]
                    } by {
                        if e < old_origins.len() {
                            assert(origins[e] == old_origins[e]);
                            assert(firsts@[e] == firsts@.drop_last()[e]);
                        }
                    }
                    assert forall|a: int| 0 <= a < k + 1 && v[a].1.len() > 0 implies #[trigger] origin_listed(origins, a, 0) by {
                        if a == k {
                            assert(origins[origins.len() - 1] == (a, 0int));
                        } else {
                            assert(origin_listed(old_origins, a, 0));
                            let e = choose|e: int| 0 <= e < old_origins.len() && old_origins[e] == (a, 0int);
                            assert(origins[e] == (a, 0int));
                        }
                    }
                }
            }
            k += 1;
        }
        self.kept = PathSet::from_paths(&firsts);
        proof {
            let set = self.kept@;
            assert forall|key: Seq<char>| #[trigger] set.contains(key) <==> exists|a: int|
                0 <= a < v.len() && v[a].1.len() > 0 && key == path_key(#[trigger] v[a].1[0]) by {
                if set.contains(key) {
                    let e = choose|e: int| 0 <= e < firsts.len() && key == path_key(#[trigger] firsts@[e]@);
                    let o = origins[e];
                    assert(key == path_key(v[o.0].1[0]));
                }
                if exists|a: int| 0 <= a < v.len() && v[a].1.len() > 0 && key == path_key(#[trigger] v[a].1[0]) {
                    let a = choose|a: int| 0 <= a < v.len() && v[a].1.len() > 0 && key == path_key(#[trigger] v[a].1[0]);
                    assert(origin_listed(origins, a, 0));
                    let e = choose|e: int| 0 <= e < origins.len() && origins[e] == (a, 0int);
                    assert(key == path_key(firsts@[e]@));
                }
            }
            if groups_nonempty(v) {
                assert forall|g: int| 0 <= g < v.len() implies holds_some(#[trigger] v[g].1, set) by {
                    assert(v[g].1.len() > 0);
                    assert(set.contains(path_key(v[g].1[0])));
                }
            }
            if paths_distinct(v) {
                lemma_extra_left(v, v, set);
            }
        }
    }

    /// Every group keeps at least one copy.
    pub fn every_group_has_keeper(&self) -> (r: bool)
        requires
            self.wf(),
        ensures
            r == forall|k: int| 0 <= k < self.groups_view().len() ==> holds_some(#[trigger] self.groups_view()[k].1, self.kept_view()),
    {
        let gs = self.groups.groups();
        let ghost v = self.groups@;
        let mut k: usize = 0;
        while k < gs.len()
            invariant
                self.wf(),
                gs@.map_values(|g: DuplicateGroup| group_view(g)) == v,
                v == self.groups@,
                k <= gs.len(),
                forall|i: int| 0 <= i < k ==> holds_some(#[trigger] v[i].1, self.kept@),
            decreases gs.len() - k,
        {
            assert(v[k as int] == group_view(gs@[k as int]));
            let paths = &gs[k].paths;
            let ghost p = v[k as int].1;
            let mut found = false;
            let mut j: usize = 0;
            while j < paths.len()
                invariant
                    self.wf(),
                    p == path_texts(paths@),
                    j <= paths.len(),
                    found == exists|i: int| 0 <= i < j && self.kept@.contains(path_key(#[trigger] p[i])),
                decreases paths.len() - j,
            {
                if self.kept.contains(paths[j].as_str()) {
                    found = true;
                }
                proof {
                    if found {
                        let w = if self.kept@.contains(path_key(p[j as int])) {
                            j as int
                        } else {
                            choose|i: int| 0 <= i < j && self.kept@.contains(path_key(#[trigger] p[i]))
                        };
                        assert(0 <= w < j + 1 && self.kept@.contains(path_key(p[w])));
                    }
                }
                j += 1;
            }
            if !found {
                assert(!holds_some(p, self.kept@));
                assert(self.groups_view()[k as int].1 == p);
                return false;
            }
            k += 1;
        }
        true
    }
}

} // verus!
