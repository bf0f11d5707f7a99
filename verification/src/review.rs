//! The review of a completed duplicate scan: which copies are kept and which are
//! selected for an action. The selection starts empty (every copy kept), so a large
//! review holds no per-path state until the user selects files.

use vstd::prelude::*;
use crate::groups::{
    group_view, hash_position, holds_all, holds_some, path_texts, paths_in, paths_not_in,
    selected_duplicate_paths, DuplicateGroup, DuplicateGroups, keeper_required_message,
    group_paths_in,
};
use crate::pathset::PathSet;
use crate::actions::DuplicateActionVerification;
use crate::paths::path_key;
use crate::reports::{extra_copies, groups_nonempty, lemma_sums_prefix, total_paths};

verus! {

/// How many groups have every path in `set`.
pub open spec fn groups_fully_selected(v: Seq<(Seq<char>, Seq<Seq<char>>)>, set: Seq<Seq<char>>) -> nat
    decreases v.len(),
{
    if v.len() == 0 {
        0
    } else {
        groups_fully_selected(v.drop_last(), set) + (if holds_all(v.last().1, set) {
            1nat
        } else {
            0nat
        })
    }
}

/// No two paths, in the same group or in different groups, are the same path.
pub open spec fn paths_distinct(v: Seq<(Seq<char>, Seq<Seq<char>>)>) -> bool {
    forall|a: int, i: int, b: int, j: int|
        0 <= a < v.len() && 0 <= b < v.len() && 0 <= i < v[a].1.len() && 0 <= j < v[b].1.len() && (a != b
            || i != j) ==> path_key(#[trigger] v[a].1[i]) != path_key(#[trigger] v[b].1[j])
}

/// Some entry of `origins` is the position `(a, j)`.
pub open spec fn origin_listed(origins: Seq<(int, int)>, a: int, j: int) -> bool {
    exists|e: int| 0 <= e < origins.len() && origins[e] == (a, j)
}

/// The group holds the path `p`.
pub open spec fn group_holds(paths: Seq<Seq<char>>, p: Seq<char>) -> bool {
    exists|i: int| 0 <= i < paths.len() && path_key(#[trigger] paths[i]) == path_key(p)
}

/// Groups are counted the same under two selections that agree on every path of
/// every group.
proof fn lemma_count_same(v: Seq<(Seq<char>, Seq<Seq<char>>)>, s1: Seq<Seq<char>>, s2: Seq<Seq<char>>)
    requires
        forall|a: int, i: int|
            0 <= a < v.len() && 0 <= i < v[a].1.len() ==> (s1.contains(path_key(#[trigger] v[a].1[i]))
                == s2.contains(path_key(v[a].1[i]))),
    ensures
        groups_fully_selected(v, s1) == groups_fully_selected(v, s2),
    decreases v.len(),
{
    if v.len() > 0 {
        let l = v.len() - 1;
        assert forall|a: int, i: int|
            0 <= a < v.drop_last().len() && 0 <= i < v.drop_last()[a].1.len() implies (s1.contains(
            path_key(#[trigger] v.drop_last()[a].1[i])) == s2.contains(path_key(v.drop_last()[a].1[i]))) by {
            assert(v.drop_last()[a] == v[a]);
        }
        lemma_count_same(v.drop_last(), s1, s2);
        assert(holds_all(v[l].1, s1) == holds_all(v[l].1, s2)) by {
            if holds_all(v[l].1, s1) {
                assert forall|i: int| 0 <= i < v[l].1.len() implies s2.contains(path_key(#[trigger] v[l].1[i])) by {
                    assert(s1.contains(path_key(v[l].1[i])));
                }
            }
            if holds_all(v[l].1, s2) {
                assert forall|i: int| 0 <= i < v[l].1.len() implies s1.contains(path_key(#[trigger] v[l].1[i])) by {
                    assert(s2.contains(path_key(v[l].1[i])));
                }
            }
        }
    }
}

/// When two selections differ only on paths of group `g`, the counts differ only by
/// that group's status.
proof fn lemma_count_one_group(v: Seq<(Seq<char>, Seq<Seq<char>>)>, s1: Seq<Seq<char>>, s2: Seq<Seq<char>>, g: int)
    requires
        0 <= g < v.len(),
        forall|a: int, i: int|
            0 <= a < v.len() && a != g && 0 <= i < v[a].1.len() ==> (s1.contains(path_key(#[trigger] v[a].1[i]))
                == s2.contains(path_key(v[a].1[i]))),
    ensures
        groups_fully_selected(v, s2) + (if holds_all(v[g].1, s1) { 1int } else { 0int })
            == groups_fully_selected(v, s1) + (if holds_all(v[g].1, s2) { 1int } else { 0int }),
    decreases v.len(),
{
    let l = v.len() - 1;
    if g == l {
        assert forall|a: int, i: int|
            0 <= a < v.drop_last().len() && 0 <= i < v.drop_last()[a].1.len() implies (s1.contains(
            path_key(#[trigger] v.drop_last()[a].1[i])) == s2.contains(path_key(v.drop_last()[a].1[i]))) by {
            assert(v.drop_last()[a] == v[a]);
        }
        lemma_count_same(v.drop_last(), s1, s2);
    } else {
        assert forall|a: int, i: int|
            0 <= a < v.drop_last().len() && a != g && 0 <= i < v.drop_last()[a].1.len() implies (s1.contains(
            path_key(#[trigger] v.drop_last()[a].1[i])) == s2.contains(path_key(v.drop_last()[a].1[i]))) by {
            assert(v.drop_last()[a] == v[a]);
        }
        assert(v.drop_last()[g] == v[g]);
        lemma_count_one_group(v.drop_last(), s1, s2, g);
        assert(holds_all(v[l].1, s1) == holds_all(v[l].1, s2)) by {
            if holds_all(v[l].1, s1) {
                assert forall|i: int| 0 <= i < v[l].1.len() implies s2.contains(path_key(#[trigger] v[l].1[i])) by {
                    assert(s1.contains(path_key(v[l].1[i])));
                }
            }
            if holds_all(v[l].1, s2) {
                assert forall|i: int| 0 <= i < v[l].1.len() implies s1.contains(path_key(#[trigger] v[l].1[i])) by {
                    assert(s2.contains(path_key(v[l].1[i])));
                }
            }
        }
    }
}

/// No group is fully selected exactly when the count is zero.
pub proof fn lemma_count_zero(v: Seq<(Seq<char>, Seq<Seq<char>>)>, s: Seq<Seq<char>>)
    ensures
        (groups_fully_selected(v, s) == 0) == (forall|k: int| 0 <= k < v.len() ==> !holds_all(#[trigger] v[k].1, s)),
    decreases v.len(),
{
    if v.len() > 0 {
        lemma_count_zero(v.drop_last(), s);
        if groups_fully_selected(v, s) == 0 {
            assert forall|k: int| 0 <= k < v.len() implies !holds_all(#[trigger] v[k].1, s) by {
                if k < v.len() - 1 {
                    assert(v.drop_last()[k] == v[k]);
                }
            }
        } else if forall|k: int| 0 <= k < v.len() ==> !holds_all(#[trigger] v[k].1, s) {
            assert forall|k: int| 0 <= k < v.drop_last().len() implies !holds_all(#[trigger] v.drop_last()[k].1, s) by {
                assert(v.drop_last()[k] == v[k]);
            }
            assert(!holds_all(v[v.len() - 1].1, s));
        }
    }
}

/// With nothing selected, every group that holds a path keeps it.
proof fn lemma_nonempty_keeps(v: Seq<(Seq<char>, Seq<Seq<char>>)>, s: Seq<Seq<char>>)
    requires
        s.len() == 0,
    ensures
        groups_nonempty(v) ==> forall|k: int| 0 <= k < v.len() ==> !holds_all(#[trigger] v[k].1, s),
{
    if groups_nonempty(v) {
        assert forall|k: int| 0 <= k < v.len() implies !holds_all(#[trigger] v[k].1, s) by {
            assert(v[k].1.len() > 0);
            assert(!s.contains(path_key(v[k].1[0])));
        }
    }
}

/// The count never exceeds the number of groups.
proof fn lemma_count_bound(v: Seq<(Seq<char>, Seq<Seq<char>>)>, s: Seq<Seq<char>>)
    ensures
        groups_fully_selected(v, s) <= v.len(),
    decreases v.len(),
{
    if v.len() > 0 {
        lemma_count_bound(v.drop_last(), s);
    }
}

/// Every copy after the first of each group, group after group.
pub open spec fn group_tails(v: Seq<(Seq<char>, Seq<Seq<char>>)>) -> Seq<Seq<char>>
    decreases v.len(),
{
    if v.len() == 0 {
        Seq::empty()
    } else if v.last().1.len() == 0 {
        group_tails(v.drop_last())
    } else {
        group_tails(v.drop_last()) + v.last().1.drop_first()
    }
}

/// A group whose first copy is not selected and whose other copies are gives
/// those other copies, in order.
proof fn lemma_paths_in_tail(p: Seq<Seq<char>>, set: Seq<Seq<char>>)
    requires
        p.len() > 0,
        !set.contains(path_key(p[0])),
        forall|j: int| 1 <= j < p.len() ==> set.contains(path_key(#[trigger] p[j])),
    ensures
        crate::groups::paths_in(p, set) == p.drop_first(),
    decreases p.len(),
{
    if p.len() == 1 {
        assert(p.last() == p[0]);
        assert(crate::groups::paths_in(p.drop_last(), set) == Seq::<Seq<char>>::empty());
        assert(p.drop_first() =~= Seq::<Seq<char>>::empty());
    } else {
        let q = p.drop_last();
        assert forall|j: int| 1 <= j < q.len() implies set.contains(path_key(#[trigger] q[j])) by {
            assert(q[j] == p[j]);
        }
        lemma_paths_in_tail(q, set);
        assert(set.contains(path_key(p[p.len() - 1])));
        assert(p.last() == p[p.len() - 1]);
        assert(crate::groups::paths_in(p, set) == crate::groups::paths_in(q, set).push(p.last()));
        assert(p.drop_first() =~= q.drop_first().push(p.last()));
    }
}

/// When exactly the copies after the first of each group are selected, the
/// selected paths, group after group, are those copies.
proof fn lemma_selected_tails(v: Seq<(Seq<char>, Seq<Seq<char>>)>, set: Seq<Seq<char>>)
    requires
        forall|a: int| 0 <= a < v.len() && v[a].1.len() > 0 ==> !set.contains(path_key(#[trigger] v[a].1[0])),
        forall|a: int, j: int| 0 <= a < v.len() && 1 <= j < v[a].1.len() ==> set.contains(path_key(#[trigger] v[a].1[j])),
    ensures
        group_paths_in(v, set) == group_tails(v),
    decreases v.len(),
{
    if v.len() > 0 {
        let w = v.drop_last();
        assert forall|a: int| 0 <= a < w.len() && w[a].1.len() > 0 implies !set.contains(path_key(#[trigger] w[a].1[0])) by {
            assert(w[a] == v[a]);
        }
        assert forall|a: int, j: int| 0 <= a < w.len() && 1 <= j < w[a].1.len() implies set.contains(path_key(#[trigger] w[a].1[j])) by {
            assert(w[a] == v[a]);
        }
        lemma_selected_tails(w, set);
        let l = v.len() - 1;
        if v[l].1.len() == 0 {
            assert(crate::groups::paths_in(v[l].1, set) =~= Seq::<Seq<char>>::empty());
            assert(group_paths_in(v, set) =~= group_paths_in(w, set));
        } else {
            assert forall|j: int| 1 <= j < v[l].1.len() implies set.contains(path_key(#[trigger] v[l].1[j])) by {}
            lemma_paths_in_tail(v[l].1, set);
        }
    }
}

/// What must be hashed again before a destructive action, for each group with
/// copies selected: the group's hash, its first kept copy and its selected copies.
pub open spec fn verifications_of(v: Seq<(Seq<char>, Seq<Seq<char>>)>, set: Seq<Seq<char>>) -> Seq<(Seq<char>, Seq<char>, Seq<Seq<char>>)>
    decreases v.len(),
{
    if v.len() == 0 {
        Seq::empty()
    } else if holds_some(v.last().1, set) {
        verifications_of(v.drop_last(), set).push(
            (v.last().0, paths_not_in(v.last().1, set)[0], paths_in(v.last().1, set)),
        )
    } else {
        verifications_of(v.drop_last(), set)
    }
}

/// A verification as plain values.
pub open spec fn verification_view(d: DuplicateActionVerification) -> (Seq<char>, Seq<char>, Seq<Seq<char>>) {
    (d.expected_hash@, d.keeper@, path_texts(d.selected@))
}

/// Some group has copies selected and none kept.
pub open spec fn affected_group_without_keeper(v: Seq<(Seq<char>, Seq<Seq<char>>)>, set: Seq<Seq<char>>) -> bool {
    exists|k: int| 0 <= k < v.len() && holds_some(#[trigger] v[k].1, set) && holds_all(v[k].1, set)
}

proof fn lemma_unheld_exists(p: Seq<Seq<char>>, set: Seq<Seq<char>>)
    requires
        !holds_all(p, set),
    ensures
        paths_not_in(p, set).len() > 0,
    decreases p.len(),
{
    if p.len() > 0 {
        if set.contains(path_key(p.last())) {
            assert(!holds_all(p.drop_last(), set)) by {
                let i = choose|i: int| 0 <= i < p.len() && !set.contains(path_key(#[trigger] p[i]));
                assert(i < p.len() - 1);
                assert(p.drop_last()[i] == p[i]);
            }
            lemma_unheld_exists(p.drop_last(), set);
        }
    }
}

/// The review of a completed duplicate scan.
pub struct Review {
    groups: DuplicateGroups,
    roots: Vec<String>,
    selected_for_action: PathSet,
    total_files: usize,
    extra_copies: usize,
    groups_without_keeper: usize,
    /// The groups without a kept copy that the counter leaves out: those it was
    /// set to zero over, as a fresh review or a bulk choice does.
    count_offset: Ghost<int>,
}

impl Review {
    /// The duplicate groups under review.
    pub closed spec fn groups_view(&self) -> Seq<(Seq<char>, Seq<Seq<char>>)> {
        self.groups@
    }

    /// The scanned locations.
    pub closed spec fn roots_view(&self) -> Seq<Seq<char>> {
        path_texts(self.roots@)
    }

    /// The keys of the paths selected for an action.
    pub closed spec fn selection(&self) -> Seq<Seq<char>> {
        self.selected_for_action@
    }

    /// The cached counters agree with the groups and the selection.
    pub closed spec fn wf(&self) -> bool {
        &&& self.groups.wf()
        &&& self.selected_for_action.wf()
        &&& total_paths(self.groups@) <= usize::MAX
        &&& self.total_files == total_paths(self.groups@)
        &&& self.extra_copies == extra_copies(self.groups@)
        &&& self.groups_without_keeper + self.count_offset@ == groups_fully_selected(self.groups@, self.selected_for_action@)
    }

    /// The count of groups without a kept copy, as the review keeps it: set to
    /// zero by a fresh review and by the bulk choices, recounted when preferring a
    /// location, and moved by one when the group named in a single change loses or
    /// regains its last kept copy.
    pub closed spec fn missing_keepers(&self) -> nat {
        self.groups_without_keeper as nat
    }

    /// The count equals the number of groups whose every copy is selected.
    pub closed spec fn count_exact(&self) -> bool {
        self.count_offset@ == 0
    }

    /// Every group keeps at least one copy.
    pub open spec fn keeps_every_group(&self) -> bool {
        forall|k: int| 0 <= k < self.groups_view().len() ==> !holds_all(#[trigger] self.groups_view()[k].1, self.selection())
    }

    /// The selection holds the path `p`.
    pub open spec fn is_selected(&self, p: Seq<char>) -> bool {
        self.selection().contains(path_key(p))
    }

    /// A review of `groups`, with every copy kept.
    pub fn new(groups: DuplicateGroups, roots: Vec<String>) -> (r: Self)
        requires
            groups.wf(),
            total_paths(groups@) <= usize::MAX,
        ensures
            r.wf(),
            r.groups_view() == groups@,
            r.roots_view() == path_texts(roots@),
            r.selection() == Seq::<Seq<char>>::empty(),
            r.missing_keepers() == 0,
            groups_nonempty(groups@) ==> r.keeps_every_group() && r.count_exact(),
    {
        let gs = groups.groups();
        let ghost v = groups@;
        let mut total: usize = 0;
        let mut extra: usize = 0;
        let mut k: usize = 0;
        assert(v.take(0) =~= Seq::<(Seq<char>, Seq<Seq<char>>)>::empty());
        while k < gs.len()
            invariant
                gs@.map_values(|g: DuplicateGroup| group_view(g)) == v,
                total_paths(v) <= usize::MAX,
                k <= gs.len(),
                total == total_paths(v.take(k as int)),
                extra == extra_copies(v.take(k as int)),
            decreases gs.len() - k,
        {
            assert(v[k as int] == group_view(gs@[k as int]));
            proof {
                assert(v.take(k + 1).drop_last() =~= v.take(k as int));
                lemma_sums_prefix(v, k + 1);
                lemma_sums_prefix(v.take(k + 1), k + 1);
            }
            let n = gs[k].paths.len();
            total = total + n;
            extra = extra + n.saturating_sub(1);
            k += 1;
        }
        assert(v.take(k as int) =~= v);
        let selected_for_action = PathSet::new();
        let ghost offset: int = groups_fully_selected(v, selected_for_action@) as int;
        let r = Review {
            groups,
            roots,
            selected_for_action,
            total_files: total,
            extra_copies: extra,
            groups_without_keeper: 0,
            count_offset: Ghost(offset),
        };
        proof {
            assert(r.selected_for_action@ == Seq::<Seq<char>>::empty());
            lemma_nonempty_keeps(v, r.selected_for_action@);
            lemma_count_zero(v, r.selected_for_action@);
        }
        r
    }

    /// A review of `groups`, or `None` when their paths are too many to count in a
    /// `usize`.
    pub fn try_new(groups: DuplicateGroups, roots: Vec<String>) -> (r: Option<Self>)
        ensures
            r is Some <==> total_paths(groups@) <= usize::MAX,
            r matches Some(rv) ==> {
                &&& rv.wf()
                &&& rv.groups_view() == groups@
                &&& rv.roots_view() == path_texts(roots@)
                &&& rv.selection() == Seq::<Seq<char>>::empty()
                &&& rv.missing_keepers() == 0
                &&& (groups_nonempty(groups@) ==> rv.keeps_every_group() && rv.count_exact())
            },
    {
        proof {
            use_type_invariant(&groups);
        }
        let gs = groups.groups();
        let ghost v = groups@;
        let mut total: usize = 0;
        let mut k: usize = 0;
        assert(v.take(0) =~= Seq::<(Seq<char>, Seq<Seq<char>>)>::empty());
        while k < gs.len()
            invariant
                gs@.map_values(|g: DuplicateGroup| group_view(g)) == v,
                v == groups@,
                k <= gs.len(),
                total == total_paths(v.take(k as int)),
            decreases gs.len() - k,
        {
            assert(v[k as int] == group_view(gs@[k as int]));
            assert(v.take(k + 1).drop_last() =~= v.take(k as int));
            match total.checked_add(gs[k].paths.len()) {
                Some(t) => total = t,
                None => {
                    proof {
                        assert(v.take(k + 1).last() == v[k as int]);
                        assert(total_paths(v.take(k + 1)) == total_paths(v.take(k as int)) + v[k as int].1.len());
                        lemma_sums_prefix(v, k + 1);
                    }
                    return None;
                },
            }
            k += 1;
        }
        assert(v.take(k as int) =~= v);
        Some(Review::new(groups, roots))
    }

    /// The number of files in all groups.
    pub fn total_files(&self) -> (n: usize)
        requires
            self.wf(),
        ensures
            n == total_paths(self.groups_view()),
    {
        self.total_files
    }

    /// The duplicate groups under review.
    pub fn groups(&self) -> (g: &DuplicateGroups)
        ensures
            g@ == self.groups_view(),
            self.wf() ==> g.wf(),
    {
        &self.groups
    }

    /// The scanned locations.
    pub fn roots(&self) -> (r: &Vec<String>)
        ensures
            path_texts(r@) == self.roots_view(),
    {
        &self.roots
    }

    /// The number of groups.
    pub fn group_count(&self) -> (n: usize)
        ensures
            n == self.groups_view().len(),
    {
        self.groups.len()
    }

    /// There are no groups.
    pub fn is_empty(&self) -> (r: bool)
        ensures
            r == (self.groups_view().len() == 0),
    {
        self.groups.is_empty()
    }

    /// The number of copies beyond the first in each group.
    pub fn extra_copies(&self) -> (n: usize)
        requires
            self.wf(),
        ensures
            n == extra_copies(self.groups_view()),
    {
        self.extra_copies
    }

    /// The number of files selected for an action.
    pub fn action_count(&self) -> (n: usize)
        requires
            self.wf(),
        ensures
            n == self.selection().len(),
    {
        self.selected_for_action.len()
    }

    /// The paths selected for an action.
    pub fn selected_for_action(&self) -> (s: &PathSet)
        requires
            self.wf(),
        ensures
            s.wf(),
            s@ == self.selection(),
    {
        &self.selected_for_action
    }

    /// Keeps every copy: nothing is selected.
    pub fn keep_all(&mut self)
        requires
            old(self).wf(),
        ensures
            final(self).wf(),
            final(self).groups_view() == old(self).groups_view(),
            final(self).roots_view() == old(self).roots_view(),
            final(self).selection() == Seq::<Seq<char>>::empty(),
            final(self).missing_keepers() == 0,
            groups_nonempty(final(self).groups_view()) ==> final(self).keeps_every_group() && final(self).count_exact(),
    {
        self.selected_for_action.clear();
        self.reset_missing_keepers();
        proof {
            lemma_nonempty_keeps(self.groups@, self.selected_for_action@);
            lemma_count_zero(self.groups@, self.selected_for_action@);
        }
    }

    /// Every group keeps at least one copy.
    pub fn every_group_has_keeper(&self) -> (r: bool)
        requires
            self.wf(),
        ensures
            r == (self.missing_keepers() == 0),
            self.count_exact() ==> r == self.keeps_every_group(),
    {
        proof {
            lemma_count_zero(self.groups@, self.selected_for_action@);
            assert(self.groups_view() == self.groups@);
            assert(self.selection() == self.selected_for_action@);
        }
        self.groups_without_keeper == 0
    }

    /// The path is kept (not selected for an action).
    pub fn is_kept(&self, path: &str) -> (r: bool)
        requires
            self.wf(),
        ensures
            r == !self.is_selected(path@),
    {
        !self.selected_for_action.contains(path)
    }

    /// The group with `hash` exists and has every path selected.
    fn group_has_no_keeper(&self, hash: &str) -> (r: bool)
        requires
            self.wf(),
        ensures
            r == match hash_position(self.groups@, hash@) {
                Some(k) => holds_all(self.groups@[k].1, self.selected_for_action@),
                None => false,
            },
    {
        match self.groups.get(hash) {
            None => false,
            Some(paths) => {
                let ghost k = choose|k: int| 0 <= k < self.groups@.len() && self.groups@[k].0 == hash@ && #[trigger] self.groups@[k].1 == path_texts(paths@);
                proof {
                    self.groups.lemma_sorted();
                    crate::groups::lemma_hash_position_unique(self.groups@, k);
                }
                let ghost pv = path_texts(paths@);
                let mut j: usize = 0;
                while j < paths.len()
                    invariant
                        self.wf(),
                        pv == path_texts(paths@),
                        0 <= k < self.groups@.len(),
                        hash_position(self.groups@, hash@) == Some(k),
                        pv == self.groups@[k].1,
                        j <= paths.len(),
                        forall|i: int| 0 <= i < j ==> self.selected_for_action@.contains(path_key(#[trigger] pv[i])),
                    decreases paths.len() - j,
                {
                    if !self.selected_for_action.contains(paths[j].as_str()) {
                        assert(!self.selected_for_action@.contains(path_key(pv[j as int])));
                        assert(!holds_all(self.groups@[k].1, self.selected_for_action@));
                        return false;
                    }
                    j += 1;
                }
                true
            },
        }
    }

    /// Marks `path` of the group with `hash` as kept or as selected for an action,
    /// keeping count of the groups left without a kept copy.
    pub fn set_kept(&mut self, hash: &str, path: &String, keep: bool)
        requires
            old(self).wf(),
            keep && old(self).missing_keepers() == 0 ==> !(hash_position(old(self).groups_view(), hash@) matches Some(g)
                && holds_all(old(self).groups_view()[g].1, old(self).selection())
                && group_holds(old(self).groups_view()[g].1, path@)),
            !keep ==> old(self).missing_keepers() < usize::MAX,
        ensures
            final(self).wf(),
            (forall|k: int| 0 <= k < old(self).groups_view().len() && group_holds(#[trigger] old(self).groups_view()[k].1, path@)
                ==> old(self).groups_view()[k].0 == hash@) ==> final(self).count_exact() == old(self).count_exact(),
            ({
                let was_full = match hash_position(old(self).groups_view(), hash@) {
                    Some(g) => holds_all(old(self).groups_view()[g].1, old(self).selection()),
                    None => false,
                };
                let now_full = match hash_position(old(self).groups_view(), hash@) {
                    Some(g) => holds_all(old(self).groups_view()[g].1, final(self).selection()),
                    None => false,
                };
                final(self).missing_keepers() == old(self).missing_keepers() + if !was_full && now_full {
                    1int
                } else if was_full && !now_full {
                    -1int
                } else {
                    0int
                }
            }),
            final(self).groups_view() == old(self).groups_view(),
            final(self).roots_view() == old(self).roots_view(),
            forall|k: Seq<char>| #[trigger] final(self).selection().contains(k) <==> (if keep {
                old(self).selection().contains(k) && k != path_key(path@)
            } else {
                old(self).selection().contains(k) || k == path_key(path@)
            }),
    {
        let was_missing_keeper = self.group_has_no_keeper(hash);
        let ghost old_sel = self.selected_for_action@;
        let ghost old_offset = self.count_offset@;
        if keep {
            self.selected_for_action.remove(path.as_str());
        } else {
            self.selected_for_action.insert(path.clone());
        }
        let is_missing_keeper = self.group_has_no_keeper_raw(hash);
        let ghost v = self.groups@;
        let ghost new_sel = self.selected_for_action@;
        assert(v == old(self).groups_view());
        proof {
            if let Some(g) = hash_position(v, hash@) {
                if keep && is_missing_keeper {
                    assert forall|i: int| 0 <= i < v[g].1.len() implies old_sel.contains(path_key(#[trigger] v[g].1[i])) by {
                        assert(new_sel.contains(path_key(v[g].1[i])));
                    }
                }
                if !keep && was_missing_keeper {
                    assert forall|i: int| 0 <= i < v[g].1.len() implies new_sel.contains(path_key(#[trigger] v[g].1[i])) by {
                        assert(old_sel.contains(path_key(v[g].1[i])));
                    }
                }
                if was_missing_keeper && !is_missing_keeper {
                    assert(keep);
                    let i = choose|i: int| 0 <= i < v[g].1.len() && !new_sel.contains(path_key(#[trigger] v[g].1[i]));
                    assert(old_sel.contains(path_key(v[g].1[i])));
                    assert(group_holds(v[g].1, path@));
                }
            }
        }
        if !was_missing_keeper && is_missing_keeper {
            self.groups_without_keeper = self.groups_without_keeper + 1;
        } else if was_missing_keeper && !is_missing_keeper {
            self.groups_without_keeper = self.groups_without_keeper - 1;
        }
        self.count_offset = Ghost(groups_fully_selected(v, new_sel) - self.groups_without_keeper);
        proof {
            if forall|k: int| 0 <= k < v.len() && group_holds(#[trigger] v[k].1, path@) ==> v[k].0 == hash@ {
                self.groups.lemma_sorted();
                match hash_position(v, hash@) {
                    Some(g) => {
                        assert forall|a: int, i: int|
                            0 <= a < v.len() && a != g && 0 <= i < v[a].1.len() implies (old_sel.contains(path_key(#[trigger] v[a].1[i]))
                                == new_sel.contains(path_key(v[a].1[i]))) by {
                            if path_key(v[a].1[i]) == path_key(path@) {
                                assert(group_holds(v[a].1, path@));
                                assert(v[a].0 == hash@);
                                crate::groups::lemma_hash_position_unique(v, a);
                            }
                        }
                        lemma_count_one_group(v, old_sel, new_sel, g);
                    },
                    None => {
                        assert forall|a: int, i: int|
                            0 <= a < v.len() && 0 <= i < v[a].1.len() implies (old_sel.contains(path_key(#[trigger] v[a].1[i]))
                                == new_sel.contains(path_key(v[a].1[i]))) by {
                            if path_key(v[a].1[i]) == path_key(path@) {
                                assert(group_holds(v[a].1, path@));
                                assert(v[a].0 == hash@);
                                assert(exists|k: int| 0 <= k < v.len() && (#[trigger] v[k]).0 == hash@);
                            }
                        }
                        lemma_count_same(v, old_sel, new_sel);
                    },
                }
                assert(self.count_offset@ == old_offset);
            }
        }
    }

    /// `group_has_no_keeper` for a review whose counter is being updated.
    fn group_has_no_keeper_raw(&self, hash: &str) -> (r: bool)
        requires
            self.groups.wf(),
            self.selected_for_action.wf(),
        ensures
            r == match hash_position(self.groups@, hash@) {
                Some(k) => holds_all(self.groups@[k].1, self.selected_for_action@),
                None => false,
            },
    {
        match self.groups.get(hash) {
            None => false,
            Some(paths) => {
                let ghost k = choose|k: int| 0 <= k < self.groups@.len() && self.groups@[k].0 == hash@ && #[trigger] self.groups@[k].1 == path_texts(paths@);
                proof {
                    self.groups.lemma_sorted();
                    crate::groups::lemma_hash_position_unique(self.groups@, k);
                }
                let ghost pv = path_texts(paths@);
                let mut j: usize = 0;
                while j < paths.len()
                    invariant
                        self.selected_for_action.wf(),
                        pv == path_texts(paths@),
                        0 <= k < self.groups@.len(),
                        hash_position(self.groups@, hash@) == Some(k),
                        pv == self.groups@[k].1,
                        j <= paths.len(),
                        forall|i: int| 0 <= i < j ==> self.selected_for_action@.contains(path_key(#[trigger] pv[i])),
                    decreases paths.len() - j,
                {
                    if !self.selected_for_action.contains(paths[j].as_str()) {
                        assert(!self.selected_for_action@.contains(path_key(pv[j as int])));
                        assert(!holds_all(self.groups@[k].1, self.selected_for_action@));
                        return false;
                    }
                    j += 1;
                }
                true
            },
        }
    }

    /// Keeps the first copy in each group and selects every other copy.
    pub fn keep_first_in_each_group(&mut self)
        requires
            old(self).wf(),
        ensures
            final(self).wf(),
            final(self).groups_view() == old(self).groups_view(),
            final(self).roots_view() == old(self).roots_view(),
            forall|k: Seq<char>| #[trigger] final(self).selection().contains(k) <==> exists|a: int, j: int|
                0 <= a < old(self).groups_view().len() && 1 <= j < old(self).groups_view()[a].1.len()
                    && k == path_key(#[trigger] old(self).groups_view()[a].1[j]),
            paths_distinct(old(self).groups_view()) ==> final(self).selection().len() == extra_copies(
                old(self).groups_view(),
            ),
            final(self).missing_keepers() == 0,
            paths_distinct(old(self).groups_view()) && groups_nonempty(old(self).groups_view())
                ==> final(self).keeps_every_group() && final(self).count_exact(),
            paths_distinct(old(self).groups_view()) ==> group_paths_in(final(self).groups_view(), final(self).selection())
                == group_tails(old(self).groups_view()),
    {
        let gs = self.groups.groups();
        let ghost v = self.groups@;
        let mut others: Vec<String> = Vec::new();
        let ghost mut origins: Seq<(int, int)> = Seq::empty();
        let mut k: usize = 0;
        assert(v.take(0) =~= Seq::<(Seq<char>, Seq<Seq<char>>)>::empty());
        while k < gs.len()
            invariant
                gs@.map_values(|g: DuplicateGroup| group_view(g)) == v,
                total_paths(v) <= usize::MAX,
                k <= gs.len(),
                others.len() == origins.len(),
                others.len() == extra_copies(v.take(k as int)),
                forall|e: int| 0 <= e < others.len() ==> {
                    let o = #[trigger] origins[e];
                    &&& 0 <= o.0 < k
                    &&& 1 <= o.1 < v[o.0].1.len()
                    &&& others@[e]@ == v[o.0].1[o.1]
                },
                forall|x: int, y: int| 0 <= x < y < origins.len() ==> #[trigger] origins[x] != #[trigger] origins[y],
                forall|a: int, j: int| 0 <= a < k && 1 <= j < v[a].1.len() ==> #[trigger] origin_listed(origins, a, j),
            decreases gs.len() - k,
        {
            assert(v[k as int] == group_view(gs@[k as int]));
            let paths = &gs[k].paths;
            let ghost before_len = others.len();
            proof {
                assert(v.take(k + 1).drop_last() =~= v.take(k as int));
                lemma_sums_prefix(v, k + 1);
                lemma_sums_prefix(v, k as int);
            }
            let mut i: usize = if paths.len() > 0 { 1 } else { 0 };
            while 0 < i && i < paths.len()
                invariant
                    gs@.map_values(|g: DuplicateGroup| group_view(g)) == v,
                    v[k as int].1 == path_texts(paths@),
                    k < gs.len(),
                    paths@.len() > 0 ==> 1 <= i <= paths.len(),
                    paths@.len() == 0 ==> i == 0,
                    others.len() == origins.len(),
                    paths@.len() > 0 ==> others.len() == before_len + i - 1,
                    paths@.len() == 0 ==> others.len() == before_len,
                    before_len == extra_copies(v.take(k as int)),
                    extra_copies(v.take(k + 1)) <= usize::MAX,
                    extra_copies(v.take(k + 1)) == before_len + (if paths.len() > 0 { paths.len() - 1 } else { 0 }),
                    forall|e: int| 0 <= e < others.len() ==> {
                        let o = #[trigger] origins[e];
                        &&& (0 <= o.0 < k || (o.0 == k && 1 <= o.1 < i))
                        &&& 1 <= o.1 < v[o.0].1.len()
                        &&& others@[e]@ == v[o.0].1[o.1]
                    },
                    forall|x: int, y: int| 0 <= x < y < origins.len() ==> #[trigger] origins[x] != #[trigger] origins[y],
                    forall|a: int, j: int| (0 <= a < k && 1 <= j < v[a].1.len()) || (a == k && 1 <= j < i)
                        ==> #[trigger] origin_listed(origins, a, j),
                decreases paths.len() - i,
            {
                others.push(paths[i].clone());
                proof {
                    let old_origins = origins;
                    origins = origins.push((k as int, i as int));
                    assert(others@[others.len() - 1]@ == v[k as int].1[i as int]);
                    assert forall|e: int| 0 <= e < others.len() implies {
                        let o = #[trigger] origins[e];
                        &&& (0 <= o.0 < k || (o.0 == k && 1 <= o.1 < i + 1))
                        &&& 1 <= o.1 < v[o.0].1.len()
                        &&& others@[e]@ == v[o.0].1[o.1]
                    } by {
                        if e < old_origins.len() {
                            assert(origins[e] == old_origins[e]);
                            assert(others@[e] == others@.drop_last()[e]);
                        }
                    }
                    assert forall|x: int, y: int| 0 <= x < y < origins.len() implies #[trigger] origins[x] != #[trigger] origins[y] by {
                        assert(origins[x] == old_origins[x]);
                        if y < old_origins.len() {
                            assert(origins[y] == old_origins[y]);
                        }
                    }
                    assert forall|a: int, j: int| (0 <= a < k && 1 <= j < v[a].1.len()) || (a == k && 1 <= j < i + 1)
                        implies #[trigger] origin_listed(origins, a, j) by {
                        if a == k && j == i {
                            assert(origins[origins.len() - 1] == (a, j));
                        } else {
                            assert(origin_listed(old_origins, a, j));
                            let e = choose|e: int| 0 <= e < old_origins.len() && old_origins[e] == (a, j);
                            assert(origins[e] == (a, j));
                        }
                    }
                }
                i += 1;
            }
            k += 1;
        }
        assert(v.take(k as int) =~= v);
        let ghost okeys = others@.map_values(|p: String| path_key(p@));
        let selected = PathSet::from_paths(&others);
        self.selected_for_action = selected;
        self.reset_missing_keepers();
        proof {
            let sel = self.selected_for_action@;
            assert forall|key: Seq<char>| #[trigger] sel.contains(key) <==> exists|a: int, j: int|
                0 <= a < v.len() && 1 <= j < v[a].1.len() && key == path_key(#[trigger] v[a].1[j]) by {
                if sel.contains(key) {
                    let i = choose|i: int| 0 <= i < others.len() && key == path_key(#[trigger] others@[i]@);
                    let o = origins[i];
                    assert(key == path_key(v[o.0].1[o.1]));
                }
                if exists|a: int, j: int| 0 <= a < v.len() && 1 <= j < v[a].1.len() && key == path_key(#[trigger] v[a].1[j]) {
                    let (a, j) = choose|a: int, j: int| 0 <= a < v.len() && 1 <= j < v[a].1.len() && key == path_key(#[trigger] v[a].1[j]);
                    assert(origin_listed(origins, a, j));
                    let e = choose|e: int| 0 <= e < origins.len() && origins[e] == (a, j);
                    assert(key == path_key(others@[e]@));
                }
            }
            if paths_distinct(v) {
                assert(okeys.no_duplicates()) by {
                    assert forall|x: int, y: int| 0 <= x < okeys.len() && 0 <= y < okeys.len() && x != y implies okeys[x] != okeys[y] by {
                        let ox = origins[x];
                        let oy = origins[y];
                        if x < y {
                            assert(ox != oy);
                        } else {
                            assert(origins[y] != origins[x]);
                        }
                        assert(okeys[x] == path_key(v[ox.0].1[ox.1]));
                        assert(okeys[y] == path_key(v[oy.0].1[oy.1]));
                    }
                }
                self.selected_for_action.lemma_sorted();
                assert(sel.no_duplicates()) by {
                    assert forall|x: int, y: int| 0 <= x < sel.len() && 0 <= y < sel.len() && x != y implies sel[x] != sel[y] by {
                        if x < y {
                            assert(crate::text::chars_before(sel[x], sel[y]));
                        } else {
                            assert(crate::text::chars_before(sel[y], sel[x]));
                        }
                        crate::text::lemma_chars_before_irreflexive(sel[x]);
                    }
                }
                assert(sel.to_set() =~= okeys.to_set()) by {
                    assert forall|key: Seq<char>| sel.to_set().contains(key) <==> okeys.to_set().contains(key) by {
                        if sel.contains(key) {
                            let i = choose|i: int| 0 <= i < others.len() && key == path_key(#[trigger] others@[i]@);
                            assert(okeys[i] == key);
                        }
                        if okeys.contains(key) {
                            let i = choose|i: int| 0 <= i < okeys.len() && okeys[i] == key;
                            assert(key == path_key(others@[i]@));
                        }
                    }
                }
                sel.unique_seq_to_set();
                okeys.unique_seq_to_set();
                if groups_nonempty(v) {
                    assert forall|g: int| 0 <= g < v.len() implies !holds_all(#[trigger] v[g].1, sel) by {
                        assert(v[g].1.len() > 0);
                        if sel.contains(path_key(v[g].1[0])) {
                            let (a, j) = choose|a: int, j: int| 0 <= a < v.len() && 1 <= j < v[a].1.len() && path_key(v[g].1[0]) == path_key(#[trigger] v[a].1[j]);
                            assert(path_key(v[g].1[0]) != path_key(v[a].1[j]));
                        }
                    }
                }
                lemma_count_zero(v, sel);
            }
            if paths_distinct(v) {
                assert forall|a: int| 0 <= a < v.len() && v[a].1.len() > 0 implies !sel.contains(path_key(#[trigger] v[a].1[0])) by {
                    if sel.contains(path_key(v[a].1[0])) {
                        let (b, j) = choose|b: int, j: int| 0 <= b < v.len() && 1 <= j < v[b].1.len() && path_key(v[a].1[0]) == path_key(#[trigger] v[b].1[j]);
                        assert(path_key(v[a].1[0]) != path_key(v[b].1[j]));
                    }
                }
                assert forall|a: int, j: int| 0 <= a < v.len() && 1 <= j < v[a].1.len() implies sel.contains(path_key(#[trigger] v[a].1[j])) by {
                    let key = path_key(v[a].1[j]);
                    assert(exists|b: int, i: int| 0 <= b < v.len() && 1 <= i < v[b].1.len() && key == path_key(#[trigger] v[b].1[i]));
                }
                lemma_selected_tails(v, sel);
            }
        }
    }

    /// Whether `set` holds every path of `paths`.
    fn all_selected(paths: &Vec<String>, set: &PathSet) -> (r: bool)
        requires
            set.wf(),
        ensures
            r == holds_all(path_texts(paths@), set@),
    {
        let ghost pv = path_texts(paths@);
        let mut j: usize = 0;
        while j < paths.len()
            invariant
                set.wf(),
                pv == path_texts(paths@),
                j <= paths.len(),
                forall|i: int| 0 <= i < j ==> set@.contains(path_key(#[trigger] pv[i])),
            decreases paths.len() - j,
        {
            if !set.contains(paths[j].as_str()) {
                assert(!set@.contains(path_key(pv[j as int])));
                return false;
            }
            j += 1;
        }
        true
    }

    /// Recounts the groups whose every copy is selected.
    fn recount_groups_without_keeper(&mut self)
        requires
            old(self).groups.wf(),
            old(self).selected_for_action.wf(),
        ensures
            final(self).groups == old(self).groups,
            final(self).roots == old(self).roots,
            final(self).selected_for_action == old(self).selected_for_action,
            final(self).total_files == old(self).total_files,
            final(self).extra_copies == old(self).extra_copies,
            final(self).groups_without_keeper == groups_fully_selected(old(self).groups@, old(self).selected_for_action@),
            final(self).count_offset@ == 0,
    {
        let gs = self.groups.groups();
        let ghost v = self.groups@;
        let ghost sel = self.selected_for_action@;
        let mut count: usize = 0;
        let mut k: usize = 0;
        assert(v.take(0) =~= Seq::<(Seq<char>, Seq<Seq<char>>)>::empty());
        while k < gs.len()
            invariant
                gs@.map_values(|g: DuplicateGroup| group_view(g)) == v,
                self.selected_for_action.wf(),
                sel == self.selected_for_action@,
                k <= gs.len(),
                count == groups_fully_selected(v.take(k as int), sel),
                count <= k,
            decreases gs.len() - k,
        {
            assert(v[k as int] == group_view(gs@[k as int]));
            let all = Review::all_selected(&gs[k].paths, &self.selected_for_action);
            proof {
                assert(v.take(k + 1).drop_last() =~= v.take(k as int));
                assert(v.take(k + 1).last() == v[k as int]);
            }
            if all {
                count = count + 1;
            }
            k += 1;
        }
        assert(v.take(k as int) =~= v);
        self.groups_without_keeper = count;
        self.count_offset = Ghost(0int);
    }

    /// Sets the count of groups without a kept copy to zero, as a fresh review and
    /// the bulk choices do.
    fn reset_missing_keepers(&mut self)
        requires
            old(self).groups.wf(),
            old(self).selected_for_action.wf(),
            total_paths(old(self).groups@) <= usize::MAX,
            old(self).total_files == total_paths(old(self).groups@),
            old(self).extra_copies == extra_copies(old(self).groups@),
        ensures
            final(self).wf(),
            final(self).groups == old(self).groups,
            final(self).roots == old(self).roots,
            final(self).selected_for_action == old(self).selected_for_action,
            final(self).groups_without_keeper == 0,
            final(self).count_offset@ == groups_fully_selected(old(self).groups@, old(self).selected_for_action@),
    {
        self.groups_without_keeper = 0;
        self.count_offset = Ghost(groups_fully_selected(self.groups@, self.selected_for_action@) as int);
    }

    /// Prefers copies below `root`: they become kept. With `only`, every other copy
    /// becomes selected.
    pub fn keep_from_root(&mut self, root: &str, only: bool)
        requires
            old(self).wf(),
        ensures
            final(self).wf(),
            final(self).groups_view() == old(self).groups_view(),
            final(self).roots_view() == old(self).roots_view(),
            forall|k: Seq<char>| #[trigger] final(self).selection().contains(k) <==> (if only {
                exists|a: int, j: int|
                    0 <= a < old(self).groups_view().len() && 0 <= j < old(self).groups_view()[a].1.len()
                        && k == path_key(#[trigger] old(self).groups_view()[a].1[j])
                        && !crate::paths::path_starts_with(old(self).groups_view()[a].1[j], root@)
            } else {
                old(self).selection().contains(k) && !crate::paths::key_starts_with(k, root@)
            }),
            final(self).count_exact(),
    {
        if only {
            let gs = self.groups.groups();
            let ghost v = self.groups@;
            let mut outside: Vec<String> = Vec::new();
            let ghost mut origins: Seq<(int, int)> = Seq::empty();
            let mut k: usize = 0;
            while k < gs.len()
                invariant
                    gs@.map_values(|g: DuplicateGroup| group_view(g)) == v,
                    k <= gs.len(),
                    outside.len() == origins.len(),
                    forall|e: int| 0 <= e < outside.len() ==> {
                        let o = #[trigger] origins[e];
                        &&& 0 <= o.0 < k
                        &&& 0 <= o.1 < v[o.0].1.len()
                        &&& outside@[e]@ == v[o.0].1[o.1]
                        &&& !crate::paths::path_starts_with(v[o.0].1[o.1], root@)
                    },
                    forall|a: int, j: int| 0 <= a < k && 0 <= j < v[a].1.len() && !crate::paths::path_starts_with(v[a].1[j], root@)
                        ==> #[trigger] origin_listed(origins, a, j),
                decreases gs.len() - k,
            {
                assert(v[k as int] == group_view(gs@[k as int]));
                let paths = &gs[k].paths;
                let mut i: usize = 0;
                while i < paths.len()
                    invariant
                        gs@.map_values(|g: DuplicateGroup| group_view(g)) == v,
                        v[k as int].1 == path_texts(paths@),
                        k < gs.len(),
                        i <= paths.len(),
                        outside.len() == origins.len(),
                        forall|e: int| 0 <= e < outside.len() ==> {
                            let o = #[trigger] origins[e];
                            &&& (0 <= o.0 < k || (o.0 == k && 0 <= o.1 < i))
                            &&& 0 <= o.1 < v[o.0].1.len()
                            &&& outside@[e]@ == v[o.0].1[o.1]
                            &&& !crate::paths::path_starts_with(v[o.0].1[o.1], root@)
                        },
                        forall|a: int, j: int| ((0 <= a < k && 0 <= j < v[a].1.len()) || (a == k && 0 <= j < i))
                            && !crate::paths::path_starts_with(v[a].1[j], root@) ==> #[trigger] origin_listed(origins, a, j),
                    decreases paths.len() - i,
                {
                    if !crate::paths::starts_with_path(paths[i].as_str(), root) {
                        outside.push(paths[i].clone());
                        proof {
                            let old_origins = origins;
                            origins = origins.push((k as int, i as int));
                            assert(outside@[outside.len() - 1]@ == v[k as int].1[i as int]);
                            assert forall|e: int| 0 <= e < outside.len() implies {
                                let o = #[trigger] origins[e];
                                &&& (0 <= o.0 < k || (o.0 == k && 0 <= o.1 < i + 1))
                                &&& 0 <= o.1 < v[o.0].1.len()
                                &&& outside@[e]@ == v[o.0].1[o.1]
                                &&& !crate::paths::path_starts_with(v[o.0].1[o.1], root@)
                            } by {
                                if e < old_origins.len() {
                                    assert(origins[e] == old_origins[e]);
                                    assert(outside@[e] == outside@.drop_last()[e]);
                                }
                            }
                            assert forall|a: int, j: int| ((0 <= a < k && 0 <= j < v[a].1.len()) || (a == k && 0 <= j < i + 1))
                                && !crate::paths::path_starts_with(v[a].1[j], root@) implies #[trigger] origin_listed(origins, a, j) by {
                                if a == k && j == i {
                                    assert(origins[origins.len() - 1] == (a, j));
                                } else {
                                    assert(origin_listed(old_origins, a, j));
                                    let e = choose|e: int| 0 <= e < old_origins.len() && old_origins[e] == (a, j);
                                    assert(origins[e] == (a, j));
                                }
                            }
                        }
                    } else {
                        assert(crate::paths::path_starts_with(v[k as int].1[i as int], root@));
                    }
                    i += 1;
                }
                k += 1;
            }
            self.selected_for_action = PathSet::from_paths(&outside);
            proof {
                let sel = self.selected_for_action@;
                assert forall|key: Seq<char>| #[trigger] sel.contains(key) <==> exists|a: int, j: int|
                    0 <= a < v.len() && 0 <= j < v[a].1.len() && key == path_key(#[trigger] v[a].1[j])
                        && !crate::paths::path_starts_with(v[a].1[j], root@) by {
                    if sel.contains(key) {
                        let i = choose|i: int| 0 <= i < outside.len() && key == path_key(#[trigger] outside@[i]@);
                        let o = origins[i];
                        assert(key == path_key(v[o.0].1[o.1]));
                    }
                    if exists|a: int, j: int| 0 <= a < v.len() && 0 <= j < v[a].1.len() && key == path_key(#[trigger] v[a].1[j])
                        && !crate::paths::path_starts_with(v[a].1[j], root@) {
                        let (a, j) = choose|a: int, j: int| 0 <= a < v.len() && 0 <= j < v[a].1.len() && key == path_key(#[trigger] v[a].1[j])
                            && !crate::paths::path_starts_with(v[a].1[j], root@);
                        assert(origin_listed(origins, a, j));
                        let e = choose|e: int| 0 <= e < origins.len() && origins[e] == (a, j);
                        assert(key == path_key(outside@[e]@));
                    }
                }
            }
        } else {
            self.selected_for_action.remove_below(root);
        }
        self.recount_groups_without_keeper();
    }

    /// The files selected for an action, when every group still retains a copy.
    pub fn selected_paths(&self) -> (r: Result<Vec<String>, String>)
        requires
            self.wf(),
        ensures
            r is Ok <==> self.keeps_every_group(),
            r matches Ok(paths) ==> path_texts(paths@) == group_paths_in(self.groups_view(), self.selection()),
            r matches Err(e) ==> e@ == keeper_required_message(),
    {
        selected_duplicate_paths(&self.groups, &self.selected_for_action)
    }

    /// The number of pages of `page_size` groups.
    pub fn page_count(&self, page_size: usize) -> (n: usize)
        requires
            page_size > 0,
        ensures
            n == page_total(self.groups_view().len() as int, page_size as int),
    {
        let len = self.groups.len();
        if len % page_size == 0 {
            len / page_size
        } else {
            assert(len / page_size < len) by (nonlinear_arith)
                requires
                    len % page_size != 0,
                    page_size > 0,
            {
            }
            len / page_size + 1
        }
    }

    /// The range of group positions on `page` (the last page when `page` is past it).
    pub fn page_bounds(&self, page: usize, page_size: usize) -> (r: std::ops::Range<usize>)
        requires
            page_size > 0,
        ensures
            r.start == page_start(self.groups_view().len() as int, page as int, page_size as int),
            r.end == page_end(self.groups_view().len() as int, page as int, page_size as int),
            r.start <= r.end <= self.groups_view().len(),
            r.end - r.start <= page_size,
            self.groups_view().len() > 0 ==> r.start < r.end,
    {
        let page_count = self.page_count(page_size);
        let len = self.groups.len();
        if page_count == 0 {
            proof {
                vstd::arithmetic::div_mod::lemma_fundamental_div_mod(len as int, page_size as int);
                assert(len as int == 0) by (nonlinear_arith)
                    requires
                        page_size > 0,
                        len as int == page_size * (len as int / page_size as int) + len as int % page_size as int,
                        len as int / page_size as int + (if len as int % page_size as int == 0 { 0int } else { 1int }) == 0,
                        len as int / page_size as int >= 0,
                {
                }
            }
            return 0..0;
        }
        let page = if page < page_count { page } else { page_count - 1 };
        assert(page * page_size < len) by (nonlinear_arith)
            requires
                page < page_count,
                page_count == page_total(len as int, page_size as int),
                page_size > 0,
        {
            assert(len == (len as int / page_size as int) * page_size + len as int % page_size as int);
        }
        let start = page * page_size;
        let end = if len - start >= page_size { start + page_size } else { len };
        start..end
    }

    /// For each group with copies selected, what must be hashed again before a
    /// destructive action runs; refused when such a group keeps no copy.
    pub fn action_verifications(&self) -> (r: Result<Vec<DuplicateActionVerification>, String>)
        requires
            self.wf(),
        ensures
            r is Ok <==> !affected_group_without_keeper(self.groups_view(), self.selection()),
            r matches Ok(list) ==> list@.map_values(|d: DuplicateActionVerification| verification_view(d))
                == verifications_of(self.groups_view(), self.selection()),
            r matches Err(e) ==> e@ == keeper_required_message(),
    {
        let gs = self.groups.groups();
        let ghost v = self.groups@;
        let ghost set = self.selected_for_action@;
        let mut list: Vec<DuplicateActionVerification> = Vec::new();
        let mut k: usize = 0;
        assert(v.take(0) =~= Seq::<(Seq<char>, Seq<Seq<char>>)>::empty());
        while k < gs.len()
            invariant
                self.wf(),
                gs@.map_values(|g: DuplicateGroup| group_view(g)) == v,
                v == self.groups@,
                set == self.selected_for_action@,
                k <= gs.len(),
                forall|i: int| 0 <= i < k ==> !(holds_some(#[trigger] v[i].1, set) && holds_all(v[i].1, set)),
                list@.map_values(|d: DuplicateActionVerification| verification_view(d)) == verifications_of(v.take(k as int), set),
            decreases gs.len() - k,
        {
            assert(v[k as int] == group_view(gs@[k as int]));
            let group = &gs[k];
            let mut selected: Vec<String> = Vec::new();
            let (some, all) = crate::groups::collect_paths(&group.paths, &self.selected_for_action, true, &mut selected);
            assert(path_texts(selected@) =~= crate::groups::paths_in(v[k as int].1, set));
            proof {
                assert(v.take(k + 1).drop_last() =~= v.take(k as int));
                assert(v.take(k + 1).last() == v[k as int]);
            }
            if some {
                if all {
                    assert(holds_some(v[k as int].1, set) && holds_all(v[k as int].1, set));
                    return Err(crate::groups::keeper_required());
                }
                let mut unkept: Vec<String> = Vec::new();
                let _ = crate::groups::collect_paths(&group.paths, &self.selected_for_action, false, &mut unkept);
                assert(path_texts(unkept@) =~= crate::groups::paths_not_in(v[k as int].1, set));
                proof {
                    lemma_unheld_exists(v[k as int].1, set);
                }
                let keeper = unkept[0].clone();
                let entry = DuplicateActionVerification {
                    expected_hash: group.hash.clone(),
                    keeper,
                    selected,
                };
                let ghost before = list@;
                list.push(entry);
                assert(list@.map_values(|d: DuplicateActionVerification| verification_view(d)) =~= before.map_values(
                    |d: DuplicateActionVerification| verification_view(d),
                ).push(verification_view(entry)));
            }
            k += 1;
        }
        assert(v.take(k as int) =~= v);
        Ok(list)
    }
}

/// Selecting a kept path for an action and then keeping it again gives back the
/// selection the review started from: the two marks undo each other.
pub proof fn lemma_select_then_keep_restores(r0: Review, r1: Review, r2: Review, path: Seq<char>)
    requires
        r0.wf(),
        r1.wf(),
        r2.wf(),
        !r0.is_selected(path),
        forall|k: Seq<char>| #[trigger] r1.selection().contains(k) <==> (r0.selection().contains(k) || k == path_key(path)),
        forall|k: Seq<char>| #[trigger] r2.selection().contains(k) <==> (r1.selection().contains(k) && k != path_key(path)),
    ensures
        r2.selection() == r0.selection(),
{
    r0.selected_for_action.lemma_sorted();
    r2.selected_for_action.lemma_sorted();
    assert forall|k: Seq<char>| r2.selection().contains(k) <==> r0.selection().contains(k) by {
        if r2.selection().contains(k) {
            assert(r1.selection().contains(k));
        }
        if r0.selection().contains(k) {
            assert(r1.selection().contains(k));
            assert(k != path_key(path));
        }
    }
    crate::pathset::lemma_sorted_same_members(r2.selection(), r0.selection());
}

/// The pages tile the groups: the group at position `q` is on page `q / size`,
/// whose range holds it.
pub proof fn lemma_group_on_its_page(len: int, size: int, q: int)
    requires
        size > 0,
        0 <= q < len,
    ensures
        q / size < page_total(len, size),
        page_start(len, q / size, size) <= q < page_end(len, q / size, size),
{
    let p = q / size;
    vstd::arithmetic::div_mod::lemma_fundamental_div_mod(q, size);
    vstd::arithmetic::div_mod::lemma_mod_bound(q, size);
    vstd::arithmetic::div_mod::lemma_fundamental_div_mod(len, size);
    vstd::arithmetic::div_mod::lemma_mod_bound(len, size);
    assert(p < page_total(len, size)) by (nonlinear_arith)
        requires
            size > 0,
            0 <= q < len,
            q == size * p + q % size,
            0 <= q % size < size,
            len == size * (len / size) + len % size,
            0 <= len % size < size,
            page_total(len, size) == len / size + if len % size == 0 { 0int } else { 1int },
    {
    }
    assert(p * size <= q < p * size + size) by (nonlinear_arith)
        requires
            q == size * p + q % size,
            0 <= q % size < size,
    {
    }
}

/// The number of pages of `size` items that `len` items fill.
pub open spec fn page_total(len: int, size: int) -> int {
    len / size + if len % size == 0 { 0int } else { 1int }
}

/// The page actually shown for a request of `page`: the last one when `page` is past it.
pub open spec fn shown_page(len: int, page: int, size: int) -> int {
    if page < page_total(len, size) { page } else { page_total(len, size) - 1 }
}

/// The first position on the page shown for `page`.
pub open spec fn page_start(len: int, page: int, size: int) -> int {
    if page_total(len, size) == 0 { 0 } else { shown_page(len, page, size) * size }
}

/// The position after the last one on the page shown for `page`.
pub open spec fn page_end(len: int, page: int, size: int) -> int {
    if page_total(len, size) == 0 {
        0
    } else if page_start(len, page, size) + size <= len {
        page_start(len, page, size) + size
    } else {
        len
    }
}


/// The page count is the fewest pages of `size` groups that hold `len` groups:
/// the pages hold them all, and one page fewer would not; no groups, no pages.
pub proof fn lemma_page_total_fewest(len: int, size: int)
    requires
        size > 0,
        len >= 0,
    ensures
        len <= page_total(len, size) * size,
        len > 0 ==> (page_total(len, size) - 1) * size < len,
        len == 0 ==> page_total(len, size) == 0,
{
    vstd::arithmetic::div_mod::lemma_fundamental_div_mod(len, size);
    vstd::arithmetic::div_mod::lemma_mod_bound(len, size);
    let t = page_total(len, size);
    let d = len / size;
    let m = len % size;
    if m == 0 {
        assert(t == d);
        assert(len <= t * size) by (nonlinear_arith)
            requires len == size * d, t == d, {}
        assert(len > 0 ==> (t - 1) * size < len) by (nonlinear_arith)
            requires len == size * d, t == d, size > 0, {}
    } else {
        assert(t == d + 1);
        assert(len <= t * size) by (nonlinear_arith)
            requires len == size * d + m, 0 < m < size, t == d + 1, {}
        assert((t - 1) * size < len) by (nonlinear_arith)
            requires len == size * d + m, 0 < m < size, t == d + 1, {}
    }
    if len == 0 {
        vstd::arithmetic::div_mod::lemma_small_mod(0, size as nat);
        assert(0int / size == 0) by (nonlinear_arith) requires size > 0, {}
    }
}

} // verus!
