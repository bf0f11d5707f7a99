//! A set of paths in which paths are equal when their components are equal.

use vstd::prelude::*;
use crate::paths::{path_key, path_key_of, path_starts_with, starts_with_path, texts};
use crate::sorting::{path_listed, sorted_unique_of, sorted_unique_paths};
use crate::text::{
    chars_before, lemma_chars_before_asymmetric, lemma_chars_before_irreflexive,
    lemma_chars_before_total, lemma_chars_before_transitive, order_chars, KeyOrder,
};

verus! {

/// Keys in strictly increasing order.
pub open spec fn strictly_sorted(keys: Seq<Seq<char>>) -> bool {
    forall|a: int, b: int| 0 <= a < b < keys.len() ==> chars_before(#[trigger] keys[a], #[trigger] keys[b])
}

/// A set of paths (`HashSet<PathBuf>`), held in path order.
pub struct PathSet {
    keys: Vec<Vec<char>>,
    paths: Vec<String>,
}

impl View for PathSet {
    /// The keys of the paths in the set, in increasing order.
    type V = Seq<Seq<char>>;

    closed spec fn view(&self) -> Seq<Seq<char>> {
        texts(self.keys@)
    }
}

impl PathSet {
    /// The internal representation is consistent.
    pub closed spec fn wf(&self) -> bool {
        &&& self.keys.len() == self.paths.len()
        &&& strictly_sorted(texts(self.keys@))
        &&& forall|k: int| 0 <= k < self.keys.len() ==> #[trigger] self.keys@[k]@ == path_key(self.paths@[k]@)
    }

    /// The set holds the path `p`.
    pub open spec fn has(&self, p: Seq<char>) -> bool {
        self@.contains(path_key(p))
    }

    /// The key sequence of a well-formed set is strictly increasing.
    pub proof fn lemma_sorted(&self)
        requires
            self.wf(),
        ensures
            strictly_sorted(self@),
    {
    }

    /// An empty set.
    pub fn new() -> (s: Self)
        ensures
            s.wf(),
            s@ == Seq::<Seq<char>>::empty(),
    {
        let s = PathSet { keys: Vec::new(), paths: Vec::new() };
        assert(texts(s.keys@) =~= Seq::<Seq<char>>::empty());
        s
    }

    /// The number of paths in the set.
    pub fn len(&self) -> (n: usize)
        requires
            self.wf(),
        ensures
            n == self@.len(),
    {
        self.keys.len()
    }

    /// The set is empty.
    pub fn is_empty(&self) -> (r: bool)
        requires
            self.wf(),
        ensures
            r == (self@.len() == 0),
    {
        self.keys.len() == 0
    }

    /// Position where `key` is or would be, found by binary search.
    fn locate(&self, key: &Vec<char>) -> (r: (usize, bool))
        requires
            self.wf(),
        ensures
            r.0 <= self@.len(),
            r.1 ==> r.0 < self@.len() && self@[r.0 as int] == key@,
            !r.1 ==> !self@.contains(key@),
            forall|k: int| 0 <= k < r.0 ==> chars_before(#[trigger] self@[k], key@),
            forall|k: int| r.0 <= k < self@.len() ==> (r.1 || chars_before(key@, #[trigger] self@[k])),
    {
        let ghost v = self@;
        let mut lo: usize = 0;
        let mut hi: usize = self.keys.len();
        while lo < hi
            invariant
                v == self@,
                self.wf(),
                lo <= hi <= self.keys.len(),
                forall|k: int| 0 <= k < lo ==> chars_before(#[trigger] v[k], key@),
                forall|k: int| hi <= k < v.len() ==> chars_before(key@, #[trigger] v[k]),
            decreases hi - lo,
        {
            let mid = lo + (hi - lo) / 2;
            assert(v[mid as int] == self.keys@[mid as int]@);
            match order_chars(&self.keys[mid], key) {
                KeyOrder::Same => {
                    proof {
                        assert forall|k: int| mid <= k < v.len() implies (true || chars_before(key@, #[trigger] v[k])) by {}
                        assert forall|k: int| 0 <= k < mid implies chars_before(#[trigger] v[k], key@) by {
                            assert(chars_before(v[k], v[mid as int]));
                        }
                    }
                    return (mid, true);
                },
                KeyOrder::Before => {
                    proof {
                        assert forall|k: int| 0 <= k < mid + 1 implies chars_before(#[trigger] v[k], key@) by {
                            if k < mid {
                                assert(chars_before(v[k], v[mid as int]));
                                lemma_chars_before_transitive(v[k], v[mid as int], key@);
                            }
                        }
                    }
                    lo = mid + 1;
                },
                KeyOrder::After => {
                    proof {
                        assert forall|k: int| mid <= k < v.len() implies chars_before(key@, #[trigger] v[k]) by {
                            if k > mid {
                                assert(chars_before(v[mid as int], v[k]));
                                lemma_chars_before_transitive(key@, v[mid as int], v[k]);
                            }
                        }
                    }
                    hi = mid;
                },
            }
        }
        proof {
            if v.contains(key@) {
                let k = choose|k: int| 0 <= k < v.len() && v[k] == key@;
                if k < lo {
                    lemma_chars_before_irreflexive(key@);
                } else {
                    lemma_chars_before_irreflexive(key@);
                }
            }
        }
        (lo, false)
    }

    /// The set holds `p`.
    pub fn contains(&self, p: &str) -> (r: bool)
        requires
            self.wf(),
        ensures
            r == self.has(p@),
    {
        let key = path_key_of(p);
        let (_, found) = self.locate(&key);
        found
    }

    /// Adds `p`; returns whether it was new.
    pub fn insert(&mut self, p: String) -> (added: bool)
        requires
            old(self).wf(),
        ensures
            final(self).wf(),
            added == !old(self).has(p@),
            forall|k: Seq<char>| #[trigger] final(self)@.contains(k) <==> (old(self)@.contains(k) || k
                == path_key(p@)),
            final(self)@.len() == old(self)@.len() + (if added { 1int } else { 0int }),
    {
        let key = path_key_of(p.as_str());
        let (pos, found) = self.locate(&key);
        if found {
            return false;
        }
        let ghost old_v = self@;
        let ghost old_keys = self.keys@;
        let ghost old_paths = self.paths@;
        let ghost kv = key@;
        self.keys.insert(pos, key);
        self.paths.insert(pos, p);
        proof {
            assert(self@ =~= old_v.insert(pos as int, kv));
            assert forall|a: int, b: int| 0 <= a < b < self@.len() implies chars_before(
                #[trigger] self@[a],
                #[trigger] self@[b],
            ) by {
                if b < pos {
                    assert(chars_before(old_v[a], old_v[b]));
                } else if b == pos {
                    assert(chars_before(old_v[a], kv));
                } else if a == pos {
                    assert(chars_before(kv, old_v[b - 1]));
                } else if a < pos {
                    assert(chars_before(old_v[a], old_v[b - 1]));
                } else {
                    assert(chars_before(old_v[a - 1], old_v[b - 1]));
                }
            }
            assert forall|k: int| 0 <= k < self.keys.len() implies #[trigger] self.keys@[k]@ == path_key(
                self.paths@[k]@,
            ) by {
                if k < pos {
                    assert(self.keys@[k] == old_keys[k] && self.paths@[k] == old_paths[k]);
                } else if k > pos {
                    assert(self.keys@[k] == old_keys[k - 1] && self.paths@[k] == old_paths[k - 1]);
                }
            }
            assert forall|k: Seq<char>| #[trigger] self@.contains(k) <==> (old_v.contains(k) || k == kv) by {
                if self@.contains(k) {
                    let i = choose|i: int| 0 <= i < self@.len() && self@[i] == k;
                    if i < pos {
                        assert(old_v[i] == k);
                    } else if i > pos {
                        assert(old_v[i - 1] == k);
                    }
                }
                if old_v.contains(k) {
                    let i = choose|i: int| 0 <= i < old_v.len() && old_v[i] == k;
                    if i < pos {
                        assert(self@[i] == k);
                    } else {
                        assert(self@[i + 1] == k);
                    }
                }
                if k == kv {
                    assert(self@[pos as int] == k);
                }
            }
        }
        true
    }

    /// Removes `p`; returns whether it was present.
    pub fn remove(&mut self, p: &str) -> (removed: bool)
        requires
            old(self).wf(),
        ensures
            final(self).wf(),
            removed == old(self).has(p@),
            forall|k: Seq<char>| #[trigger] final(self)@.contains(k) <==> (old(self)@.contains(k) && k
                != path_key(p@)),
            final(self)@.len() == old(self)@.len() - (if removed { 1int } else { 0int }),
    {
        let key = path_key_of(p);
        let (pos, found) = self.locate(&key);
        if !found {
            proof {
                assert forall|k: Seq<char>| #[trigger] self@.contains(k) <==> (old(self)@.contains(k) && k
                    != path_key(p@)) by {}
            }
            return false;
        }
        let ghost old_v = self@;
        let ghost old_keys = self.keys@;
        let ghost old_paths = self.paths@;
        let ghost kv = key@;
        self.keys.remove(pos);
        self.paths.remove(pos);
        proof {
            assert(self@ =~= old_v.remove(pos as int));
            assert forall|a: int, b: int| 0 <= a < b < self@.len() implies chars_before(
                #[trigger] self@[a],
                #[trigger] self@[b],
            ) by {
                if b < pos {
                    assert(chars_before(old_v[a], old_v[b]));
                } else if a < pos {
                    assert(chars_before(old_v[a], old_v[b + 1]));
                } else {
                    assert(chars_before(old_v[a + 1], old_v[b + 1]));
                }
            }
            assert forall|k: int| 0 <= k < self.keys.len() implies #[trigger] self.keys@[k]@ == path_key(
                self.paths@[k]@,
            ) by {
                if k < pos {
                    assert(self.keys@[k] == old_keys[k] && self.paths@[k] == old_paths[k]);
                } else {
                    assert(self.keys@[k] == old_keys[k + 1] && self.paths@[k] == old_paths[k + 1]);
                }
            }
            assert forall|k: Seq<char>| #[trigger] self@.contains(k) <==> (old_v.contains(k) && k != kv) by {
                if self@.contains(k) {
                    let i = choose|i: int| 0 <= i < self@.len() && self@[i] == k;
                    if i < pos {
                        assert(old_v[i] == k);
                        assert(chars_before(old_v[i], old_v[pos as int]));
                        lemma_chars_before_irreflexive(k);
                    } else {
                        assert(old_v[i + 1] == k);
                        assert(chars_before(old_v[pos as int], old_v[i + 1]));
                        lemma_chars_before_irreflexive(k);
                    }
                }
                if old_v.contains(k) && k != kv {
                    let i = choose|i: int| 0 <= i < old_v.len() && old_v[i] == k;
                    if i < pos {
                        assert(self@[i] == k);
                    } else {
                        assert(i != pos);
                        assert(self@[i - 1] == k);
                    }
                }
            }
        }
        true
    }

    /// Removes every path.
    pub fn clear(&mut self)
        requires
            old(self).wf(),
        ensures
            final(self).wf(),
            final(self)@ == Seq::<Seq<char>>::empty(),
    {
        self.keys = Vec::new();
        self.paths = Vec::new();
        assert(texts(self.keys@) =~= Seq::<Seq<char>>::empty());
    }

    /// The set of the given paths.
    pub fn from_paths(paths: &Vec<String>) -> (s: Self)
        ensures
            s.wf(),
            forall|k: Seq<char>| #[trigger] s@.contains(k) <==> exists|i: int|
                0 <= i < paths.len() && k == path_key(#[trigger] paths@[i]@),
    {
        let unique = sorted_unique_paths(paths);
        let mut keys: Vec<Vec<char>> = Vec::new();
        let mut i: usize = 0;
        while i < unique.len()
            invariant
                i <= unique.len(),
                keys.len() == i,
                forall|k: int| 0 <= k < i ==> #[trigger] keys@[k]@ == path_key(unique@[k]@),
            decreases unique.len() - i,
        {
            keys.push(path_key_of(unique[i].as_str()));
            i += 1;
        }
        let s = PathSet { keys, paths: unique };
        proof {
            assert forall|a: int, b: int| 0 <= a < b < s@.len() implies chars_before(
                #[trigger] s@[a],
                #[trigger] s@[b],
            ) by {
                assert(s@[a] == path_key(unique@[a]@));
                assert(s@[b] == path_key(unique@[b]@));
                assert(crate::paths::path_before(unique@[a]@, unique@[b]@));
            }
            assert forall|k: Seq<char>| #[trigger] s@.contains(k) <==> exists|i: int|
                0 <= i < paths.len() && k == path_key(#[trigger] paths@[i]@) by {
                if s@.contains(k) {
                    let j = choose|j: int| 0 <= j < s@.len() && s@[j] == k;
                    assert(s@[j] == path_key(unique@[j]@));
                    let i = choose|i: int| crate::sorting::first_occurrence(paths@, i) && #[trigger] unique@[j]@ == paths@[i]@;
                    assert(k == path_key(paths@[i]@));
                }
                if exists|i: int| 0 <= i < paths.len() && k == path_key(#[trigger] paths@[i]@) {
                    let i = choose|i: int| 0 <= i < paths.len() && k == path_key(#[trigger] paths@[i]@);
                    assert(path_listed(unique@, paths@[i]@));
                    let j = choose|j: int| 0 <= j < unique@.len() && crate::paths::same_path(#[trigger] unique@[j]@, paths@[i]@);
                    assert(s@[j] == path_key(unique@[j]@));
                }
            }
        }
        s
    }

    /// The paths of the set, in path order.
    pub fn paths(&self) -> (v: &Vec<String>)
        requires
            self.wf(),
        ensures
            v.len() == self@.len(),
            forall|k: int| 0 <= k < v.len() ==> path_key(#[trigger] v@[k]@) == self@[k],
    {
        &self.paths
    }

    /// Keeps only the paths that do not lie at or below `root`.
    pub fn remove_below(&mut self, root: &str)
        requires
            old(self).wf(),
        ensures
            final(self).wf(),
            forall|k: Seq<char>| #[trigger] final(self)@.contains(k) <==> (old(self)@.contains(k)
                && !(path_key(root@).len() <= k.len() && k.take(path_key(root@).len() as int)
                == path_key(root@))),
    {
        let ghost old_v = self@;
        let ghost rk = path_key(root@);
        let mut old_keys: Vec<Vec<char>> = Vec::new();
        let mut old_paths: Vec<String> = Vec::new();
        std::mem::swap(&mut old_keys, &mut self.keys);
        std::mem::swap(&mut old_paths, &mut self.paths);
        let mut i: usize = 0;
        let ghost mut src: Seq<int> = Seq::empty();
        while i < old_keys.len()
            invariant
                old_keys.len() == old_paths.len(),
                texts(old_keys@) == old_v,
                strictly_sorted(old_v),
                forall|k: int| 0 <= k < old_keys.len() ==> #[trigger] old_keys@[k]@ == path_key(old_paths@[k]@),
                rk == path_key(root@),
                i <= old_keys.len(),
                self.keys.len() == self.paths.len(),
                self.keys.len() == src.len(),
                forall|k: int| 0 <= k < src.len() ==> 0 <= #[trigger] src[k] < i,
                forall|a: int, b: int| 0 <= a < b < src.len() ==> #[trigger] src[a] < #[trigger] src[b],
                forall|k: int| 0 <= k < src.len() ==> #[trigger] self.keys@[k]@ == old_v[src[k]] && self.paths@[k] == old_paths@[src[k]],
                forall|j: int| 0 <= j < i ==> ((exists|k: int| 0 <= k < src.len() && src[k] == j) <==> !(rk.len() <= #[trigger] old_v[j].len() && old_v[j].take(rk.len() as int) == rk)),
            decreases old_keys.len() - i,
        {
            let below = starts_with_path(old_paths[i].as_str(), root);
            assert(old_v[i as int] == old_keys@[i as int]@);
            if !below {
                let ghost n = self.keys@.len();
                self.keys.push(old_keys[i].clone());
                self.paths.push(old_paths[i].clone());
                proof {
                    let old_src = src;
                    src = src.push(i as int);
                    assert(path_starts_with(old_paths@[i as int]@, root@) == (rk.len() <= old_v[i as int].len() && old_v[i as int].take(rk.len() as int) == rk));
                    assert forall|j: int| 0 <= j < i + 1 implies ((exists|k: int| 0 <= k < src.len() && src[k] == j) <==> !(rk.len() <= #[trigger] old_v[j].len() && old_v[j].take(rk.len() as int) == rk)) by {
                        if j == i {
                            assert(src[n as int] == j);
                        } else {
                            assert(((exists|k: int| 0 <= k < old_src.len() && old_src[k] == j) <==> !(rk.len() <= old_v[j].len() && old_v[j].take(rk.len() as int) == rk)));
                            if exists|k: int| 0 <= k < src.len() && src[k] == j {
                                let k = choose|k: int| 0 <= k < src.len() && src[k] == j;
                                assert(k < n);
                                assert(old_src[k] == j);
                            }
                            if exists|k: int| 0 <= k < old_src.len() && old_src[k] == j {
                                let k = choose|k: int| 0 <= k < old_src.len() && old_src[k] == j;
                                assert(src[k] == j);
                            }
                        }
                    }
                }
            } else {
                proof {
                    assert(path_starts_with(old_paths@[i as int]@, root@) == (rk.len() <= old_v[i as int].len() && old_v[i as int].take(rk.len() as int) == rk));
                    assert forall|j: int| 0 <= j < i + 1 implies ((exists|k: int| 0 <= k < src.len() && src[k] == j) <==> !(rk.len() <= #[trigger] old_v[j].len() && old_v[j].take(rk.len() as int) == rk)) by {
                        if j == i {
                            if exists|k: int| 0 <= k < src.len() && src[k] == j {
                                let k = choose|k: int| 0 <= k < src.len() && src[k] == j;
                                assert(src[k] < i);
                            }
                        }
                    }
                }
            }
            i += 1;
        }
        proof {
            assert forall|a: int, b: int| 0 <= a < b < self@.len() implies chars_before(
                #[trigger] self@[a],
                #[trigger] self@[b],
            ) by {
                assert(self@[a] == old_v[src[a]]);
                assert(self@[b] == old_v[src[b]]);
                assert(src[a] < src[b]);
            }
            assert forall|k: int| 0 <= k < self.keys.len() implies #[trigger] self.keys@[k]@ == path_key(
                self.paths@[k]@,
            ) by {
                assert(old_keys@[src[k]]@ == path_key(old_paths@[src[k]]@));
            }
            assert forall|k: Seq<char>| #[trigger] self@.contains(k) <==> (old_v.contains(k) && !(rk.len() <= k.len() && k.take(rk.len() as int) == rk)) by {
                if self@.contains(k) {
                    let p = choose|p: int| 0 <= p < self@.len() && self@[p] == k;
                    assert(self@[p] == old_v[src[p]]);
                    assert(exists|q: int| 0 <= q < src.len() && src[q] == src[p]);
                }
                if old_v.contains(k) && !(rk.len() <= k.len() && k.take(rk.len() as int) == rk) {
                    let j = choose|j: int| 0 <= j < old_v.len() && old_v[j] == k;
                    let q = choose|q: int| 0 <= q < src.len() && src[q] == j;
                    assert(self@[q] == k);
                }
            }
        }
    }
}


/// Two strictly sorted key sequences with the same members are the same sequence.
pub proof fn lemma_sorted_same_members(a: Seq<Seq<char>>, b: Seq<Seq<char>>)
    requires
        strictly_sorted(a),
        strictly_sorted(b),
        forall|k: Seq<char>| a.contains(k) <==> b.contains(k),
    ensures
        a == b,
    decreases a.len(),
{
    if a.len() == 0 {
        if b.len() > 0 {
            assert(b.contains(b[0]));
        }
        assert(a =~= b);
    } else {
        assert(a.contains(a[0]));
        assert(b.len() > 0);
        assert(b.contains(b[0]));
        let j = choose|j: int| 0 <= j < b.len() && b[j] == a[0];
        let i = choose|i: int| 0 <= i < a.len() && a[i] == b[0];
        if a[0] != b[0] {
            assert(j > 0 && i > 0);
            assert(chars_before(b[0], b[j]));
            assert(chars_before(a[0], a[i]));
            lemma_chars_before_asymmetric(a[0], b[0]);
        }
        let a2 = a.drop_first();
        let b2 = b.drop_first();
        assert forall|x: int, y: int| 0 <= x < y < a2.len() implies chars_before(#[trigger] a2[x], #[trigger] a2[y]) by {
            assert(a2[x] == a[x + 1] && a2[y] == a[y + 1]);
        }
        assert forall|x: int, y: int| 0 <= x < y < b2.len() implies chars_before(#[trigger] b2[x], #[trigger] b2[y]) by {
            assert(b2[x] == b[x + 1] && b2[y] == b[y + 1]);
        }
        assert forall|k: Seq<char>| a2.contains(k) <==> b2.contains(k) by {
            if a2.contains(k) {
                let x = choose|x: int| 0 <= x < a2.len() && a2[x] == k;
                assert(chars_before(a[0], a[x + 1]));
                if k == a[0] {
                    lemma_chars_before_irreflexive(k);
                }
                assert(a.contains(k));
                let y = choose|y: int| 0 <= y < b.len() && b[y] == k;
                assert(y != 0);
                assert(b2[y - 1] == k);
            }
            if b2.contains(k) {
                let x = choose|x: int| 0 <= x < b2.len() && b2[x] == k;
                assert(chars_before(b[0], b[x + 1]));
                if k == b[0] {
                    lemma_chars_before_irreflexive(k);
                }
                assert(b.contains(k));
                let y = choose|y: int| 0 <= y < a.len() && a[y] == k;
                assert(y != 0);
                assert(a2[y - 1] == k);
            }
        }
        lemma_sorted_same_members(a2, b2);
        assert(a =~= seq![a[0]] + a2);
        assert(b =~= seq![b[0]] + b2);
    }
}

} // verus!
