//! Sorting paths into `PathBuf` order, keeping the first of equal paths.

use vstd::prelude::*;
use crate::paths::{path_before, path_key, path_key_of, same_path, texts};
use crate::text::{
    chars_before, lemma_chars_before_asymmetric, lemma_chars_before_irreflexive,
    lemma_chars_before_total, lemma_chars_before_transitive, order_chars, KeyOrder,
};

verus! {

/// Item `i` sorts before item `j`: by key, equal keys by position.
pub open spec fn item_before(keys: Seq<Seq<char>>, i: int, j: int) -> bool {
    chars_before(keys[i], keys[j]) || (keys[i] == keys[j] && i < j)
}

/// `s` lists items in increasing `item_before` order.
pub open spec fn sorted_items(keys: Seq<Seq<char>>, s: Seq<usize>) -> bool {
    forall|a: int, b: int|
        0 <= a < b < s.len() ==> #[trigger] item_before(keys, s[a] as int, s[b] as int)
}

/// `s` lists each of `lo..hi` exactly once.
pub open spec fn covers(s: Seq<usize>, lo: int, hi: int) -> bool {
    &&& s.len() == hi - lo
    &&& forall|k: int| 0 <= k < s.len() ==> lo <= #[trigger] s[k] < hi
    &&& forall|x: usize| lo <= x < hi ==> #[trigger] s.contains(x)
}

proof fn lemma_item_before_transitive(keys: Seq<Seq<char>>, i: int, j: int, k: int)
    requires
        item_before(keys, i, j),
        item_before(keys, j, k),
    ensures
        item_before(keys, i, k),
{
    if chars_before(keys[i], keys[j]) && chars_before(keys[j], keys[k]) {
        lemma_chars_before_transitive(keys[i], keys[j], keys[k]);
    }
}

fn item_order(keys: &Vec<Vec<char>>, i: usize, j: usize) -> (r: bool)
    requires
        i < keys.len(),
        j < keys.len(),
    ensures
        r == item_before(texts(keys@), i as int, j as int),
{
    match order_chars(&keys[i], &keys[j]) {
        KeyOrder::Before => true,
        KeyOrder::Same => i < j,
        KeyOrder::After => {
            proof {
                lemma_chars_before_asymmetric(keys@[j as int]@, keys@[i as int]@);
                lemma_chars_before_irreflexive(keys@[i as int]@);
            }
            false
        },
    }
}

fn merge(keys: &Vec<Vec<char>>, a: &Vec<usize>, b: &Vec<usize>, lo: usize, mid: usize, hi: usize) -> (res: Vec<usize>)
    requires
        lo <= mid <= hi <= keys.len(),
        sorted_items(texts(keys@), a@),
        sorted_items(texts(keys@), b@),
        covers(a@, lo as int, mid as int),
        covers(b@, mid as int, hi as int),
    ensures
        sorted_items(texts(keys@), res@),
        covers(res@, lo as int, hi as int),
{
    let ghost ks = texts(keys@);
    let mut res: Vec<usize> = Vec::new();
    let mut i: usize = 0;
    let mut j: usize = 0;
    while i < a.len() || j < b.len()
        invariant
            lo <= mid <= hi <= keys.len(),
            ks == texts(keys@),
            sorted_items(ks, a@),
            sorted_items(ks, b@),
            covers(a@, lo as int, mid as int),
            covers(b@, mid as int, hi as int),
            i <= a.len(),
            j <= b.len(),
            res.len() == i + j,
            sorted_items(ks, res@),
            forall|k: int|
                0 <= k < res.len() ==> (i < a.len() ==> item_before(
                    ks,
                    #[trigger] res@[k] as int,
                    a@[i as int] as int,
                )) && (j < b.len() ==> item_before(ks, res@[k] as int, b@[j as int] as int)),
            forall|k: int| 0 <= k < res.len() ==> lo <= #[trigger] res@[k] < hi,
            forall|x: usize|
                #[trigger] res@.contains(x) <==> (a@.take(i as int).contains(x) || b@.take(
                    j as int,
                ).contains(x)),
        decreases a.len() + b.len() - i - j,
    {
        let take_a = if i < a.len() && j < b.len() {
            item_order(keys, a[i], b[j])
        } else {
            i < a.len()
        };
        let y = if take_a {
            a[i]
        } else {
            b[j]
        };
        let ghost old_res = res@;
        res.push(y);
        proof {
            assert(res@ == old_res.push(y));
            assert forall|x: usize| #[trigger] res@.contains(x) <==> (old_res.contains(x) || x == y) by {
                if res@.contains(x) {
                    let k = choose|k: int| 0 <= k < res@.len() && res@[k] == x;
                    if k < old_res.len() {
                        assert(old_res[k] == x);
                    }
                }
                if old_res.contains(x) {
                    let k = choose|k: int| 0 <= k < old_res.len() && old_res[k] == x;
                    assert(res@[k] == x);
                }
                if x == y {
                    assert(res@[old_res.len() as int] == x);
                }
            }
        }
        if take_a {
            proof {
                assert(a@.take(i + 1) =~= a@.take(i as int).push(a@[i as int]));
                assert forall|x: usize| #[trigger] a@.take(i + 1).contains(x) <==> (a@.take(
                    i as int,
                ).contains(x) || x == a@[i as int]) by {
                    let s = a@.take(i as int);
                    let s1 = a@.take(i + 1);
                    if s1.contains(x) {
                        let k = choose|k: int| 0 <= k < s1.len() && s1[k] == x;
                        if k < i {
                            assert(s[k] == x);
                        }
                    }
                    if s.contains(x) {
                        let k = choose|k: int| 0 <= k < s.len() && s[k] == x;
                        assert(a@.take(i + 1)[k] == x);
                    }
                    if x == a@[i as int] {
                        assert(a@.take(i + 1)[i as int] == x);
                    }
                }
                assert forall|p: int, q: int| 0 <= p < q < res@.len() implies #[trigger] item_before(
                    ks,
                    res@[p] as int,
                    res@[q] as int,
                ) by {
                    if q < old_res.len() {
                        assert(old_res[p] == res@[p] && old_res[q] == res@[q]);
                    } else {
                        assert(old_res[p] == res@[p]);
                    }
                }
                assert forall|k: int| 0 <= k < res@.len() implies (i + 1 < a.len() ==> item_before(
                    ks,
                    #[trigger] res@[k] as int,
                    a@[i + 1] as int,
                )) && (j < b.len() ==> item_before(ks, res@[k] as int, b@[j as int] as int)) by {
                    if i + 1 < a.len() {
                        assert(item_before(ks, a@[i as int] as int, a@[i + 1] as int));
                        if k < old_res.len() {
                            assert(old_res[k] == res@[k]);
                            lemma_item_before_transitive(
                                ks,
                                res@[k] as int,
                                a@[i as int] as int,
                                a@[i + 1] as int,
                            );
                        }
                    }
                    if j < b.len() && k < old_res.len() {
                        assert(old_res[k] == res@[k]);
                    }
                }
                assert(a@.contains(a@[i as int]));
            }
            i = i + 1;
        } else {
            proof {
                assert(b@.take(j + 1) =~= b@.take(j as int).push(b@[j as int]));
                assert forall|x: usize| #[trigger] b@.take(j + 1).contains(x) <==> (b@.take(
                    j as int,
                ).contains(x) || x == b@[j as int]) by {
                    let s = b@.take(j as int);
                    let s1 = b@.take(j + 1);
                    if s1.contains(x) {
                        let k = choose|k: int| 0 <= k < s1.len() && s1[k] == x;
                        if k < j {
                            assert(s[k] == x);
                        }
                    }
                    if s.contains(x) {
                        let k = choose|k: int| 0 <= k < s.len() && s[k] == x;
                        assert(b@.take(j + 1)[k] == x);
                    }
                    if x == b@[j as int] {
                        assert(b@.take(j + 1)[j as int] == x);
                    }
                }
                if i < a.len() {
                    // b[j] came first: it is not after a[i], and the two differ.
                    assert(!item_before(ks, a@[i as int] as int, b@[j as int] as int));
                    assert(a@[i as int] < mid && b@[j as int] >= mid);
                    lemma_chars_before_total(ks[a@[i as int] as int], ks[b@[j as int] as int]);
                    assert(item_before(ks, b@[j as int] as int, a@[i as int] as int));
                }
                assert forall|p: int, q: int| 0 <= p < q < res@.len() implies #[trigger] item_before(
                    ks,
                    res@[p] as int,
                    res@[q] as int,
                ) by {
                    if q < old_res.len() {
                        assert(old_res[p] == res@[p] && old_res[q] == res@[q]);
                    } else {
                        assert(old_res[p] == res@[p]);
                    }
                }
                assert forall|k: int| 0 <= k < res@.len() implies (i < a.len() ==> item_before(
                    ks,
                    #[trigger] res@[k] as int,
                    a@[i as int] as int,
                )) && (j + 1 < b.len() ==> item_before(ks, res@[k] as int, b@[j + 1] as int)) by {
                    if j + 1 < b.len() {
                        assert(item_before(ks, b@[j as int] as int, b@[j + 1] as int));
                        if k < old_res.len() {
                            assert(old_res[k] == res@[k]);
                            lemma_item_before_transitive(
                                ks,
                                res@[k] as int,
                                b@[j as int] as int,
                                b@[j + 1] as int,
                            );
                        }
                    }
                    if i < a.len() && k < old_res.len() {
                        assert(old_res[k] == res@[k]);
                    }
                }
                assert(b@.contains(b@[j as int]));
            }
            j = j + 1;
        }
    }
    proof {
        assert(a@.take(i as int) =~= a@);
        assert(b@.take(j as int) =~= b@);
        assert forall|x: usize| lo <= x < hi implies #[trigger] res@.contains(x) by {
            if x < mid {
                assert(a@.contains(x));
            } else {
                assert(b@.contains(x));
            }
        }
    }
    res
}

fn sort_range(keys: &Vec<Vec<char>>, lo: usize, hi: usize) -> (res: Vec<usize>)
    requires
        lo <= hi <= keys.len(),
    ensures
        sorted_items(texts(keys@), res@),
        covers(res@, lo as int, hi as int),
    decreases hi - lo,
{
    if hi - lo == 0 {
        let v: Vec<usize> = Vec::new();
        assert forall|x: usize| lo <= x < hi implies #[trigger] v@.contains(x) by {}
        return v;
    }
    if hi - lo == 1 {
        let mut v: Vec<usize> = Vec::new();
        v.push(lo);
        assert forall|x: usize| lo <= x < hi implies #[trigger] v@.contains(x) by {
            assert(v@[0] == x);
        }
        return v;
    }
    let mid = lo + (hi - lo) / 2;
    let a = sort_range(keys, lo, mid);
    let b = sort_range(keys, mid, hi);
    merge(keys, &a, &b, lo, mid, hi)
}

/// The positions of `keys`, ordered by key and, among equal keys, by position.
pub fn sort_positions(keys: &Vec<Vec<char>>) -> (res: Vec<usize>)
    ensures
        sorted_items(texts(keys@), res@),
        covers(res@, 0, keys.len() as int),
{
    sort_range(keys, 0, keys.len())
}

/// Position `i` holds the first occurrence of its path in `paths`.
pub open spec fn first_occurrence(paths: Seq<String>, i: int) -> bool {
    &&& 0 <= i < paths.len()
    &&& forall|j: int| 0 <= j < i ==> !same_path(#[trigger] paths[j]@, paths[i]@)
}

/// Some entry of `res` is the same path as `p`.
pub open spec fn path_listed(res: Seq<String>, p: Seq<char>) -> bool {
    exists|k: int| 0 <= k < res.len() && same_path(#[trigger] res[k]@, p)
}

/// Some position in `pos` has key `key`.
pub open spec fn key_listed(ks: Seq<Seq<char>>, pos: Seq<usize>, key: Seq<char>) -> bool {
    exists|k: int| 0 <= k < pos.len() && ks[#[trigger] pos[k] as int] == key
}

/// `res` holds the paths of `paths` in `PathBuf` order, each path once, keeping
/// the first of equal paths (a stable sort followed by `dedup`).
pub open spec fn sorted_unique_of(paths: Seq<String>, res: Seq<String>) -> bool {
    &&& forall|a: int, b: int|
        0 <= a < b < res.len() ==> path_before(#[trigger] res[a]@, #[trigger] res[b]@)
    &&& forall|k: int|
        0 <= k < res.len() ==> exists|i: int|
            first_occurrence(paths, i) && #[trigger] res[k]@ == paths[i]@
    &&& forall|i: int| 0 <= i < paths.len() ==> path_listed(res, #[trigger] paths[i]@)
}

proof fn lemma_between_equal(x: Seq<char>, y: Seq<char>, z: Seq<char>)
    requires
        chars_before(x, y) || x == y,
        chars_before(y, z) || y == z,
        x == z,
    ensures
        y == x,
{
    if chars_before(x, y) && chars_before(y, z) {
        lemma_chars_before_transitive(x, y, z);
        lemma_chars_before_irreflexive(x);
    } else if chars_before(x, y) {
        lemma_chars_before_irreflexive(x);
    } else if chars_before(y, z) {
        lemma_chars_before_irreflexive(y);
    }
}

/// Sorts paths into `PathBuf` order and removes repeated paths, keeping the first.
pub fn sorted_unique_paths(paths: &Vec<String>) -> (res: Vec<String>)
    ensures
        sorted_unique_of(paths@, res@),
{
    let mut keys: Vec<Vec<char>> = Vec::new();
    let mut i: usize = 0;
    while i < paths.len()
        invariant
            i <= paths.len(),
            keys.len() == i,
            forall|k: int| 0 <= k < i ==> #[trigger] keys@[k]@ == path_key(paths@[k]@),
        decreases paths.len() - i,
    {
        keys.push(path_key_of(paths[i].as_str()));
        i += 1;
    }
    let ghost ks = texts(keys@);
    assert forall|k: int| 0 <= k < paths.len() implies #[trigger] ks[k] == path_key(paths@[k]@) by {
        assert(keys@[k]@ == path_key(paths@[k]@));
    }
    let order = sort_positions(&keys);
    let mut res: Vec<String> = Vec::new();
    let mut res_pos: Ghost<Seq<usize>> = Ghost(Seq::empty());
    let mut p: usize = 0;
    while p < order.len()
        invariant
            ks == texts(keys@),
            keys.len() == paths.len(),
            forall|k: int| 0 <= k < paths.len() ==> #[trigger] ks[k] == path_key(paths@[k]@),
            sorted_items(ks, order@),
            covers(order@, 0, keys.len() as int),
            p <= order.len(),
            res.len() == res_pos@.len(),
            forall|k: int| 0 <= k < res_pos@.len() ==> #[trigger] res_pos@[k] < paths.len(),
            forall|k: int| 0 <= k < res.len() ==> #[trigger] res@[k]@ == paths@[res_pos@[k] as int]@,
            forall|k: int|
                0 <= k < res.len() ==> first_occurrence(paths@, #[trigger] res_pos@[k] as int),
            forall|a: int, b: int|
                0 <= a < b < res.len() ==> chars_before(
                    ks[#[trigger] res_pos@[a] as int],
                    ks[#[trigger] res_pos@[b] as int],
                ),
            p == 0 ==> res.len() == 0,
            p > 0 ==> res.len() > 0 && ks[res_pos@[res.len() - 1] as int] == ks[order@[p - 1] as int],
            forall|q: int| 0 <= q < p ==> key_listed(ks, res_pos@, ks[#[trigger] order@[q] as int]),
        decreases order.len() - p,
    {
        let idx = order[p];
        let fresh = if p == 0 {
            true
        } else {
            order_chars(&keys[order[p - 1]], &keys[idx]) != KeyOrder::Same
        };
        let ghost old_res = res@;
        let ghost old_pos = res_pos@;
        if fresh {
            proof {
                // idx is the first occurrence of its path.
                assert forall|j: int| 0 <= j < idx implies !same_path(
                    #[trigger] paths@[j]@,
                    paths@[idx as int]@,
                ) by {
                    if same_path(paths@[j]@, paths@[idx as int]@) {
                        assert(ks[j] == ks[idx as int]);
                        assert(order@.contains(j as usize));
                        let q = choose|q: int| 0 <= q < order@.len() && order@[q] == j as usize;
                        if q > p {
                            assert(item_before(ks, order@[p as int] as int, order@[q] as int));
                            lemma_chars_before_irreflexive(ks[idx as int]);
                        }
                        if q == p {
                            assert(order@[q] == idx);
                        }
                        assert(q < p);
                        assert(p > 0);
                        if q < p - 1 {
                            assert(item_before(ks, order@[q] as int, order@[p - 1] as int));
                        }
                        assert(item_before(ks, order@[p - 1] as int, order@[p as int] as int));
                        lemma_between_equal(ks[j], ks[order@[p - 1] as int], ks[idx as int]);
                    }
                }
                if p > 0 {
                    let last = ks[order@[p - 1] as int];
                    assert(item_before(ks, order@[p - 1] as int, idx as int));
                    assert(chars_before(last, ks[idx as int]));
                }
            }
            res.push(paths[idx].clone());
            proof {
                res_pos@ = old_pos.push(idx);
                assert forall|a: int, b: int| 0 <= a < b < res.len() implies chars_before(
                    ks[#[trigger] res_pos@[a] as int],
                    ks[#[trigger] res_pos@[b] as int],
                ) by {
                    if b == res.len() - 1 && p > 0 {
                        let last = ks[order@[p - 1] as int];
                        assert(res_pos@[a] == old_pos[a]);
                        assert(res_pos@[b] == idx);
                        assert(ks[old_pos[old_pos.len() - 1] as int] == last);
                        assert(chars_before(last, ks[idx as int]));
                        if a < old_pos.len() - 1 {
                            assert(chars_before(ks[old_pos[a] as int], ks[old_pos[old_pos.len() - 1] as int]));
                            lemma_chars_before_transitive(ks[old_pos[a] as int], last, ks[idx as int]);
                        }
                    } else if b < res.len() - 1 {
                        assert(old_pos[a] == res_pos@[a] && old_pos[b] == res_pos@[b]);
                        assert(chars_before(ks[old_pos[a] as int], ks[old_pos[b] as int]));
                    }
                }
                assert forall|k: int| 0 <= k < res.len() implies #[trigger] res@[k]@ == paths@[res_pos@[k] as int]@ by {
                    if k < old_res.len() {
                        assert(old_res[k] == res@[k]);
                    }
                }
                assert forall|q: int| 0 <= q < p + 1 implies key_listed(
                    ks,
                    res_pos@,
                    ks[#[trigger] order@[q] as int],
                ) by {
                    if q == p {
                        assert(ks[res_pos@[res.len() - 1] as int] == ks[order@[q] as int]);
                    } else {
                        assert(key_listed(ks, old_pos, ks[order@[q] as int]));
                        let k = choose|k: int| 0 <= k < old_pos.len() && ks[#[trigger] old_pos[k] as int] == ks[order@[q] as int];
                        assert(res_pos@[k] == old_pos[k]);
                    }
                }
            }
        } else {
            proof {
                assert forall|q: int| 0 <= q < p + 1 implies key_listed(
                    ks,
                    res_pos@,
                    ks[#[trigger] order@[q] as int],
                ) by {
                    if q == p {
                        assert(ks[res_pos@[res.len() - 1] as int] == ks[order@[q] as int]);
                    }
                }
            }
        }
        p = p + 1;
    }
    proof {
        assert forall|a: int, b: int| 0 <= a < b < res.len() implies path_before(
            #[trigger] res@[a]@,
            #[trigger] res@[b]@,
        ) by {
            assert(chars_before(ks[res_pos@[a] as int], ks[res_pos@[b] as int]));
            assert(res@[a]@ == paths@[res_pos@[a] as int]@);
            assert(res@[b]@ == paths@[res_pos@[b] as int]@);
            assert(ks[res_pos@[a] as int] == path_key(paths@[res_pos@[a] as int]@));
            assert(ks[res_pos@[b] as int] == path_key(paths@[res_pos@[b] as int]@));
        }
        assert forall|k: int| 0 <= k < res.len() implies exists|i: int|
            first_occurrence(paths@, i) && #[trigger] res@[k]@ == paths@[i]@ by {
            assert(first_occurrence(paths@, res_pos@[k] as int));
        }
        assert forall|i: int| 0 <= i < paths.len() implies path_listed(res@, #[trigger] paths@[i]@) by {
            assert(order@.contains(i as usize));
            let q = choose|q: int| 0 <= q < order@.len() && order@[q] == i as usize;
            assert(key_listed(ks, res_pos@, ks[order@[q] as int]));
            let k = choose|k: int| 0 <= k < res_pos@.len() && ks[#[trigger] res_pos@[k] as int] == ks[order@[q] as int];
            assert(res@[k]@ == paths@[res_pos@[k] as int]@);
            assert(ks[res_pos@[k] as int] == path_key(paths@[res_pos@[k] as int]@));
            assert(ks[i] == path_key(paths@[i]@));
            assert(same_path(res@[k]@, paths@[i]@));
        }
        assert(sorted_unique_of(paths@, res@));
    }
    res
}


/// The paths are in `PathBuf` order (equal paths in any order).
pub open spec fn in_path_order(s: Seq<Seq<char>>) -> bool {
    forall|a: int, b: int| 0 <= a < b < s.len() ==> !path_before(#[trigger] s[b], #[trigger] s[a])
}

/// `a` holds the entries of `b`, each once, in some order.
pub open spec fn rearranges(a: Seq<Seq<char>>, b: Seq<Seq<char>>) -> bool {
    &&& a.len() == b.len()
    &&& exists|s: Seq<usize>|
        covers(s, 0, b.len() as int) && forall|i: int| 0 <= i < a.len() ==> #[trigger] a[i] == b[s[i] as int]
}

/// The paths in `PathBuf` order, equal paths kept in their given order (a stable
/// sort).
pub fn sort_paths(paths: &Vec<String>) -> (r: Vec<String>)
    ensures
        in_path_order(crate::groups::path_texts(r@)),
        rearranges(crate::groups::path_texts(r@), crate::groups::path_texts(paths@)),
{
    let mut keys: Vec<Vec<char>> = Vec::new();
    let mut i: usize = 0;
    while i < paths.len()
        invariant
            i <= paths.len(),
            keys.len() == i,
            forall|k: int| 0 <= k < i ==> #[trigger] keys@[k]@ == path_key(paths@[k]@),
        decreases paths.len() - i,
    {
        keys.push(path_key_of(paths[i].as_str()));
        i += 1;
    }
    let ghost ks = texts(keys@);
    let ghost pv = crate::groups::path_texts(paths@);
    assert forall|k: int| 0 <= k < paths.len() implies #[trigger] ks[k] == path_key(pv[k]) by {
        assert(keys@[k]@ == path_key(paths@[k]@));
    }
    let order = sort_positions(&keys);
    let mut r: Vec<String> = Vec::new();
    let mut p: usize = 0;
    while p < order.len()
        invariant
            ks == texts(keys@),
            pv == crate::groups::path_texts(paths@),
            keys.len() == paths.len(),
            covers(order@, 0, keys.len() as int),
            p <= order.len(),
            r.len() == p,
            forall|k: int| 0 <= k < p ==> #[trigger] r@[k]@ == pv[order@[k] as int],
        decreases order.len() - p,
    {
        let idx = order[p];
        r.push(paths[idx].clone());
        p += 1;
    }
    proof {
        let rv = crate::groups::path_texts(r@);
        assert forall|i: int| 0 <= i < rv.len() implies #[trigger] rv[i] == pv[order@[i] as int] by {
            assert(r@[i]@ == pv[order@[i] as int]);
        }
        assert(covers(order@, 0, pv.len() as int));
        assert(rv.len() == pv.len());
        assert(covers(order@, 0, pv.len() as int) && forall|i: int| 0 <= i < rv.len() ==> #[trigger] rv[i] == pv[order@[i] as int]);
        assert forall|a: int, b: int| 0 <= a < b < rv.len() implies !path_before(#[trigger] rv[b], #[trigger] rv[a]) by {
            let oa = order@[a] as int;
            let ob = order@[b] as int;
            assert(item_before(ks, oa, ob));
            assert(ks[oa] == path_key(rv[a]));
            assert(ks[ob] == path_key(rv[b]));
            if chars_before(ks[oa], ks[ob]) {
                lemma_chars_before_asymmetric(ks[oa], ks[ob]);
            } else {
                lemma_chars_before_irreflexive(ks[oa]);
            }
        }
    }
    r
}

} // verus!
