//! The path model used throughout the library.
//!
//! A path is held as its text. Its meaning is the list of its components, as
//! `std::path` reads a Unix-style path: the text is cut at every `/`; a leading
//! `/` is the root; empty pieces are skipped; a `.` is kept only as the very
//! first piece (the current directory); `..` is the parent directory; every other
//! piece is a name. Each component is written as a tag character followed by its
//! text (root `\u{1}`, current `\u{2}`, parent `\u{3}`, name `\u{4}` + name), and
//! the *key* of a path joins its components, each closed by `\u{0}`. Two paths are
//! the same path when their keys are equal; paths are ordered by their keys, which
//! is the component-by-component order of `PathBuf`; and a path starts with
//! another when the other's key is a prefix of its key.

use vstd::prelude::*;
use crate::text::{chars_before, chars_of, order_chars, KeyOrder};

verus! {

/// True when the two character sequences are equal.
pub fn matches_text(a: &Vec<char>, b: &[char]) -> (r: bool)
    ensures
        r == (a@ == b@),
{
    if a.len() != b.len() {
        return false;
    }
    let mut i: usize = 0;
    while i < a.len()
        invariant
            i <= a.len(),
            a.len() == b.len(),
            forall|k: int| 0 <= k < i ==> a@[k] == b@[k],
        decreases a.len() - i,
    {
        if a[i] != b[i] {
            return false;
        }
        i += 1;
    }
    assert(a@ =~= b@);
    true
}

/// The texts held by a vector of character vectors.
pub open spec fn texts(v: Seq<Vec<char>>) -> Seq<Seq<char>> {
    v.map_values(|p: Vec<char>| p@)
}

/// The pieces of `s` between `/` separators, empty pieces included.
pub open spec fn path_pieces(s: Seq<char>) -> Seq<Seq<char>>
    decreases s.len(),
{
    if s.len() == 0 {
        seq![Seq::<char>::empty()]
    } else {
        let p = path_pieces(s.drop_last());
        if s.last() == '/' {
            p.push(Seq::<char>::empty())
        } else {
            p.update(p.len() - 1, p.last().push(s.last()))
        }
    }
}

pub proof fn lemma_path_pieces_nonempty(s: Seq<char>)
    ensures
        path_pieces(s).len() >= 1,
    decreases s.len(),
{
    if s.len() > 0 {
        lemma_path_pieces_nonempty(s.drop_last());
    }
}

/// The tagged component that the piece at `index` contributes, or nothing (empty).
pub open spec fn tagged_part(piece: Seq<char>, index: int) -> Seq<char> {
    if piece.len() == 0 {
        Seq::<char>::empty()
    } else if piece == seq!['.'] {
        if index == 0 {
            seq!['\u{2}']
        } else {
            Seq::<char>::empty()
        }
    } else if piece == seq!['.', '.'] {
        seq!['\u{3}']
    } else {
        seq!['\u{4}'] + piece
    }
}

/// The tagged components of a list of pieces.
pub open spec fn parts_of_pieces(pieces: Seq<Seq<char>>) -> Seq<Seq<char>>
    decreases pieces.len(),
{
    if pieces.len() == 0 {
        Seq::<Seq<char>>::empty()
    } else {
        let rest = parts_of_pieces(pieces.drop_last());
        let t = tagged_part(pieces.last(), pieces.len() - 1);
        if t.len() == 0 {
            rest
        } else {
            rest.push(t)
        }
    }
}

/// The root component, when the path starts with `/`.
pub open spec fn root_part(s: Seq<char>) -> Seq<Seq<char>> {
    if s.len() > 0 && s[0] == '/' {
        seq![seq!['\u{1}']]
    } else {
        Seq::<Seq<char>>::empty()
    }
}

/// The tagged components of the path `s`.
pub open spec fn path_parts(s: Seq<char>) -> Seq<Seq<char>> {
    root_part(s) + parts_of_pieces(path_pieces(s))
}

/// Components joined, each closed by `\u{0}`.
pub open spec fn parts_key(parts: Seq<Seq<char>>) -> Seq<char>
    decreases parts.len(),
{
    if parts.len() == 0 {
        Seq::<char>::empty()
    } else {
        parts_key(parts.drop_last()) + parts.last().push('\u{0}')
    }
}

/// The key of a path: its components, tagged and closed.
pub open spec fn path_key(s: Seq<char>) -> Seq<char> {
    parts_key(path_parts(s))
}

/// The two texts name the same path (`PathBuf` equality).
pub open spec fn same_path(a: Seq<char>, b: Seq<char>) -> bool {
    path_key(a) == path_key(b)
}

/// `a` sorts before `b` (`PathBuf` order).
pub open spec fn path_before(a: Seq<char>, b: Seq<char>) -> bool {
    chars_before(path_key(a), path_key(b))
}

/// `p` lies at or below `base` (`Path::starts_with`).
pub open spec fn path_starts_with(p: Seq<char>, base: Seq<char>) -> bool {
    path_key(base).len() <= path_key(p).len() && path_key(p).take(path_key(base).len() as int)
        == path_key(base)
}

/// The path whose key is `key` lies at or below `base`.
pub open spec fn key_starts_with(key: Seq<char>, base: Seq<char>) -> bool {
    path_key(base).len() <= key.len() && key.take(path_key(base).len() as int) == path_key(base)
}

/// The final component when it is a name (`Path::file_name`).
pub open spec fn file_name(s: Seq<char>) -> Option<Seq<char>> {
    let parts = path_parts(s);
    if parts.len() > 0 && parts.last().len() > 0 && parts.last()[0] == '\u{4}' {
        Some(parts.last().drop_first())
    } else {
        None
    }
}

/// Index of the last `c` in `s`, or -1.
pub open spec fn last_index_of(s: Seq<char>, c: char) -> int
    decreases s.len(),
{
    if s.len() == 0 {
        -1
    } else if s.last() == c {
        s.len() - 1
    } else {
        last_index_of(s.drop_last(), c)
    }
}

pub proof fn lemma_last_index_of_bounds(s: Seq<char>, c: char)
    ensures
        -1 <= last_index_of(s, c) < s.len(),
        last_index_of(s, c) >= 0 ==> s[last_index_of(s, c)] == c,
        forall|k: int| last_index_of(s, c) < k < s.len() ==> s[k] != c,
    decreases s.len(),
{
    if s.len() > 0 && s.last() != c {
        lemma_last_index_of_bounds(s.drop_last(), c);
        assert forall|k: int| last_index_of(s, c) < k < s.len() implies s[k] != c by {
            if k < s.len() - 1 {
                assert(s.drop_last()[k] == s[k]);
            }
        }
    }
}

/// The extension of a file name (`Path::extension`): what follows the last `.`,
/// when something precedes that dot.
pub open spec fn name_extension(name: Seq<char>) -> Option<Seq<char>> {
    let k = last_index_of(name, '.');
    if name == seq!['.', '.'] || k <= 0 {
        None
    } else {
        Some(name.skip(k + 1))
    }
}

/// The stem of a file name (`Path::file_stem`): what precedes the last `.`, or the
/// whole name when there is no such dot or nothing precedes it.
pub open spec fn name_stem(name: Seq<char>) -> Seq<char> {
    let k = last_index_of(name, '.');
    if name == seq!['.', '.'] || k <= 0 {
        name
    } else {
        name.take(k)
    }
}

/// Appending text without a `/` extends the last piece of a path.
pub proof fn lemma_pieces_append(d: Seq<char>, name: Seq<char>)
    requires
        !name.contains('/'),
    ensures
        path_pieces(d + name).len() == path_pieces(d).len(),
        path_pieces(d + name).last() == path_pieces(d).last() + name,
        path_pieces(d + name).drop_last() == path_pieces(d).drop_last(),
    decreases name.len(),
{
    lemma_path_pieces_nonempty(d);
    if name.len() == 0 {
        assert(d + name =~= d);
        assert(path_pieces(d).last() + name =~= path_pieces(d).last());
    } else {
        let n2 = name.drop_last();
        assert(!n2.contains('/')) by {
            if n2.contains('/') {
                let i = choose|i: int| 0 <= i < n2.len() && n2[i] == '/';
                assert(name[i] == '/');
            }
        }
        lemma_pieces_append(d, n2);
        lemma_path_pieces_nonempty(d + n2);
        let full = d + name;
        assert(full.drop_last() =~= d + n2);
        assert(full.last() == name.last());
        assert(name.last() != '/') by {
            assert(name[name.len() - 1] == name.last());
        }
        let p = path_pieces(d + n2);
        assert(path_pieces(full) == p.update(p.len() - 1, p.last().push(name.last())));
        assert(path_pieces(d).last() + name =~= (path_pieces(d).last() + n2).push(name.last()));
        assert(path_pieces(full).drop_last() =~= p.drop_last());
    }
}

/// After a directory part that is empty or ends with `/`, a name without `/` (and
/// other than `.` and `..`) is the path's file name.
pub proof fn lemma_file_name_after_dir(dir: Seq<char>, name: Seq<char>)
    requires
        dir.len() == 0 || dir.last() == '/',
        name.len() > 0,
        !name.contains('/'),
        name != seq!['.'],
        name != seq!['.', '.'],
    ensures
        file_name(dir + name) == Some(name),
{
    lemma_pieces_append(dir, name);
    lemma_path_pieces_nonempty(dir);
    if dir.len() == 0 {
        assert(path_pieces(dir).last().len() == 0);
    } else {
        assert(dir.drop_last().push(dir.last()) =~= dir);
        lemma_path_pieces_nonempty(dir.drop_last());
        assert(path_pieces(dir).last().len() == 0);
    }
    let pieces = path_pieces(dir + name);
    assert(pieces.last() =~= name);
    let t = tagged_part(pieces.last(), pieces.len() - 1);
    assert(t == seq!['\u{4}'] + name);
    let parts = path_parts(dir + name);
    assert(parts_of_pieces(pieces) == parts_of_pieces(pieces.drop_last()).push(t));
    assert(parts.last() == t);
    assert(t.drop_first() =~= name);
}

/// After a non-empty stem and a `.`, an extension without `.` is the extension of
/// the file name.
pub proof fn lemma_extension_after_dot(stem: Seq<char>, ext: Seq<char>)
    requires
        stem.len() > 0,
        ext.len() > 0 || stem.len() > 1,
        !ext.contains('.'),
    ensures
        name_extension(stem + seq!['.'] + ext) == Some(ext),
    decreases ext.len(),
{
    lemma_last_dot(stem, ext);
    let name = stem + seq!['.'] + ext;
    assert(name.len() > 2);
    assert(name.skip(stem.len() + 1int) =~= ext);
    assert(name != seq!['.', '.']);
}

proof fn lemma_last_dot(stem: Seq<char>, ext: Seq<char>)
    requires
        !ext.contains('.'),
    ensures
        last_index_of(stem + seq!['.'] + ext, '.') == stem.len(),
    decreases ext.len(),
{
    let name = stem + seq!['.'] + ext;
    if ext.len() == 0 {
        assert(name.last() == '.');
    } else {
        let e2 = ext.drop_last();
        assert(!e2.contains('.')) by {
            if e2.contains('.') {
                let i = choose|i: int| 0 <= i < e2.len() && e2[i] == '.';
                assert(ext[i] == '.');
            }
        }
        lemma_last_dot(stem, e2);
        assert(name.drop_last() =~= stem + seq!['.'] + e2);
        assert(name.last() == ext.last());
        assert(ext.last() != '.') by {
            assert(ext[ext.len() - 1] == ext.last());
        }
    }
}

/// The extension of a path.
pub open spec fn path_extension(s: Seq<char>) -> Option<Seq<char>> {
    match file_name(s) {
        Some(name) => name_extension(name),
        None => None,
    }
}

fn single(c: char) -> (v: Vec<char>)
    ensures
        v@ == seq![c],
{
    let mut v = Vec::new();
    v.push(c);
    assert(v@ =~= seq![c]);
    v
}

fn tag_piece(piece: &Vec<char>, index: usize) -> (t: Vec<char>)
    ensures
        t@ == tagged_part(piece@, index as int),
{
    if piece.len() == 0 {
        Vec::new()
    } else if piece.len() == 1 && piece[0] == '.' {
        assert(piece@ =~= seq!['.']);
        if index == 0 {
            single('\u{2}')
        } else {
            Vec::new()
        }
    } else if piece.len() == 2 && piece[0] == '.' && piece[1] == '.' {
        assert(piece@ =~= seq!['.', '.']);
        single('\u{3}')
    } else {
        assert(piece@ != seq!['.']);
        assert(piece@ != seq!['.', '.']);
        let mut t = single('\u{4}');
        let mut i: usize = 0;
        while i < piece.len()
            invariant
                i <= piece.len(),
                t@ == seq!['\u{4}'] + piece@.take(i as int),
            decreases piece.len() - i,
        {
            t.push(piece[i]);
            i += 1;
            assert(piece@.take(i as int) =~= piece@.take(i - 1).push(piece@[i - 1]));
            assert(t@ =~= seq!['\u{4}'] + piece@.take(i as int));
        }
        assert(piece@.take(i as int) =~= piece@);
        t
    }
}

/// The tagged components of the path `s`.
pub fn parts_of(s: &str) -> (parts: Vec<Vec<char>>)
    ensures
        texts(parts@) == path_parts(s@),
{
    let cs = chars_of(s);
    let mut parts: Vec<Vec<char>> = Vec::new();
    if cs.len() > 0 && cs[0] == '/' {
        parts.push(single('\u{1}'));
    }
    let mut cur: Vec<char> = Vec::new();
    let mut index: usize = 0;
    let mut i: usize = 0;
    assert(cs@.take(0) =~= Seq::<char>::empty());
    assert(path_pieces(cs@.take(0)) == seq![Seq::<char>::empty()]);
    assert(path_pieces(cs@.take(0)).drop_last() =~= Seq::<Seq<char>>::empty());
    assert(texts(parts@) =~= root_part(cs@) + parts_of_pieces(
        path_pieces(cs@.take(0)).drop_last(),
    ));
    while i < cs.len()
        invariant
            i <= cs.len(),
            cs@ == s@,
            index <= i,
            path_pieces(cs@.take(i as int)).len() == index + 1,
            path_pieces(cs@.take(i as int)).last() == cur@,
            texts(parts@) == root_part(cs@) + parts_of_pieces(
                path_pieces(cs@.take(i as int)).drop_last(),
            ),
        decreases cs.len() - i,
    {
        let ghost before = path_pieces(cs@.take(i as int));
        let c = cs[i];
        assert(cs@.take(i + 1).drop_last() =~= cs@.take(i as int));
        assert(cs@.take(i + 1).last() == c);
        if c == '/' {
            let t = tag_piece(&cur, index);
            let ghost old_texts = texts(parts@);
            if t.len() > 0 {
                parts.push(t);
                assert(texts(parts@) =~= old_texts.push(t@));
            }
            proof {
                let after = path_pieces(cs@.take(i + 1));
                assert(after == before.push(Seq::<char>::empty()));
                assert(after.drop_last() =~= before);
                assert(before.drop_last().push(cur@) =~= before);
                assert(parts_of_pieces(after.drop_last()) == parts_of_pieces(before));
                assert(texts(parts@) =~= root_part(cs@) + parts_of_pieces(after.drop_last()));
            }
            cur = Vec::new();
            index = index + 1;
        } else {
            cur.push(c);
            proof {
                let after = path_pieces(cs@.take(i + 1));
                assert(after == before.update(before.len() - 1, before.last().push(c)));
                assert(after.drop_last() =~= before.drop_last());
            }
        }
        i = i + 1;
    }
    assert(cs@.take(i as int) =~= cs@);
    let ghost done = path_pieces(cs@);
    let t = tag_piece(&cur, index);
    let ghost old_texts = texts(parts@);
    if t.len() > 0 {
        parts.push(t);
        assert(texts(parts@) =~= old_texts.push(t@));
    }
    proof {
        lemma_path_pieces_nonempty(cs@);
        assert(done.drop_last().push(cur@) =~= done);
        assert(parts_of_pieces(done) == (if t@.len() == 0 {
            parts_of_pieces(done.drop_last())
        } else {
            parts_of_pieces(done.drop_last()).push(t@)
        }));
        assert(texts(parts@) =~= root_part(cs@) + parts_of_pieces(done));
    }
    parts
}

/// The key of the path `s`.
pub fn path_key_of(s: &str) -> (key: Vec<char>)
    ensures
        key@ == path_key(s@),
{
    let parts = parts_of(s);
    let mut key: Vec<char> = Vec::new();
    let mut i: usize = 0;
    while i < parts.len()
        invariant
            i <= parts.len(),
            texts(parts@) == path_parts(s@),
            key@ == parts_key(texts(parts@).take(i as int)),
        decreases parts.len() - i,
    {
        let part = &parts[i];
        let ghost before = key@;
        let mut j: usize = 0;
        while j < part.len()
            invariant
                j <= part.len(),
                key@ == before + part@.take(j as int),
            decreases part.len() - j,
        {
            key.push(part[j]);
            j += 1;
            assert(part@.take(j as int) =~= part@.take(j - 1).push(part@[j - 1]));
            assert(key@ =~= before + part@.take(j as int));
        }
        key.push('\u{0}');
        proof {
            assert(part@.take(j as int) =~= part@);
            let dv = texts(parts@);
            assert(dv.take(i + 1).drop_last() =~= dv.take(i as int));
            assert(dv.take(i + 1).last() == dv[i as int]);
            assert(dv[i as int] == part@);
            assert(key@ =~= parts_key(dv.take(i + 1)));
        }
        i = i + 1;
    }
    assert(texts(parts@).take(i as int) =~= texts(parts@));
    key
}

/// The file name of `s`, when its last component is a name.
pub fn file_name_of(s: &str) -> (name: Option<Vec<char>>)
    ensures
        match name {
            Some(n) => file_name(s@) == Some(n@),
            None => file_name(s@) is None,
        },
{
    let parts = parts_of(s);
    let n = parts.len();
    if n > 0 && parts[n - 1].len() > 0 && parts[n - 1][0] == '\u{4}' {
        let last = &parts[n - 1];
        let mut name: Vec<char> = Vec::new();
        let mut i: usize = 1;
        while i < last.len()
            invariant
                1 <= i <= last.len(),
                name@ == last@.subrange(1, i as int),
            decreases last.len() - i,
        {
            name.push(last[i]);
            i += 1;
            assert(last@.subrange(1, i as int) =~= last@.subrange(1, i - 1).push(last@[i - 1]));
        }
        assert(last@.subrange(1, i as int) =~= last@.drop_first());
        assert(texts(parts@).last() == last@);
        Some(name)
    } else {
        assert(n > 0 ==> texts(parts@).last() == parts[n - 1]@);
        None
    }
}

/// Index of the last `c` in `s`, if any.
pub fn last_index_in(s: &Vec<char>, c: char) -> (r: Option<usize>)
    ensures
        match r {
            Some(k) => last_index_of(s@, c) == k as int,
            None => last_index_of(s@, c) == -1,
        },
{
    let mut i: usize = s.len();
    assert(s@.take(i as int) =~= s@);
    while i > 0
        invariant
            i <= s.len(),
            last_index_of(s@, c) == last_index_of(s@.take(i as int), c),
        decreases i,
    {
        assert(s@.take(i as int).drop_last() =~= s@.take(i - 1));
        if s[i - 1] == c {
            return Some(i - 1);
        }
        i -= 1;
    }
    assert(s@.take(0) =~= Seq::<char>::empty());
    None
}

/// The part of `s` from `start` (inclusive) to `end` (exclusive).
pub fn slice_chars(s: &Vec<char>, start: usize, end: usize) -> (r: Vec<char>)
    requires
        start <= end <= s.len(),
    ensures
        r@ == s@.subrange(start as int, end as int),
{
    let mut r: Vec<char> = Vec::new();
    let mut i = start;
    while i < end
        invariant
            start <= i <= end,
            end <= s.len(),
            r@ == s@.subrange(start as int, i as int),
        decreases end - i,
    {
        r.push(s[i]);
        i += 1;
        assert(s@.subrange(start as int, i as int) =~= s@.subrange(start as int, i - 1).push(
            s@[i - 1],
        ));
    }
    r
}

/// The extension of a file name.
pub fn name_extension_of(name: &Vec<char>) -> (ext: Option<Vec<char>>)
    ensures
        match ext {
            Some(e) => name_extension(name@) == Some(e@),
            None => name_extension(name@) is None,
        },
{
    if matches_text(name, &['.', '.']) {
        return None;
    }
    proof {
        lemma_last_index_of_bounds(name@, '.');
    }
    match last_index_in(name, '.') {
        None => None,
        Some(k) => {
            if k == 0 {
                None
            } else {
                assert(k < name.len());
                let e = slice_chars(name, k + 1, name.len());
                assert(e@ =~= name@.skip(k + 1));
                Some(e)
            }
        },
    }
}

/// The stem of a file name.
pub fn name_stem_of(name: &Vec<char>) -> (stem: Vec<char>)
    ensures
        stem@ == name_stem(name@),
{
    if matches_text(name, &['.', '.']) {
        return slice_chars(name, 0, name.len());
    }
    proof {
        lemma_last_index_of_bounds(name@, '.');
    }
    match last_index_in(name, '.') {
        None => {
            let r = slice_chars(name, 0, name.len());
            assert(r@ =~= name@);
            r
        },
        Some(k) => {
            if k == 0 {
                let r = slice_chars(name, 0, name.len());
                assert(r@ =~= name@);
                r
            } else {
                let r = slice_chars(name, 0, k);
                assert(r@ =~= name@.take(k as int));
                r
            }
        },
    }
}

/// The extension of the path `s`.
pub fn path_extension_of(s: &str) -> (ext: Option<Vec<char>>)
    ensures
        match ext {
            Some(e) => path_extension(s@) == Some(e@),
            None => path_extension(s@) is None,
        },
{
    match file_name_of(s) {
        None => None,
        Some(name) => name_extension_of(&name),
    }
}

/// True when `a` and `b` name the same path.
pub fn is_same_path(a: &str, b: &str) -> (r: bool)
    ensures
        r == same_path(a@, b@),
{
    let ka = path_key_of(a);
    let kb = path_key_of(b);
    order_chars(&ka, &kb) == KeyOrder::Same
}

/// True when `p` lies at or below `base`.
pub fn starts_with_path(p: &str, base: &str) -> (r: bool)
    ensures
        r == path_starts_with(p@, base@),
{
    let kp = path_key_of(p);
    let kb = path_key_of(base);
    if kb.len() > kp.len() {
        return false;
    }
    let mut i: usize = 0;
    while i < kb.len()
        invariant
            i <= kb.len() <= kp.len(),
            kp@ == path_key(p@),
            kb@ == path_key(base@),
            forall|k: int| 0 <= k < i ==> kp@[k] == kb@[k],
        decreases kb.len() - i,
    {
        if kp[i] != kb[i] {
            assert(kp@.take(kb.len() as int)[i as int] != kb@[i as int]);
            assert(kp@.take(kb.len() as int) != kb@);
            return false;
        }
        i += 1;
    }
    assert(kp@.take(kb.len() as int) =~= kb@);
    true
}


/// A `/` splits a path's pieces: those before it, then those after it.
proof fn lemma_pieces_split(a: Seq<char>, b: Seq<char>)
    ensures
        path_pieces(a + seq!['/'] + b) == path_pieces(a) + path_pieces(b),
    decreases b.len(),
{
    let x = a + seq!['/'] + b;
    if b.len() == 0 {
        assert(x =~= a.push('/'));
        assert(x.drop_last() =~= a);
        assert(path_pieces(x) =~= path_pieces(a) + path_pieces(b));
    } else {
        let b2 = b.drop_last();
        lemma_pieces_split(a, b2);
        lemma_path_pieces_nonempty(b2);
        assert(x.drop_last() =~= a + seq!['/'] + b2);
        assert(x.last() == b.last());
        let pa = path_pieces(a);
        let pb = path_pieces(b2);
        if b.last() == '/' {
            assert(path_pieces(x) =~= pa + pb.push(Seq::<char>::empty()));
        } else {
            let q = pa + pb;
            assert(path_pieces(x) == q.update(q.len() - 1, q.last().push(b.last())));
            assert(path_pieces(b) == pb.update(pb.len() - 1, pb.last().push(b.last())));
            assert(q.last() == pb.last());
            assert(path_pieces(x) =~= pa + path_pieces(b));
        }
    }
}

/// More pieces after some pieces leave the components of the first ones in front.
proof fn lemma_parts_prefix(a: Seq<Seq<char>>, b: Seq<Seq<char>>)
    ensures
        parts_of_pieces(a).len() <= parts_of_pieces(a + b).len(),
        parts_of_pieces(a + b).take(parts_of_pieces(a).len() as int) == parts_of_pieces(a),
    decreases b.len(),
{
    if b.len() == 0 {
        assert(a + b =~= a);
        assert(parts_of_pieces(a).take(parts_of_pieces(a).len() as int) =~= parts_of_pieces(a));
    } else {
        let b2 = b.drop_last();
        lemma_parts_prefix(a, b2);
        assert((a + b).drop_last() =~= a + b2);
        let r = parts_of_pieces(a + b2);
        let n = parts_of_pieces(a).len() as int;
        assert(r.push(tagged_part(b.last(), (a + b).len() - 1)).take(n) =~= r.take(n));
    }
}

/// Closing more components after some components leaves the key of the first
/// ones in front.
proof fn lemma_key_prefix(s: Seq<Seq<char>>, k: int)
    requires
        0 <= k <= s.len(),
    ensures
        parts_key(s.take(k)).len() <= parts_key(s).len(),
        parts_key(s).take(parts_key(s.take(k)).len() as int) == parts_key(s.take(k)),
    decreases s.len(),
{
    if k == s.len() {
        assert(s.take(k) =~= s);
        assert(parts_key(s).take(parts_key(s).len() as int) =~= parts_key(s));
    } else {
        lemma_key_prefix(s.drop_last(), k);
        assert(s.drop_last().take(k) =~= s.take(k));
        let p = parts_key(s.drop_last());
        let n = parts_key(s.take(k)).len() as int;
        assert((p + s.last().push('\u{0}')).take(n) =~= p.take(n));
    }
}

/// Everything written as a location, a `/` and more lies at or below that
/// location: the files that a walk of a location finds belong to it.
pub proof fn lemma_below_location(a: Seq<char>, b: Seq<char>)
    ensures
        path_starts_with(a + seq!['/'] + b, a),
{
    let x = a + seq!['/'] + b;
    lemma_pieces_split(a, b);
    lemma_parts_prefix(path_pieces(a), path_pieces(b));
    let px = path_parts(x);
    let pa = path_parts(a);
    if a.len() > 0 {
        assert(x[0] == a[0]);
        assert(root_part(x) == root_part(a));
        let r = root_part(a);
        let qa = parts_of_pieces(path_pieces(a));
        let qx = parts_of_pieces(path_pieces(x));
        assert(px.take(pa.len() as int) =~= r + qx.take(qa.len() as int));
        lemma_key_prefix(px, pa.len() as int);
        assert(px.take(pa.len() as int) == pa);
    } else {
        assert(path_pieces(a) =~= seq![Seq::<char>::empty()]);
        assert(parts_of_pieces(path_pieces(a)).len() == 0) by {
            let e = seq![Seq::<char>::empty()];
            assert(e.drop_last() =~= Seq::<Seq<char>>::empty());
            assert(e.last() == Seq::<char>::empty());
            assert(tagged_part(e.last(), 0).len() == 0);
            assert(parts_of_pieces(Seq::<Seq<char>>::empty()).len() == 0);
            assert(parts_of_pieces(e) == parts_of_pieces(e.drop_last()));
        }
        assert(pa =~= Seq::<Seq<char>>::empty());
        lemma_key_prefix(px, 0);
        assert(px.take(0) =~= pa);
    }
}

/// A `/` at the end of a location names the same location.
pub proof fn lemma_trailing_separator(a: Seq<char>)
    requires
        a.len() > 0,
    ensures
        same_path(a + seq!['/'], a),
{
    let x = a + seq!['/'];
    assert(x =~= a + seq!['/'] + Seq::<char>::empty());
    lemma_pieces_split(a, Seq::<char>::empty());
    assert(path_pieces(Seq::<char>::empty()) =~= seq![Seq::<char>::empty()]);
    let pa = path_pieces(a);
    assert((pa + seq![Seq::<char>::empty()]).drop_last() =~= pa);
    assert(parts_of_pieces(path_pieces(x)) == parts_of_pieces(pa));
    assert(x[0] == a[0]);
    assert(path_parts(x) == path_parts(a));
}


/// Pieces that name nothing away from the front (empty ones and `.`) add no
/// component when they stand after the first piece.
proof fn lemma_parts_skip_inner(a: Seq<Seq<char>>, c: Seq<Seq<char>>, b: Seq<Seq<char>>)
    requires
        a.len() >= 1,
        forall|i: int| 0 <= i < c.len() ==> (#[trigger] c[i]).len() == 0 || c[i] == seq!['.'],
    ensures
        parts_of_pieces(a + c + b) == parts_of_pieces(a + b),
    decreases b.len(), c.len(),
{
    if b.len() > 0 {
        let b2 = b.drop_last();
        lemma_parts_skip_inner(a, c, b2);
        assert((a + c + b).drop_last() =~= a + c + b2);
        assert((a + b).drop_last() =~= a + b2);
        assert((a + c + b).last() == b.last());
        assert((a + b).last() == b.last());
    } else if c.len() > 0 {
        let c2 = c.drop_last();
        lemma_parts_skip_inner(a, c2, b);
        assert(a + c + b =~= a + c);
        assert(a + c2 + b =~= a + c2);
        assert((a + c).drop_last() =~= a + c2);
        assert(c[c.len() - 1].len() == 0 || c[c.len() - 1] == seq!['.']);
        assert(tagged_part((a + c).last(), (a + c).len() - 1).len() == 0);
    } else {
        assert(a + c + b =~= a + b);
    }
}

/// Two `/` in a row, or a `/./`, name the same path as one `/`.
pub proof fn lemma_separator_spellings(a: Seq<char>, b: Seq<char>)
    ensures
        same_path(a + seq!['/', '/'] + b, a + seq!['/'] + b),
        same_path(a + seq!['/', '.', '/'] + b, a + seq!['/'] + b),
{
    let e = Seq::<char>::empty();
    let x = a + seq!['/'] + b;
    let y = a + seq!['/', '/'] + b;
    let z = a + seq!['/', '.', '/'] + b;
    lemma_pieces_split(a, b);
    lemma_pieces_split(a, seq!['/'] + b);
    lemma_pieces_split(e, b);
    lemma_pieces_split(a, seq!['.', '/'] + b);
    lemma_pieces_split(seq!['.'], b);
    lemma_path_pieces_nonempty(a);
    assert(y =~= a + seq!['/'] + (seq!['/'] + b));
    assert(seq!['/'] + b =~= e + seq!['/'] + b);
    assert(z =~= a + seq!['/'] + (seq!['.', '/'] + b));
    assert(seq!['.', '/'] + b =~= seq!['.'] + seq!['/'] + b);
    let pe = path_pieces(e);
    assert(pe =~= seq![e]);
    let pd = path_pieces(seq!['.']);
    assert(seq!['.'].drop_last() =~= e);
    assert(pd =~= seq![seq!['.']]) by {
        assert(pe.last().push('.') =~= seq!['.']);
    }
    let pa = path_pieces(a);
    let pb = path_pieces(b);
    assert(path_pieces(y) =~= pa + pe + pb);
    assert(path_pieces(z) =~= pa + pd + pb);
    lemma_parts_skip_inner(pa, pe, pb);
    lemma_parts_skip_inner(pa, pd, pb);
    if a.len() > 0 {
        assert(x[0] == a[0] && y[0] == a[0] && z[0] == a[0]);
    } else {
        assert(x[0] == '/' && y[0] == '/' && z[0] == '/');
    }
    assert(root_part(x) == root_part(y) && root_part(x) == root_part(z));
    assert(path_parts(y) == path_parts(x));
    assert(path_parts(z) == path_parts(x));
}

} // verus!
