//! File names that the organizer and the photo tools derive from existing names.

use vstd::prelude::*;
use crate::dates::{padded, push_padded};
use crate::paths::{
    file_name, file_name_of, name_extension, name_extension_of, name_stem, name_stem_of, parts_of,
    path_parts, slice_chars, texts,
};
use crate::text::{chars_of, decimal, lemma_decimal_injective, push_decimal, push_text, string_of};

verus! {

/// The character is an ASCII digit.
pub open spec fn ascii_digit(c: char) -> bool {
    48 <= (c as u32) <= 57
}

/// The name starts with a `YYYY-MM-DD - ` date prefix.
pub open spec fn date_prefixed(s: Seq<char>) -> bool {
    &&& s.len() >= 13
    &&& ascii_digit(s[0]) && ascii_digit(s[1]) && ascii_digit(s[2]) && ascii_digit(s[3])
    &&& s[4] == '-'
    &&& ascii_digit(s[5]) && ascii_digit(s[6])
    &&& s[7] == '-'
    &&& ascii_digit(s[8]) && ascii_digit(s[9])
    &&& s[10] == ' ' && s[11] == '-' && s[12] == ' '
}

/// The name without its date prefix, if it has one.
pub open spec fn unprefixed(s: Seq<char>) -> Seq<char> {
    if date_prefixed(s) {
        s.skip(13)
    } else {
        s
    }
}

/// The name that carries `date` as its prefix: `date - name`, where an existing
/// prefix of the name is replaced.
pub open spec fn dated_name(name: Seq<char>, date: Seq<char>) -> Seq<char> {
    date + seq![' ', '-', ' '] + unprefixed(name)
}

/// `s` begins with `prefix`.
pub open spec fn begins_with(s: Seq<char>, prefix: Seq<char>) -> bool {
    prefix.len() <= s.len() && s.take(prefix.len() as int) == prefix
}

fn is_ascii_digit(c: char) -> (r: bool)
    ensures
        r == ascii_digit(c),
{
    let v = c as u32;
    48 <= v && v <= 57
}

/// The file name starts with a `YYYY-MM-DD - ` prefix.
pub fn has_date_prefix(file_name: &str) -> (r: bool)
    ensures
        r == date_prefixed(file_name@),
{
    let c = chars_of(file_name);
    if c.len() < 13 {
        return false;
    }
    is_ascii_digit(c[0]) && is_ascii_digit(c[1]) && is_ascii_digit(c[2]) && is_ascii_digit(c[3])
        && c[4] == '-' && is_ascii_digit(c[5]) && is_ascii_digit(c[6]) && c[7] == '-'
        && is_ascii_digit(c[8]) && is_ascii_digit(c[9]) && c[10] == ' ' && c[11] == '-' && c[12]
        == ' '
}

/// The name `date - name`, an existing date prefix of `file_name` replaced.
pub fn dated_file_name(file_name: &str, date_text: &str) -> (r: String)
    ensures
        r@ == dated_name(file_name@, date_text@),
{
    let c = chars_of(file_name);
    let start: usize = if has_date_prefix(file_name) {
        13
    } else {
        0
    };
    let rest = string_of(&slice_chars(&c, start, c.len()));
    let mut r = String::new();
    push_text(&mut r, date_text);
    r.push(' ');
    r.push('-');
    r.push(' ');
    push_text(&mut r, rest.as_str());
    proof {
        assert(c@.subrange(start as int, c@.len() as int) =~= unprefixed(file_name@));
        assert(r@ =~= dated_name(file_name@, date_text@));
    }
    r
}

/// The date prefix is applied to a file with this name: a name that already carries
/// a prefix is only touched when existing prefixes are to be corrected.
pub fn prefix_wanted(file_name: &str, correct_existing_prefixes: bool) -> (r: bool)
    ensures
        r == (!date_prefixed(file_name@) || correct_existing_prefixes),
{
    !has_date_prefix(file_name) || correct_existing_prefixes
}

/// The new name for a file whose preferred date is `date_text`, or `None` when its
/// existing prefix already is that date.
pub fn prefixed_file_name(file_name: &str, date_text: &str) -> (r: Option<String>)
    ensures
        r is None <==> (date_prefixed(file_name@) && begins_with(file_name@, date_text@)),
        r matches Some(n) ==> n@ == dated_name(file_name@, date_text@),
{
    if has_date_prefix(file_name) && starts_with_text(file_name, date_text) {
        None
    } else {
        Some(dated_file_name(file_name, date_text))
    }
}

fn starts_with_text(s: &str, prefix: &str) -> (r: bool)
    ensures
        r == begins_with(s@, prefix@),
{
    let a = chars_of(s);
    let b = chars_of(prefix);
    if b.len() > a.len() {
        return false;
    }
    let mut i: usize = 0;
    while i < b.len()
        invariant
            a@ == s@,
            b@ == prefix@,
            b.len() <= a.len(),
            i <= b.len(),
            forall|k: int| 0 <= k < i ==> a@[k] == b@[k],
        decreases b.len() - i,
    {
        if a[i] != b[i] {
            assert(a@.take(b.len() as int)[i as int] != b@[i as int]);
            return false;
        }
        i += 1;
    }
    assert(a@.take(b.len() as int) =~= b@);
    true
}

/// `date` is a date text of the shape `YYYY-MM-DD`.
pub open spec fn date_shaped(date: Seq<char>) -> bool {
    date.len() == 10 && date_prefixed(date + seq![' ', '-', ' '])
}

/// Prefixing is settled after one pass: a name that carries the date `date` as its
/// prefix keeps it (no second rename), and giving a prefixed name another date
/// replaces the prefix rather than adding a second one.
pub proof fn lemma_prefix_settles(name: Seq<char>, date: Seq<char>, other: Seq<char>)
    requires
        date_shaped(date),
    ensures
        date_prefixed(dated_name(name, date)),
        begins_with(dated_name(name, date), date),
        dated_name(dated_name(name, date), other) == dated_name(name, other),
{
    let d = dated_name(name, date);
    let head = date + seq![' ', '-', ' '];
    assert(head.len() == 13);
    assert(d == head + unprefixed(name));
    assert forall|i: int| 0 <= i < 13 implies d[i] == head[i] by {}
    assert(d.take(date.len() as int) =~= date);
    assert(d.skip(13) =~= unprefixed(name));
}

/// The text `image`, the stem used for a name without one.
pub open spec fn default_stem() -> Seq<char> {
    seq!['i', 'm', 'a', 'g', 'e']
}

/// The `counter`-th alternative to a file name that is taken: `stem_counter.ext`, or
/// `stem_counter` without an extension.
pub open spec fn numbered_name(name: Seq<char>, counter: nat) -> Seq<char> {
    let stem = match file_name(name) {
        Some(n) => name_stem(n),
        None => default_stem(),
    };
    let ext = match file_name(name) {
        Some(n) => name_extension(n),
        None => None,
    };
    stem + seq!['_'] + decimal(counter) + match ext {
        Some(e) => seq!['.'] + e,
        None => Seq::<char>::empty(),
    }
}

/// Different counters give different alternatives to the same name, so the
/// search for a free name never offers the same candidate twice.
pub proof fn lemma_numbered_names_distinct(name: Seq<char>, a: nat, b: nat)
    requires
        a != b,
    ensures
        numbered_name(name, a) != numbered_name(name, b),
{
    let stem = match file_name(name) {
        Some(n) => name_stem(n),
        None => default_stem(),
    };
    let ext = match file_name(name) {
        Some(n) => name_extension(n),
        None => None,
    };
    let head = stem + seq!['_'];
    let tail = match ext {
        Some(e) => seq!['.'] + e,
        None => Seq::<char>::empty(),
    };
    let na = numbered_name(name, a);
    let nb = numbered_name(name, b);
    assert(na =~= head + decimal(a) + tail);
    assert(nb =~= head + decimal(b) + tail);
    if na == nb {
        let la = decimal(a).len();
        let lb = decimal(b).len();
        assert(la == lb);
        assert(na.subrange(head.len() as int, (head.len() + la) as int) =~= decimal(a));
        assert(nb.subrange(head.len() as int, (head.len() + lb) as int) =~= decimal(b));
        lemma_decimal_injective(a, b);
    }
}

/// The `counter`-th alternative to a file name that is already taken.
pub fn numbered_file_name(file_name: &str, counter: u64) -> (r: String)
    ensures
        r@ == numbered_name(file_name@, counter as nat),
{
    let mut r = String::new();
    match file_name_of(file_name) {
        Some(name) => {
            let stem = string_of(&name_stem_of(&name));
            push_text(&mut r, stem.as_str());
            r.push('_');
            push_decimal(&mut r, counter);
            match name_extension_of(&name) {
                Some(ext) => {
                    r.push('.');
                    let e = string_of(&ext);
                    push_text(&mut r, e.as_str());
                },
                None => {},
            }
        },
        None => {
            r.push('i');
            r.push('m');
            r.push('a');
            r.push('g');
            r.push('e');
            r.push('_');
            push_decimal(&mut r, counter);
        },
    }
    assert(r@ =~= numbered_name(file_name@, counter as nat));
    r
}

/// The path has a parent (`Path::parent` is `Some`): it has a last component and
/// that component is not the root.
pub open spec fn has_parent(s: Seq<char>) -> bool {
    path_parts(s).len() > 0 && path_parts(s).last() != seq!['\u{1}']
}

/// The message for an image without a parent directory.
pub open spec fn no_parent_message(input: Seq<char>) -> Seq<char> {
    "Image has no parent directory: "@ + input
}

/// The message for an image without a file name.
pub open spec fn no_name_message(input: Seq<char>) -> Seq<char> {
    "Image has no valid filename: "@ + input
}

/// The message for an image without an extension.
pub open spec fn no_extension_message(input: Seq<char>) -> Seq<char> {
    "Image has no extension: "@ + input
}

/// The name of the enhanced copy of the image at `input`: `stem (Enhanced).ext`.
pub open spec fn enhanced_name(input: Seq<char>) -> Result<Seq<char>, Seq<char>> {
    if !has_parent(input) {
        Err(no_parent_message(input))
    } else {
        match file_name(input) {
            None => Err(no_name_message(input)),
            Some(n) => match name_extension(n) {
                None => Err(no_extension_message(input)),
                Some(e) => Ok(name_stem(n) + " (Enhanced)."@ + e),
            },
        }
    }
}

/// The file name for the enhanced copy of the image at `input`, placed beside it.
pub fn enhanced_file_name(input: &str) -> (r: Result<String, String>)
    ensures
        match r {
            Ok(n) => enhanced_name(input@) == Ok::<Seq<char>, Seq<char>>(n@),
            Err(e) => enhanced_name(input@) == Err::<Seq<char>, Seq<char>>(e@),
        },
{
    let parts = parts_of(input);
    let root = vec!['\u{1}'];
    assert(root@ =~= seq!['\u{1}']);
    if parts.len() == 0 || crate::paths::matches_text(&parts[parts.len() - 1], root.as_slice()) {
        let mut e = String::new();
        push_text(&mut e, "Image has no parent directory: ");
        push_text(&mut e, input);
        proof {
            if parts.len() > 0 {
                assert(texts(parts@).last() == parts@[parts.len() - 1]@);
            }
        }
        return Err(e);
    }
    assert(texts(parts@).last() == parts@[parts.len() - 1]@);
    match file_name_of(input) {
        None => {
            let mut e = String::new();
            push_text(&mut e, "Image has no valid filename: ");
            push_text(&mut e, input);
            Err(e)
        },
        Some(name) => match name_extension_of(&name) {
            None => {
                let mut e = String::new();
                push_text(&mut e, "Image has no extension: ");
                push_text(&mut e, input);
                Err(e)
            },
            Some(ext) => {
                let mut r = string_of(&name_stem_of(&name));
                push_text(&mut r, " (Enhanced).");
                let e = string_of(&ext);
                push_text(&mut r, e.as_str());
                Ok(r)
            },
        },
    }
}

/// A conservative local-restoration prompt for use with an external image model.
pub const RESTORATION_PROMPT: &'static str = "Colorize and clean up the attached historical photograph with strict 100% preservation of all subjects' exact faces, expressions, and identities.\n\nSTRICT CONSTRAINT: Do NOT alter, re-imagine, morph, or over-smooth any faces, eyes, smiles, noses, lips, or expressions. Keep all facial features 100% faithful to the original photograph.\n\nPerform a conservative restoration:\n- Remove dust, scratches, cracks, fading, scanner glare, and yellowing/sepia tinting.\n- Preserve 100% of original facial contours, eye shapes, nose, lips, hair, and clothing silhouettes.\n- Apply historically accurate, muted colorization with natural skin tones and era-appropriate clothing hues.\n- Maintain original lighting, shadows, and natural film grain character.";

/// The restoration prompt, headed by the selected photo's file name.
pub open spec fn restoration_text(path: Seq<char>) -> Seq<char> {
    let name = match file_name(path) {
        Some(n) => n,
        None => "selected photo"@,
    };
    "AI RESTORATION PROMPT FOR: "@ + name + "\n\n"@ + RESTORATION_PROMPT@
}

/// The restoration prompt with the selected file's name as context.
pub fn restoration_prompt(path: &str) -> (r: String)
    ensures
        r@ == restoration_text(path@),
{
    let mut r = String::new();
    push_text(&mut r, "AI RESTORATION PROMPT FOR: ");
    match file_name_of(path) {
        Some(name) => {
            let n = string_of(&name);
            push_text(&mut r, n.as_str());
        },
        None => push_text(&mut r, "selected photo"),
    }
    push_text(&mut r, "\n\n");
    push_text(&mut r, RESTORATION_PROMPT);
    r
}

/// The name under which the `index`-th file is stored in a backup archive:
/// `media/00007_name`, with `file` for a path without a file name.
pub open spec fn archive_entry(index: nat, path: Seq<char>) -> Seq<char> {
    let name = match file_name(path) {
        Some(n) => n,
        None => "file"@,
    };
    "media/"@ + padded(index, 5) + "_"@ + name
}

/// The name under which the `index`-th file is stored in a backup archive.
pub fn archive_entry_name(index: usize, path: &str) -> (r: String)
    ensures
        r@ == archive_entry(index as nat, path@),
{
    let mut r = String::new();
    push_text(&mut r, "media/");
    push_padded(&mut r, index as u64, 5);
    push_text(&mut r, "_");
    match file_name_of(path) {
        Some(name) => {
            let n = string_of(&name);
            push_text(&mut r, n.as_str());
        },
        None => push_text(&mut r, "file"),
    }
    r
}


/// Any `YYYY-MM-DD - ` prefix, made of any ASCII digits, is recognised as a date
/// prefix: a file named so is left alone unless prefixes are corrected, and a
/// correction replaces exactly that prefix, so a file never carries two.
pub proof fn lemma_any_digits_prefix(d: Seq<char>, rest: Seq<char>, date: Seq<char>)
    requires
        d.len() == 8,
        forall|i: int| 0 <= i < 8 ==> seq!['0', '1', '2', '3', '4', '5', '6', '7', '8', '9'].contains(#[trigger] d[i]),
    ensures
        date_prefixed(seq![d[0], d[1], d[2], d[3], '-', d[4], d[5], '-', d[6], d[7], ' ', '-', ' '] + rest),
        unprefixed(seq![d[0], d[1], d[2], d[3], '-', d[4], d[5], '-', d[6], d[7], ' ', '-', ' '] + rest) == rest,
        dated_name(seq![d[0], d[1], d[2], d[3], '-', d[4], d[5], '-', d[6], d[7], ' ', '-', ' '] + rest, date)
            == date + seq![' ', '-', ' '] + rest,
{
    let digits = seq!['0', '1', '2', '3', '4', '5', '6', '7', '8', '9'];
    assert forall|i: int| 0 <= i < 8 implies ascii_digit(#[trigger] d[i]) by {
        assert(digits.contains(d[i]));
        let k = choose|k: int| 0 <= k < digits.len() && digits[k] == d[i];
        assert(k == 0 || k == 1 || k == 2 || k == 3 || k == 4 || k == 5 || k == 6 || k == 7 || k == 8 || k == 9);
    }
    let s = seq![d[0], d[1], d[2], d[3], '-', d[4], d[5], '-', d[6], d[7], ' ', '-', ' '] + rest;
    assert(ascii_digit(d[0]) && ascii_digit(d[1]) && ascii_digit(d[2]) && ascii_digit(d[3]));
    assert(ascii_digit(d[4]) && ascii_digit(d[5]) && ascii_digit(d[6]) && ascii_digit(d[7]));
    assert(s[0] == d[0] && s[1] == d[1] && s[2] == d[2] && s[3] == d[3] && s[4] == '-');
    assert(s[5] == d[4] && s[6] == d[5] && s[7] == '-' && s[8] == d[6] && s[9] == d[7]);
    assert(s[10] == ' ' && s[11] == '-' && s[12] == ' ');
    assert(date_prefixed(s));
    assert(s.skip(13) =~= rest);
}


/// The digits of a number are ASCII digits, and there are as many as its size
/// asks: one below 10, at most two below 100, at most four below 10000.
proof fn lemma_decimal_shape(n: nat)
    ensures
        decimal(n).len() >= 1,
        forall|i: int| 0 <= i < decimal(n).len() ==> ascii_digit(#[trigger] decimal(n)[i]),
        n < 10 ==> decimal(n).len() == 1,
        n < 100 ==> decimal(n).len() <= 2,
        n < 1000 ==> decimal(n).len() <= 3,
        n < 10000 ==> decimal(n).len() <= 4,
    decreases n,
{
    if n >= 10 {
        lemma_decimal_shape((n / 10) as nat);
        let d = decimal(n);
        let p = decimal((n / 10) as nat);
        assert(d == p.push(crate::text::digit_char((n % 10) as int)));
        assert forall|i: int| 0 <= i < d.len() implies ascii_digit(#[trigger] d[i]) by {
            if i < p.len() {
                assert(d[i] == p[i]);
            }
        }
    }
}

/// A number padded to `width` digits, when it has no more, is exactly `width`
/// ASCII digits.
proof fn lemma_padded_shape(n: nat, width: nat)
    requires
        decimal(n).len() <= width,
    ensures
        crate::dates::padded(n, width).len() == width,
        forall|i: int| 0 <= i < width ==> ascii_digit(#[trigger] crate::dates::padded(n, width)[i]),
{
    lemma_decimal_shape(n);
    let d = decimal(n);
    let z = Seq::new((width - d.len()) as nat, |i: int| '0');
    if d.len() < width {
        assert(crate::dates::padded(n, width) == z + d);
        assert forall|i: int| 0 <= i < width implies ascii_digit(#[trigger] crate::dates::padded(n, width)[i]) by {
            if i >= z.len() {
                assert((z + d)[i] == d[i - z.len()]);
            }
        }
    }
}

/// The `%Y-%m-%d` text of every date of the years 0 to 9999 has the shape of a
/// date prefix, so a file prefixed with it is recognised as prefixed and is not
/// prefixed again.
pub proof fn lemma_date_text_shaped(d: crate::dates::CalendarDate)
    requires
        0 <= d.year <= 9999,
        1 <= d.month <= 12,
        1 <= d.day <= 31,
    ensures
        date_shaped(crate::dates::date_text(d)),
{
    lemma_decimal_shape(d.year as nat);
    lemma_decimal_shape(d.month as nat);
    lemma_decimal_shape(d.day as nat);
    lemma_padded_shape(d.year as nat, 4);
    lemma_padded_shape(d.month as nat, 2);
    lemma_padded_shape(d.day as nat, 2);
    let y = crate::dates::padded(d.year as nat, 4);
    let m = crate::dates::padded(d.month as nat, 2);
    let dd = crate::dates::padded(d.day as nat, 2);
    let t = crate::dates::date_text(d);
    assert(t == y + seq!['-'] + m + seq!['-'] + dd);
    let s = t + seq![' ', '-', ' '];
    assert(s.len() == 13);
    assert(s[0] == y[0] && s[1] == y[1] && s[2] == y[2] && s[3] == y[3]);
    assert(s[4] == '-');
    assert(s[5] == m[0] && s[6] == m[1] && s[7] == '-');
    assert(s[8] == dd[0] && s[9] == dd[1]);
    assert(s[10] == ' ' && s[11] == '-' && s[12] == ' ');
}


/// The numbered alternative to a taken name that has an extension keeps that
/// extension and begins with the name's stem, so a renamed copy stays the same
/// kind of file.
pub proof fn lemma_numbered_keeps_extension(name: Seq<char>, counter: nat)
    ensures
        file_name(name) matches Some(n) ==> (name_extension(n) matches Some(e) ==> {
            &&& name_extension(numbered_name(name, counter)) == Some(e)
            &&& numbered_name(name, counter).take(name_stem(n).len() as int) == name_stem(n)
        }),
{
    if let Some(n) = file_name(name) {
        if let Some(e) = name_extension(n) {
            let stem = name_stem(n);
            let digits = decimal(counter);
            lemma_decimal_shape(counter);
            let head = stem + seq!['_'] + digits;
            crate::paths::lemma_last_index_of_bounds(n, '.');
            let k = crate::paths::last_index_of(n, '.');
            assert(e == n.skip(k + 1));
            assert(stem == n.take(k));
            assert(!e.contains('.')) by {
                if e.contains('.') {
                    let i = choose|i: int| 0 <= i < e.len() && e[i] == '.';
                    assert(n[k + 1 + i] == '.');
                }
            }
            let r = numbered_name(name, counter);
            assert(r =~= head + seq!['.'] + e);
            crate::paths::lemma_extension_after_dot(head, e);
            assert(r.take(stem.len() as int) =~= stem);
        }
    }
}


/// Zeros in front of a digit text do not change the number it writes.
proof fn lemma_leading_zeros_value(k: nat, s: Seq<char>)
    ensures
        crate::text::digits_value(Seq::new(k, |i: int| '0') + s) == crate::text::digits_value(s),
    decreases k + s.len(),
{
    let z = Seq::new(k, |i: int| '0');
    if s.len() > 0 {
        lemma_leading_zeros_value(k, s.drop_last());
        assert((z + s).drop_last() =~= z + s.drop_last());
        assert((z + s).last() == s.last());
    } else if k > 0 {
        let z1 = Seq::new((k - 1) as nat, |i: int| '0');
        lemma_leading_zeros_value((k - 1) as nat, s);
        assert((z + s).drop_last() =~= z1 + s);
        assert((z + s).last() == '0');
        assert(z1 + s =~= z1);
        assert(z + s =~= z);
    } else {
        assert(z + s =~= s);
    }
}

/// The digits of a padded number read back as that number.
proof fn lemma_padded_value(n: nat, width: nat)
    ensures
        crate::text::digits_value(crate::dates::padded(n, width)) == n,
{
    crate::text::lemma_decimal_value(n);
    let d = decimal(n);
    if d.len() < width {
        lemma_leading_zeros_value((width - d.len()) as nat, d);
    }
}

/// The `%Y-%m-%d` text of a date of the years 0 to 9999 is ten characters, with
/// `-` at positions 4 and 7, whose digits read back as the year (positions 0-3),
/// the month (5-6) and the day (8-9) of that date.
pub proof fn lemma_date_text_reads_back(d: crate::dates::CalendarDate)
    requires
        0 <= d.year <= 9999,
        1 <= d.month <= 12,
        1 <= d.day <= 31,
    ensures
        crate::dates::date_text(d).len() == 10,
        crate::dates::date_text(d)[4] == '-',
        crate::dates::date_text(d)[7] == '-',
        crate::text::digits_value(crate::dates::date_text(d).subrange(0, 4)) == d.year,
        crate::text::digits_value(crate::dates::date_text(d).subrange(5, 7)) == d.month,
        crate::text::digits_value(crate::dates::date_text(d).subrange(8, 10)) == d.day,
{
    lemma_decimal_shape(d.year as nat);
    lemma_decimal_shape(d.month as nat);
    lemma_decimal_shape(d.day as nat);
    lemma_padded_shape(d.year as nat, 4);
    lemma_padded_shape(d.month as nat, 2);
    lemma_padded_shape(d.day as nat, 2);
    lemma_padded_value(d.year as nat, 4);
    lemma_padded_value(d.month as nat, 2);
    lemma_padded_value(d.day as nat, 2);
    let y = crate::dates::padded(d.year as nat, 4);
    let m = crate::dates::padded(d.month as nat, 2);
    let dd = crate::dates::padded(d.day as nat, 2);
    let t = crate::dates::date_text(d);
    assert(t == y + seq!['-'] + m + seq!['-'] + dd);
    assert(t.subrange(0, 4) =~= y);
    assert(t.subrange(5, 7) =~= m);
    assert(t.subrange(8, 10) =~= dd);
}


/// Numbers below 100000 have at most five digits.
proof fn lemma_five_digits(n: nat)
    requires
        n < 100000,
    ensures
        decimal(n).len() <= 5,
{
    lemma_decimal_shape(n);
    if n >= 10 {
        lemma_decimal_shape((n / 10) as nat);
        assert(decimal(n) == decimal((n / 10) as nat).push(crate::text::digit_char((n % 10) as int)));
    }
}

/// The archive entry of the `index`-th file (below 100000) is `media/`, five
/// digits that read back as `index`, `_`, and the file's name (`file` when the
/// path has none); so different indices never share an entry.
pub proof fn lemma_archive_entry_layout(index: nat, path: Seq<char>)
    requires
        index < 100000,
    ensures
        archive_entry(index, path).subrange(0, 6) == seq!['m', 'e', 'd', 'i', 'a', '/'],
        crate::text::digits_value(archive_entry(index, path).subrange(6, 11)) == index,
        forall|i: int| 6 <= i < 11 ==> ascii_digit(#[trigger] archive_entry(index, path)[i]),
        archive_entry(index, path)[11] == '_',
        archive_entry(index, path).skip(12) == match file_name(path) {
            Some(n) => n,
            None => seq!['f', 'i', 'l', 'e'],
        },
{
    reveal_strlit("media/");
    reveal_strlit("_");
    reveal_strlit("file");
    lemma_five_digits(index);
    lemma_padded_shape(index, 5);
    lemma_padded_value(index, 5);
    let name = match file_name(path) {
        Some(n) => n,
        None => "file"@,
    };
    let digits = padded(index, 5);
    let a = archive_entry(index, path);
    assert(a == "media/"@ + digits + "_"@ + name);
    assert(a.subrange(0, 6) =~= seq!['m', 'e', 'd', 'i', 'a', '/']);
    assert(a.subrange(6, 11) =~= digits);
    assert forall|i: int| 6 <= i < 11 implies ascii_digit(#[trigger] a[i]) by {
        assert(a[i] == digits[i - 6]);
    }
    assert(a.skip(12) =~= name);
    assert("file"@ =~= seq!['f', 'i', 'l', 'e']);
}

/// The enhanced copy of an image keeps the image's extension and begins with its
/// stem, so it stays an image of the same format beside the original.
pub proof fn lemma_enhanced_keeps_extension(input: Seq<char>)
    ensures
        enhanced_name(input) matches Ok(r) ==> (file_name(input) matches Some(n) && name_extension(r)
            == name_extension(n) && r.take(name_stem(n).len() as int) == name_stem(n)),
{
    if let Ok(r) = enhanced_name(input) {
        let n = file_name(input)->0;
        let e = name_extension(n)->0;
        let stem = name_stem(n);
        crate::paths::lemma_last_index_of_bounds(n, '.');
        let k = crate::paths::last_index_of(n, '.');
        assert(e == n.skip(k + 1));
        assert(stem == n.take(k));
        assert(!e.contains('.')) by {
            if e.contains('.') {
                let i = choose|i: int| 0 <= i < e.len() && e[i] == '.';
                assert(n[k + 1 + i] == '.');
            }
        }
        reveal_strlit(" (Enhanced).");
        let head = stem + seq![' ', '(', 'E', 'n', 'h', 'a', 'n', 'c', 'e', 'd', ')'];
        assert(r =~= head + seq!['.'] + e);
        crate::paths::lemma_extension_after_dot(head, e);
        assert(r.take(stem.len() as int) =~= stem);
    }
}


/// An ASCII digit is one of the ten characters `0` to `9`.
proof fn lemma_digit_listed(c: char)
    requires
        ascii_digit(c),
    ensures
        seq!['0', '1', '2', '3', '4', '5', '6', '7', '8', '9'].contains(c),
{
    let digits = seq!['0', '1', '2', '3', '4', '5', '6', '7', '8', '9'];
    if c as u32 == 48 { assert(c == '0'); assert(digits[0] == c); }
    else if c as u32 == 49 { assert(c == '1'); assert(digits[1] == c); }
    else if c as u32 == 50 { assert(c == '2'); assert(digits[2] == c); }
    else if c as u32 == 51 { assert(c == '3'); assert(digits[3] == c); }
    else if c as u32 == 52 { assert(c == '4'); assert(digits[4] == c); }
    else if c as u32 == 53 { assert(c == '5'); assert(digits[5] == c); }
    else if c as u32 == 54 { assert(c == '6'); assert(digits[6] == c); }
    else if c as u32 == 55 { assert(c == '7'); assert(digits[7] == c); }
    else if c as u32 == 56 { assert(c == '8'); assert(digits[8] == c); }
    else { assert(c == '9'); assert(digits[9] == c); }
}

/// Only names of that form are recognised as prefixed: a prefixed name is eight
/// ASCII digits laid out as `YYYY-MM-DD - ` followed by the rest, and a name that
/// is not prefixed is kept whole, behind the new date, when it is dated.
pub proof fn lemma_only_digit_prefixes(s: Seq<char>, date: Seq<char>)
    ensures
        date_prefixed(s) ==> {
            &&& s.len() >= 13
            &&& forall|i: int|
                0 <= i < 10 && i != 4 && i != 7 ==> seq!['0', '1', '2', '3', '4', '5', '6', '7', '8', '9'].contains(
                    #[trigger] s[i],
                )
            &&& s.subrange(0, 13) == seq![s[0], s[1], s[2], s[3], '-', s[5], s[6], '-', s[8], s[9], ' ', '-', ' ']
            &&& unprefixed(s) == s.skip(13)
        },
        !date_prefixed(s) ==> unprefixed(s) == s && dated_name(s, date) == date + seq![' ', '-', ' '] + s,
{
    if date_prefixed(s) {
        let digits = seq!['0', '1', '2', '3', '4', '5', '6', '7', '8', '9'];
        assert forall|i: int| 0 <= i < 10 && i != 4 && i != 7 implies digits.contains(#[trigger] s[i]) by {
            lemma_digit_listed(s[i]);
        }
        assert(s.subrange(0, 13) =~= seq![s[0], s[1], s[2], s[3], '-', s[5], s[6], '-', s[8], s[9], ' ', '-', ' ']);
    }
}

} // verus!
