//! Capture dates: reading EXIF date text, calendar validation, folder names and
//! `YYYY-MM-DD - ` filename prefixes.

use vstd::prelude::*;
use chrono::Datelike;
use vstd::string::StringSliceAdditionalSpecFns;
use crate::paths::slice_chars;
use crate::text::{chars_of, decimal, digit_char, push_decimal, string_of};

verus! {

/// A day of the proleptic Gregorian calendar.
#[derive(Clone, Copy, Debug, PartialEq, Eq, Structural)]
pub struct CalendarDate {
    pub year: i32,
    pub month: u32,
    pub day: u32,
}

/// Years that a calendar date can hold.
pub open spec fn year_in_range(year: int) -> bool {
    -262143 <= year <= 262142
}

/// Leap years of the proleptic Gregorian calendar.
pub open spec fn is_leap_year(year: int) -> bool {
    year % 4 == 0 && (year % 100 != 0 || year % 400 == 0)
}

/// Days in `month` of `year`.
pub open spec fn days_in_month(year: int, month: int) -> int {
    if month == 2 {
        if is_leap_year(year) {
            29
        } else {
            28
        }
    } else if month == 4 || month == 6 || month == 9 || month == 11 {
        30
    } else {
        31
    }
}

/// The year, month and day name an existing calendar date.
pub open spec fn valid_date(year: int, month: int, day: int) -> bool {
    &&& year_in_range(year)
    &&& 1 <= month <= 12
    &&& 1 <= day <= days_in_month(year, month)
}

/// chrono's `NaiveDate::from_ymd_opt`: the date, when `year`, `month` and `day` name
/// an existing day of the proleptic Gregorian calendar within chrono's year range
/// (-262143 through 262142); otherwise nothing. The date it returns holds the
/// year, month and day it was made from.
#[verifier::external_body]
fn calendar_date(year: i32, month: u32, day: u32) -> (date: Option<CalendarDate>)
    ensures
        date is Some <==> valid_date(year as int, month as int, day as int),
        date matches Some(d) ==> d.year == year && d.month == month && d.day == day,
{
    match chrono::NaiveDate::from_ymd_opt(year, month, day) {
        Some(d) => Some(CalendarDate { year: d.year(), month: d.month(), day: d.day() }),
        None => None,
    }
}

/// Makes a date from its parts, when they name an existing day.
pub fn date_from_parts(year: i32, month: u32, day: u32) -> (date: Option<CalendarDate>)
    ensures
        date is Some <==> valid_date(year as int, month as int, day as int),
        date matches Some(d) ==> d == (CalendarDate { year, month, day }),
{
    calendar_date(year, month, day)
}

/// The value of an ASCII digit byte.
pub open spec fn is_digit_byte(b: u8) -> bool {
    48 <= b <= 57
}

/// All bytes are ASCII digits.
pub open spec fn all_digit_bytes(s: Seq<u8>) -> bool {
    forall|k: int| 0 <= k < s.len() ==> is_digit_byte(#[trigger] s[k])
}

/// The number written by a sequence of ASCII digits.
pub open spec fn digits_value(s: Seq<u8>) -> int
    decreases s.len(),
{
    if s.len() == 0 {
        0
    } else {
        digits_value(s.drop_last()) * 10 + (s.last() - 48)
    }
}

/// `str::parse::<u32>` on a short field: an optional `+`, then one or more digits.
pub open spec fn parse_unsigned(s: Seq<u8>) -> Option<int> {
    let digits = if s.len() > 0 && s[0] == 43 {
        s.drop_first()
    } else {
        s
    };
    if digits.len() > 0 && all_digit_bytes(digits) {
        Some(digits_value(digits))
    } else {
        None
    }
}

/// `str::parse::<i32>` on a short field: an optional `+` or `-`, then one or more digits.
pub open spec fn parse_signed(s: Seq<u8>) -> Option<int> {
    if s.len() > 0 && s[0] == 45 {
        let digits = s.drop_first();
        if digits.len() > 0 && all_digit_bytes(digits) {
            Some(-digits_value(digits))
        } else {
            None
        }
    } else {
        parse_unsigned(s)
    }
}

proof fn lemma_digits_value_bound(s: Seq<u8>)
    requires
        all_digit_bytes(s),
    ensures
        0 <= digits_value(s),
        s.len() <= 4 ==> digits_value(s) < 10000,
        s.len() <= 3 ==> digits_value(s) < 1000,
        s.len() <= 2 ==> digits_value(s) < 100,
        s.len() <= 1 ==> digits_value(s) < 10,
    decreases s.len(),
{
    if s.len() > 0 {
        assert(all_digit_bytes(s.drop_last())) by {
            assert forall|k: int| 0 <= k < s.drop_last().len() implies is_digit_byte(
                #[trigger] s.drop_last()[k],
            ) by {
                assert(s.drop_last()[k] == s[k]);
            }
        }
        assert(is_digit_byte(s[s.len() - 1]));
        lemma_digits_value_bound(s.drop_last());
    }
}

/// Reads the digits of `s[start..end]`, at most four of them.
fn read_digits(s: &[u8], start: usize, end: usize) -> (r: Option<u32>)
    requires
        start <= end <= s.len(),
        end - start <= 4,
    ensures
        match r {
            Some(v) => all_digit_bytes(s@.subrange(start as int, end as int)) && v as int
                == digits_value(s@.subrange(start as int, end as int)),
            None => !all_digit_bytes(s@.subrange(start as int, end as int)),
        },
{
    let mut v: u32 = 0;
    let mut i = start;
    while i < end
        invariant
            start <= i <= end <= s.len(),
            end - start <= 4,
            all_digit_bytes(s@.subrange(start as int, i as int)),
            v as int == digits_value(s@.subrange(start as int, i as int)),
        decreases end - i,
    {
        let b = s[i];
        if b < 48 || b > 57 {
            assert(s@.subrange(start as int, end as int)[i - start] == b);
            return None;
        }
        let ghost prev = s@.subrange(start as int, i as int);
        proof {
            lemma_digits_value_bound(prev);
            assert(prev.len() <= 3);
        }
        v = v * 10 + (b - 48) as u32;
        i = i + 1;
        proof {
            let cur = s@.subrange(start as int, i as int);
            assert(cur.drop_last() =~= prev);
            assert(all_digit_bytes(cur)) by {
                assert forall|k: int| 0 <= k < cur.len() implies is_digit_byte(#[trigger] cur[k]) by {
                    if k < cur.len() - 1 {
                        assert(cur[k] == prev[k]);
                    }
                }
            }
        }
    }
    Some(v)
}

/// Parses `s[start..end]` as `str::parse::<u32>` does (fields of at most two bytes).
fn parse_unsigned_field(s: &[u8], start: usize, end: usize) -> (r: Option<u32>)
    requires
        start <= end <= s.len(),
        end - start <= 2,
    ensures
        match r {
            Some(v) => parse_unsigned(s@.subrange(start as int, end as int)) == Some(v as int),
            None => parse_unsigned(s@.subrange(start as int, end as int)) is None,
        },
{
    let ghost f = s@.subrange(start as int, end as int);
    if start < end && s[start] == 43 {
        assert(f.drop_first() =~= s@.subrange(start + 1, end as int));
        if start + 1 == end {
            return None;
        }
        read_digits(s, start + 1, end)
    } else {
        if start == end {
            return None;
        }
        read_digits(s, start, end)
    }
}

/// Parses `s[start..end]` as `str::parse::<i32>` does (fields of at most four bytes).
fn parse_signed_field(s: &[u8], start: usize, end: usize) -> (r: Option<i32>)
    requires
        start <= end <= s.len(),
        end - start <= 4,
    ensures
        match r {
            Some(v) => parse_signed(s@.subrange(start as int, end as int)) == Some(v as int),
            None => parse_signed(s@.subrange(start as int, end as int)) is None,
        },
{
    let ghost f = s@.subrange(start as int, end as int);
    if start == end {
        return None;
    }
    if s[start] == 45 || s[start] == 43 {
        assert(f.drop_first() =~= s@.subrange(start + 1, end as int));
        if start + 1 == end {
            return None;
        }
        match read_digits(s, start + 1, end) {
            None => None,
            Some(v) => {
                proof {
                    lemma_digits_value_bound(f.drop_first());
                }
                if s[start] == 45 {
                    Some(-(v as i32))
                } else {
                    Some(v as i32)
                }
            },
        }
    } else {
        match read_digits(s, start, end) {
            None => None,
            Some(v) => {
                proof {
                    lemma_digits_value_bound(f);
                }
                Some(v as i32)
            },
        }
    }
}

/// The shape that the EXIF date reader accepts before it reads numbers: ten bytes
/// or more, with `:` at byte positions 4 and 7.
pub open spec fn exif_date_shape(b: Seq<u8>) -> bool {
    b.len() >= 10 && b[4] == 58 && b[7] == 58
}

/// The EXIF date reader gets as far as cutting out the day, bytes 8-9: the text
/// has the date shape and its year (bytes 0-3) and month (bytes 5-6) read as
/// numbers.
pub open spec fn exif_day_reached(b: Seq<u8>) -> bool {
    exif_date_shape(b) && parse_signed(b.subrange(0, 4)) is Some && parse_unsigned(b.subrange(5, 7)) is Some
}

/// Where the EXIF date reader cuts its input, the cuts fall between characters.
/// (The cuts at bytes 4, 5, 7 and 8 lie next to the `:` bytes and always do; the
/// cut at byte 10 is made only once the year and month have been read.)
pub open spec fn exif_date_cuttable(value: &str) -> bool {
    exif_day_reached(value.spec_bytes()) ==> vstd::utf8::is_char_boundary(value.spec_bytes(), 10)
}

/// The date that an EXIF date text such as `2024:01:02 03:04:05` names: bytes 0-3
/// read as an `i32`, bytes 5-6 and 8-9 as `u32`s, when they form an existing day.
pub open spec fn exif_date(b: Seq<u8>) -> Option<CalendarDate> {
    if !exif_date_shape(b) {
        None
    } else {
        match (parse_signed(b.subrange(0, 4)), parse_unsigned(b.subrange(5, 7)), parse_unsigned(
            b.subrange(8, 10),
        )) {
            (Some(y), Some(m), Some(d)) => if valid_date(y, m, d) {
                Some(CalendarDate { year: y as i32, month: m as u32, day: d as u32 })
            } else {
                None
            },
            _ => None,
        }
    }
}

/// Reads the capture date from EXIF date text such as `2024:01:02 03:04:05`.
pub fn parse_exif_date(value: &str) -> (date: Option<CalendarDate>)
    requires
        exif_date_cuttable(value),
    ensures
        date == exif_date(value.spec_bytes()),
{
    let bytes = value.as_bytes();
    if bytes.len() < 10 || bytes[4] != 58 || bytes[7] != 58 {
        return None;
    }
    let year = match parse_signed_field(bytes, 0, 4) {
        Some(y) => y,
        None => return None,
    };
    let month = match parse_unsigned_field(bytes, 5, 7) {
        Some(m) => m,
        None => return None,
    };
    let day = match parse_unsigned_field(bytes, 8, 10) {
        Some(d) => d,
        None => return None,
    };
    date_from_parts(year, month, day)
}

/// `std::str::from_utf8`: the text that `bytes` encode, when they are valid UTF-8.
#[verifier::external_body]
fn utf8_text(bytes: &[u8]) -> (text: Option<String>)
    ensures
        text is Some <==> vstd::utf8::valid_utf8(bytes@),
        text matches Some(t) ==> t@ == vstd::utf8::decode_utf8(bytes@),
{
    match std::str::from_utf8(bytes) {
        Ok(t) => Some(t.to_string()),
        Err(_) => None,
    }
}

/// The date that the first usable EXIF value gives: values are tried in order,
/// those that are not valid UTF-8 are passed over, and the first that reads as a
/// date wins.
pub open spec fn first_exif_date(values: Seq<Seq<u8>>) -> Option<CalendarDate>
    decreases values.len(),
{
    if values.len() == 0 {
        None
    } else if vstd::utf8::valid_utf8(values[0]) && exif_date(values[0]) is Some {
        exif_date(values[0])
    } else {
        first_exif_date(values.drop_first())
    }
}

/// The values can be read in order, up to the first that gives a date, without a
/// cut inside a character: no value before it is text of the date shape whose
/// year and month read as numbers and whose tenth byte falls inside a character.
pub open spec fn exif_readable(values: Seq<Seq<u8>>) -> bool
    decreases values.len(),
{
    if values.len() == 0 {
        true
    } else if vstd::utf8::valid_utf8(values[0]) && exif_day_reached(values[0])
        && !vstd::utf8::is_char_boundary(values[0], 10) {
        false
    } else if vstd::utf8::valid_utf8(values[0]) && exif_date(values[0]) is Some {
        true
    } else {
        exif_readable(values.drop_first())
    }
}

/// The capture date from the ASCII values of the EXIF date fields
/// (`DateTimeOriginal`, then `DateTimeDigitized`, then `DateTime`).
pub fn capture_date_from_exif_values(values: &Vec<Vec<u8>>) -> (date: Option<CalendarDate>)
    requires
        exif_readable(values@.map_values(|v: Vec<u8>| v@)),
    ensures
        date == first_exif_date(values@.map_values(|v: Vec<u8>| v@)),
{
    let ghost all = values@.map_values(|v: Vec<u8>| v@);
    let mut i: usize = 0;
    assert(all.skip(0) =~= all);
    while i < values.len()
        invariant
            i <= values.len(),
            all == values@.map_values(|v: Vec<u8>| v@),
            exif_readable(all.skip(i as int)),
            first_exif_date(all) == first_exif_date(all.skip(i as int)),
        decreases values.len() - i,
    {
        let ghost rest = all.skip(i as int);
        assert(rest[0] == values@[i as int]@);
        assert(rest.drop_first() =~= all.skip(i + 1));
        match utf8_text(values[i].as_slice()) {
            Some(t) => {
                proof {
                    vstd::utf8::decode_utf8_encode_utf8(rest[0]);
                }
                assert(vstd::utf8::encode_utf8(t@) == rest[0]);
                let d = parse_exif_date(t.as_str());
                if d.is_some() {
                    return d;
                }
            },
            None => {},
        }
        i += 1;
    }
    assert(all.skip(i as int).len() == 0);
    None
}

/// Whether the values can be read up to the first date without a cut inside a
/// character.
pub fn exif_values_readable(values: &Vec<Vec<u8>>) -> (r: bool)
    ensures
        r == exif_readable(values@.map_values(|v: Vec<u8>| v@)),
{
    let ghost all = values@.map_values(|v: Vec<u8>| v@);
    let mut i: usize = 0;
    assert(all.skip(0) =~= all);
    while i < values.len()
        invariant
            i <= values.len(),
            all == values@.map_values(|v: Vec<u8>| v@),
            exif_readable(all) == exif_readable(all.skip(i as int)),
        decreases values.len() - i,
    {
        let ghost rest = all.skip(i as int);
        assert(rest[0] == values@[i as int]@);
        assert(rest.drop_first() =~= all.skip(i + 1));
        match utf8_text(values[i].as_slice()) {
            Some(t) => {
                proof {
                    vstd::utf8::decode_utf8_encode_utf8(rest[0]);
                }
                assert(vstd::utf8::encode_utf8(t@) == rest[0]);
                let b = t.as_str().as_bytes();
                if b.len() >= 10 && b[4] == 58 && b[7] == 58 && parse_signed_field(b, 0, 4).is_some()
                    && parse_unsigned_field(b, 5, 7).is_some() && !t.as_str().is_char_boundary(10) {
                    return false;
                }
                if parse_exif_date(t.as_str()).is_some() {
                    return true;
                }
            },
            None => {},
        }
        i += 1;
    }
    assert(all.skip(i as int).len() == 0);
    true
}

/// The ASCII values stored under one of the EXIF date tags of an image, by the
/// tag's position among `DateTimeOriginal`, `DateTimeDigitized` and `DateTime`.
pub uninterp spec fn exif_ascii_values(contents: Seq<u8>, tag: u8) -> Seq<Seq<u8>>;

/// Reads the EXIF data of an image file's contents with
/// `exif::Reader::read_from_container` and returns the ASCII values of the field
/// `DateTimeOriginal` (`tag` 0), `DateTimeDigitized` (1) or `DateTime` (2) of the
/// primary image; no values when the data cannot be read or the field is absent or
/// not ASCII. The contract names the values as a function of the contents and the
/// tag; what they are is not stated.
#[verifier::external_body]
fn exif_date_values(contents: &[u8], tag: u8) -> (values: Vec<Vec<u8>>)
    requires
        tag < 3,
    ensures
        values@.map_values(|v: Vec<u8>| v@) == exif_ascii_values(contents@, tag),
{
    let field_tag = match tag {
        0 => exif::Tag::DateTimeOriginal,
        1 => exif::Tag::DateTimeDigitized,
        _ => exif::Tag::DateTime,
    };
    let Ok(exif) = exif::Reader::new().read_from_container(&mut std::io::Cursor::new(contents)) else {
        return Vec::new();
    };
    match exif.get_field(field_tag, exif::In::PRIMARY).map(|field| &field.value) {
        Some(exif::Value::Ascii(values)) => values.clone(),
        _ => Vec::new(),
    }
}

/// The values of the three date fields of an image's EXIF data, in order.
pub open spec fn exif_date_fields(contents: Seq<u8>) -> Seq<Seq<u8>> {
    exif_ascii_values(contents, 0) + exif_ascii_values(contents, 1) + exif_ascii_values(contents, 2)
}

/// The capture date embedded in an image file's contents: the first value of its
/// `DateTimeOriginal`, `DateTimeDigitized` and `DateTime` fields that names a day.
/// Where reading would cut inside a character before a date is found, there is
/// no date.
pub fn exif_capture_date(contents: &[u8]) -> (date: Option<CalendarDate>)
    ensures
        exif_readable(exif_date_fields(contents@)) ==> date == first_exif_date(exif_date_fields(contents@)),
        !exif_readable(exif_date_fields(contents@)) ==> date is None,
{
    let mut values: Vec<Vec<u8>> = Vec::new();
    let mut tag: u8 = 0;
    while tag < 3
        invariant
            tag <= 3,
            values@.map_values(|v: Vec<u8>| v@) == if tag == 0 {
                Seq::<Seq<u8>>::empty()
            } else if tag == 1 {
                exif_ascii_values(contents@, 0)
            } else if tag == 2 {
                exif_ascii_values(contents@, 0) + exif_ascii_values(contents@, 1)
            } else {
                exif_date_fields(contents@)
            },
        decreases 3 - tag,
    {
        let ghost before = values@.map_values(|v: Vec<u8>| v@);
        let mut found = exif_date_values(contents, tag);
        let ghost more = found@.map_values(|v: Vec<u8>| v@);
        values.append(&mut found);
        assert(values@.map_values(|v: Vec<u8>| v@) =~= before + more);
        tag += 1;
    }
    if exif_values_readable(&values) {
        capture_date_from_exif_values(&values)
    } else {
        None
    }
}

/// `u16::try_from` on a year.
pub open spec fn year_folder(year: int) -> Option<u16> {
    if 0 <= year <= 65535 {
        Some(year as u16)
    } else {
        None
    }
}

/// The three-letter English name of a month.
pub open spec fn month_abbreviation(month: int) -> Option<Seq<char>> {
    if month == 1 {
        Some(seq!['J', 'a', 'n'])
    } else if month == 2 {
        Some(seq!['F', 'e', 'b'])
    } else if month == 3 {
        Some(seq!['M', 'a', 'r'])
    } else if month == 4 {
        Some(seq!['A', 'p', 'r'])
    } else if month == 5 {
        Some(seq!['M', 'a', 'y'])
    } else if month == 6 {
        Some(seq!['J', 'u', 'n'])
    } else if month == 7 {
        Some(seq!['J', 'u', 'l'])
    } else if month == 8 {
        Some(seq!['A', 'u', 'g'])
    } else if month == 9 {
        Some(seq!['S', 'e', 'p'])
    } else if month == 10 {
        Some(seq!['O', 'c', 't'])
    } else if month == 11 {
        Some(seq!['N', 'o', 'v'])
    } else if month == 12 {
        Some(seq!['D', 'e', 'c'])
    } else {
        None
    }
}

fn text3(a: char, b: char, c: char) -> (s: String)
    ensures
        s@ == seq![a, b, c],
{
    let mut s = String::new();
    s.push(a);
    s.push(b);
    s.push(c);
    assert(s@ =~= seq![a, b, c]);
    s
}

/// The three-letter English name of a month (1-12).
pub fn month_name(month: u32) -> (name: Option<String>)
    ensures
        match name {
            Some(n) => month_abbreviation(month as int) == Some(n@),
            None => month_abbreviation(month as int) is None,
        },
{
    if month == 1 {
        Some(text3('J', 'a', 'n'))
    } else if month == 2 {
        Some(text3('F', 'e', 'b'))
    } else if month == 3 {
        Some(text3('M', 'a', 'r'))
    } else if month == 4 {
        Some(text3('A', 'p', 'r'))
    } else if month == 5 {
        Some(text3('M', 'a', 'y'))
    } else if month == 6 {
        Some(text3('J', 'u', 'n'))
    } else if month == 7 {
        Some(text3('J', 'u', 'l'))
    } else if month == 8 {
        Some(text3('A', 'u', 'g'))
    } else if month == 9 {
        Some(text3('S', 'e', 'p'))
    } else if month == 10 {
        Some(text3('O', 'c', 't'))
    } else if month == 11 {
        Some(text3('N', 'o', 'v'))
    } else if month == 12 {
        Some(text3('D', 'e', 'c'))
    } else {
        None
    }
}

/// The `Year/Mon` folder for a capture date: the year as a `u16` and the month's
/// three-letter name, when both exist.
pub fn date_folder(date: CalendarDate) -> (folder: Option<(u16, String)>)
    ensures
        match folder {
            Some((y, m)) => year_folder(date.year as int) == Some(y) && month_abbreviation(
                date.month as int,
            ) == Some(m@),
            None => year_folder(date.year as int) is None || month_abbreviation(
                date.month as int,
            ) is None,
        },
{
    if date.year < 0 || date.year > 65535 {
        return None;
    }
    let year = date.year as u16;
    match month_name(date.month) {
        Some(m) => Some((year, m)),
        None => None,
    }
}

/// `n` in decimal, padded with leading zeros to at least `width` digits.
pub open spec fn padded(n: nat, width: nat) -> Seq<char> {
    let d = decimal(n);
    if d.len() >= width {
        d
    } else {
        Seq::new((width - d.len()) as nat, |i: int| '0') + d
    }
}

/// chrono's `%Y`: four zero-padded digits for years 0 through 9999, otherwise a
/// sign followed by at least four zero-padded digits.
pub open spec fn year_text(year: int) -> Seq<char> {
    if 0 <= year <= 9999 {
        padded(year as nat, 4)
    } else if year < 0 {
        seq!['-'] + padded((-year) as nat, 4)
    } else {
        seq!['+'] + padded(year as nat, 4)
    }
}

/// The date written as `%Y-%m-%d`.
pub open spec fn date_text(d: CalendarDate) -> Seq<char> {
    year_text(d.year as int) + seq!['-'] + padded(d.month as nat, 2) + seq!['-'] + padded(
        d.day as nat,
        2,
    )
}

/// Appends `n` in decimal, padded with leading zeros to at least `width` digits.
pub fn push_padded(s: &mut String, n: u64, width: usize)
    ensures
        final(s)@ == old(s)@ + padded(n as nat, width as nat),
{
    let mut digits = String::new();
    push_decimal(&mut digits, n);
    assert(digits@ == decimal(n as nat));
    let len = crate::text::chars_of(digits.as_str()).len();
    let ghost start = s@;
    let mut k: usize = len;
    while k < width
        invariant
            len == decimal(n as nat).len(),
            len <= k <= width || width < len && k == len,
            s@ == start + Seq::new((k - len) as nat, |i: int| '0'),
        decreases width - k,
    {
        s.push('0');
        k = k + 1;
        assert(s@ =~= start + Seq::new((k - len) as nat, |i: int| '0'));
    }
    crate::text::push_text(s, digits.as_str());
    proof {
        let d = decimal(n as nat);
        if d.len() >= width {
            assert(Seq::new((k - len) as nat, |i: int| '0') =~= Seq::<char>::empty());
            assert(s@ =~= start + d);
        } else {
            assert(k == width);
            assert(s@ =~= start + (Seq::new((width - d.len()) as nat, |i: int| '0') + d));
        }
    }
}

/// Appends the date as `%Y-%m-%d`.
pub fn push_date_text(s: &mut String, d: CalendarDate)
    ensures
        final(s)@ == old(s)@ + date_text(d),
{
    let ghost start = s@;
    if 0 <= d.year && d.year <= 9999 {
        push_padded(s, d.year as u64, 4);
    } else if d.year < 0 {
        s.push('-');
        let magnitude: u64 = (0i64 - d.year as i64) as u64;
        push_padded(s, magnitude, 4);
        assert(s@ =~= start + (seq!['-'] + padded((-d.year) as nat, 4)));
    } else {
        s.push('+');
        push_padded(s, d.year as u64, 4);
        assert(s@ =~= start + (seq!['+'] + padded(d.year as nat, 4)));
    }
    assert(s@ == start + year_text(d.year as int));
    s.push('-');
    push_padded(s, d.month as u64, 2);
    s.push('-');
    push_padded(s, d.day as u64, 2);
    assert(s@ =~= start + date_text(d));
}

/// The date as `%Y-%m-%d` text.
pub fn date_prefix_text(d: CalendarDate) -> (t: String)
    ensures
        t@ == date_text(d),
{
    let mut t = String::new();
    push_date_text(&mut t, d);
    t
}

/// The date in the name of a media file that has one embedded: an image's capture
/// date, when it has one, as `%Y-%m-%d`. Otherwise the name takes a filesystem date.
pub fn capture_date_text(kind: Option<crate::media::MediaKind>, capture: Option<CalendarDate>) -> (t: Option<String>)
    ensures
        t is Some <==> (kind == Some(crate::media::MediaKind::Image) && capture is Some),
        t matches Some(x) ==> x@ == date_text(capture->0),
{
    match (kind, capture) {
        (Some(crate::media::MediaKind::Image), Some(d)) => Some(date_prefix_text(d)),
        _ => None,
    }
}


/// The file time that dates a file without an embedded date: its creation time (or,
/// where that is unknown, its modification time); with `use_oldest`, the
/// modification time instead when it is earlier. Times are nanoseconds since the
/// Unix epoch; `None` when neither time is known.
pub open spec fn file_time_of(created: Option<i128>, modified: Option<i128>, use_oldest: bool) -> Option<i128> {
    let base = match created {
        Some(c) => Some(c),
        None => modified,
    };
    match base {
        None => None,
        Some(c) => if use_oldest && modified is Some && modified->0 < c {
            modified
        } else {
            Some(c)
        },
    }
}

/// The file time that dates a file without an embedded date.
pub fn chosen_file_time(created: Option<i128>, modified: Option<i128>, use_oldest: bool) -> (t: Option<i128>)
    ensures
        t == file_time_of(created, modified, use_oldest),
{
    let base = match created {
        Some(c) => c,
        None => match modified {
            Some(m) => m,
            None => return None,
        },
    };
    if use_oldest {
        match modified {
            Some(m) => if m < base {
                return Some(m);
            },
            None => {},
        }
    }
    Some(base)
}


/// Months are named by their English abbreviations in calendar order, Jan for
/// month 1 through Dec for month 12, and by nothing else; so no two months share
/// a `Year/Mon` folder.
pub proof fn lemma_month_names(m: int, n: int)
    ensures
        1 <= m <= 12 ==> month_abbreviation(m) == Some(
            seq![
                seq!['J', 'a', 'n'],
                seq!['F', 'e', 'b'],
                seq!['M', 'a', 'r'],
                seq!['A', 'p', 'r'],
                seq!['M', 'a', 'y'],
                seq!['J', 'u', 'n'],
                seq!['J', 'u', 'l'],
                seq!['A', 'u', 'g'],
                seq!['S', 'e', 'p'],
                seq!['O', 'c', 't'],
                seq!['N', 'o', 'v'],
                seq!['D', 'e', 'c'],
            ][m - 1],
        ),
        !(1 <= m <= 12) ==> month_abbreviation(m) is None,
        1 <= m <= 12 && 1 <= n <= 12 && m != n ==> month_abbreviation(m) != month_abbreviation(n),
{
    let table: Seq<Seq<char>> = seq![
                seq!['J', 'a', 'n'],
                seq!['F', 'e', 'b'],
                seq!['M', 'a', 'r'],
                seq!['A', 'p', 'r'],
                seq!['M', 'a', 'y'],
                seq!['J', 'u', 'n'],
                seq!['J', 'u', 'l'],
                seq!['A', 'u', 'g'],
                seq!['S', 'e', 'p'],
                seq!['O', 'c', 't'],
                seq!['N', 'o', 'v'],
                seq!['D', 'e', 'c'],
            ];
    if 1 <= m <= 12 {
        assert(month_abbreviation(m).unwrap() =~= table[m - 1]);
    }
    if 1 <= m <= 12 && 1 <= n <= 12 && m != n {
        let s = month_abbreviation(m).unwrap();
        let t = month_abbreviation(n).unwrap();
        if m == 1 {
            assert(s.len() == 3 && s[0] == 'J' && s[1] == 'a' && s[2] == 'n');
        }
        if m == 2 {
            assert(s.len() == 3 && s[0] == 'F' && s[1] == 'e' && s[2] == 'b');
        }
        if m == 3 {
            assert(s.len() == 3 && s[0] == 'M' && s[1] == 'a' && s[2] == 'r');
        }
        if m == 4 {
            assert(s.len() == 3 && s[0] == 'A' && s[1] == 'p' && s[2] == 'r');
        }
        if m == 5 {
            assert(s.len() == 3 && s[0] == 'M' && s[1] == 'a' && s[2] == 'y');
        }
        if m == 6 {
            assert(s.len() == 3 && s[0] == 'J' && s[1] == 'u' && s[2] == 'n');
        }
        if m == 7 {
            assert(s.len() == 3 && s[0] == 'J' && s[1] == 'u' && s[2] == 'l');
        }
        if m == 8 {
            assert(s.len() == 3 && s[0] == 'A' && s[1] == 'u' && s[2] == 'g');
        }
        if m == 9 {
            assert(s.len() == 3 && s[0] == 'S' && s[1] == 'e' && s[2] == 'p');
        }
        if m == 10 {
            assert(s.len() == 3 && s[0] == 'O' && s[1] == 'c' && s[2] == 't');
        }
        if m == 11 {
            assert(s.len() == 3 && s[0] == 'N' && s[1] == 'o' && s[2] == 'v');
        }
        if m == 12 {
            assert(s.len() == 3 && s[0] == 'D' && s[1] == 'e' && s[2] == 'c');
        }
        if n == 1 {
            assert(t.len() == 3 && t[0] == 'J' && t[1] == 'a' && t[2] == 'n');
        }
        if n == 2 {
            assert(t.len() == 3 && t[0] == 'F' && t[1] == 'e' && t[2] == 'b');
        }
        if n == 3 {
            assert(t.len() == 3 && t[0] == 'M' && t[1] == 'a' && t[2] == 'r');
        }
        if n == 4 {
            assert(t.len() == 3 && t[0] == 'A' && t[1] == 'p' && t[2] == 'r');
        }
        if n == 5 {
            assert(t.len() == 3 && t[0] == 'M' && t[1] == 'a' && t[2] == 'y');
        }
        if n == 6 {
            assert(t.len() == 3 && t[0] == 'J' && t[1] == 'u' && t[2] == 'n');
        }
        if n == 7 {
            assert(t.len() == 3 && t[0] == 'J' && t[1] == 'u' && t[2] == 'l');
        }
        if n == 8 {
            assert(t.len() == 3 && t[0] == 'A' && t[1] == 'u' && t[2] == 'g');
        }
        if n == 9 {
            assert(t.len() == 3 && t[0] == 'S' && t[1] == 'e' && t[2] == 'p');
        }
        if n == 10 {
            assert(t.len() == 3 && t[0] == 'O' && t[1] == 'c' && t[2] == 't');
        }
        if n == 11 {
            assert(t.len() == 3 && t[0] == 'N' && t[1] == 'o' && t[2] == 'v');
        }
        if n == 12 {
            assert(t.len() == 3 && t[0] == 'D' && t[1] == 'e' && t[2] == 'c');
        }
        if s == t {
            assert(s[0] == t[0] && s[1] == t[1] && s[2] == t[2]);
        }
    }
}


/// The file time that dates a file: the creation time when known, else the
/// modification time; with `use_oldest` and both known, the earlier of the two.
pub proof fn lemma_file_time_choice(created: Option<i128>, modified: Option<i128>, use_oldest: bool)
    ensures
        (created is None && modified is None) <==> file_time_of(created, modified, use_oldest) is None,
        created is None ==> file_time_of(created, modified, use_oldest) == modified,
        created is Some && !use_oldest ==> file_time_of(created, modified, use_oldest) == created,
        created is Some && modified is Some && use_oldest ==> file_time_of(created, modified, use_oldest) == Some(
            if modified->0 < created->0 {
                modified->0
            } else {
                created->0
            },
        ),
        created is Some && modified is None ==> file_time_of(created, modified, use_oldest) == created,
{
}


/// The Gregorian month lengths: 31, 28 (29 in a leap year), 31, 30, 31, 30, 31,
/// 31, 30, 31, 30, 31 days in calendar order, which make 365 days a year (366 in a
/// leap year); a leap year is one divisible by 4, except centuries not divisible
/// by 400.
pub proof fn lemma_month_lengths(year: int, month: int)
    ensures
        1 <= month <= 12 ==> days_in_month(year, month) == seq![
            31int,
            if is_leap_year(year) { 29int } else { 28int },
            31int,
            30int,
            31int,
            30int,
            31int,
            31int,
            30int,
            31int,
            30int,
            31int,
        ][month - 1],
        days_in_month(year, 1) + days_in_month(year, 2) + days_in_month(year, 3) + days_in_month(year, 4)
            + days_in_month(year, 5) + days_in_month(year, 6) + days_in_month(year, 7) + days_in_month(year, 8)
            + days_in_month(year, 9) + days_in_month(year, 10) + days_in_month(year, 11) + days_in_month(year, 12)
            == if is_leap_year(year) { 366int } else { 365int },
        is_leap_year(year) <==> (year % 400 == 0 || (year % 4 == 0 && year % 100 != 0)),
{
}

/// An EXIF date text whose year, month and day fields are ASCII digits reads as
/// the date those digits write, year from bytes 0-3, month from bytes 5-6 and day
/// from bytes 8-9, whatever follows byte 9; it reads as no date when that day does
/// not exist.
pub proof fn lemma_exif_digits(b: Seq<u8>)
    requires
        b.len() >= 10,
        b[4] == 58u8,
        b[7] == 58u8,
        forall|i: int| 0 <= i < 10 && i != 4 && i != 7 ==> 48 <= #[trigger] b[i] <= 57,
    ensures
        ({
            let y = (b[0] - 48) * 1000 + (b[1] - 48) * 100 + (b[2] - 48) * 10 + (b[3] - 48);
            let m = (b[5] - 48) * 10 + (b[6] - 48);
            let d = (b[8] - 48) * 10 + (b[9] - 48);
            exif_date(b) == if valid_date(y, m, d) {
                Some(CalendarDate { year: y as i32, month: m as u32, day: d as u32 })
            } else {
                None
            }
        }),
{
    let ys = b.subrange(0, 4);
    let ms = b.subrange(5, 7);
    let ds = b.subrange(8, 10);
    assert(ys[0] == b[0] && ys[1] == b[1] && ys[2] == b[2] && ys[3] == b[3]);
    assert(ms[0] == b[5] && ms[1] == b[6]);
    assert(ds[0] == b[8] && ds[1] == b[9]);
    assert(all_digit_bytes(ys));
    assert(all_digit_bytes(ms));
    assert(all_digit_bytes(ds));
    assert(ys.drop_last().drop_last().drop_last().drop_last() =~= Seq::<u8>::empty());
    assert(ys.drop_last().drop_last().drop_last() =~= seq![b[0]]);
    assert(ys.drop_last().drop_last() =~= seq![b[0], b[1]]);
    assert(ys.drop_last() =~= seq![b[0], b[1], b[2]]);
    assert(digits_value(seq![b[0]]) == b[0] - 48) by {
        assert(seq![b[0]].drop_last() =~= Seq::<u8>::empty());
        assert(seq![b[0]].last() == b[0]);
        assert(digits_value(Seq::<u8>::empty()) == 0);
    }
    assert(digits_value(seq![b[0], b[1]]) == (b[0] - 48) * 10 + (b[1] - 48)) by {
        assert(seq![b[0], b[1]].drop_last() =~= seq![b[0]]);
        assert(seq![b[0], b[1]].last() == b[1]);
    }
    assert(digits_value(seq![b[0], b[1], b[2]]) == ((b[0] - 48) * 10 + (b[1] - 48)) * 10 + (b[2] - 48)) by {
        assert(seq![b[0], b[1], b[2]].drop_last() =~= seq![b[0], b[1]]);
        assert(seq![b[0], b[1], b[2]].last() == b[2]);
    }
    assert(digits_value(ys) == (((b[0] - 48) * 10 + (b[1] - 48)) * 10 + (b[2] - 48)) * 10 + (b[3] - 48));
    assert(ms.drop_last() =~= seq![b[5]]);
    assert(digits_value(seq![b[5]]) == b[5] - 48) by {
        assert(seq![b[5]].drop_last() =~= Seq::<u8>::empty());
        assert(seq![b[5]].last() == b[5]);
        assert(digits_value(Seq::<u8>::empty()) == 0);
    }
    assert(ds.drop_last() =~= seq![b[8]]);
    assert(digits_value(seq![b[8]]) == b[8] - 48) by {
        assert(seq![b[8]].drop_last() =~= Seq::<u8>::empty());
        assert(seq![b[8]].last() == b[8]);
        assert(digits_value(Seq::<u8>::empty()) == 0);
    }
    assert(parse_signed(ys) == Some(digits_value(ys)));
    assert(parse_unsigned(ms) == Some(digits_value(ms)));
    assert(parse_unsigned(ds) == Some(digits_value(ds)));
}

} // verus!
