//! Known media formats and the kind of a media file.

use vstd::prelude::*;
use crate::paths::{
    lemma_extension_after_dot, lemma_file_name_after_dir, matches_text, path_extension,
    path_extension_of,
};

verus! {

/// The kind of a supported media file.
#[derive(Clone, Copy, Debug, PartialEq, Eq, Structural)]
pub enum MediaKind {
    Image,
    Video,
    Audio,
}

/// ASCII upper-case letters become lower case; every other character is kept.
pub open spec fn ascii_lower(c: char) -> char {
    if c == 'A' {
        'a'
    } else if c == 'B' {
        'b'
    } else if c == 'C' {
        'c'
    } else if c == 'D' {
        'd'
    } else if c == 'E' {
        'e'
    } else if c == 'F' {
        'f'
    } else if c == 'G' {
        'g'
    } else if c == 'H' {
        'h'
    } else if c == 'I' {
        'i'
    } else if c == 'J' {
        'j'
    } else if c == 'K' {
        'k'
    } else if c == 'L' {
        'l'
    } else if c == 'M' {
        'm'
    } else if c == 'N' {
        'n'
    } else if c == 'O' {
        'o'
    } else if c == 'P' {
        'p'
    } else if c == 'Q' {
        'q'
    } else if c == 'R' {
        'r'
    } else if c == 'S' {
        's'
    } else if c == 'T' {
        't'
    } else if c == 'U' {
        'u'
    } else if c == 'V' {
        'v'
    } else if c == 'W' {
        'w'
    } else if c == 'X' {
        'x'
    } else if c == 'Y' {
        'y'
    } else if c == 'Z' {
        'z'
    } else {
        c
    }
}

/// The text with ASCII letters in lower case (`to_ascii_lowercase`).
pub open spec fn lower_text(s: Seq<char>) -> Seq<char> {
    s.map_values(|c: char| ascii_lower(c))
}

/// `c` in lower case, for ASCII letters.
pub fn lower_char(c: char) -> (r: char)
    ensures
        r == ascii_lower(c),
{
    if c == 'A' {
        'a'
    } else if c == 'B' {
        'b'
    } else if c == 'C' {
        'c'
    } else if c == 'D' {
        'd'
    } else if c == 'E' {
        'e'
    } else if c == 'F' {
        'f'
    } else if c == 'G' {
        'g'
    } else if c == 'H' {
        'h'
    } else if c == 'I' {
        'i'
    } else if c == 'J' {
        'j'
    } else if c == 'K' {
        'k'
    } else if c == 'L' {
        'l'
    } else if c == 'M' {
        'm'
    } else if c == 'N' {
        'n'
    } else if c == 'O' {
        'o'
    } else if c == 'P' {
        'p'
    } else if c == 'Q' {
        'q'
    } else if c == 'R' {
        'r'
    } else if c == 'S' {
        's'
    } else if c == 'T' {
        't'
    } else if c == 'U' {
        'u'
    } else if c == 'V' {
        'v'
    } else if c == 'W' {
        'w'
    } else if c == 'X' {
        'x'
    } else if c == 'Y' {
        'y'
    } else if c == 'Z' {
        'z'
    } else {
        c
    }
}

/// `s` with its ASCII letters in lower case.
pub fn lower_chars(s: &Vec<char>) -> (r: Vec<char>)
    ensures
        r@ == lower_text(s@),
{
    let mut r: Vec<char> = Vec::new();
    let mut i: usize = 0;
    while i < s.len()
        invariant
            i <= s.len(),
            r@ == lower_text(s@.take(i as int)),
        decreases s.len() - i,
    {
        r.push(lower_char(s[i]));
        i += 1;
        assert(lower_text(s@.take(i as int)) =~= lower_text(s@.take(i - 1)).push(ascii_lower(s@[i - 1])));
    }
    assert(s@.take(i as int) =~= s@);
    r
}

/// Image extensions supported by both sorting and duplicate scanning (lower case).
pub open spec fn is_image_extension(lower: Seq<char>) -> bool {
    lower == seq!['p', 'n', 'g']
    || lower == seq!['j', 'p', 'g']
    || lower == seq!['j', 'p', 'e', 'g']
    || lower == seq!['g', 'i', 'f']
    || lower == seq!['b', 'm', 'p']
}

/// Common image formats, including modern and camera-raw formats (lower case).
pub open spec fn is_image_media_extension(lower: Seq<char>) -> bool {
    lower == seq!['p', 'n', 'g']
    || lower == seq!['j', 'p', 'g']
    || lower == seq!['j', 'p', 'e', 'g']
    || lower == seq!['g', 'i', 'f']
    || lower == seq!['b', 'm', 'p']
    || lower == seq!['w', 'e', 'b', 'p']
    || lower == seq!['t', 'i', 'f']
    || lower == seq!['t', 'i', 'f', 'f']
    || lower == seq!['h', 'e', 'i', 'c']
    || lower == seq!['h', 'e', 'i', 'f']
    || lower == seq!['a', 'v', 'i', 'f']
    || lower == seq!['d', 'n', 'g']
    || lower == seq!['r', 'a', 'w']
    || lower == seq!['c', 'r', '2']
    || lower == seq!['c', 'r', '3']
    || lower == seq!['n', 'e', 'f']
    || lower == seq!['a', 'r', 'w']
    || lower == seq!['r', 'a', 'f']
    || lower == seq!['r', 'w', '2']
    || lower == seq!['o', 'r', 'f']
    || lower == seq!['p', 'e', 'f']
    || lower == seq!['s', 'r', 'w']
}

/// Common video formats (lower case).
pub open spec fn is_video_extension(lower: Seq<char>) -> bool {
    lower == seq!['m', 'p', '4']
    || lower == seq!['m', 'k', 'v']
    || lower == seq!['m', 'o', 'v']
    || lower == seq!['a', 'v', 'i']
    || lower == seq!['w', 'm', 'v']
    || lower == seq!['w', 'e', 'b', 'm']
    || lower == seq!['m', '4', 'v']
    || lower == seq!['m', 'p', 'g']
    || lower == seq!['m', 'p', 'e', 'g']
    || lower == seq!['3', 'g', 'p']
    || lower == seq!['3', 'g', '2']
    || lower == seq!['f', 'l', 'v']
    || lower == seq!['f', '4', 'v']
    || lower == seq!['o', 'g', 'v']
    || lower == seq!['t', 's']
    || lower == seq!['m', '2', 't', 's']
    || lower == seq!['m', 't', 's']
    || lower == seq!['v', 'o', 'b']
    || lower == seq!['a', 's', 'f']
    || lower == seq!['r', 'm']
    || lower == seq!['r', 'm', 'v', 'b']
}

/// Common audio formats (lower case).
pub open spec fn is_audio_extension(lower: Seq<char>) -> bool {
    lower == seq!['m', 'p', '3']
    || lower == seq!['w', 'a', 'v']
    || lower == seq!['f', 'l', 'a', 'c']
    || lower == seq!['a', 'a', 'c']
    || lower == seq!['m', '4', 'a']
    || lower == seq!['o', 'g', 'g']
    || lower == seq!['o', 'p', 'u', 's']
    || lower == seq!['w', 'm', 'a']
    || lower == seq!['a', 'i', 'f', 'f']
    || lower == seq!['a', 'i', 'f']
    || lower == seq!['a', 'l', 'a', 'c']
    || lower == seq!['a', 'p', 'e']
    || lower == seq!['a', 'm', 'r']
    || lower == seq!['a', 'c', '3']
    || lower == seq!['d', 't', 's']
    || lower == seq!['m', 'i', 'd']
    || lower == seq!['m', 'i', 'd', 'i']
}

fn image_extension_listed(lower: &Vec<char>) -> (r: bool)
    ensures
        r == is_image_extension(lower@),
{
    if matches_text(lower, &['p', 'n', 'g']) {
        return true;
    }
    if matches_text(lower, &['j', 'p', 'g']) {
        return true;
    }
    if matches_text(lower, &['j', 'p', 'e', 'g']) {
        return true;
    }
    if matches_text(lower, &['g', 'i', 'f']) {
        return true;
    }
    if matches_text(lower, &['b', 'm', 'p']) {
        return true;
    }
    false
}

fn image_media_extension_listed(lower: &Vec<char>) -> (r: bool)
    ensures
        r == is_image_media_extension(lower@),
{
    if matches_text(lower, &['p', 'n', 'g']) {
        return true;
    }
    if matches_text(lower, &['j', 'p', 'g']) {
        return true;
    }
    if matches_text(lower, &['j', 'p', 'e', 'g']) {
        return true;
    }
    if matches_text(lower, &['g', 'i', 'f']) {
        return true;
    }
    if matches_text(lower, &['b', 'm', 'p']) {
        return true;
    }
    if matches_text(lower, &['w', 'e', 'b', 'p']) {
        return true;
    }
    if matches_text(lower, &['t', 'i', 'f']) {
        return true;
    }
    if matches_text(lower, &['t', 'i', 'f', 'f']) {
        return true;
    }
    if matches_text(lower, &['h', 'e', 'i', 'c']) {
        return true;
    }
    if matches_text(lower, &['h', 'e', 'i', 'f']) {
        return true;
    }
    if matches_text(lower, &['a', 'v', 'i', 'f']) {
        return true;
    }
    if matches_text(lower, &['d', 'n', 'g']) {
        return true;
    }
    if matches_text(lower, &['r', 'a', 'w']) {
        return true;
    }
    if matches_text(lower, &['c', 'r', '2']) {
        return true;
    }
    if matches_text(lower, &['c', 'r', '3']) {
        return true;
    }
    if matches_text(lower, &['n', 'e', 'f']) {
        return true;
    }
    if matches_text(lower, &['a', 'r', 'w']) {
        return true;
    }
    if matches_text(lower, &['r', 'a', 'f']) {
        return true;
    }
    if matches_text(lower, &['r', 'w', '2']) {
        return true;
    }
    if matches_text(lower, &['o', 'r', 'f']) {
        return true;
    }
    if matches_text(lower, &['p', 'e', 'f']) {
        return true;
    }
    if matches_text(lower, &['s', 'r', 'w']) {
        return true;
    }
    false
}

fn video_extension_listed(lower: &Vec<char>) -> (r: bool)
    ensures
        r == is_video_extension(lower@),
{
    if matches_text(lower, &['m', 'p', '4']) {
        return true;
    }
    if matches_text(lower, &['m', 'k', 'v']) {
        return true;
    }
    if matches_text(lower, &['m', 'o', 'v']) {
        return true;
    }
    if matches_text(lower, &['a', 'v', 'i']) {
        return true;
    }
    if matches_text(lower, &['w', 'm', 'v']) {
        return true;
    }
    if matches_text(lower, &['w', 'e', 'b', 'm']) {
        return true;
    }
    if matches_text(lower, &['m', '4', 'v']) {
        return true;
    }
    if matches_text(lower, &['m', 'p', 'g']) {
        return true;
    }
    if matches_text(lower, &['m', 'p', 'e', 'g']) {
        return true;
    }
    if matches_text(lower, &['3', 'g', 'p']) {
        return true;
    }
    if matches_text(lower, &['3', 'g', '2']) {
        return true;
    }
    if matches_text(lower, &['f', 'l', 'v']) {
        return true;
    }
    if matches_text(lower, &['f', '4', 'v']) {
        return true;
    }
    if matches_text(lower, &['o', 'g', 'v']) {
        return true;
    }
    if matches_text(lower, &['t', 's']) {
        return true;
    }
    if matches_text(lower, &['m', '2', 't', 's']) {
        return true;
    }
    if matches_text(lower, &['m', 't', 's']) {
        return true;
    }
    if matches_text(lower, &['v', 'o', 'b']) {
        return true;
    }
    if matches_text(lower, &['a', 's', 'f']) {
        return true;
    }
    if matches_text(lower, &['r', 'm']) {
        return true;
    }
    if matches_text(lower, &['r', 'm', 'v', 'b']) {
        return true;
    }
    false
}

fn audio_extension_listed(lower: &Vec<char>) -> (r: bool)
    ensures
        r == is_audio_extension(lower@),
{
    if matches_text(lower, &['m', 'p', '3']) {
        return true;
    }
    if matches_text(lower, &['w', 'a', 'v']) {
        return true;
    }
    if matches_text(lower, &['f', 'l', 'a', 'c']) {
        return true;
    }
    if matches_text(lower, &['a', 'a', 'c']) {
        return true;
    }
    if matches_text(lower, &['m', '4', 'a']) {
        return true;
    }
    if matches_text(lower, &['o', 'g', 'g']) {
        return true;
    }
    if matches_text(lower, &['o', 'p', 'u', 's']) {
        return true;
    }
    if matches_text(lower, &['w', 'm', 'a']) {
        return true;
    }
    if matches_text(lower, &['a', 'i', 'f', 'f']) {
        return true;
    }
    if matches_text(lower, &['a', 'i', 'f']) {
        return true;
    }
    if matches_text(lower, &['a', 'l', 'a', 'c']) {
        return true;
    }
    if matches_text(lower, &['a', 'p', 'e']) {
        return true;
    }
    if matches_text(lower, &['a', 'm', 'r']) {
        return true;
    }
    if matches_text(lower, &['a', 'c', '3']) {
        return true;
    }
    if matches_text(lower, &['d', 't', 's']) {
        return true;
    }
    if matches_text(lower, &['m', 'i', 'd']) {
        return true;
    }
    if matches_text(lower, &['m', 'i', 'd', 'i']) {
        return true;
    }
    false
}

/// The kind of the media file at `path`: its extension, compared without regard to
/// ASCII case, is looked up among image, then video, then audio formats.
pub open spec fn media_kind_of(path: Seq<char>) -> Option<MediaKind> {
    match path_extension(path) {
        None => None,
        Some(e) => {
            let lower = lower_text(e);
            if is_image_media_extension(lower) {
                Some(MediaKind::Image)
            } else if is_video_extension(lower) {
                Some(MediaKind::Video)
            } else if is_audio_extension(lower) {
                Some(MediaKind::Audio)
            } else {
                None
            }
        },
    }
}

/// The path names an image of a format the organizer reads.
pub open spec fn image_path(path: Seq<char>) -> bool {
    match path_extension(path) {
        None => false,
        Some(e) => is_image_extension(lower_text(e)),
    }
}

/// Returns the kind of a supported, known media file. Unknown extensions are excluded.
pub fn media_kind(path: &str) -> (kind: Option<MediaKind>)
    ensures
        kind == media_kind_of(path@),
{
    match path_extension_of(path) {
        None => None,
        Some(e) => {
            let lower = lower_chars(&e);
            if image_media_extension_listed(&lower) {
                Some(MediaKind::Image)
            } else if video_extension_listed(&lower) {
                Some(MediaKind::Video)
            } else if audio_extension_listed(&lower) {
                Some(MediaKind::Audio)
            } else {
                None
            }
        },
    }
}

/// True when `path` has an image extension that sorting reads.
pub fn is_image_path(path: &str) -> (r: bool)
    ensures
        r == image_path(path@),
{
    match path_extension_of(path) {
        None => false,
        Some(e) => {
            let lower = lower_chars(&e);
            image_extension_listed(&lower)
        },
    }
}


/// Every format of the fixed lists is recognised by its extension, in any ASCII
/// case and below any folder: the image formats png, jpg, jpeg, gif, bmp, webp, tif, tiff, heic, heif, avif, dng, raw, cr2, cr3, nef, arw, raf, rw2, orf, pef, srw;
/// the video formats mp4, mkv, mov, avi, wmv, webm, m4v, mpg, mpeg, 3gp, 3g2, flv, f4v, ogv, ts, m2ts, mts, vob, asf, rm, rmvb;
/// and the audio formats mp3, wav, flac, aac, m4a, ogg, opus, wma, aiff, aif, alac, ape, amr, ac3, dts, mid, midi.
pub proof fn lemma_listed_formats(dir: Seq<char>, stem: Seq<char>, ext: Seq<char>)
    requires
        dir.len() == 0 || dir.last() == '/',
        stem.len() > 0,
        !stem.contains('/'),
    ensures
        ({
            let l = lower_text(ext);
            (l == seq!['p', 'n', 'g']
                || l == seq!['j', 'p', 'g']
                || l == seq!['j', 'p', 'e', 'g']
                || l == seq!['g', 'i', 'f']
                || l == seq!['b', 'm', 'p']
                || l == seq!['w', 'e', 'b', 'p']
                || l == seq!['t', 'i', 'f']
                || l == seq!['t', 'i', 'f', 'f']
                || l == seq!['h', 'e', 'i', 'c']
                || l == seq!['h', 'e', 'i', 'f']
                || l == seq!['a', 'v', 'i', 'f']
                || l == seq!['d', 'n', 'g']
                || l == seq!['r', 'a', 'w']
                || l == seq!['c', 'r', '2']
                || l == seq!['c', 'r', '3']
                || l == seq!['n', 'e', 'f']
                || l == seq!['a', 'r', 'w']
                || l == seq!['r', 'a', 'f']
                || l == seq!['r', 'w', '2']
                || l == seq!['o', 'r', 'f']
                || l == seq!['p', 'e', 'f']
                || l == seq!['s', 'r', 'w']) ==> media_kind_of(dir + stem + seq!['.'] + ext) == Some(MediaKind::Image)
        }),
        ({
            let l = lower_text(ext);
            (l == seq!['m', 'p', '4']
                || l == seq!['m', 'k', 'v']
                || l == seq!['m', 'o', 'v']
                || l == seq!['a', 'v', 'i']
                || l == seq!['w', 'm', 'v']
                || l == seq!['w', 'e', 'b', 'm']
                || l == seq!['m', '4', 'v']
                || l == seq!['m', 'p', 'g']
                || l == seq!['m', 'p', 'e', 'g']
                || l == seq!['3', 'g', 'p']
                || l == seq!['3', 'g', '2']
                || l == seq!['f', 'l', 'v']
                || l == seq!['f', '4', 'v']
                || l == seq!['o', 'g', 'v']
                || l == seq!['t', 's']
                || l == seq!['m', '2', 't', 's']
                || l == seq!['m', 't', 's']
                || l == seq!['v', 'o', 'b']
                || l == seq!['a', 's', 'f']
                || l == seq!['r', 'm']
                || l == seq!['r', 'm', 'v', 'b']) ==> media_kind_of(dir + stem + seq!['.'] + ext) == Some(MediaKind::Video)
        }),
        ({
            let l = lower_text(ext);
            (l == seq!['m', 'p', '3']
                || l == seq!['w', 'a', 'v']
                || l == seq!['f', 'l', 'a', 'c']
                || l == seq!['a', 'a', 'c']
                || l == seq!['m', '4', 'a']
                || l == seq!['o', 'g', 'g']
                || l == seq!['o', 'p', 'u', 's']
                || l == seq!['w', 'm', 'a']
                || l == seq!['a', 'i', 'f', 'f']
                || l == seq!['a', 'i', 'f']
                || l == seq!['a', 'l', 'a', 'c']
                || l == seq!['a', 'p', 'e']
                || l == seq!['a', 'm', 'r']
                || l == seq!['a', 'c', '3']
                || l == seq!['d', 't', 's']
                || l == seq!['m', 'i', 'd']
                || l == seq!['m', 'i', 'd', 'i']) ==> media_kind_of(dir + stem + seq!['.'] + ext) == Some(MediaKind::Audio)
        }),
{
    let l = lower_text(ext);
    let p = dir + stem + seq!['.'] + ext;
    if is_image_media_extension(l) || is_video_extension(l) || is_audio_extension(l) {
        lemma_listed_extension_shape(ext);
        let name = stem + seq!['.'] + ext;
        assert(p =~= dir + name);
        assert(!name.contains('/')) by {
            if name.contains('/') {
                let i = choose|i: int| 0 <= i < name.len() && name[i] == '/';
                if i < stem.len() {
                    assert(stem[i] == '/');
                } else if i > stem.len() {
                    assert(ext[i - stem.len() - 1] == '/');
                }
            }
        }
        lemma_file_name_after_dir(dir, name);
        lemma_extension_after_dot(stem, ext);
        if is_video_extension(l) {
            lemma_video_not_image(l);
        }
    }
}

/// An extension whose lower case is one of the listed formats holds no `.` or `/`
/// and has at least two characters.
proof fn lemma_listed_extension_shape(ext: Seq<char>)
    requires
        is_image_media_extension(lower_text(ext)) || is_video_extension(lower_text(ext)) || is_audio_extension(
            lower_text(ext),
        ),
    ensures
        ext.len() >= 2,
        !ext.contains('.'),
        !ext.contains('/'),
{
    let l = lower_text(ext);
    assert(l.len() == ext.len());
    assert forall|i: int| 0 <= i < l.len() implies l[i] != '.' && l[i] != '/' by {
    }
    assert forall|i: int| 0 <= i < ext.len() implies ext[i] != '.' && ext[i] != '/' by {
        assert(l[i] == ascii_lower(ext[i]));
    }
}


/// No video format is also an image format.
proof fn lemma_video_not_image(l: Seq<char>)
    requires
        is_video_extension(l),
    ensures
        !is_image_media_extension(l),
{
    if l == seq!['m', 'p', '4'] {
        assert(l.len() == 3 && l[0] == 'm' && l[1] == 'p' && l[2] == '4');
    }
    if l == seq!['m', 'k', 'v'] {
        assert(l.len() == 3 && l[0] == 'm' && l[1] == 'k' && l[2] == 'v');
    }
    if l == seq!['m', 'o', 'v'] {
        assert(l.len() == 3 && l[0] == 'm' && l[1] == 'o' && l[2] == 'v');
    }
    if l == seq!['a', 'v', 'i'] {
        assert(l.len() == 3 && l[0] == 'a' && l[1] == 'v' && l[2] == 'i');
    }
    if l == seq!['w', 'm', 'v'] {
        assert(l.len() == 3 && l[0] == 'w' && l[1] == 'm' && l[2] == 'v');
    }
    if l == seq!['w', 'e', 'b', 'm'] {
        assert(l.len() == 4 && l[0] == 'w' && l[1] == 'e' && l[2] == 'b' && l[3] == 'm');
    }
    if l == seq!['m', '4', 'v'] {
        assert(l.len() == 3 && l[0] == 'm' && l[1] == '4' && l[2] == 'v');
    }
    if l == seq!['m', 'p', 'g'] {
        assert(l.len() == 3 && l[0] == 'm' && l[1] == 'p' && l[2] == 'g');
    }
    if l == seq!['m', 'p', 'e', 'g'] {
        assert(l.len() == 4 && l[0] == 'm' && l[1] == 'p' && l[2] == 'e' && l[3] == 'g');
    }
    if l == seq!['3', 'g', 'p'] {
        assert(l.len() == 3 && l[0] == '3' && l[1] == 'g' && l[2] == 'p');
    }
    if l == seq!['3', 'g', '2'] {
        assert(l.len() == 3 && l[0] == '3' && l[1] == 'g' && l[2] == '2');
    }
    if l == seq!['f', 'l', 'v'] {
        assert(l.len() == 3 && l[0] == 'f' && l[1] == 'l' && l[2] == 'v');
    }
    if l == seq!['f', '4', 'v'] {
        assert(l.len() == 3 && l[0] == 'f' && l[1] == '4' && l[2] == 'v');
    }
    if l == seq!['o', 'g', 'v'] {
        assert(l.len() == 3 && l[0] == 'o' && l[1] == 'g' && l[2] == 'v');
    }
    if l == seq!['t', 's'] {
        assert(l.len() == 2 && l[0] == 't' && l[1] == 's');
    }
    if l == seq!['m', '2', 't', 's'] {
        assert(l.len() == 4 && l[0] == 'm' && l[1] == '2' && l[2] == 't' && l[3] == 's');
    }
    if l == seq!['m', 't', 's'] {
        assert(l.len() == 3 && l[0] == 'm' && l[1] == 't' && l[2] == 's');
    }
    if l == seq!['v', 'o', 'b'] {
        assert(l.len() == 3 && l[0] == 'v' && l[1] == 'o' && l[2] == 'b');
    }
    if l == seq!['a', 's', 'f'] {
        assert(l.len() == 3 && l[0] == 'a' && l[1] == 's' && l[2] == 'f');
    }
    if l == seq!['r', 'm'] {
        assert(l.len() == 2 && l[0] == 'r' && l[1] == 'm');
    }
    if l == seq!['r', 'm', 'v', 'b'] {
        assert(l.len() == 4 && l[0] == 'r' && l[1] == 'm' && l[2] == 'v' && l[3] == 'b');
    }
}


/// The organizer sorts exactly the images whose extension is, in any ASCII case,
/// one of png, jpg, jpeg, gif, bmp; and a file whose extension is on none of the media
/// lists is no media file.
pub proof fn lemma_sorted_formats(dir: Seq<char>, stem: Seq<char>, ext: Seq<char>)
    requires
        dir.len() == 0 || dir.last() == '/',
        stem.len() > 0,
        !stem.contains('/'),
        ext.len() > 0,
        !ext.contains('.'),
        !ext.contains('/'),
    ensures
        ({
            let l = lower_text(ext);
            image_path(dir + stem + seq!['.'] + ext) <==> (l == seq!['p', 'n', 'g']
                || l == seq!['j', 'p', 'g']
                || l == seq!['j', 'p', 'e', 'g']
                || l == seq!['g', 'i', 'f']
                || l == seq!['b', 'm', 'p'])
        }),
        ({
            let l = lower_text(ext);
            !(l == seq!['p', 'n', 'g']
                || l == seq!['j', 'p', 'g']
                || l == seq!['j', 'p', 'e', 'g']
                || l == seq!['g', 'i', 'f']
                || l == seq!['b', 'm', 'p']
                || l == seq!['w', 'e', 'b', 'p']
                || l == seq!['t', 'i', 'f']
                || l == seq!['t', 'i', 'f', 'f']
                || l == seq!['h', 'e', 'i', 'c']
                || l == seq!['h', 'e', 'i', 'f']
                || l == seq!['a', 'v', 'i', 'f']
                || l == seq!['d', 'n', 'g']
                || l == seq!['r', 'a', 'w']
                || l == seq!['c', 'r', '2']
                || l == seq!['c', 'r', '3']
                || l == seq!['n', 'e', 'f']
                || l == seq!['a', 'r', 'w']
                || l == seq!['r', 'a', 'f']
                || l == seq!['r', 'w', '2']
                || l == seq!['o', 'r', 'f']
                || l == seq!['p', 'e', 'f']
                || l == seq!['s', 'r', 'w']
                || l == seq!['m', 'p', '4']
                || l == seq!['m', 'k', 'v']
                || l == seq!['m', 'o', 'v']
                || l == seq!['a', 'v', 'i']
                || l == seq!['w', 'm', 'v']
                || l == seq!['w', 'e', 'b', 'm']
                || l == seq!['m', '4', 'v']
                || l == seq!['m', 'p', 'g']
                || l == seq!['m', 'p', 'e', 'g']
                || l == seq!['3', 'g', 'p']
                || l == seq!['3', 'g', '2']
                || l == seq!['f', 'l', 'v']
                || l == seq!['f', '4', 'v']
                || l == seq!['o', 'g', 'v']
                || l == seq!['t', 's']
                || l == seq!['m', '2', 't', 's']
                || l == seq!['m', 't', 's']
                || l == seq!['v', 'o', 'b']
                || l == seq!['a', 's', 'f']
                || l == seq!['r', 'm']
                || l == seq!['r', 'm', 'v', 'b']
                || l == seq!['m', 'p', '3']
                || l == seq!['w', 'a', 'v']
                || l == seq!['f', 'l', 'a', 'c']
                || l == seq!['a', 'a', 'c']
                || l == seq!['m', '4', 'a']
                || l == seq!['o', 'g', 'g']
                || l == seq!['o', 'p', 'u', 's']
                || l == seq!['w', 'm', 'a']
                || l == seq!['a', 'i', 'f', 'f']
                || l == seq!['a', 'i', 'f']
                || l == seq!['a', 'l', 'a', 'c']
                || l == seq!['a', 'p', 'e']
                || l == seq!['a', 'm', 'r']
                || l == seq!['a', 'c', '3']
                || l == seq!['d', 't', 's']
                || l == seq!['m', 'i', 'd']
                || l == seq!['m', 'i', 'd', 'i']) ==> media_kind_of(dir + stem + seq!['.'] + ext) is None
        }),
{
    let name = stem + seq!['.'] + ext;
    assert(dir + stem + seq!['.'] + ext =~= dir + name);
    assert(!name.contains('/')) by {
        if name.contains('/') {
            let i = choose|i: int| 0 <= i < name.len() && name[i] == '/';
            if i < stem.len() {
                assert(stem[i] == '/');
            } else if i > stem.len() {
                assert(ext[i - stem.len() - 1] == '/');
            }
        }
    }
    lemma_file_name_after_dir(dir, name);
    lemma_extension_after_dot(stem, ext);
}


/// Lower-casing moves each ASCII capital `A`-`Z` (code points 65-90) down by 32 to
/// its small letter and leaves every other character as it is; so extensions
/// match in any mix of ASCII case, and lower-casing twice changes nothing more.
pub proof fn lemma_ascii_lower(s: Seq<char>)
    ensures
        lower_text(s).len() == s.len(),
        forall|i: int|
            0 <= i < s.len() ==> {
                &&& (65 <= (#[trigger] s[i]) as u32 <= 90 ==> lower_text(s)[i] as u32 == s[i] as u32 + 32)
                &&& (!(65 <= s[i] as u32 <= 90) ==> lower_text(s)[i] == s[i])
            },
        lower_text(lower_text(s)) == lower_text(s),
{
    assert forall|i: int| 0 <= i < s.len() implies {
        &&& (65 <= (#[trigger] s[i]) as u32 <= 90 ==> lower_text(s)[i] as u32 == s[i] as u32 + 32)
        &&& (!(65 <= s[i] as u32 <= 90) ==> lower_text(s)[i] == s[i])
        &&& ascii_lower(ascii_lower(s[i])) == ascii_lower(s[i])
    } by {
        let c = s[i];
        assert(lower_text(s)[i] == ascii_lower(c));
        let u = c as u32;
        if 65 <= u <= 90 {
            if u == 65 { assert(c == 'A'); } else if u == 66 { assert(c == 'B'); }
            else if u == 67 { assert(c == 'C'); } else if u == 68 { assert(c == 'D'); }
            else if u == 69 { assert(c == 'E'); } else if u == 70 { assert(c == 'F'); }
            else if u == 71 { assert(c == 'G'); } else if u == 72 { assert(c == 'H'); }
            else if u == 73 { assert(c == 'I'); } else if u == 74 { assert(c == 'J'); }
            else if u == 75 { assert(c == 'K'); } else if u == 76 { assert(c == 'L'); }
            else if u == 77 { assert(c == 'M'); } else if u == 78 { assert(c == 'N'); }
            else if u == 79 { assert(c == 'O'); } else if u == 80 { assert(c == 'P'); }
            else if u == 81 { assert(c == 'Q'); } else if u == 82 { assert(c == 'R'); }
            else if u == 83 { assert(c == 'S'); } else if u == 84 { assert(c == 'T'); }
            else if u == 85 { assert(c == 'U'); } else if u == 86 { assert(c == 'V'); }
            else if u == 87 { assert(c == 'W'); } else if u == 88 { assert(c == 'X'); }
            else if u == 89 { assert(c == 'Y'); } else { assert(c == 'Z'); }
        }
    }
    assert(lower_text(lower_text(s)) =~= lower_text(s));
}

} // verus!
