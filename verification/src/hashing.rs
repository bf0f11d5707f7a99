//! Content hashes: SHA-256 of a file's bytes, written as lowercase hexadecimal.

use vstd::prelude::*;
use sha2::Digest;

verus! {

/// The SHA-256 digest of `bytes`.
pub uninterp spec fn sha256(bytes: Seq<u8>) -> Seq<u8>;

/// Computes the SHA-256 digest of `bytes` with `sha2::Sha256::digest`. The contract
/// names the result and states the documented digest length of 32 bytes; the
/// digest's value itself is not stated.
#[verifier::external_body]
fn sha256_digest(bytes: &[u8]) -> (d: Vec<u8>)
    ensures
        d@ == sha256(bytes@),
        d@.len() == 32,
{
    sha2::Sha256::digest(bytes).to_vec()
}

/// The lowercase hexadecimal digit for `v` (below 16).
pub open spec fn hex_digit(v: int) -> char {
    if v < 10 {
        (48 + v) as char
    } else {
        (87 + v) as char
    }
}

/// `bytes` as lowercase hexadecimal, two digits per byte (`{:x}`).
pub open spec fn hex_text(bytes: Seq<u8>) -> Seq<char>
    decreases bytes.len(),
{
    if bytes.len() == 0 {
        Seq::<char>::empty()
    } else {
        hex_text(bytes.drop_last()) + seq![
            hex_digit(bytes.last() as int / 16),
            hex_digit(bytes.last() as int % 16),
        ]
    }
}

fn hex_char(v: u8) -> (c: char)
    requires
        v < 16,
    ensures
        c == hex_digit(v as int),
{
    if v < 10 {
        (48 + v) as char
    } else {
        (87 + v) as char
    }
}

/// Writes `bytes` as lowercase hexadecimal.
pub fn lower_hex(bytes: &[u8]) -> (s: String)
    ensures
        s@ == hex_text(bytes@),
        s@.len() == 2 * bytes@.len(),
{
    let mut s = String::new();
    let mut i: usize = 0;
    while i < bytes.len()
        invariant
            i <= bytes.len(),
            s@ == hex_text(bytes@.take(i as int)),
            s@.len() == 2 * i,
        decreases bytes.len() - i,
    {
        let b = bytes[i];
        proof {
            assert(bytes@.take(i + 1).drop_last() =~= bytes@.take(i as int));
            assert(bytes@.take(i + 1).last() == b);
        }
        s.push(hex_char(b / 16));
        s.push(hex_char(b % 16));
        i += 1;
    }
    assert(bytes@.take(i as int) =~= bytes@);
    s
}

/// The SHA-256 hash of a file's raw bytes, as the 64 lowercase hexadecimal digits
/// under which duplicates are grouped.
pub fn file_hash(contents: &[u8]) -> (hash: String)
    ensures
        hash@ == hex_text(sha256(contents@)),
        hash@.len() == 64,
{
    let digest = sha256_digest(contents);
    lower_hex(digest.as_slice())
}


proof fn lemma_hex_digit(v: int)
    requires
        0 <= v < 16,
    ensures
        hex_digit(v) == seq!['0', '1', '2', '3', '4', '5', '6', '7', '8', '9', 'a', 'b', 'c', 'd', 'e', 'f'][v],
{
    let t = seq!['0', '1', '2', '3', '4', '5', '6', '7', '8', '9', 'a', 'b', 'c', 'd', 'e', 'f'];
    if v == 0 { assert(hex_digit(v) == t[0]); }
    else if v == 1 { assert(hex_digit(v) == t[1]); }
    else if v == 2 { assert(hex_digit(v) == t[2]); }
    else if v == 3 { assert(hex_digit(v) == t[3]); }
    else if v == 4 { assert(hex_digit(v) == t[4]); }
    else if v == 5 { assert(hex_digit(v) == t[5]); }
    else if v == 6 { assert(hex_digit(v) == t[6]); }
    else if v == 7 { assert(hex_digit(v) == t[7]); }
    else if v == 8 { assert(hex_digit(v) == t[8]); }
    else if v == 9 { assert(hex_digit(v) == t[9]); }
    else if v == 10 { assert(hex_digit(v) == t[10]); }
    else if v == 11 { assert(hex_digit(v) == t[11]); }
    else if v == 12 { assert(hex_digit(v) == t[12]); }
    else if v == 13 { assert(hex_digit(v) == t[13]); }
    else if v == 14 { assert(hex_digit(v) == t[14]); }
    else { assert(hex_digit(v) == t[15]); }
}

/// Each byte is written as two lowercase hexadecimal digits, high half first:
/// the characters at positions `2i` and `2i + 1` are the digits of `bytes[i] / 16`
/// and `bytes[i] % 16` among `0123456789abcdef`.
pub proof fn lemma_hex_text_digits(bytes: Seq<u8>)
    ensures
        hex_text(bytes).len() == 2 * bytes.len(),
        forall|i: int|
            0 <= i < bytes.len() ==> hex_text(bytes)[2 * i] == seq!['0', '1', '2', '3', '4', '5', '6', '7', '8', '9', 'a', 'b', 'c', 'd', 'e', 'f'][(#[trigger] bytes[i]) as int / 16]
                && hex_text(bytes)[2 * i + 1] == seq!['0', '1', '2', '3', '4', '5', '6', '7', '8', '9', 'a', 'b', 'c', 'd', 'e', 'f'][bytes[i] as int % 16],
    decreases bytes.len(),
{
    if bytes.len() > 0 {
        let p = bytes.drop_last();
        lemma_hex_text_digits(p);
        let h = hex_text(bytes);
        let l = bytes.last();
        lemma_hex_digit(l as int / 16);
        lemma_hex_digit(l as int % 16);
        assert forall|i: int| 0 <= i < bytes.len() implies h[2 * i] == seq!['0', '1', '2', '3', '4', '5', '6', '7', '8', '9', 'a', 'b', 'c', 'd', 'e', 'f'][(#[trigger] bytes[i]) as int / 16]
            && h[2 * i + 1] == seq!['0', '1', '2', '3', '4', '5', '6', '7', '8', '9', 'a', 'b', 'c', 'd', 'e', 'f'][bytes[i] as int % 16] by {
            if i < p.len() {
                assert(bytes[i] == p[i]);
                assert(h[2 * i] == hex_text(p)[2 * i]);
                assert(h[2 * i + 1] == hex_text(p)[2 * i + 1]);
            } else {
                assert(bytes[i] == l);
            }
        }
    }
}

/// Different byte strings are written differently, so contents with different
/// digests never share a hash text.
pub proof fn lemma_hex_text_injective(a: Seq<u8>, b: Seq<u8>)
    ensures
        hex_text(a) == hex_text(b) ==> a == b,
{
    if hex_text(a) == hex_text(b) {
        lemma_hex_text_digits(a);
        lemma_hex_text_digits(b);
        assert(a.len() == b.len());
        assert forall|i: int| 0 <= i < a.len() implies a[i] == b[i] by {
            assert(hex_text(a)[2 * i] == hex_text(b)[2 * i]);
            assert(hex_text(a)[2 * i + 1] == hex_text(b)[2 * i + 1]);
            lemma_hex_digit(a[i] as int / 16);
            lemma_hex_digit(b[i] as int / 16);
            lemma_hex_digit(a[i] as int % 16);
            lemma_hex_digit(b[i] as int % 16);
            assert(hex_digit(a[i] as int / 16) == hex_digit(b[i] as int / 16));
            assert(hex_digit(a[i] as int % 16) == hex_digit(b[i] as int % 16));
        }
        assert(a =~= b);
    }
}

} // verus!
