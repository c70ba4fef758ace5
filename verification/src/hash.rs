//! The two-character content fingerprint of a line.
//!
//! A line is normalised (one trailing carriage return and every whitespace
//! code point dropped), its UTF-8 bytes are digested with xxHash32 under seed
//! 0, and the digest modulo 256 is written as two lower-case hex digits.

use crate::text::{
    lemma_strip_whitespace_idempotent, lemma_strip_whitespace_push, strip_all_whitespace,
    strip_whitespace,
};
use vstd::prelude::*;
use vstd::utf8::encode_utf8;

verus! {

/// The xxHash32 digest of `bytes` under `seed`.
pub uninterp spec fn xxh32_digest(bytes: Seq<u8>, seed: u32) -> u32;

/// Calls `xxhash_rust::xxh32::xxh32`. The digest is a function of the bytes
/// and the seed alone; the contract gives it its name and claims no more.
#[verifier::external_body]
fn xxh32(bytes: &[u8], seed: u32) -> (h: u32)
    ensures
        h == xxh32_digest(bytes@, seed),
{
    xxhash_rust::xxh32::xxh32(bytes, seed)
}

/// `s` without one trailing carriage return.
pub open spec fn strip_cr(s: Seq<char>) -> Seq<char> {
    if s.len() > 0 && s.last() == '\r' {
        s.drop_last()
    } else {
        s
    }
}

/// The text that is digested for `line`.
pub open spec fn normalize_line(line: Seq<char>) -> Seq<char> {
    strip_whitespace(strip_cr(line))
}

/// The lower-case hex digit for `d`.
pub open spec fn hex_char(d: int) -> char {
    if d < 10 {
        (('0' as u8) + d) as u8 as char
    } else {
        (('a' as u8) + d - 10) as u8 as char
    }
}

/// `0` to `9` and `a` to `f`.
pub open spec fn is_lower_hex(c: char) -> bool {
    ('0' <= c <= '9') || ('a' <= c <= 'f')
}

/// The fingerprint that stands for a digest: its value modulo 256 in two
/// lower-case hex digits.
pub open spec fn fingerprint(digest: u32) -> Seq<char> {
    seq![hex_char((digest % 256) as int / 16), hex_char((digest % 256) as int % 16)]
}

/// The fingerprint of the bytes `bytes`.
pub open spec fn bytes_hash(bytes: Seq<u8>) -> Seq<char> {
    fingerprint(xxh32_digest(bytes, 0))
}

/// The fingerprint of a line.
pub open spec fn line_hash(line: Seq<char>) -> Seq<char> {
    bytes_hash(encode_utf8(normalize_line(line)))
}

/// A fingerprint is two lower-case hex digits.
pub proof fn lemma_fingerprint_shape(digest: u32)
    ensures
        fingerprint(digest).len() == 2,
        is_lower_hex(fingerprint(digest)[0]),
        is_lower_hex(fingerprint(digest)[1]),
{
}

/// The hash of every line is two lower-case hex digits.
pub proof fn lemma_line_hash_shape(line: Seq<char>)
    ensures
        line_hash(line).len() == 2,
        is_lower_hex(line_hash(line)[0]),
        is_lower_hex(line_hash(line)[1]),
{
    lemma_fingerprint_shape(xxh32_digest(encode_utf8(normalize_line(line)), 0));
}

/// A trailing carriage return is whitespace, so normalising is stripping.
pub proof fn lemma_normalize_is_strip(line: Seq<char>)
    ensures
        normalize_line(line) == strip_whitespace(line),
{
    if line.len() > 0 && line.last() == '\r' {
        assert(line.drop_last().push('\r') =~= line);
        lemma_strip_whitespace_push(line.drop_last(), '\r');
    }
}

/// A line and its whitespace-stripped form have the same hash.
pub proof fn lemma_hash_ignores_whitespace(line: Seq<char>)
    ensures
        line_hash(line) == line_hash(strip_whitespace(line)),
{
    lemma_normalize_is_strip(line);
    lemma_normalize_is_strip(strip_whitespace(line));
    lemma_strip_whitespace_idempotent(line);
}

/// Lines with the same whitespace-stripped text have the same hash.
pub proof fn lemma_hash_of_equal_stripped(a: Seq<char>, b: Seq<char>)
    requires
        strip_whitespace(a) == strip_whitespace(b),
    ensures
        line_hash(a) == line_hash(b),
{
    lemma_normalize_is_strip(a);
    lemma_normalize_is_strip(b);
}

/// Writes the fingerprint of a digest.
pub fn hash_hex(digest: u32) -> (r: String)
    ensures
        r@ == fingerprint(digest),
{
    let low: u8 = (digest % 256) as u8;
    let hi: u8 = low / 16;
    let lo: u8 = low % 16;
    let mut r = String::new();
    r.push(hex_digit(hi));
    r.push(hex_digit(lo));
    assert(r@ =~= fingerprint(digest));
    r
}

fn hex_digit(d: u8) -> (c: char)
    requires
        d < 16,
    ensures
        c == hex_char(d as int),
{
    if d < 10 {
        (48u8 + d) as char
    } else {
        (97u8 + (d - 10)) as char
    }
}

/// The fingerprint of the UTF-8 bytes of `text`, unnormalised.
pub fn hash_text(text: &str) -> (r: String)
    ensures
        r@ == bytes_hash(encode_utf8(text@)),
{
    hash_hex(xxh32(text.as_bytes(), 0))
}

/// The two-character hash of `line`. The line's index is accepted and takes
/// no part in the result.
pub fn compute_line_hash(_idx: usize, line: &str) -> (r: String)
    ensures
        r@ == line_hash(line@),
        r@.len() == 2,
        is_lower_hex(r@[0]),
        is_lower_hex(r@[1]),
{
    let normalized = strip_all_whitespace(line);
    proof {
        lemma_normalize_is_strip(line@);
        lemma_line_hash_shape(line@);
    }
    hash_text(normalized.as_str())
}

} // verus!
