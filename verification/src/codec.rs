//! Conversions between raw bytes and text.
//!
//! The output log is an arbitrary byte stream, so reading it starts with a
//! lossy UTF-8 decode; line-oriented reads use a strict decode that rejects
//! invalid bytes.  Both decodes are std's; their behaviour is stated over
//! vstd's UTF-8 model (`valid_utf8`, `decode_utf8`).

use vstd::prelude::*;
use vstd::utf8::{decode_utf8, valid_utf8};

verus! {

/// What `String::from_utf8_lossy` returns on bytes that are not valid UTF-8:
/// the input with each invalid sequence replaced by U+FFFD.  The exact
/// replacement policy is long to state; the name stands for it.
pub uninterp spec fn lossy_decode(bytes: Seq<u8>) -> Seq<char>;

/// The characters that a lossy UTF-8 decode of `bytes` yields: the exact
/// decoding where `bytes` is valid UTF-8, and `lossy_decode` otherwise.
pub open spec fn spec_lossy(bytes: Seq<u8>) -> Seq<char> {
    if valid_utf8(bytes) {
        decode_utf8(bytes)
    } else {
        lossy_decode(bytes)
    }
}

/// Relies on `String::from_utf8_lossy`: valid UTF-8 decodes exactly; invalid
/// sequences are replaced, which `lossy_decode` names.
#[verifier::external_body]
pub fn decode_lossy(bytes: &[u8]) -> (r: String)
    ensures
        r@ == spec_lossy(bytes@),
        !valid_utf8(bytes@) ==> r@ == lossy_decode(bytes@),
{
    String::from_utf8_lossy(bytes).into_owned()
}

/// Relies on `String::from_utf8`: succeeds exactly on valid UTF-8, and then
/// returns the decoding of the bytes.
#[verifier::external_body]
pub fn decode_strict(bytes: &[u8]) -> (r: Option<String>)
    ensures
        r is Some <==> valid_utf8(bytes@),
        r matches Some(s) ==> s@ == decode_utf8(bytes@),
{
    match String::from_utf8(bytes.to_vec()) {
        Ok(s) => Some(s),
        Err(_) => None,
    }
}

/// Relies on `Iterator::collect` for `String`: collecting characters yields
/// the string of exactly those characters.
#[verifier::external_body]
pub fn chars_to_string(chars: &Vec<char>) -> (r: String)
    ensures
        r@ == chars@,
{
    chars.iter().collect()
}

/// Whether two texts hold the same characters.
pub fn str_eq(a: &str, b: &str) -> (r: bool)
    ensures
        r == (a@ == b@),
{
    let na = a.unicode_len();
    let nb = b.unicode_len();
    if na != nb {
        return false;
    }
    let mut i: usize = 0;
    while i < na
        invariant
            na == a@.len(),
            nb == b@.len(),
            na == nb,
            i <= na,
            forall|j: int| 0 <= j < i ==> a@[j] == b@[j],
        decreases na - i,
    {
        if a.get_char(i) != b.get_char(i) {
            return false;
        }
        i = i + 1;
    }
    proof {
        assert(a@ =~= b@);
    }
    true
}

/// The characters of `s`, as a vector.
pub fn str_to_chars(s: &str) -> (r: Vec<char>)
    ensures
        r@ == s@,
{
    let n = s.unicode_len();
    let mut out: Vec<char> = Vec::new();
    let mut i: usize = 0;
    while i < n
        invariant
            n == s@.len(),
            i <= n,
            out@ == s@.take(i as int),
        decreases n - i,
    {
        out.push(s.get_char(i));
        proof {
            assert(out@ =~= s@.take(i + 1 as int));
        }
        i = i + 1;
    }
    proof {
        assert(s@.take(n as int) =~= s@);
    }
    out
}

} // verus!
