//! Small text utilities: the few `String` operations of std that the
//! library needs and that vstd gives no specification for, each behind
//! a wrapper with the contract std documents, plus the spec-level view
//! of ASCII bytes as characters.

use vstd::prelude::*;

verus! {

/// The characters that a sequence of ASCII bytes spells.
pub open spec fn chars_of_ascii(b: Seq<u8>) -> Seq<char> {
    Seq::new(b.len(), |i: int| b[i] as char)
}

/// What `str::trim` returns: the input without leading and trailing
/// whitespace.  The result depends on the characters alone.
pub uninterp spec fn trim_of(s: Seq<char>) -> Seq<char>;

/// Relies on `str::trim`: returns a substring of the input with
/// leading and trailing whitespace removed; a function of the
/// characters alone.
#[verifier::external_body]
pub fn trim_str(s: &str) -> (r: &str)
    ensures
        r@ == trim_of(s@),
        r@.len() <= s@.len(),
{
    s.trim()
}

/// Relies on `String::push_str`: appends the given slice's characters
/// onto the end of the string.
#[verifier::external_body]
pub fn append_str(dst: &mut String, s: &str)
    ensures
        final(dst)@ == old(dst)@ + s@,
{
    dst.push_str(s)
}

/// Relies on `String::from_utf8`: ASCII bytes are valid UTF-8 and
/// decode to one character per byte.
#[verifier::external_body]
pub fn string_from_ascii(v: Vec<u8>) -> (r: String)
    requires
        forall|i: int| 0 <= i < v@.len() ==> v@[i] < 128,
    ensures
        r@ == chars_of_ascii(v@),
{
    match String::from_utf8(v) {
        Ok(s) => s,
        Err(_) => String::new(),
    }
}

} // verus!
