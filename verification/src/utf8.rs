//! The bridge between text and its UTF-8 bytes. The encoding itself is
//! std's; its result is named `utf8_of` and never restated here.

use vstd::prelude::*;

verus! {

/// The UTF-8 bytes of a character sequence.
pub uninterp spec fn utf8_of(s: Seq<char>) -> Seq<u8>;

/// Relies on str::as_bytes: the UTF-8 bytes of the string, a function of its
/// characters alone.
#[verifier::external_body]
pub(crate) fn utf8_bytes(s: &str) -> (r: Vec<u8>)
    ensures
        r@ == utf8_of(s@),
{
    s.as_bytes().to_vec()
}

/// Relies on String::from_utf8: it succeeds exactly on the valid UTF-8 byte
/// sequences, and returns the unique string such bytes encode.
#[verifier::external_body]
pub(crate) fn utf8_string(b: Vec<u8>) -> (r: Option<String>)
    ensures
        r matches Some(s) ==> b@ == utf8_of(s@)
            && forall|t: Seq<char>| utf8_of(t) == b@ ==> t == s@,
        r is None ==> forall|t: Seq<char>| utf8_of(t) != b@,
{
    String::from_utf8(b).ok()
}

} // verus!
