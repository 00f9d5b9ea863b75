//! The few places where the library calls outside code whose behaviour it
//! cannot verify. Each wrapper's contract states only what the called
//! function's source or documentation shows; everything built on top is
//! proved from these contracts.

use vstd::prelude::*;

verus! {

/// What `str::to_lowercase` returns: a function of the characters alone.
/// Unicode case folding takes pages to state, so the result only gets a
/// name here.
pub uninterp spec fn lower_of(s: Seq<char>) -> Seq<char>;

/// Relies on `str::to_lowercase`: deterministic in the input characters;
/// an empty string stays empty.
#[verifier::external_body]
pub fn lowercase(s: &str) -> (r: String)
    ensures
        r@ == lower_of(s@),
        s@.len() == 0 ==> r@.len() == 0,
{
    s.to_lowercase()
}

/// What `str::to_uppercase` returns, likewise only named.
pub uninterp spec fn upper_of(s: Seq<char>) -> Seq<char>;

/// Relies on `str::to_uppercase`: deterministic in the input characters;
/// an empty string stays empty.
#[verifier::external_body]
pub fn uppercase(s: &str) -> (r: String)
    ensures
        r@ == upper_of(s@),
        s@.len() == 0 ==> r@.len() == 0,
{
    s.to_uppercase()
}

/// What `urlencoding::decode` returns: percent-decoding is deterministic in
/// the input, and fails exactly when the decoded bytes are not UTF-8.
pub uninterp spec fn url_decoded(s: Seq<char>) -> Option<Seq<char>>;

/// Relies on `urlencoding::decode`: deterministic in the input; its source
/// returns the input unchanged when no `%` occurs in it.
#[verifier::external_body]
pub fn url_decode(s: &str) -> (r: Option<String>)
    ensures
        (r is Some) == (url_decoded(s@) is Some),
        r matches Some(t) ==> url_decoded(s@) == Some(t@),
        r matches Some(t) ==> ((forall|i: int| 0 <= i < s@.len() ==> s@[i] != '%') ==> t@ == s@),
        (forall|i: int| 0 <= i < s@.len() ==> s@[i] != '%') ==> r is Some,
{
    match urlencoding::decode(s) {
        Ok(t) => Some(t.into_owned()),
        Err(_) => None,
    }
}

} // verus!
