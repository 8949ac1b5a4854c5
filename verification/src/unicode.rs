//! Trusted wrappers around the Unicode segmentation, normalization and
//! case-folding crates.
//!
//! Each outside function computes a value that depends on its argument's
//! characters alone; the result of each is given a name by an
//! uninterpreted spec function, and the wrapper's contract ties the call to
//! that name.

use unicode_normalization::UnicodeNormalization;
use unicode_segmentation::UnicodeSegmentation;
use vstd::prelude::*;

verus! {

/// The canonical (NFD) decomposition of `s`.
pub uninterp spec fn nfd_of(s: Seq<char>) -> Seq<char>;

/// The compatibility (NFKD) decomposition of `s`.
pub uninterp spec fn nfkd_of(s: Seq<char>) -> Seq<char>;

/// The default case folding of `s`.
pub uninterp spec fn fold_of(s: Seq<char>) -> Seq<char>;

/// The locale-independent word segments of `s`, in text order.
pub uninterp spec fn words_of(s: Seq<char>) -> Seq<Seq<char>>;

/// Relies on unicode_normalization's `nfd`: the canonical decomposition of
/// the input characters.
#[verifier::external_body]
pub(crate) fn nfd_str(s: &str) -> (r: String)
    ensures
        r@ == nfd_of(s@),
{
    s.nfd().collect()
}

/// Relies on unicode_normalization's `nfkd`: the compatibility decomposition
/// of the input characters.
#[verifier::external_body]
pub(crate) fn nfkd_str(s: &str) -> (r: String)
    ensures
        r@ == nfkd_of(s@),
{
    s.nfkd().collect()
}

/// Relies on caseless's `default_case_fold_str`: the default Unicode case
/// folding of the input characters.
#[verifier::external_body]
pub(crate) fn fold_str(s: &str) -> (r: String)
    ensures
        r@ == fold_of(s@),
{
    caseless::default_case_fold_str(s)
}

/// Relies on unicode_segmentation's `unicode_words`: the word segments of
/// the input in text order.  Each word is a non-empty span of distinct
/// positions of the input, so there are at most as many words as characters.
#[verifier::external_body]
pub(crate) fn unicode_words_vec(s: &str) -> (r: Vec<String>)
    ensures
        r@.map_values(|w: String| w@) == words_of(s@),
        r@.len() <= s@.len(),
{
    s.unicode_words().map(|w| w.to_string()).collect()
}

} // verus!
