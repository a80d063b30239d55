//! Unicode normalization forms and case folding, as the simd-normalizer
//! crate computes them.

use std::borrow::Cow;

use simd_normalizer::{casefold, CaseFoldMode, UnicodeNormalization};
use vstd::prelude::*;

use crate::normalizer::ascii_lowered;

verus! {

/// The NFC form of a character sequence.
pub uninterp spec fn nfc_of(s: Seq<char>) -> Seq<char>;

/// The NFD form of a character sequence.
pub uninterp spec fn nfd_of(s: Seq<char>) -> Seq<char>;

/// The NFKC form of a character sequence.
pub uninterp spec fn nfkc_of(s: Seq<char>) -> Seq<char>;

/// The NFKD form of a character sequence.
pub uninterp spec fn nfkd_of(s: Seq<char>) -> Seq<char>;

/// The standard (non-Turkic) simple case folding of a character sequence.
pub uninterp spec fn casefold_of(s: Seq<char>) -> Seq<char>;

/// `<str as simd_normalizer::UnicodeNormalization>::nfc`.  Its result is
/// the NFC form of `s`; the crate returns `s` itself, borrowed, exactly when
/// `s` is already in that form, and an owned string otherwise.  The result
/// is in NFC, so normalizing it again gives it back unchanged.
#[verifier::external_body]
pub(crate) fn to_nfc<'a>(s: &'a str) -> (r: Cow<'a, str>)
    ensures
        r@ == nfc_of(s@),
        nfc_of(r@) == r@,
        r matches Cow::Borrowed(x) ==> x@ == s@,
        r is Owned ==> r@ != s@,
{
    s.nfc()
}

/// `<str as simd_normalizer::UnicodeNormalization>::nfd`; see [`to_nfc`].
#[verifier::external_body]
pub(crate) fn to_nfd<'a>(s: &'a str) -> (r: Cow<'a, str>)
    ensures
        r@ == nfd_of(s@),
        nfd_of(r@) == r@,
        r matches Cow::Borrowed(x) ==> x@ == s@,
        r is Owned ==> r@ != s@,
{
    s.nfd()
}

/// `<str as simd_normalizer::UnicodeNormalization>::nfkc`; see [`to_nfc`].
#[verifier::external_body]
pub(crate) fn to_nfkc<'a>(s: &'a str) -> (r: Cow<'a, str>)
    ensures
        r@ == nfkc_of(s@),
        nfkc_of(r@) == r@,
        r matches Cow::Borrowed(x) ==> x@ == s@,
        r is Owned ==> r@ != s@,
{
    s.nfkc()
}

/// `<str as simd_normalizer::UnicodeNormalization>::nfkd`; see [`to_nfc`].
#[verifier::external_body]
pub(crate) fn to_nfkd<'a>(s: &'a str) -> (r: Cow<'a, str>)
    ensures
        r@ == nfkd_of(s@),
        nfkd_of(r@) == r@,
        r matches Cow::Borrowed(x) ==> x@ == s@,
        r is Owned ==> r@ != s@,
{
    s.nfkd()
}

/// `simd_normalizer::casefold` in `CaseFoldMode::Standard`.  Its result is
/// the standard case folding of `s`; the crate returns `s` itself, borrowed,
/// exactly when no character changes, and an owned string otherwise.  The
/// result is fully case-folded: folding it again changes nothing, and it
/// holds no ASCII capital letter (`A`–`Z` fold to `a`–`z`).
#[verifier::external_body]
pub(crate) fn casefold_standard<'a>(s: &'a str) -> (r: Cow<'a, str>)
    ensures
        r@ == casefold_of(s@),
        casefold_of(r@) == r@,
        ascii_lowered(r@) == r@,
        r matches Cow::Borrowed(x) ==> x@ == s@,
        r is Owned ==> r@ != s@,
{
    casefold(s, CaseFoldMode::Standard)
}

} // verus!
