//! Pre-processing of strings before comparison: configurable Unicode
//! normalization and case folding.
//!
//! Normalization and case folding happen once per string, not inside the
//! comparison loop; after them the case-sensitive comparator is used.
//! All-ASCII strings are in every normal form, so the normalization step
//! leaves them as they are.

pub mod enums;
pub mod forms;

use core::cmp::Ordering;
use std::borrow::Cow;
use vstd::prelude::*;
use vstd::string::StringSliceAdditionalSpecFns;
use vstd::utf8::{encode_utf8, is_ascii_chars, is_ascii_chars_encode_utf8};

use crate::byte_utils::simd_is_ascii;
use crate::compare::natural_order;
use crate::order::ordering_of;
use crate::text::{char_from_u32, push_char};
use crate::unicode::lemma_ascii_bytes;
pub use enums::{CaseMode, Normalization};
use forms::{
    casefold_of, casefold_standard, nfc_of, nfd_of, nfkc_of, nfkd_of, to_nfc, to_nfd, to_nfkc,
    to_nfkd,
};

verus! {

broadcast use vstd::string::group_string_axioms;

/// ASCII lowercase of a character: `A`–`Z` map to `a`–`z`, other
/// characters stay.
pub open spec fn ascii_lower_char(c: char) -> char {
    if 65 <= (c as u32) <= 90 {
        ((c as u32) + 32) as char
    } else {
        c
    }
}

/// The characters of `s`, each ASCII-lowercased.
pub open spec fn ascii_lowered(s: Seq<char>) -> Seq<char> {
    s.map_values(|c: char| ascii_lower_char(c))
}

/// `s` after the normalization step of form `n`: all-ASCII strings and
/// the `Identity` form leave `s` as it is.
pub open spec fn normalization_applied(n: Normalization, s: Seq<char>) -> Seq<char> {
    if n == Normalization::Identity || is_ascii_chars(s) {
        s
    } else {
        match n {
            Normalization::Nfc => nfc_of(s),
            Normalization::Nfd => nfd_of(s),
            Normalization::Nfkc => nfkc_of(s),
            Normalization::Nfkd => nfkd_of(s),
            Normalization::Identity => s,
        }
    }
}

/// `s` after the case step of mode `m`.
pub open spec fn case_applied(m: CaseMode, s: Seq<char>) -> Seq<char> {
    match m {
        CaseMode::Sensitive => s,
        CaseMode::AsciiOnly => ascii_lowered(s),
        CaseMode::Fold => if is_ascii_chars(s) {
            ascii_lowered(s)
        } else {
            casefold_of(s)
        },
    }
}

/// `r` and `s` are equivalent under the normalization form `n`: they have
/// the same normal form in it.  Under `Nfc` and `Nfd` this is canonical
/// equivalence, under `Nfkc` and `Nfkd` compatibility equivalence; under
/// `Identity` the two are the same string.
pub open spec fn equivalent_under(n: Normalization, r: Seq<char>, s: Seq<char>) -> bool {
    match n {
        Normalization::Identity => r == s,
        Normalization::Nfc => nfc_of(r) == nfc_of(s),
        Normalization::Nfd => nfd_of(r) == nfd_of(s),
        Normalization::Nfkc => nfkc_of(r) == nfkc_of(s),
        Normalization::Nfkd => nfkd_of(r) == nfkd_of(s),
    }
}

/// `s` normalized under the configuration `(form, case mode)`.
pub open spec fn normalized(config: (Normalization, CaseMode), s: Seq<char>) -> Seq<char> {
    case_applied(config.1, normalization_applied(config.0, s))
}

/// The string a `Cow<str>` holds.
pub fn cow_as_str<'b>(c: &'b Cow<'_, str>) -> (r: &'b str)
    ensures
        r@ == c@,
{
    match c {
        Cow::Borrowed(x) => x,
        Cow::Owned(o) => o.as_str(),
    }
}

/// `char::to_ascii_lowercase`.
pub fn ascii_lower_char_exec(c: char) -> (r: char)
    ensures
        r == ascii_lower_char(c),
{
    let v = c as u32;
    if 65 <= v && v <= 90 {
        char_from_u32(v + 32).unwrap()
    } else {
        c
    }
}

/// The characters of `s`, each ASCII-lowercased, and whether any of them
/// changed.
fn lower_ascii_chars(s: &str) -> (r: (String, bool))
    ensures
        r.0@ == ascii_lowered(s@),
        r.1 == (ascii_lowered(s@) != s@),
{
    let mut result = String::new();
    let mut changed = false;
    proof {
        assert(ascii_lowered(s@.take(0)) =~= s@.take(0));
    }
    for c in iter: s.chars()
        invariant
            iter.seq() == s@,
            result@ == ascii_lowered(s@.take(iter.index())),
            changed == (ascii_lowered(s@.take(iter.index())) != s@.take(iter.index())),
    {
        let ghost k = iter.index();
        let folded = ascii_lower_char_exec(c);
        if folded != c {
            changed = true;
        }
        push_char(&mut result, folded);
        proof {
            let pre = s@.take(k);
            let post = s@.take(k + 1);
            assert(post =~= pre.push(c));
            assert(ascii_lowered(post) =~= ascii_lowered(pre).push(folded));
            if folded != c {
                assert(ascii_lowered(post)[k] != post[k]);
            } else if changed {
                if ascii_lowered(post) == post {
                    assert(ascii_lowered(post).drop_last() =~= ascii_lowered(pre));
                    assert(post.drop_last() =~= pre);
                }
            } else {
                assert(ascii_lowered(post) =~= post);
            }
        }
    }
    proof {
        assert(s@.take(s@.len() as int) == s@);
    }
    (result, changed)
}

/// Some byte of `s` is an ASCII uppercase letter.
fn has_ascii_uppercase(s: &[u8]) -> (r: bool)
    ensures
        r == exists|k: int| 0 <= k < s@.len() && 65 <= #[trigger] s@[k] <= 90,
{
    let mut k: usize = 0;
    while k < s.len()
        invariant
            k <= s@.len(),
            forall|t: int| 0 <= t < k ==> !(65 <= #[trigger] s@[t] <= 90),
        decreases s@.len() - k,
    {
        if 65 <= s[k] && s[k] <= 90 {
            return true;
        }
        k = k + 1;
    }
    false
}

/// An all-ASCII string changes under ASCII lowercasing exactly when one of
/// its bytes is an ASCII uppercase letter.
proof fn lemma_ascii_uppercase(s: &str)
    requires
        is_ascii_chars(s@),
    ensures
        (ascii_lowered(s@) != s@) == exists|k: int|
            0 <= k < s.spec_bytes().len() && 65 <= #[trigger] s.spec_bytes()[k] <= 90,
{
    is_ascii_chars_encode_utf8(s@);
    let b = s.spec_bytes();
    if ascii_lowered(s@) != s@ {
        let k = choose|k: int| 0 <= k < s@.len() && ascii_lowered(s@)[k] != s@[k];
        if !(0 <= k < s@.len() && ascii_lowered(s@)[k] != s@[k]) {
            assert(ascii_lowered(s@) =~= s@);
        }
        assert(s@[k] as u8 == b[k]);
        assert(65 <= b[k] <= 90);
    }
    if exists|k: int| 0 <= k < b.len() && 65 <= #[trigger] b[k] <= 90 {
        let k = choose|k: int| 0 <= k < b.len() && 65 <= #[trigger] b[k] <= 90;
        assert(s@[k] as u8 == b[k]);
        assert(ascii_lowered(s@)[k] != s@[k]);
    }
}

/// A configured normalizer that pre-processes strings before comparison.
///
/// Normalization and case folding happen once per string, not inside the
/// comparison loop.  After pre-processing, the case-sensitive comparator
/// is used.
#[derive(Clone, Debug)]
pub struct Normalizer {
    normalization: Normalization,
    case_mode: CaseMode,
}

impl View for Normalizer {
    type V = (Normalization, CaseMode);

    closed spec fn view(&self) -> (Normalization, CaseMode) {
        (self.normalization, self.case_mode)
    }
}

impl Normalizer {
    /// Create a new `Normalizer` with default settings (no normalization,
    /// case-sensitive).
    pub fn new() -> (r: Self)
        ensures
            r@ == (Normalization::Identity, CaseMode::Sensitive),
    {
        Normalizer { normalization: Normalization::Identity, case_mode: CaseMode::Sensitive }
    }

    /// Set the Unicode normalization form.
    pub fn normalization(self, mode: Normalization) -> (r: Self)
        ensures
            r@ == (mode, self@.1),
    {
        let mut s = self;
        s.normalization = mode;
        s
    }

    /// Shorthand for `normalization(Normalization::Nfc)`.
    pub fn nfc(self) -> (r: Self)
        ensures
            r@ == (Normalization::Nfc, self@.1),
    {
        self.normalization(Normalization::Nfc)
    }

    /// Shorthand for `normalization(Normalization::Nfd)`.
    pub fn nfd(self) -> (r: Self)
        ensures
            r@ == (Normalization::Nfd, self@.1),
    {
        self.normalization(Normalization::Nfd)
    }

    /// Shorthand for `normalization(Normalization::Nfkc)`.
    pub fn nfkc(self) -> (r: Self)
        ensures
            r@ == (Normalization::Nfkc, self@.1),
    {
        self.normalization(Normalization::Nfkc)
    }

    /// Shorthand for `normalization(Normalization::Nfkd)`.
    pub fn nfkd(self) -> (r: Self)
        ensures
            r@ == (Normalization::Nfkd, self@.1),
    {
        self.normalization(Normalization::Nfkd)
    }

    /// Set the case handling mode.
    pub fn case(self, mode: CaseMode) -> (r: Self)
        ensures
            r@ == (self@.0, mode),
    {
        let mut s = self;
        s.case_mode = mode;
        s
    }

    /// Shorthand for `case(CaseMode::Sensitive)`.
    pub fn case_sensitive(self) -> (r: Self)
        ensures
            r@ == (self@.0, CaseMode::Sensitive),
    {
        self.case(CaseMode::Sensitive)
    }

    /// Shorthand for `case(CaseMode::Fold)`.
    pub fn case_fold(self) -> (r: Self)
        ensures
            r@ == (self@.0, CaseMode::Fold),
    {
        self.case(CaseMode::Fold)
    }

    /// Shorthand for `case(CaseMode::AsciiOnly)`.
    pub fn case_ascii_only(self) -> (r: Self)
        ensures
            r@ == (self@.0, CaseMode::AsciiOnly),
    {
        self.case(CaseMode::AsciiOnly)
    }

    /// Normalize `s` according to this normalizer's configuration.
    ///
    /// Returns `Cow::Borrowed` when no step changes the string.
    pub fn normalize<'a>(&self, s: &'a str) -> (r: Cow<'a, str>)
        ensures
            r@ == normalized(self@, s@),
            r is Borrowed ==> r@ == s@,
            (r is Borrowed) <==> (normalization_applied(self@.0, s@) == s@ && case_applied(
                self@.1,
                s@,
            ) == s@),
            self@.1 == CaseMode::Sensitive || self@.0 == Normalization::Identity ==> normalized(
                self@,
                r@,
            ) == r@,
            self@.1 == CaseMode::Sensitive ==> equivalent_under(self@.0, r@, s@),
    {
        if self.normalization == Normalization::Identity && self.case_mode == CaseMode::Sensitive {
            return Cow::Borrowed(s);
        }
        let n = self.apply_normalization(s);
        self.apply_case(n)
    }

    /// Compare two strings using this normalizer's configuration: both are
    /// normalized, then compared by [`compare`](crate::compare).
    pub fn compare(&self, a: &str, b: &str) -> (r: Ordering)
        ensures
            r == ordering_of(
                natural_order(encode_utf8(normalized(self@, a@)), encode_utf8(normalized(self@, b@))),
            ),
    {
        let na = self.normalize(a);
        let nb = self.normalize(b);
        crate::compare(cow_as_str(&na), cow_as_str(&nb))
    }

    /// The Unicode normalization step.
    fn apply_normalization<'a>(&self, s: &'a str) -> (r: Cow<'a, str>)
        ensures
            r@ == normalization_applied(self@.0, s@),
            r is Borrowed ==> r@ == s@,
            (r is Borrowed) <==> normalization_applied(self@.0, s@) == s@,
            normalization_applied(self@.0, r@) == r@,
            self@.0 == Normalization::Nfc ==> nfc_of(r@) == nfc_of(s@),
            self@.0 == Normalization::Nfd ==> nfd_of(r@) == nfd_of(s@),
            self@.0 == Normalization::Nfkc ==> nfkc_of(r@) == nfkc_of(s@),
            self@.0 == Normalization::Nfkd ==> nfkd_of(r@) == nfkd_of(s@),
    {
        if self.normalization == Normalization::Identity {
            return Cow::Borrowed(s);
        }
        proof {
            lemma_ascii_bytes(s@);
        }
        if simd_is_ascii(s.as_bytes()) {
            return Cow::Borrowed(s);
        }
        match self.normalization {
            Normalization::Nfc => to_nfc(s),
            Normalization::Nfd => to_nfd(s),
            Normalization::Nfkc => to_nfkc(s),
            Normalization::Nfkd => to_nfkd(s),
            Normalization::Identity => Cow::Borrowed(s),
        }
    }

    /// The case step, applied to a string that has been through the
    /// normalization step: lowercases it as the case mode says, keeping it
    /// as it is when nothing changes.
    pub fn apply_case<'a>(&self, s: Cow<'a, str>) -> (r: Cow<'a, str>)
        ensures
            r@ == case_applied(self@.1, s@),
            case_applied(self@.1, s@) == s@ ==> r == s,
            case_applied(self@.1, s@) != s@ ==> r is Owned,
            case_applied(self@.1, r@) == r@,
    {
        match self.case_mode {
            CaseMode::Sensitive => s,
            CaseMode::AsciiOnly => self.fold_ascii(s),
            CaseMode::Fold => self.fold_full(s),
        }
    }

    /// ASCII-only case folding: lowercase `A`–`Z` to `a`–`z`.
    fn fold_ascii<'a>(&self, s: Cow<'a, str>) -> (r: Cow<'a, str>)
        ensures
            r@ == ascii_lowered(s@),
            ascii_lowered(s@) == s@ ==> r == s,
            ascii_lowered(s@) != s@ ==> r is Owned,
    {
        let st = cow_as_str(&s);
        proof {
            lemma_ascii_bytes(st@);
        }
        if simd_is_ascii(st.as_bytes()) {
            proof {
                lemma_ascii_uppercase(st);
            }
            if !has_ascii_uppercase(st.as_bytes()) {
                return s;
            }
            let (lowered, _) = lower_ascii_chars(st);
            return Cow::Owned(lowered);
        }
        let (result, changed) = lower_ascii_chars(st);
        if changed {
            Cow::Owned(result)
        } else {
            s
        }
    }

    /// Full Unicode case folding; all-ASCII strings fold as in
    /// [`CaseMode::AsciiOnly`].
    fn fold_full<'a>(&self, s: Cow<'a, str>) -> (r: Cow<'a, str>)
        ensures
            r@ == case_applied(CaseMode::Fold, s@),
            case_applied(CaseMode::Fold, s@) == s@ ==> r == s,
            case_applied(CaseMode::Fold, s@) != s@ ==> r is Owned,
            case_applied(CaseMode::Fold, r@) == r@,
    {
        let st = cow_as_str(&s);
        proof {
            lemma_ascii_bytes(st@);
        }
        if simd_is_ascii(st.as_bytes()) {
            return self.fold_ascii(s);
        }
        let folded = casefold_standard(st);
        match folded {
            Cow::Owned(owned) => Cow::Owned(owned),
            Cow::Borrowed(_) => s,
        }
    }
}

impl Default for Normalizer {
    fn default() -> (r: Self)
        ensures
            r@ == (Normalization::Identity, CaseMode::Sensitive),
    {
        Normalizer::new()
    }
}

/// Compare two strings using NFC normalization and Unicode case folding.
///
/// Shorthand for a [`Normalizer`] configured with [`Normalization::Nfc`]
/// and [`CaseMode::Fold`].
pub fn compare_normalized(a: &str, b: &str) -> (r: Ordering)
    ensures
        r == ordering_of(
            natural_order(
                encode_utf8(normalized((Normalization::Nfc, CaseMode::Fold), a@)),
                encode_utf8(normalized((Normalization::Nfc, CaseMode::Fold), b@)),
            ),
        ),
{
    let norm = Normalizer::new().nfc().case_fold();
    norm.compare(a, b)
}

} // verus!
