//! Configuration enums for the [`Normalizer`](super::Normalizer).

use vstd::prelude::*;

verus! {

/// Unicode normalization form.
#[derive(Clone, Copy, Debug, Default, PartialEq, Eq, Structural)]
pub enum Normalization {
    /// No normalization: strings are kept as they are.
    #[default]
    Identity,
    /// NFC — canonical decomposition followed by canonical composition.
    ///
    /// Makes canonically equivalent strings (e.g., `é` U+00E9 vs
    /// `e\u{301}`) compare as equal.
    Nfc,
    /// NFD — canonical decomposition.
    Nfd,
    /// NFKC — compatibility decomposition + canonical composition.
    Nfkc,
    /// NFKD — compatibility decomposition.
    Nfkd,
}

/// Case handling mode.
#[derive(Clone, Copy, Debug, Default, PartialEq, Eq, Structural)]
pub enum CaseMode {
    /// Case-sensitive (default).
    #[default]
    Sensitive,
    /// Full Unicode case folding (simple case folding, CaseFolding.txt
    /// status C+S); ASCII-only strings fold as [`AsciiOnly`](CaseMode::AsciiOnly).
    Fold,
    /// ASCII-only case folding: non-ASCII characters are left unchanged.
    AsciiOnly,
}

} // verus!
