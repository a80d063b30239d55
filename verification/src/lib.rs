//! Natural ordering for strings: numeric runs inside strings compare by
//! value, so that `"rfc2"` sorts before `"rfc10"`.
//!
//! * [`compare`]: case-sensitive natural order;
//! * [`compare_ignore_case`]: case-insensitive natural order;
//! * [`compare_iter`]: natural order over any items, with the skip, order
//!   and digit rules given by the caller;
//! * [`Normalizer`] and [`compare_normalized`]: Unicode normalization and
//!   case folding before the comparison.

pub mod byte_utils;
pub mod compare;
pub mod compare_ignore_case;
pub mod compare_iter;
pub mod laws;
pub mod normalizer;
pub mod order;
pub mod text;
pub mod unicode;

use core::cmp::Ordering;
use vstd::prelude::*;
use vstd::string::StringSliceAdditionalSpecFns;

use crate::compare::natural_order;
use crate::compare_ignore_case::ignore_case_order;
use crate::order::ordering_of;
pub use crate::compare_iter::compare_iter;
pub use crate::normalizer::{compare_normalized, CaseMode, Normalization, Normalizer};

verus! {

/// Compare two strings case-sensitively using natural ordering.
///
/// Operates on the UTF-8 bytes of both strings.
pub fn compare(left: &str, right: &str) -> (r: Ordering)
    ensures
        r == ordering_of(natural_order(left.spec_bytes(), right.spec_bytes())),
{
    compare::compare_impl(left.as_bytes(), right.as_bytes())
}

/// Compare two strings case-insensitively using natural ordering.
///
/// ASCII letters compare by their lowercase; non-ASCII characters are
/// decoded and compare by their lowercase mappings (`char::to_lowercase`).
pub fn compare_ignore_case(left: &str, right: &str) -> (r: Ordering)
    ensures
        r == ordering_of(ignore_case_order(left.spec_bytes(), right.spec_bytes())),
{
    compare_ignore_case::compare_ignore_case_impl(left.as_bytes(), right.as_bytes())
}

} // verus!
