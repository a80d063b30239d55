//! Properties of the comparators that hold for all inputs.

pub mod case_insensitive;
pub mod fold_tokens;
pub mod ignore_case;
pub mod iter;
pub mod iter_skip;
pub mod iter_matches;
pub mod natural;
pub mod normalizer;
pub mod prefix;
pub mod tokens;
pub mod total_order;
pub mod unicode;

use vstd::prelude::*;

use crate::byte_utils::spec_is_ws;

verus! {

/// `s` holds no ASCII whitespace byte.
pub open spec fn no_whitespace(s: Seq<u8>) -> bool {
    forall|k: int| 0 <= k < s.len() ==> !spec_is_ws(#[trigger] s[k])
}

} // verus!
