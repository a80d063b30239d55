//! Byte predicates and scanning helpers used by the comparison loops:
//! prefix skipping, ASCII detection, digit-run end scanning, comparison of
//! equal-length windows, and basic byte predicates.

mod basic;
mod compare_word_at_a_time;
mod digit_run;
mod is_ascii;
mod skip_equal;
mod skip_while_digit;

pub use basic::{
    digit_run_end, is_ascii_ws, is_digit, lemma_digit_run_end, lemma_ws_run_end, skip_whitespace,
    spec_is_digit, spec_is_ws, ws_run_end,
};
pub use compare_word_at_a_time::{compare_word_at_a_time, first_diff_at, first_difference};
pub use digit_run::{digit_step, handle_digit_case, left_aligned_step, right_aligned_step};
pub use is_ascii::{all_ascii, simd_is_ascii};
pub use skip_equal::{
    finish_scalar, le_value, lemma_le_value_bound, lemma_le_value_equal, lemma_mismatch_from,
    load_u128, load_u64, mismatch_from, pow256, simd_skip_equal,
};
pub use skip_while_digit::{digit_run_ends_short, simd_skip_while_digit, simd_skip_while_digit_both};
