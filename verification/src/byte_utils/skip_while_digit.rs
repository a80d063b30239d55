//! Digit-run end scanning, on one string or on two at once.

use vstd::prelude::*;

use super::basic::{digit_run_end, is_digit, lemma_digit_run_end};

verus! {

/// Scans `s` from `start` for the first byte that is not a digit, and
/// returns its index (or `s.len()` when the digits reach the end).
pub fn simd_skip_while_digit(s: &[u8], start: usize) -> (r: usize)
    requires
        start <= s@.len(),
    ensures
        r == digit_run_end(s@, start as int),
        start <= r <= s@.len(),
{
    proof {
        lemma_digit_run_end(s@, start as int);
    }
    let mut k = start;
    while k < s.len() && is_digit(s[k])
        invariant
            start <= k <= s@.len(),
            digit_run_end(s@, k as int) == digit_run_end(s@, start as int),
        decreases s@.len() - k,
    {
        k = k + 1;
    }
    k
}

/// Scans `a` from `start_a` and `b` from `start_b` for the end of their
/// digit runs, byte by byte.
pub fn digit_run_ends_short(a: &[u8], b: &[u8], start_a: usize, start_b: usize) -> (r: (
    usize,
    usize,
))
    requires
        start_a <= a@.len(),
        start_b <= b@.len(),
    ensures
        r.0 == digit_run_end(a@, start_a as int),
        r.1 == digit_run_end(b@, start_b as int),
{
    proof {
        lemma_digit_run_end(a@, start_a as int);
        lemma_digit_run_end(b@, start_b as int);
    }
    let mut ea = start_a;
    while ea < a.len() && is_digit(a[ea])
        invariant
            start_a <= ea <= a@.len(),
            digit_run_end(a@, ea as int) == digit_run_end(a@, start_a as int),
        decreases a@.len() - ea,
    {
        ea = ea + 1;
    }
    let mut eb = start_b;
    while eb < b.len() && is_digit(b[eb])
        invariant
            start_b <= eb <= b@.len(),
            digit_run_end(b@, eb as int) == digit_run_end(b@, start_b as int),
        decreases b@.len() - eb,
    {
        eb = eb + 1;
    }
    (ea, eb)
}

/// Ends of the digit runs of `a` at `start_a` and of `b` at `start_b`.
///
/// Short remainders (under 16 bytes on both sides) take a single
/// byte-by-byte pass; longer ones scan each string on its own.
pub fn simd_skip_while_digit_both(a: &[u8], b: &[u8], start_a: usize, start_b: usize) -> (r: (
    usize,
    usize,
))
    requires
        start_a <= a@.len(),
        start_b <= b@.len(),
    ensures
        r.0 == digit_run_end(a@, start_a as int),
        r.1 == digit_run_end(b@, start_b as int),
{
    let rem_a = a.len() - start_a;
    let rem_b = b.len() - start_b;
    if rem_a < 16 && rem_b < 16 {
        digit_run_ends_short(a, b, start_a, start_b)
    } else {
        let end_a = simd_skip_while_digit(a, start_a);
        let end_b = simd_skip_while_digit(b, start_b);
        (end_a, end_b)
    }
}

} // verus!
