//! Basic byte predicates, the runs they delimit, and whitespace skipping.

use vstd::prelude::*;

verus! {

/// An ASCII decimal digit, `b'0'` to `b'9'`.
pub open spec fn spec_is_digit(c: u8) -> bool {
    48 <= c <= 57
}

/// ASCII whitespace as the comparators see it: tab, newline, form feed,
/// carriage return and space (vertical tab is not included).
pub open spec fn spec_is_ws(c: u8) -> bool {
    c == 32 || c == 9 || c == 10 || c == 12 || c == 13
}

/// End of the run of digits of `s` that starts at `i`: the first index at
/// or after `i` that holds no digit (or the length of `s`).
pub open spec fn digit_run_end(s: Seq<u8>, i: int) -> int
    decreases s.len() - i,
{
    if 0 <= i < s.len() && spec_is_digit(s[i]) {
        digit_run_end(s, i + 1)
    } else {
        i
    }
}

/// End of the run of whitespace of `s` that starts at `i`.
pub open spec fn ws_run_end(s: Seq<u8>, i: int) -> int
    decreases s.len() - i,
{
    if 0 <= i < s.len() && spec_is_ws(s[i]) {
        ws_run_end(s, i + 1)
    } else {
        i
    }
}

/// The digit run that starts at `i` is the maximal block of digits there.
pub proof fn lemma_digit_run_end(s: Seq<u8>, i: int)
    requires
        0 <= i <= s.len(),
    ensures
        i <= digit_run_end(s, i) <= s.len(),
        forall|k: int| i <= k < digit_run_end(s, i) ==> spec_is_digit(#[trigger] s[k]),
        digit_run_end(s, i) < s.len() ==> !spec_is_digit(s[digit_run_end(s, i)]),
        forall|m: int| i <= m <= digit_run_end(s, i) ==> digit_run_end(s, m) == digit_run_end(s, i),
    decreases s.len() - i,
{
    if i < s.len() && spec_is_digit(s[i]) {
        lemma_digit_run_end(s, i + 1);
    }
}

/// The whitespace run that starts at `i` is the maximal block of
/// whitespace there.
pub proof fn lemma_ws_run_end(s: Seq<u8>, i: int)
    requires
        0 <= i <= s.len(),
    ensures
        i <= ws_run_end(s, i) <= s.len(),
        forall|k: int| i <= k < ws_run_end(s, i) ==> spec_is_ws(#[trigger] s[k]),
        ws_run_end(s, i) < s.len() ==> !spec_is_ws(s[ws_run_end(s, i)]),
        forall|m: int| i <= m <= ws_run_end(s, i) ==> ws_run_end(s, m) == ws_run_end(s, i),
    decreases s.len() - i,
{
    if i < s.len() && spec_is_ws(s[i]) {
        lemma_ws_run_end(s, i + 1);
    }
}

/// True when `c` is an ASCII decimal digit (`0`–`9`).
pub fn is_digit(c: u8) -> (r: bool)
    ensures
        r == spec_is_digit(c),
{
    c.wrapping_sub(48u8) <= 9
}

/// True when `c` is an ASCII whitespace byte: tab, newline, form feed,
/// carriage return, or space.
///
/// Vertical tab (`0x0B`) is not included.
pub fn is_ascii_ws(c: u8) -> (r: bool)
    ensures
        r == spec_is_ws(c),
{
    c == 32u8 || c.wrapping_sub(9u8) <= 1 || c.wrapping_sub(12u8) <= 1
}

/// Skips ASCII whitespace on both sides: `pa` moves to the end of the
/// whitespace run of `a` that starts there, `pb` likewise in `b`.
pub fn skip_whitespace(a: &[u8], b: &[u8], pa: &mut usize, pb: &mut usize)
    requires
        *old(pa) <= a@.len(),
        *old(pb) <= b@.len(),
    ensures
        *final(pa) == ws_run_end(a@, *old(pa) as int),
        *final(pb) == ws_run_end(b@, *old(pb) as int),
{
    proof {
        lemma_ws_run_end(a@, *pa as int);
        lemma_ws_run_end(b@, *pb as int);
    }
    let ghost a0 = *pa as int;
    let ghost b0 = *pb as int;
    while *pa < a.len() && is_ascii_ws(a[*pa])
        invariant
            a0 <= *pa <= a@.len(),
            ws_run_end(a@, *pa as int) == ws_run_end(a@, a0),
        decreases a@.len() - *pa,
    {
        *pa = *pa + 1;
    }
    while *pb < b.len() && is_ascii_ws(b[*pb])
        invariant
            b0 <= *pb <= b@.len(),
            ws_run_end(b@, *pb as int) == ws_run_end(b@, b0),
            *pa == ws_run_end(a@, a0),
        decreases b@.len() - *pb,
    {
        *pb = *pb + 1;
    }
}

} // verus!
