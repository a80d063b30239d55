//! Comparison of two digit runs that start side by side.

use vstd::prelude::*;

use super::basic::{digit_run_end, is_digit, lemma_digit_run_end, spec_is_digit};
use super::compare_word_at_a_time::first_difference;
use super::skip_while_digit::simd_skip_while_digit_both;
use crate::order::{first_diff, lemma_first_diff_skip, order_of, order_u8, order_usize, Order};

verus! {

/// Left-aligned comparison of the digit runs of `a` at `i` and of `b` at
/// `j`, used when either run starts with `0`: digits compare one by one up
/// to the shorter run, then the longer run is greater.  `None` when both
/// runs hold the same digits.
pub open spec fn left_aligned_step(a: Seq<u8>, b: Seq<u8>, i: int, j: int) -> Option<Order> {
    let ka = digit_run_end(a, i) - i;
    let kb = digit_run_end(b, j) - j;
    let m = if ka < kb {
        ka
    } else {
        kb
    };
    match first_diff(a, i, b, j, m) {
        Some(o) => Some(o),
        None => if ka != kb {
            Some(order_of(ka, kb))
        } else {
            None
        },
    }
}

/// Right-aligned comparison of the digit runs of `a` at `i` and of `b` at
/// `j`: the longer run is greater; runs of equal length compare digit by
/// digit.  `None` when both runs hold the same digits.
pub open spec fn right_aligned_step(a: Seq<u8>, b: Seq<u8>, i: int, j: int) -> Option<Order> {
    let ka = digit_run_end(a, i) - i;
    let kb = digit_run_end(b, j) - j;
    if ka != kb {
        Some(order_of(ka, kb))
    } else {
        first_diff(a, i, b, j, ka)
    }
}

/// Comparison of the digit runs of `a` at `i` and of `b` at `j`:
/// left-aligned when a run has a leading zero, right-aligned otherwise.
pub open spec fn digit_step(a: Seq<u8>, b: Seq<u8>, i: int, j: int, leading_zero: bool) -> Option<
    Order,
> {
    if leading_zero {
        left_aligned_step(a, b, i, j)
    } else {
        right_aligned_step(a, b, i, j)
    }
}

/// Handles two digit runs that start at `pa` in `a` and at `pb` in `b`.
///
/// Returns the order when the runs settle the comparison, or `None` with
/// the ends of both runs, where the comparison goes on.
pub fn handle_digit_case(a: &[u8], b: &[u8], pa: usize, pb: usize, has_leading_zero: bool) -> (r: (
    Option<Order>,
    usize,
    usize,
))
    requires
        pa <= a@.len(),
        pb <= b@.len(),
    ensures
        r.0 == digit_step(a@, b@, pa as int, pb as int, has_leading_zero),
        r.0 is None ==> r.1 == digit_run_end(a@, pa as int) && r.2 == digit_run_end(
            b@,
            pb as int,
        ),
{
    if has_leading_zero {
        handle_left_aligned(a, b, pa, pb)
    } else {
        handle_right_aligned(a, b, pa, pb)
    }
}

/// Left-aligned run comparison; see [`left_aligned_step`].
fn handle_left_aligned(a: &[u8], b: &[u8], pa: usize, pb: usize) -> (r: (
    Option<Order>,
    usize,
    usize,
))
    requires
        pa <= a@.len(),
        pb <= b@.len(),
    ensures
        r.0 == left_aligned_step(a@, b@, pa as int, pb as int),
        r.0 is None ==> r.1 == digit_run_end(a@, pa as int) && r.2 == digit_run_end(
            b@,
            pb as int,
        ),
{
    proof {
        lemma_digit_run_end(a@, pa as int);
        lemma_digit_run_end(b@, pb as int);
    }
    let ghost ea = digit_run_end(a@, pa as int);
    let ghost eb = digit_run_end(b@, pb as int);
    let ghost m = if ea - pa < eb - pb {
        ea - pa
    } else {
        eb - pb
    };
    let rem_a = a.len() - pa;
    let rem_b = b.len() - pb;
    if rem_a < 16 && rem_b < 16 {
        let mut pa_run = pa;
        let mut pb_run = pb;
        loop
            invariant
                pa <= pa_run <= ea,
                pb <= pb_run <= eb,
                pa_run - pa == pb_run - pb,
                ea == digit_run_end(a@, pa as int),
                eb == digit_run_end(b@, pb as int),
                pa <= ea <= a@.len(),
                pb <= eb <= b@.len(),
                m == if ea - pa < eb - pb {
                    ea - pa
                } else {
                    eb - pb
                },
                forall|k: int| pa <= k < ea ==> spec_is_digit(#[trigger] a@[k]),
                ea < a@.len() ==> !spec_is_digit(a@[ea]),
                forall|k: int| pb <= k < eb ==> spec_is_digit(#[trigger] b@[k]),
                eb < b@.len() ==> !spec_is_digit(b@[eb]),
                forall|t: int| pa <= t < pa_run ==> #[trigger] a@[t] == b@[pb + (t - pa)],
            decreases a@.len() - pa_run,
        {
            let da = pa_run < a.len() && is_digit(a[pa_run]);
            let db = pb_run < b.len() && is_digit(b[pb_run]);
            if da && db {
                let va = a[pa_run];
                let vb = b[pb_run];
                if va != vb {
                    proof {
                        lemma_first_diff_skip(
                            a@,
                            pa as int,
                            b@,
                            pb as int,
                            m,
                            pa_run - pa,
                        );
                    }
                    return (Some(order_u8(va, vb)), pa_run, pb_run);
                }
                pa_run = pa_run + 1;
                pb_run = pb_run + 1;
            } else if da {
                proof {
                    lemma_first_diff_skip(a@, pa as int, b@, pb as int, m, m);
                }
                return (Some(Order::Greater), pa_run, pb_run);
            } else if db {
                proof {
                    lemma_first_diff_skip(a@, pa as int, b@, pb as int, m, m);
                }
                return (Some(Order::Less), pa_run, pb_run);
            } else {
                proof {
                    lemma_first_diff_skip(a@, pa as int, b@, pb as int, m, m);
                }
                return (None, pa_run, pb_run);
            }
        }
    }
    let (end_a, end_b) = simd_skip_while_digit_both(a, b, pa, pb);
    let ka = end_a - pa;
    let kb = end_b - pb;
    let min_len = if ka < kb {
        ka
    } else {
        kb
    };
    if let Some(o) = first_difference(a, pa, b, pb, min_len) {
        return (Some(o), pa, pb);
    }
    if ka != kb {
        return (Some(order_usize(ka, kb)), pa, pb);
    }
    (None, end_a, end_b)
}

/// Right-aligned run comparison; see [`right_aligned_step`].
fn handle_right_aligned(a: &[u8], b: &[u8], pa: usize, pb: usize) -> (r: (
    Option<Order>,
    usize,
    usize,
))
    requires
        pa <= a@.len(),
        pb <= b@.len(),
    ensures
        r.0 == right_aligned_step(a@, b@, pa as int, pb as int),
        r.0 is None ==> r.1 == digit_run_end(a@, pa as int) && r.2 == digit_run_end(
            b@,
            pb as int,
        ),
{
    proof {
        lemma_digit_run_end(a@, pa as int);
        lemma_digit_run_end(b@, pb as int);
    }
    let ghost ea = digit_run_end(a@, pa as int);
    let ghost eb = digit_run_end(b@, pb as int);
    let rem_a = a.len() - pa;
    let rem_b = b.len() - pb;
    if rem_a < 16 && rem_b < 16 {
        let mut pa_run = pa;
        let mut pb_run = pb;
        loop
            invariant
                pa <= pa_run <= ea,
                pb <= pb_run <= eb,
                pa_run - pa == pb_run - pb,
                ea == digit_run_end(a@, pa as int),
                eb == digit_run_end(b@, pb as int),
                pa <= ea <= a@.len(),
                pb <= eb <= b@.len(),
                forall|k: int| pa <= k < ea ==> spec_is_digit(#[trigger] a@[k]),
                ea < a@.len() ==> !spec_is_digit(a@[ea]),
                forall|k: int| pb <= k < eb ==> spec_is_digit(#[trigger] b@[k]),
                eb < b@.len() ==> !spec_is_digit(b@[eb]),
            ensures
                pa_run == ea,
                pb_run == eb,
            decreases a@.len() - pa_run,
        {
            let da = pa_run < a.len() && is_digit(a[pa_run]);
            let db = pb_run < b.len() && is_digit(b[pb_run]);
            if da && db {
                pa_run = pa_run + 1;
                pb_run = pb_run + 1;
            } else if da {
                return (Some(Order::Greater), pa_run, pb_run);
            } else if db {
                return (Some(Order::Less), pa_run, pb_run);
            } else {
                break ;
            }
        }
        let ka = pa_run - pa;
        let kb = pb_run - pb;
        if ka != kb {
            return (Some(order_usize(ka, kb)), pa_run, pb_run);
        }
        if let Some(o) = first_difference(a, pa, b, pb, ka) {
            return (Some(o), pa_run, pb_run);
        }
        return (None, pa_run, pb_run);
    }
    let (end_a, end_b) = simd_skip_while_digit_both(a, b, pa, pb);
    let ka = end_a - pa;
    let kb = end_b - pb;
    if ka != kb {
        return (Some(order_usize(ka, kb)), end_a, end_b);
    }
    if let Some(o) = first_difference(a, pa, b, pb, ka) {
        return (Some(o), end_a, end_b);
    }
    (None, end_a, end_b)
}

} // verus!
