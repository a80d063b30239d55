//! Case-sensitive natural ordering comparison.

pub mod common;

use core::cmp::Ordering;
use vstd::prelude::*;

use crate::byte_utils::{
    digit_run_end, digit_step, is_ascii_ws, is_digit, lemma_digit_run_end, lemma_ws_run_end,
    spec_is_digit, spec_is_ws, ws_run_end,
};
use crate::order::{order_of, ordering_of, to_ordering, Order};
use common::CompareCtx;

verus! {

/// The byte just before position `i` of `s` is a digit.
pub open spec fn after_digit(s: Seq<u8>, i: int) -> bool {
    0 < i <= s.len() && spec_is_digit(s[i - 1])
}

/// Where the byte at `i` of `a` and the byte at `j` of `b` differ in being
/// a digit, and the digit one continues a digit run on its side, that side
/// is greater.
pub open spec fn digit_goes_on(a: Seq<u8>, b: Seq<u8>, i: int, j: int) -> Option<Order> {
    if spec_is_digit(a[i]) && !spec_is_digit(b[j]) && after_digit(a, i) {
        Some(Order::Greater)
    } else if !spec_is_digit(a[i]) && spec_is_digit(b[j]) && after_digit(b, j) {
        Some(Order::Less)
    } else {
        None
    }
}

/// Natural order of `a` and `b`, from position `i` of `a` and `j` of `b`.
///
/// Bytes compare by value, except that:
/// * ASCII whitespace is skipped;
/// * two digit runs that start side by side compare as numbers: the longer
///   run is greater and runs of equal length compare digit by digit; when
///   either run starts with `0` they compare digit by digit up to the
///   shorter run, then the longer run is greater;
/// * where one side holds a digit that continues a digit run and the other
///   side holds no digit, the side whose run goes on is greater
///   ([`digit_goes_on`]);
/// * once one side is used up, the side with more bytes left is greater.
pub open spec fn natural_order_from(a: Seq<u8>, b: Seq<u8>, i: int, j: int) -> Order
    decreases a.len() - i + b.len() - j,
{
    if !(0 <= i < a.len() && 0 <= j < b.len()) {
        order_of(a.len() - i, b.len() - j)
    } else {
        let ca = a[i];
        let cb = b[j];
        if spec_is_digit(ca) && spec_is_digit(cb) {
            match digit_step(a, b, i, j, ca == 48 || cb == 48) {
                Some(o) => o,
                None => {
                    proof {
                        lemma_digit_run_end(a, i);
                        lemma_digit_run_end(b, j);
                        lemma_digit_run_end(a, i + 1);
                        lemma_digit_run_end(b, j + 1);
                    }
                    natural_order_from(a, b, digit_run_end(a, i), digit_run_end(b, j))
                },
            }
        } else if ca != cb {
            if spec_is_ws(ca) || spec_is_ws(cb) {
                proof {
                    lemma_ws_run_end(a, i);
                    lemma_ws_run_end(b, j);
                    lemma_ws_run_end(a, i + 1);
                    lemma_ws_run_end(b, j + 1);
                }
                natural_order_from(a, b, ws_run_end(a, i), ws_run_end(b, j))
            } else if digit_goes_on(a, b, i, j) is Some {
                digit_goes_on(a, b, i, j).unwrap()
            } else {
                order_of(ca as int, cb as int)
            }
        } else if spec_is_ws(ca) {
            proof {
                lemma_ws_run_end(a, i);
                lemma_ws_run_end(b, j);
                lemma_ws_run_end(a, i + 1);
                lemma_ws_run_end(b, j + 1);
            }
            natural_order_from(a, b, ws_run_end(a, i), ws_run_end(b, j))
        } else {
            natural_order_from(a, b, i + 1, j + 1)
        }
    }
}

/// Natural order of two byte strings.
pub open spec fn natural_order(a: Seq<u8>, b: Seq<u8>) -> Order {
    natural_order_from(a, b, 0, 0)
}

/// [`natural_order_from`] at `usize` positions.
pub open spec fn natural_order_at(a: Seq<u8>, b: Seq<u8>, pa: usize, pb: usize) -> Order {
    natural_order_from(a, b, pa as int, pb as int)
}

/// Case-sensitive natural order compare on byte slices.
///
/// A loop over both slices with numeric-run awareness; equal-length digit
/// runs compare byte by byte.
pub fn compare_impl(a: &[u8], b: &[u8]) -> (r: Ordering)
    ensures
        r == ordering_of(natural_order(a@, b@)),
{
    let mut ctx = CompareCtx::new(a, b);
    loop
        invariant
            ctx.pa <= a@.len(),
            ctx.pb <= b@.len(),
            natural_order_at(a@, b@, ctx.pa, ctx.pb) == natural_order(a@, b@),
        decreases a@.len() - ctx.pa + b@.len() - ctx.pb,
    {
        let (ca, cb) = match ctx.try_current(a, b) {
            Ok(pair) => pair,
            Err(o) => return to_ordering(o),
        };
        if is_digit(ca) && is_digit(cb) {
            if let Some(o) = ctx.handle_both_digits(a, b) {
                return to_ordering(o);
            }
            continue ;
        }
        if ca != cb {
            if is_ascii_ws(ca) || is_ascii_ws(cb) {
                ctx.skip_ws(a, b);
                continue ;
            }
            if let Some(o) = ctx.check_digit_boundary(a, b, ca, cb) {
                return to_ordering(o);
            }
            return to_ordering(ctx.byte_order(a, b, ca, cb));
        }
        if is_ascii_ws(ca) {
            ctx.skip_ws(a, b);
            continue ;
        }
        ctx.advance(a, b);
    }
}

} // verus!
