//! Case-insensitive natural ordering comparison.

use core::cmp::Ordering;
use vstd::prelude::*;

use crate::byte_utils::{
    digit_run_end, digit_step, is_ascii_ws, is_digit, lemma_digit_run_end, lemma_ws_run_end,
    spec_is_digit, spec_is_ws, ws_run_end,
};
use crate::compare::digit_goes_on;
use crate::compare::common::CompareCtx;
use crate::order::{order_of, order_u32, order_u8, ordering_of, to_ordering, Order};
use crate::text::{char_to_lowercase, lowercase_of};
use crate::unicode::{char_at, char_len_at, decode_at, lemma_char_len_at, scalar_at};

verus! {

/// ASCII lowercase of a byte: `A`–`Z` map to `a`–`z`, other bytes stay.
pub open spec fn ascii_lower(c: u8) -> u8 {
    if 65 <= c <= 90 {
        (c + 32) as u8
    } else {
        c
    }
}

/// `u8::to_ascii_lowercase`.
pub fn ascii_lower_byte(c: u8) -> (r: u8)
    ensures
        r == ascii_lower(c),
{
    if c >= 65 && c <= 90 {
        c + 32
    } else {
        c
    }
}

/// Lexicographic order of `s[k..]` and `t[k..]`, characters compared by
/// scalar value; a proper prefix is less.
pub open spec fn lex_order_from(s: Seq<char>, t: Seq<char>, k: int) -> Order
    decreases s.len() - k,
{
    if k >= s.len() {
        if k >= t.len() {
            Order::Equal
        } else {
            Order::Less
        }
    } else if k >= t.len() {
        Order::Greater
    } else if s[k] != t[k] {
        order_of(s[k] as u32 as int, t[k] as u32 as int)
    } else {
        lex_order_from(s, t, k + 1)
    }
}

/// Lexicographic order of two character sequences.
pub open spec fn lex_order(s: Seq<char>, t: Seq<char>) -> Order {
    lex_order_from(s, t, 0)
}

/// Compares two character sequences lexicographically, as
/// `Iterator::cmp` does on them.
pub fn lex_order_chars(s: &[char], t: &[char]) -> (r: Order)
    ensures
        r == lex_order(s@, t@),
{
    let mut k: usize = 0;
    loop
        invariant
            k <= s@.len(),
            k <= t@.len(),
            lex_order_from(s@, t@, k as int) == lex_order(s@, t@),
        decreases s@.len() - k,
    {
        if k >= s.len() {
            if k >= t.len() {
                return Order::Equal;
            } else {
                return Order::Less;
            }
        } else if k >= t.len() {
            return Order::Greater;
        }
        let x = s[k];
        let y = t[k];
        if x != y {
            return order_u32(x as u32, y as u32);
        }
        k = k + 1;
    }
}

/// Step over two non-ASCII bytes: where a whole character starts on both
/// sides and the two characters differ, the order of their lowercase
/// mappings, if they differ; where no whole character starts on one side,
/// the order of the two bytes, if they differ.  `None` when the comparison
/// goes on after both; see [`unicode_advance`].
pub open spec fn unicode_fold_step(a: Seq<u8>, b: Seq<u8>, i: int, j: int) -> Option<Order> {
    if scalar_at(a, i) && scalar_at(b, j) {
        let xa = char_at(a, i);
        let xb = char_at(b, j);
        if xa != xb && lex_order(lowercase_of(xa), lowercase_of(xb)) != Order::Equal {
            Some(lex_order(lowercase_of(xa), lowercase_of(xb)))
        } else {
            None
        }
    } else if a[i] != b[j] {
        Some(order_of(a[i] as int, b[j] as int))
    } else {
        None
    }
}

/// How far a [`unicode_fold_step`] that decides nothing moves each side:
/// past the whole characters, or one byte where no whole character starts
/// on one side.
pub open spec fn unicode_advance(a: Seq<u8>, b: Seq<u8>, i: int, j: int) -> (int, int) {
    if scalar_at(a, i) && scalar_at(b, j) {
        (char_len_at(a, i), char_len_at(b, j))
    } else {
        (1, 1)
    }
}

/// Case-insensitive natural order of `a` and `b`, from position `i` of `a`
/// and `j` of `b`: as [`natural_order_from`](crate::compare::natural_order_from),
/// except that two ASCII bytes that are neither whitespace nor a digit
/// boundary compare by their ASCII lowercase, two non-ASCII bytes by the
/// lowercase mappings of the characters that start there
/// ([`unicode_fold_step`]), and an ASCII byte and a non-ASCII one by value.
pub open spec fn ignore_case_order_from(a: Seq<u8>, b: Seq<u8>, i: int, j: int) -> Order
    decreases a.len() - i + b.len() - j,
{
    if !(0 <= i < a.len() && 0 <= j < b.len()) {
        order_of(a.len() - i, b.len() - j)
    } else {
        let ca = a[i];
        let cb = b[j];
        if spec_is_digit(ca) && spec_is_digit(cb) {
            match digit_step(a, b, i, j, ca == 48 || cb == 48) {
                Some(o) => o,
                None => {
                    proof {
                        lemma_digit_run_end(a, i);
                        lemma_digit_run_end(b, j);
                        lemma_digit_run_end(a, i + 1);
                        lemma_digit_run_end(b, j + 1);
                    }
                    ignore_case_order_from(a, b, digit_run_end(a, i), digit_run_end(b, j))
                },
            }
        } else if ca == cb && ca < 128 {
            if spec_is_ws(ca) {
                proof {
                    lemma_ws_run_end(a, i);
                    lemma_ws_run_end(b, j);
                    lemma_ws_run_end(a, i + 1);
                    lemma_ws_run_end(b, j + 1);
                }
                ignore_case_order_from(a, b, ws_run_end(a, i), ws_run_end(b, j))
            } else {
                ignore_case_order_from(a, b, i + 1, j + 1)
            }
        } else if spec_is_ws(ca) || spec_is_ws(cb) {
            proof {
                lemma_ws_run_end(a, i);
                lemma_ws_run_end(b, j);
                lemma_ws_run_end(a, i + 1);
                lemma_ws_run_end(b, j + 1);
            }
            ignore_case_order_from(a, b, ws_run_end(a, i), ws_run_end(b, j))
        } else if digit_goes_on(a, b, i, j) is Some {
            digit_goes_on(a, b, i, j).unwrap()
        } else if ca < 128 && cb < 128 {
            if ascii_lower(ca) != ascii_lower(cb) {
                order_of(ascii_lower(ca) as int, ascii_lower(cb) as int)
            } else {
                ignore_case_order_from(a, b, i + 1, j + 1)
            }
        } else if ca >= 128 && cb >= 128 {
            match unicode_fold_step(a, b, i, j) {
                Some(o) => o,
                None => {
                    proof {
                        if scalar_at(a, i) && scalar_at(b, j) {
                            lemma_char_len_at(a, i);
                            lemma_char_len_at(b, j);
                        }
                    }
                    ignore_case_order_from(
                        a,
                        b,
                        i + unicode_advance(a, b, i, j).0,
                        j + unicode_advance(a, b, i, j).1,
                    )
                },
            }
        } else {
            order_of(ca as int, cb as int)
        }
    }
}

/// Case-insensitive natural order of two byte strings.
pub open spec fn ignore_case_order(a: Seq<u8>, b: Seq<u8>) -> Order {
    ignore_case_order_from(a, b, 0, 0)
}

/// [`ignore_case_order_from`] at `usize` positions.
pub open spec fn ignore_case_order_at(a: Seq<u8>, b: Seq<u8>, pa: usize, pb: usize) -> Order {
    ignore_case_order_from(a, b, pa as int, pb as int)
}

impl CompareCtx {
    /// Compares two differing ASCII bytes by their lowercase; when those
    /// are equal, moves past both.
    pub fn fold_ascii_step(&mut self, a: &[u8], b: &[u8], ca: u8, cb: u8) -> (r: Option<Order>)
        requires
            old(self).pa < a.len(),
            old(self).pb < b.len(),
            ca == a@[old(self).pa as int],
            cb == b@[old(self).pb as int],
        ensures
            r == if ascii_lower(ca) != ascii_lower(cb) {
                Some(order_of(ascii_lower(ca) as int, ascii_lower(cb) as int))
            } else {
                None
            },
            r is None ==> final(self).pa == old(self).pa + 1 && final(self).pb == old(self).pb + 1,
            r is Some ==> final(self).pa == old(self).pa && final(self).pb == old(self).pb,
    {
        let lca = ascii_lower_byte(ca);
        let lcb = ascii_lower_byte(cb);
        if lca != lcb {
            return Some(order_u8(lca, lcb));
        }
        self.pa = self.pa + 1;
        self.pb = self.pb + 1;
        None
    }

    /// Decodes the characters that start at both positions and compares
    /// their lowercase mappings; when those are equal, moves past both
    /// characters.  See [`unicode_fold_step`].
    pub fn fold_unicode_step(&mut self, a: &[u8], b: &[u8]) -> (r: Option<Order>)
        requires
            old(self).pa < a@.len(),
            old(self).pb < b@.len(),
        ensures
            r == unicode_fold_step(a@, b@, old(self).pa as int, old(self).pb as int),
            r is None ==> final(self).pa == old(self).pa + unicode_advance(
                a@,
                b@,
                old(self).pa as int,
                old(self).pb as int,
            ).0 && final(self).pb == old(self).pb + unicode_advance(
                a@,
                b@,
                old(self).pa as int,
                old(self).pb as int,
            ).1,
            r is None ==> final(self).pa <= a@.len() && final(self).pb <= b@.len(),
            r is None ==> final(self).pa > old(self).pa && final(self).pb > old(self).pb,
            r is Some ==> final(self).pa == old(self).pa && final(self).pb == old(self).pb,
    {
        let da = decode_at(a, self.pa);
        let db = decode_at(b, self.pb);
        match (da, db) {
            (Some((ch_a, adv_a)), Some((ch_b, adv_b))) => {
                proof {
                    lemma_char_len_at(a@, self.pa as int);
                    lemma_char_len_at(b@, self.pb as int);
                    assert(a@.len() == a.len() && b@.len() == b.len());
                }
                if ch_a != ch_b {
                    let la = char_to_lowercase(ch_a);
                    let lb = char_to_lowercase(ch_b);
                    let o = lex_order_chars(la.as_slice(), lb.as_slice());
                    if o != Order::Equal {
                        return Some(o);
                    }
                }
                self.pa = self.pa + adv_a;
                self.pb = self.pb + adv_b;
                None
            },
            _ => {
                let ca = a[self.pa];
                let cb = b[self.pb];
                if ca != cb {
                    return Some(order_u8(ca, cb));
                }
                self.pa = self.pa + 1;
                self.pb = self.pb + 1;
                None
            },
        }
    }
}

/// Case-insensitive natural order comparison on byte slices.
///
/// ASCII letters compare by their lowercase; where both sides hold
/// non-ASCII bytes, the characters that start there are decoded and
/// compare by their lowercase mappings.
pub fn compare_ignore_case_impl(a: &[u8], b: &[u8]) -> (r: Ordering)
    ensures
        r == ordering_of(ignore_case_order(a@, b@)),
{
    let mut ctx = CompareCtx::new(a, b);
    loop
        invariant
            ctx.pa <= a@.len(),
            ctx.pb <= b@.len(),
            ignore_case_order_at(a@, b@, ctx.pa, ctx.pb) == ignore_case_order(a@, b@),
        decreases a@.len() - ctx.pa + b@.len() - ctx.pb,
    {
        let (ca, cb) = match ctx.try_current(a, b) {
            Ok(pair) => pair,
            Err(o) => return to_ordering(o),
        };
        if is_digit(ca) && is_digit(cb) {
            if let Some(o) = ctx.handle_both_digits(a, b) {
                return to_ordering(o);
            }
            continue ;
        }
        if ca == cb && ca < 128 {
            if is_ascii_ws(ca) {
                ctx.skip_ws(a, b);
                continue ;
            }
            ctx.advance(a, b);
        } else if is_ascii_ws(ca) || is_ascii_ws(cb) {
            ctx.skip_ws(a, b);
            continue ;
        } else if let Some(o) = ctx.check_digit_boundary(a, b, ca, cb) {
            return to_ordering(o);
        } else if ca < 128 && cb < 128 {
            if let Some(o) = ctx.fold_ascii_step(a, b, ca, cb) {
                return to_ordering(o);
            }
        } else if ca >= 128 && cb >= 128 {
            if let Some(o) = ctx.fold_unicode_step(a, b) {
                return to_ordering(o);
            }
        } else {
            return to_ordering(ctx.byte_order(a, b, ca, cb));
        }
    }
}

} // verus!
