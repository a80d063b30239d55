//! Equality and transitivity of the comparators.

use vstd::prelude::*;

use crate::byte_utils::{
    all_ascii, digit_run_end, digit_step, left_aligned_step, lemma_digit_run_end, spec_is_digit,
    spec_is_ws,
};
use crate::compare::{after_digit, natural_order, natural_order_from};
use crate::compare_ignore_case::ignore_case_order;
use crate::laws::ignore_case::{
    ascii_lowercase, law_ignore_case_ascii_is_lowercase_compare, lemma_lowercase_no_whitespace,
};
use crate::laws::natural::{
    byte_lex_order, byte_lex_order_from, law_compare_reflexive, lemma_byte_lex_first_diff,
};
use crate::laws::no_whitespace;
use crate::order::{first_diff, lemma_first_diff_none, lemma_first_diff_not_equal, order_of, Order};

verus! {

/// `first_diff` on equal-length windows is transitive.
proof fn lemma_first_diff_trans(x: Seq<u8>, y: Seq<u8>, z: Seq<u8>, i: int, n: int)
    requires
        first_diff(x, i, y, i, n) == Some(Order::Less),
        first_diff(y, i, z, i, n) == Some(Order::Less),
    ensures
        first_diff(x, i, z, i, n) == Some(Order::Less),
    decreases n,
{
    if n > 0 && x[i] == y[i] && y[i] == z[i] {
        lemma_first_diff_trans(x, y, z, i + 1, n - 1);
    }
}

/// A window that is lexicographically smaller stays smaller against any
/// window with the same bytes as the larger one.
proof fn lemma_byte_lex_trans(a: Seq<u8>, b: Seq<u8>, c: Seq<u8>, k: int)
    requires
        0 <= k,
        byte_lex_order_from(a, b, k) == Order::Less,
        byte_lex_order_from(b, c, k) == Order::Less,
    ensures
        byte_lex_order_from(a, c, k) == Order::Less,
    decreases a.len() - k,
{
    if k < a.len() && k < b.len() && k < c.len() && a[k] == b[k] && b[k] == c[k] {
        lemma_byte_lex_trans(a, b, c, k + 1);
    }
}

/// The digit run of `s` that starts at `i`.
pub open spec fn run_at(s: Seq<u8>, i: int) -> Seq<u8> {
    s.subrange(i, digit_run_end(s, i))
}

/// `first_diff` on the runs cut out of `x` and `y` at `i` is `first_diff`
/// on `x` and `y` at the same places.
proof fn lemma_first_diff_offset(x: Seq<u8>, y: Seq<u8>, i: int, kx: int, ky: int, p: int, n: int)
    requires
        0 <= i,
        0 <= p,
        0 <= n,
        p + n <= kx,
        p + n <= ky,
        i + kx <= x.len(),
        i + ky <= y.len(),
    ensures
        first_diff(x.subrange(i, i + kx), p, y.subrange(i, i + ky), p, n) == first_diff(
            x,
            i + p,
            y,
            i + p,
            n,
        ),
    decreases n,
{
    if n > 0 {
        assert(x.subrange(i, i + kx)[p] == x[i + p]);
        assert(y.subrange(i, i + ky)[p] == y[i + p]);
        lemma_first_diff_offset(x, y, i, kx, ky, p + 1, n - 1);
    }
}

/// The left-aligned comparison of two digit runs is the lexicographic
/// order of the runs.
proof fn lemma_left_aligned_as_lex(x: Seq<u8>, y: Seq<u8>, i: int)
    requires
        0 <= i <= x.len(),
        i <= y.len(),
    ensures
        match left_aligned_step(x, y, i, i) {
            Some(o) => o,
            None => Order::Equal} == byte_lex_order(run_at(x, i), run_at(y, i)),
{
    lemma_digit_run_end(x, i);
    lemma_digit_run_end(y, i);
    let kx = digit_run_end(x, i) - i;
    let ky = digit_run_end(y, i) - i;
    let m = if kx < ky {
        kx
    } else {
        ky
    };
    lemma_byte_lex_first_diff(run_at(x, i), run_at(y, i), 0);
    lemma_first_diff_offset(x, y, i, kx, ky, 0, m);
}

/// The digit run at `i` has at least one digit when `s[i]` is a digit.
proof fn lemma_run_nonempty(s: Seq<u8>, i: int)
    requires
        0 <= i < s.len(),
        spec_is_digit(s[i]),
    ensures
        digit_run_end(s, i) > i,
{
    lemma_digit_run_end(s, i);
    lemma_digit_run_end(s, i + 1);
}

/// Two digit runs that start at `i` and differ at their first digit are
/// ordered by that digit under the left-aligned comparison.
pub(crate) proof fn lemma_left_aligned_first_digit(x: Seq<u8>, z: Seq<u8>, i: int)
    requires
        0 <= i < x.len(),
        i < z.len(),
        spec_is_digit(x[i]),
        spec_is_digit(z[i]),
        x[i] != z[i],
    ensures
        left_aligned_step(x, z, i, i) == Some(order_of(x[i] as int, z[i] as int)),
{
    lemma_run_nonempty(x, i);
    lemma_run_nonempty(z, i);
}

/// The order of digit runs is transitive.
pub(crate) proof fn lemma_digit_step_trans(x: Seq<u8>, y: Seq<u8>, z: Seq<u8>, i: int)
    requires
        0 <= i < x.len(),
        i < y.len(),
        i < z.len(),
        spec_is_digit(x[i]),
        spec_is_digit(y[i]),
        spec_is_digit(z[i]),
        digit_step(x, y, i, i, x[i] == 48 || y[i] == 48) == Some(Order::Less),
        digit_step(y, z, i, i, y[i] == 48 || z[i] == 48) == Some(Order::Less),
    ensures
        digit_step(x, z, i, i, x[i] == 48 || z[i] == 48) == Some(Order::Less),
{
    lemma_run_nonempty(x, i);
    lemma_run_nonempty(y, i);
    lemma_run_nonempty(z, i);
    if x[i] == 48 && y[i] == 48 && z[i] == 48 {
        lemma_left_aligned_as_lex(x, y, i);
        lemma_left_aligned_as_lex(y, z, i);
        lemma_left_aligned_as_lex(x, z, i);
        lemma_byte_lex_trans(run_at(x, i), run_at(y, i), run_at(z, i), 0);
    } else if x[i] == 48 {
        if y[i] != 48 && z[i] == 48 {
            lemma_left_aligned_first_digit(y, z, i);
        }
        lemma_left_aligned_first_digit(x, z, i);
    } else if y[i] == 48 {
        lemma_left_aligned_first_digit(x, y, i);
    } else if z[i] == 48 {
        lemma_left_aligned_first_digit(y, z, i);
    } else {
        let kx = digit_run_end(x, i) - i;
        let ky = digit_run_end(y, i) - i;
        let kz = digit_run_end(z, i) - i;
        if kx == ky && ky == kz {
            lemma_first_diff_trans(x, y, z, i, kx);
        }
    }
}

/// Two digit runs that tie hold the same digits.
pub(crate) proof fn lemma_digit_tie(a: Seq<u8>, b: Seq<u8>, i: int, lz: bool)
    requires
        0 <= i <= a.len(),
        i <= b.len(),
        digit_step(a, b, i, i, lz) is None,
    ensures
        digit_run_end(a, i) == digit_run_end(b, i),
        forall|t: int| i <= t < digit_run_end(a, i) ==> #[trigger] a[t] == b[t],
{
    let ka = digit_run_end(a, i) - i;
    lemma_first_diff_none(a, i, b, i, ka);
    assert forall|t: int| i <= t < digit_run_end(a, i) implies #[trigger] a[t] == b[t] by {
        assert(a[i + (t - i)] == b[i + (t - i)]);
    }
}

/// `s` holds no digit at `i` when the byte before `i` is a digit.
pub open spec fn settled(s: Seq<u8>, i: int) -> bool {
    after_digit(s, i) ==> !(i < s.len() && spec_is_digit(s[i]))
}

proof fn lemma_equal_identical_from(a: Seq<u8>, b: Seq<u8>, i: int)
    requires
        no_whitespace(a),
        no_whitespace(b),
        0 <= i <= a.len(),
        i <= b.len(),
        natural_order_from(a, b, i, i) == Order::Equal,
    ensures
        a.len() == b.len(),
        forall|t: int| i <= t < a.len() ==> #[trigger] a[t] == b[t],
    decreases a.len() - i,
{
    if i < a.len() && i < b.len() {
        let ca = a[i];
        let cb = b[i];
        assert(!spec_is_ws(ca) && !spec_is_ws(cb));
        if spec_is_digit(ca) && spec_is_digit(cb) {
            lemma_digit_run_end(a, i);
            lemma_digit_run_end(b, i);
            let ka = digit_run_end(a, i) - i;
            let kb = digit_run_end(b, i) - i;
            lemma_first_diff_not_equal(a, i, b, i, ka);
            lemma_first_diff_not_equal(a, i, b, i, if ka < kb { ka } else { kb });
            lemma_digit_tie(a, b, i, ca == 48 || cb == 48);
            lemma_run_nonempty(a, i);
            lemma_digit_run_end(a, i);
            lemma_digit_run_end(b, i);
            lemma_equal_identical_from(a, b, digit_run_end(a, i));
        } else {
            lemma_equal_identical_from(a, b, i + 1);
        }
    }
}

/// On strings without ASCII whitespace, `compare` finds two strings equal
/// exactly when they are the same string.
pub proof fn law_compare_equal_iff_identical(a: Seq<u8>, b: Seq<u8>)
    requires
        no_whitespace(a),
        no_whitespace(b),
    ensures
        (natural_order(a, b) == Order::Equal) <==> a == b,
{
    if natural_order(a, b) == Order::Equal {
        lemma_equal_identical_from(a, b, 0);
        assert(a =~= b);
    }
    if a == b {
        law_compare_reflexive(a);
    }
}

/// On ASCII strings without whitespace, `compare_ignore_case` finds two
/// strings equal exactly when they are the same up to the case of `A`–`Z`.
pub proof fn law_compare_ignore_case_equal_iff_same_lowercase(a: Seq<u8>, b: Seq<u8>)
    requires
        all_ascii(a),
        all_ascii(b),
        no_whitespace(a),
        no_whitespace(b),
    ensures
        (ignore_case_order(a, b) == Order::Equal) <==> ascii_lowercase(a) == ascii_lowercase(b),
{
    lemma_lowercase_no_whitespace(a);
    lemma_lowercase_no_whitespace(b);
    law_ignore_case_ascii_is_lowercase_compare(a, b);
    law_compare_equal_iff_identical(ascii_lowercase(a), ascii_lowercase(b));
}

} // verus!
