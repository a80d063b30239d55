//! Laws of `compare`: reflexivity, antisymmetry, the empty string, and
//! how digit runs compare.

use vstd::prelude::*;

use crate::byte_utils::{
    digit_run_end, digit_step, lemma_digit_run_end, lemma_ws_run_end, spec_is_digit, spec_is_ws,
    ws_run_end,
};
use crate::compare::{after_digit, natural_order, natural_order_from};
use crate::compare_ignore_case::ignore_case_order;
use crate::laws::no_whitespace;
use crate::laws::total_order::lemma_left_aligned_first_digit;
use crate::order::{first_diff, lemma_first_diff_same, lemma_first_diff_swap, order_of, Order};

verus! {

proof fn lemma_natural_order_reflexive_from(s: Seq<u8>, i: int)
    requires
        0 <= i <= s.len(),
    ensures
        natural_order_from(s, s, i, i) == Order::Equal,
    decreases s.len() - i,
{
    if i < s.len() {
        let c = s[i];
        if spec_is_digit(c) {
            lemma_digit_run_end(s, i);
            lemma_digit_run_end(s, i + 1);
            let k = digit_run_end(s, i) - i;
            lemma_first_diff_same(s, i, k);
            lemma_natural_order_reflexive_from(s, digit_run_end(s, i));
        } else if spec_is_ws(c) {
            lemma_ws_run_end(s, i);
            lemma_ws_run_end(s, i + 1);
            lemma_natural_order_reflexive_from(s, ws_run_end(s, i));
        } else {
            lemma_natural_order_reflexive_from(s, i + 1);
        }
    }
}

/// Every string compares equal to itself: `compare(s, s)` is `Equal`.
pub proof fn law_compare_reflexive(s: Seq<u8>)
    ensures
        natural_order(s, s) == Order::Equal,
{
    lemma_natural_order_reflexive_from(s, 0);
}

/// The empty string is less than every non-empty string and equal to the
/// empty string, under `compare` and under `compare_ignore_case`.
pub proof fn law_compare_empty_first(s: Seq<u8>)
    ensures
        natural_order(Seq::empty(), s) == order_of(0, s.len() as int),
        natural_order(s, Seq::empty()) == order_of(s.len() as int, 0),
        ignore_case_order(Seq::empty(), s) == order_of(0, s.len() as int),
        ignore_case_order(s, Seq::empty()) == order_of(s.len() as int, 0),
{
}

/// Two windows that are swapped give reversed digit-run outcomes.
pub(crate) proof fn lemma_digit_step_swap(a: Seq<u8>, b: Seq<u8>, i: int, j: int, lz: bool)
    ensures
        digit_step(b, a, j, i, lz) == match digit_step(a, b, i, j, lz) {
            Some(o) => Some(o.reversed()),
            None => None,
        },
{
    let ka = digit_run_end(a, i) - i;
    let kb = digit_run_end(b, j) - j;
    let m = if ka < kb {
        ka
    } else {
        kb
    };
    lemma_first_diff_swap(a, i, b, j, m);
    lemma_first_diff_swap(a, i, b, j, ka);
}

proof fn lemma_natural_order_antisymmetric_from(a: Seq<u8>, b: Seq<u8>, i: int, j: int)
    requires
        0 <= i <= a.len(),
        0 <= j <= b.len(),
    ensures
        natural_order_from(b, a, j, i) == natural_order_from(a, b, i, j).reversed(),
    decreases a.len() - i + b.len() - j,
{
    if i < a.len() && j < b.len() {
        let ca = a[i];
        let cb = b[j];
        lemma_digit_run_end(a, i);
        lemma_digit_run_end(b, j);
        lemma_digit_run_end(a, i + 1);
        lemma_digit_run_end(b, j + 1);
        lemma_ws_run_end(a, i);
        lemma_ws_run_end(b, j);
        lemma_ws_run_end(a, i + 1);
        lemma_ws_run_end(b, j + 1);
        if spec_is_digit(ca) && spec_is_digit(cb) {
            lemma_digit_step_swap(a, b, i, j, ca == 48 || cb == 48);
            if digit_step(a, b, i, j, ca == 48 || cb == 48) is None {
                lemma_natural_order_antisymmetric_from(a, b, digit_run_end(a, i), digit_run_end(b, j));
            }
        } else if spec_is_ws(ca) || spec_is_ws(cb) {
            if ca != cb || spec_is_ws(ca) {
                lemma_natural_order_antisymmetric_from(a, b, ws_run_end(a, i), ws_run_end(b, j));
            }
        } else if ca == cb {
            lemma_natural_order_antisymmetric_from(a, b, i + 1, j + 1);
        }
    }
}

/// Swapping the arguments of `compare` reverses its result.
pub proof fn law_compare_antisymmetric(a: Seq<u8>, b: Seq<u8>)
    ensures
        natural_order(b, a) == natural_order(a, b).reversed(),
{
    lemma_natural_order_antisymmetric_from(a, b, 0, 0);
}

/// Every byte of `s` is an ASCII digit.
pub open spec fn all_digits(s: Seq<u8>) -> bool {
    forall|k: int| 0 <= k < s.len() ==> spec_is_digit(#[trigger] s[k])
}

/// Ten to the power `n`.
pub open spec fn pow10(n: nat) -> nat
    decreases n,
{
    if n == 0 {
        1
    } else {
        10 * pow10((n - 1) as nat)
    }
}

/// The decimal value of the digits `s[i..]`.
pub open spec fn digits_value_from(s: Seq<u8>, i: int) -> nat
    decreases s.len() - i,
{
    if 0 <= i < s.len() {
        ((s[i] - 48) as nat) * pow10((s.len() - i - 1) as nat) + digits_value_from(s, i + 1)
    } else {
        0
    }
}

/// The decimal value of a string of digits.
pub open spec fn digits_value(s: Seq<u8>) -> nat {
    digits_value_from(s, 0)
}

/// Byte-wise lexicographic order of `a[k..]` and `b[k..]`; a proper prefix
/// is less.
pub open spec fn byte_lex_order_from(a: Seq<u8>, b: Seq<u8>, k: int) -> Order
    decreases a.len() - k,
{
    if k >= a.len() || k >= b.len() {
        order_of(a.len() - k, b.len() - k)
    } else if a[k] != b[k] {
        order_of(a[k] as int, b[k] as int)
    } else {
        byte_lex_order_from(a, b, k + 1)
    }
}

/// Byte-wise lexicographic order of two byte strings, as `<[u8]>::cmp`
/// orders them.
pub open spec fn byte_lex_order(a: Seq<u8>, b: Seq<u8>) -> Order {
    byte_lex_order_from(a, b, 0)
}

proof fn lemma_pow10_positive(n: nat)
    ensures
        pow10(n) >= 1,
    decreases n,
{
    if n > 0 {
        lemma_pow10_positive((n - 1) as nat);
    }
}

proof fn lemma_pow10_monotonic(m: nat, n: nat)
    requires
        m <= n,
    ensures
        pow10(m) <= pow10(n),
    decreases n - m,
{
    if m < n {
        lemma_pow10_monotonic(m, (n - 1) as nat);
        lemma_pow10_positive((n - 1) as nat);
    }
}

/// A digit string of length `n` has a value below `10^n`, and at least
/// `10^(n-1)` when it does not start with `0`.
proof fn lemma_digits_value_bounds(s: Seq<u8>, i: int)
    requires
        0 <= i <= s.len(),
        all_digits(s),
    ensures
        digits_value_from(s, i) < pow10((s.len() - i) as nat),
        i < s.len() && s[i] != 48 ==> digits_value_from(s, i) >= pow10((s.len() - i - 1) as nat),
    decreases s.len() - i,
{
    if i < s.len() {
        lemma_digits_value_bounds(s, i + 1);
        let d = (s[i] - 48) as nat;
        let p = pow10((s.len() - i - 1) as nat);
        let rest = digits_value_from(s, i + 1);
        assert(spec_is_digit(s[i]));
        assert(d * p + rest < 10 * p) by (nonlinear_arith)
            requires
                d <= 9,
                rest < p,
        ;
        assert(s[i] != 48 ==> d * p >= p) by (nonlinear_arith)
            requires
                s[i] != 48 ==> d >= 1,
                p >= 0,
        ;
    }
}

/// For digit strings of equal length, the first differing digit orders
/// their values; with no differing digit the values are equal.
proof fn lemma_first_diff_value(a: Seq<u8>, b: Seq<u8>, i: int)
    requires
        a.len() == b.len(),
        0 <= i <= a.len(),
        all_digits(a),
        all_digits(b),
    ensures
        first_diff(a, i, b, i, a.len() - i) == match first_diff(a, i, b, i, a.len() - i) {
            Some(o) => Some(order_of(digits_value_from(a, i) as int, digits_value_from(b, i) as int)),
            None => None,
        },
        first_diff(a, i, b, i, a.len() - i) is None ==> digits_value_from(a, i) == digits_value_from(
            b,
            i,
        ),
    decreases a.len() - i,
{
    if i < a.len() {
        lemma_first_diff_value(a, b, i + 1);
        lemma_digits_value_bounds(a, i + 1);
        lemma_digits_value_bounds(b, i + 1);
        assert(spec_is_digit(a[i]) && spec_is_digit(b[i]));
        let p = pow10((a.len() - i - 1) as nat);
        let da = (a[i] - 48) as nat;
        let db = (b[i] - 48) as nat;
        let ra = digits_value_from(a, i + 1);
        let rb = digits_value_from(b, i + 1);
        if da < db {
            assert(da * p + ra < db * p + rb) by (nonlinear_arith)
                requires
                    da + 1 <= db,
                    ra < p,
                    rb >= 0,
            ;
        } else if db < da {
            assert(db * p + rb < da * p + ra) by (nonlinear_arith)
                requires
                    db + 1 <= da,
                    rb < p,
                    ra >= 0,
            ;
        }
    }
}

/// A string of digits is one whole digit run.
proof fn lemma_all_digits_run(s: Seq<u8>)
    requires
        all_digits(s),
    ensures
        digit_run_end(s, 0) == s.len(),
{
    lemma_digit_run_end(s, 0);
    if digit_run_end(s, 0) < s.len() {
        assert(spec_is_digit(s[digit_run_end(s, 0)]));
    }
}

/// Digit strings written without leading zeros compare by their numeric
/// value: `compare("9", "10")` is `Less`.
pub proof fn law_compare_numeric(a: Seq<u8>, b: Seq<u8>)
    requires
        a.len() > 0,
        b.len() > 0,
        all_digits(a),
        all_digits(b),
        a.len() == 1 || a[0] != 48,
        b.len() == 1 || b[0] != 48,
    ensures
        natural_order(a, b) == order_of(digits_value(a) as int, digits_value(b) as int),
{
    lemma_all_digits_run(a);
    lemma_all_digits_run(b);
    lemma_digits_value_bounds(a, 0);
    lemma_digits_value_bounds(b, 0);
    assert(spec_is_digit(a[0]) && spec_is_digit(b[0]));
    if a[0] == 48 || b[0] == 48 {
        lemma_pow10_positive((a.len() - 1) as nat);
        lemma_pow10_positive((b.len() - 1) as nat);
        if a[0] == 48 {
            assert(digits_value_from(a, 1) == 0);
            assert(digits_value(a) == 0) by (nonlinear_arith)
                requires
                    digits_value(a) == ((a[0] - 48) as nat) * pow10(0) + digits_value_from(a, 1),
                    a[0] == 48,
                    digits_value_from(a, 1) == 0,
            ;
        }
        if b[0] == 48 {
            assert(digits_value_from(b, 1) == 0);
            assert(digits_value(b) == 0) by (nonlinear_arith)
                requires
                    digits_value(b) == ((b[0] - 48) as nat) * pow10(0) + digits_value_from(b, 1),
                    b[0] == 48,
                    digits_value_from(b, 1) == 0,
            ;
        }
        if a[0] == 48 && b[0] == 48 {
            assert(first_diff(a, 1, b, 1, 0) is None);
            assert(natural_order_from(a, b, 1, 1) == Order::Equal);
            assert(natural_order(a, b) == Order::Equal);
        } else if a[0] == 48 {
            assert(first_diff(a, 0, b, 0, 1) == Some(Order::Less));
            assert(natural_order(a, b) == Order::Less);
        } else {
            assert(first_diff(a, 0, b, 0, 1) == Some(Order::Greater));
            assert(natural_order(a, b) == Order::Greater);
        }
    } else if a.len() == b.len() {
        lemma_first_diff_value(a, b, 0);
        assert(natural_order_from(a, b, a.len() as int, b.len() as int) == Order::Equal);
    } else if a.len() < b.len() {
        lemma_pow10_monotonic(a.len(), (b.len() - 1) as nat);
    } else {
        lemma_pow10_monotonic(b.len(), (a.len() - 1) as nat);
    }
}

/// `byte_lex_order_from` decides at the first differing byte of the common
/// part, and otherwise by length.
pub(crate) proof fn lemma_byte_lex_first_diff(a: Seq<u8>, b: Seq<u8>, k: int)
    requires
        0 <= k <= a.len(),
        k <= b.len(),
    ensures
        byte_lex_order_from(a, b, k) == match first_diff(
            a,
            k,
            b,
            k,
            (if a.len() < b.len() {
                a.len()
            } else {
                b.len()
            }) - k,
        ) {
            Some(o) => o,
            None => order_of(a.len() as int, b.len() as int),
        },
    decreases a.len() - k,
{
    if k < a.len() && k < b.len() && a[k] == b[k] {
        lemma_byte_lex_first_diff(a, b, k + 1);
    }
}

/// Digit strings that both start with `0` compare byte by byte, as
/// fractional parts do: `compare("015", "02")` is `Less`.
pub proof fn law_compare_leading_zero_lexicographic(a: Seq<u8>, b: Seq<u8>)
    requires
        a.len() > 0,
        b.len() > 0,
        all_digits(a),
        all_digits(b),
        a[0] == 48,
        b[0] == 48,
    ensures
        natural_order(a, b) == byte_lex_order(a, b),
{
    lemma_all_digits_run(a);
    lemma_all_digits_run(b);
    lemma_byte_lex_first_diff(a, b, 0);
    assert(natural_order_from(a, b, a.len() as int, b.len() as int) == order_of(0, 0));
}

/// A `0` put in front of a digit run that starts with another digit makes
/// the string smaller: `compare("012", "12")` is `Less`.
pub proof fn law_compare_leading_zero_makes_smaller(x: Seq<u8>)
    requires
        x.len() > 0,
        spec_is_digit(x[0]),
        x[0] != 48,
    ensures
        natural_order(seq![48u8] + x, x) == Order::Less,
{
    let a = seq![48u8] + x;
    assert(a[0] == 48);
    lemma_left_aligned_first_digit(a, x, 0);
}

} // verus!
