//! Natural ordering over sequences of arbitrary items, with the rules for
//! whitespace, item order and digits supplied by the caller.

use core::cmp::Ordering;
use vstd::prelude::*;

use crate::order::{isize_order, order_isize, order_of, ordering_of, to_ordering, Order};

verus! {

/// The answer that the one-argument closure `f` gives for `x`.
pub open spec fn answer<T, R, F: Fn(&T) -> R>(f: F, x: T) -> R {
    choose|v: R| call_ensures(f, (&x,), v)
}

/// The answer that the two-argument closure `f` gives for `x` and `y`.
pub open spec fn answer2<T, R, F: Fn(&T, &T) -> R>(f: F, x: T, y: T) -> R {
    choose|v: R| call_ensures(f, (&x, &y), v)
}

/// `f` accepts every argument.
pub open spec fn total_fn<T, R, F: Fn(&T) -> R>(f: F) -> bool {
    forall|x: &T| call_requires(f, (x,))
}

/// `cmp` accepts every pair of items that `to_digit` does not map both to
/// digits: it is never asked to compare two digits.
pub open spec fn accepts_unless_both_digits<T, C: Fn(&T, &T) -> Ordering, D: Fn(&T) -> Option<
    isize,
>>(cmp: C, to_digit: D) -> bool {
    forall|x: &T, y: &T, dx: Option<isize>, dy: Option<isize>|
        #![trigger call_ensures(to_digit, (x,), dx), call_ensures(to_digit, (y,), dy)]
        call_ensures(to_digit, (x,), dx) && call_ensures(to_digit, (y,), dy) && !(dx is Some
            && dy is Some) ==> call_requires(cmp, (x, y))
}

/// `f` gives one answer for one argument.
pub open spec fn single_valued<T, R, F: Fn(&T) -> R>(f: F) -> bool {
    forall|x: &T, a: R, b: R|
        #![trigger call_ensures(f, (x,), a), call_ensures(f, (x,), b)]
        call_ensures(f, (x,), a) && call_ensures(f, (x,), b) ==> a == b
}

/// `f` gives one answer for one pair of arguments.
pub open spec fn single_valued2<T, R, F: Fn(&T, &T) -> R>(f: F) -> bool {
    forall|x: &T, y: &T, a: R, b: R|
        #![trigger call_ensures(f, (x, y), a), call_ensures(f, (x, y), b)]
        call_ensures(f, (x, y), a) && call_ensures(f, (x, y), b) ==> a == b
}

/// What a call of a single-valued closure returned is its [`answer`].
pub proof fn lemma_answer<T, R, F: Fn(&T) -> R>(f: F, x: T, v: R)
    requires
        single_valued(f),
        call_ensures(f, (&x,), v),
    ensures
        answer(f, x) == v,
{
}

/// What a call of a single-valued closure returned is its [`answer2`].
pub proof fn lemma_answer2<T, R, F: Fn(&T, &T) -> R>(f: F, x: T, y: T, v: R)
    requires
        single_valued2(f),
        call_ensures(f, (&x, &y), v),
    ensures
        answer2(f, x, y) == v,
{
}

/// The first position at or after `k` whose item is not skipped (or the
/// length of `s`).
pub open spec fn skip_end<T, S: Fn(&T) -> bool>(s: Seq<T>, k: int, skip: S) -> int
    decreases s.len() - k,
{
    if 0 <= k < s.len() && answer(skip, s[k]) {
        skip_end(s, k + 1, skip)
    } else {
        k
    }
}

/// The digit of the item at position `k`, `None` past the end.
pub open spec fn digit_at<T, D: Fn(&T) -> Option<isize>>(s: Seq<T>, k: int, to_digit: D) -> Option<
    isize,
> {
    if 0 <= k < s.len() {
        answer(to_digit, s[k])
    } else {
        None
    }
}

/// The end of the run of digits that starts at position `k`.
pub open spec fn digit_end<T, D: Fn(&T) -> Option<isize>>(s: Seq<T>, k: int, to_digit: D) -> int
    decreases s.len() - k,
{
    if 0 <= k < s.len() && answer(to_digit, s[k]) is Some {
        digit_end(s, k + 1, to_digit)
    } else {
        k
    }
}

/// The order of the first differing pair of digits among the first `n`
/// digits from position `i` of `l` and `j` of `r`; `Equal` when they agree.
pub open spec fn digits_order<T, D: Fn(&T) -> Option<isize>>(
    l: Seq<T>,
    i: int,
    r: Seq<T>,
    j: int,
    n: int,
    to_digit: D,
) -> Order
    decreases n,
{
    if n <= 0 {
        Order::Equal
    } else {
        let before = digits_order(l, i, r, j, n - 1, to_digit);
        if before != Order::Equal {
            before
        } else {
            isize_order(
                digit_at(l, i + n - 1, to_digit).unwrap(),
                digit_at(r, j + n - 1, to_digit).unwrap(),
            )
        }
    }
}

/// `skip_end` stays within `[k, s.len()]` and stops at an item that is not
/// skipped.
pub proof fn lemma_skip_end<T, S: Fn(&T) -> bool>(s: Seq<T>, k: int, skip: S)
    requires
        0 <= k <= s.len(),
    ensures
        k <= skip_end(s, k, skip) <= s.len(),
        skip_end(s, k, skip) < s.len() ==> !answer(skip, s[skip_end(s, k, skip)]),
    decreases s.len() - k,
{
    if k < s.len() && answer(skip, s[k]) {
        lemma_skip_end(s, k + 1, skip);
    }
}

/// `digit_end` stays within `[k, s.len()]`, every item before it is a
/// digit, and the item at it is not.
pub proof fn lemma_digit_end<T, D: Fn(&T) -> Option<isize>>(s: Seq<T>, k: int, to_digit: D)
    requires
        0 <= k <= s.len(),
    ensures
        k <= digit_end(s, k, to_digit) <= s.len(),
        forall|t: int| k <= t < digit_end(s, k, to_digit) ==> #[trigger] digit_at(s, t, to_digit) is Some,
        digit_at(s, digit_end(s, k, to_digit), to_digit) is None,
    decreases s.len() - k,
{
    if k < s.len() && answer(to_digit, s[k]) is Some {
        lemma_digit_end(s, k + 1, to_digit);
    }
}

/// A run of digits at `[k, k + n)` followed by a non-digit ends at `k + n`.
pub proof fn lemma_digit_end_at<T, D: Fn(&T) -> Option<isize>>(
    s: Seq<T>,
    k: int,
    n: int,
    to_digit: D,
)
    requires
        0 <= k,
        0 <= n,
        forall|t: int| k <= t < k + n ==> #[trigger] digit_at(s, t, to_digit) is Some,
        digit_at(s, k + n, to_digit) is None,
    ensures
        digit_end(s, k, to_digit) == k + n,
    decreases n,
{
    if n > 0 {
        assert(digit_at(s, k, to_digit) is Some);
        lemma_digit_end_at(s, k + 1, n - 1, to_digit);
    }
}

/// Digits at every position of `[k, k + n)` put the end of the run at or
/// after `k + n`.
pub proof fn lemma_digit_end_ge<T, D: Fn(&T) -> Option<isize>>(
    s: Seq<T>,
    k: int,
    n: int,
    to_digit: D,
)
    requires
        0 <= k,
        0 <= n,
        forall|t: int| k <= t < k + n ==> #[trigger] digit_at(s, t, to_digit) is Some,
    ensures
        digit_end(s, k, to_digit) >= k + n,
    decreases n,
{
    if n > 0 {
        assert(digit_at(s, k, to_digit) is Some);
        lemma_digit_end_ge(s, k + 1, n - 1, to_digit);
    } else if k <= s.len() {
        lemma_digit_end(s, k, to_digit);
    }
}

/// Once two digit windows differ, longer windows differ in the same way.
pub proof fn lemma_digits_order_stable<T, D: Fn(&T) -> Option<isize>>(
    l: Seq<T>,
    i: int,
    r: Seq<T>,
    j: int,
    n: int,
    m: int,
    to_digit: D,
)
    requires
        n <= m,
        digits_order(l, i, r, j, n, to_digit) != Order::Equal,
    ensures
        digits_order(l, i, r, j, m, to_digit) == digits_order(l, i, r, j, n, to_digit),
    decreases m - n,
{
    if n < m {
        lemma_digits_order_stable(l, i, r, j, n, m - 1, to_digit);
    }
}

/// How two digit runs that start side by side at position `i` of `l` and
/// `j` of `r` decide the comparison, or `None` when the runs tie and the
/// comparison goes on after them.
///
/// Left-aligned runs compare digit by digit, the shorter run being less
/// when it is a prefix of the other.  Right-aligned runs compare by length,
/// then digit by digit.
pub open spec fn digit_runs_outcome<T, D: Fn(&T) -> Option<isize>>(
    l: Seq<T>,
    i: int,
    r: Seq<T>,
    j: int,
    left_aligned: bool,
    to_digit: D,
) -> Option<Order> {
    let la = digit_end(l, i, to_digit) - i;
    let lb = digit_end(r, j, to_digit) - j;
    let d = digits_order(l, i, r, j, if la < lb { la } else { lb }, to_digit);
    if left_aligned {
        if d != Order::Equal {
            Some(d)
        } else if la != lb {
            Some(order_of(la, lb))
        } else {
            None
        }
    } else {
        if la != lb {
            Some(order_of(la, lb))
        } else if d != Order::Equal {
            Some(d)
        } else {
            None
        }
    }
}

/// Natural order of `l` and `r` from position `i` of `l` and `j` of `r`,
/// under the rules given by the three closures:
/// * items that `skip` accepts are passed over on both sides;
/// * two digit runs that start side by side decide as
///   [`digit_runs_outcome`] says, left-aligned when either starts with the
///   digit `0`; when they tie the comparison goes on after both;
/// * any other pair of items compares by `cmp`;
/// * once one side is used up, the side with items left is greater.
pub open spec fn iter_order_from<T, S: Fn(&T) -> bool, C: Fn(&T, &T) -> Ordering, D: Fn(&T) -> Option<
    isize,
>>(l: Seq<T>, r: Seq<T>, i: int, j: int, skip: S, cmp: C, to_digit: D) -> Ordering
    decreases l.len() - i + r.len() - j,
    when 0 <= i <= l.len() && 0 <= j <= r.len()
{
    proof {
        lemma_skip_end(l, i, skip);
        lemma_skip_end(r, j, skip);
    }
    let i1 = skip_end(l, i, skip);
    let j1 = skip_end(r, j, skip);
    if i1 < l.len() && j1 < r.len() {
        match (answer(to_digit, l[i1]), answer(to_digit, r[j1])) {
            (Some(a), Some(b)) => {
                match digit_runs_outcome(l, i1, r, j1, a == 0 || b == 0, to_digit) {
                    Some(o) => ordering_of(o),
                    None => {
                        proof {
                            lemma_digit_end(l, i1, to_digit);
                            lemma_digit_end(r, j1, to_digit);
                            lemma_digit_end(l, i1 + 1, to_digit);
                            lemma_digit_end(r, j1 + 1, to_digit);
                        }
                        iter_order_from(
                            l,
                            r,
                            digit_end(l, i1, to_digit),
                            digit_end(r, j1, to_digit),
                            skip,
                            cmp,
                            to_digit,
                        )
                    },
                }
            },
            _ => {
                let c = answer2(cmp, l[i1], r[j1]);
                if c != Ordering::Equal {
                    c
                } else {
                    iter_order_from(l, r, i1 + 1, j1 + 1, skip, cmp, to_digit)
                }
            },
        }
    } else if i1 < l.len() {
        Ordering::Greater
    } else if j1 < r.len() {
        Ordering::Less
    } else {
        Ordering::Equal
    }
}

/// `n` as a mathematical integer.
pub open spec fn int_of(n: usize) -> int {
    n as int
}

/// The first position at or after `k` whose item `skip` does not accept,
/// or the length of `s`.
fn skip_items<T, S: Fn(&T) -> bool>(s: &[T], k: usize, skip: &S) -> (r: usize)
    requires
        k <= s.len(),
        total_fn(*skip),
    ensures
        k <= r <= s.len(),
        single_valued(*skip) ==> r == skip_end(s@, k as int, *skip),
{
    let mut p = k;
    loop
        invariant
            k <= p <= s.len(),
            total_fn(*skip),
            single_valued(*skip) ==> skip_end(s@, k as int, *skip) == skip_end(s@, p as int, *skip),
        ensures
            k <= p <= s.len(),
            single_valued(*skip) ==> skip_end(s@, k as int, *skip) == p,
        decreases s.len() - p,
    {
        if p >= s.len() {
            break;
        }
        let skipped = skip(&s[p]);
        proof {
            if single_valued(*skip) {
                lemma_answer(*skip, s@[p as int], skipped);
            }
        }
        if !skipped {
            break;
        }
        p = p + 1;
    }
    p
}

/// The digit of the item at position `k`, `None` past the end.
fn digit_item<T, D: Fn(&T) -> Option<isize>>(s: &[T], k: usize, to_digit: &D) -> (r: Option<
    isize,
>)
    requires
        total_fn(*to_digit),
    ensures
        r is Some ==> k < s.len(),
        single_valued(*to_digit) ==> r == digit_at(s@, k as int, *to_digit),
{
    if k < s.len() {
        let d = to_digit(&s[k]);
        proof {
            if single_valued(*to_digit) {
                lemma_answer(*to_digit, s@[k as int], d);
            }
        }
        d
    } else {
        None
    }
}

/// Walks two left-aligned digit runs that start at position `i` of `l` and
/// `j` of `r` with the digits `a` and `b`.  Returns how they decide the
/// comparison and, when they tie, their common length.
fn left_aligned_runs<T, D: Fn(&T) -> Option<isize>>(
    l: &[T],
    i: usize,
    r: &[T],
    j: usize,
    a: isize,
    b: isize,
    to_digit: &D,
) -> (res: (Option<Order>, usize))
    requires
        i < l.len(),
        j < r.len(),
        total_fn(*to_digit),
        call_ensures(*to_digit, (&l@[i as int],), Some(a)),
        call_ensures(*to_digit, (&r@[j as int],), Some(b)),
    ensures
        1 <= res.1,
        i + res.1 <= l.len(),
        j + res.1 <= r.len(),
        single_valued(*to_digit) ==> res.0 == digit_runs_outcome(
            l@,
            i as int,
            r@,
            j as int,
            true,
            *to_digit,
        ),
        single_valued(*to_digit) && res.0 is None ==> digit_end(l@, i as int, *to_digit) == i
            + res.1 && digit_end(r@, j as int, *to_digit) == j + res.1,
{
    let ghost det = single_valued(*to_digit);
    proof {
        if det {
            lemma_answer(*to_digit, l@[i as int], Some(a));
            lemma_answer(*to_digit, r@[j as int], Some(b));
            assert(digits_order(l@, i as int, r@, j as int, 0, *to_digit) == Order::Equal);
        }
    }
    if a != b {
        proof {
            if det {
                assert(digit_at(l@, i as int, *to_digit) is Some);
                assert(digit_at(r@, j as int, *to_digit) is Some);
                lemma_digit_end_ge(l@, i as int, 1, *to_digit);
                lemma_digit_end_ge(r@, j as int, 1, *to_digit);
                let la = digit_end(l@, i as int, *to_digit) - i;
                let lb = digit_end(r@, j as int, *to_digit) - j;
                lemma_digits_order_stable(
                    l@,
                    i as int,
                    r@,
                    j as int,
                    1,
                    if la < lb { la } else { lb },
                    *to_digit,
                );
            }
        }
        return (Some(order_isize(a, b)), 1);
    }
    let mut k: usize = 1;
    let mut outcome: Option<Order> = None;
    loop
        invariant_except_break
            outcome is None,
            det ==> digits_order(l@, i as int, r@, j as int, k as int, *to_digit) == Order::Equal,
        invariant
            1 <= k,
            i + k <= l.len(),
            j + k <= r.len(),
            total_fn(*to_digit),
            det == single_valued(*to_digit),
            det ==> forall|t: int| i <= t < i + k ==> #[trigger] digit_at(l@, t, *to_digit) is Some,
            det ==> forall|t: int| j <= t < j + k ==> #[trigger] digit_at(r@, t, *to_digit) is Some,
        ensures
            1 <= k,
            i + k <= l.len(),
            j + k <= r.len(),
            det ==> outcome == digit_runs_outcome(l@, i as int, r@, j as int, true, *to_digit),
            det && outcome is None ==> digit_end(l@, i as int, *to_digit) == i + k && digit_end(
                r@,
                j as int,
                *to_digit,
            ) == j + k,
        decreases l.len() - k,
    {
        let ll = digit_item(l, i + k, to_digit);
        let rr = digit_item(r, j + k, to_digit);
        proof {
            if det {
                lemma_digit_end_ge(l@, i as int, k as int, *to_digit);
                lemma_digit_end_ge(r@, j as int, k as int, *to_digit);
            }
        }
        match (ll, rr) {
            (Some(x), Some(y)) => {
                if x != y {
                    proof {
                        if det {
                            lemma_digit_end_ge(l@, i as int, k + 1, *to_digit);
                            lemma_digit_end_ge(r@, j as int, k + 1, *to_digit);
                            let la = digit_end(l@, i as int, *to_digit) - i;
                            let lb = digit_end(r@, j as int, *to_digit) - j;
                            lemma_digits_order_stable(
                                l@,
                                i as int,
                                r@,
                                j as int,
                                k + 1,
                                if la < lb { la } else { lb },
                                *to_digit,
                            );
                        }
                    }
                    outcome = Some(order_isize(x, y));
                    break;
                }
            },
            (Some(_), None) => {
                proof {
                    if det {
                        lemma_digit_end_at(r@, j as int, k as int, *to_digit);
                        lemma_digit_end_ge(l@, i as int, k + 1, *to_digit);
                    }
                }
                outcome = Some(Order::Greater);
                break;
            },
            (None, Some(_)) => {
                proof {
                    if det {
                        lemma_digit_end_at(l@, i as int, k as int, *to_digit);
                        lemma_digit_end_ge(r@, j as int, k + 1, *to_digit);
                    }
                }
                outcome = Some(Order::Less);
                break;
            },
            (None, None) => {
                proof {
                    if det {
                        lemma_digit_end_at(l@, i as int, k as int, *to_digit);
                        lemma_digit_end_at(r@, j as int, k as int, *to_digit);
                    }
                }
                break;
            },
        }
        k = k + 1;
    }
    (outcome, k)
}

/// Walks two right-aligned digit runs that start at position `i` of `l`
/// and `j` of `r` with the digits `a` and `b`.  Returns how they decide the
/// comparison and, when they tie, their common length.
fn right_aligned_runs<T, D: Fn(&T) -> Option<isize>>(
    l: &[T],
    i: usize,
    r: &[T],
    j: usize,
    a: isize,
    b: isize,
    to_digit: &D,
) -> (res: (Option<Order>, usize))
    requires
        i < l.len(),
        j < r.len(),
        total_fn(*to_digit),
        call_ensures(*to_digit, (&l@[i as int],), Some(a)),
        call_ensures(*to_digit, (&r@[j as int],), Some(b)),
    ensures
        1 <= res.1,
        i + res.1 <= l.len(),
        j + res.1 <= r.len(),
        single_valued(*to_digit) ==> res.0 == digit_runs_outcome(
            l@,
            i as int,
            r@,
            j as int,
            false,
            *to_digit,
        ),
        single_valued(*to_digit) && res.0 is None ==> digit_end(l@, i as int, *to_digit) == i
            + res.1 && digit_end(r@, j as int, *to_digit) == j + res.1,
{
    let ghost det = single_valued(*to_digit);
    proof {
        if det {
            lemma_answer(*to_digit, l@[i as int], Some(a));
            lemma_answer(*to_digit, r@[j as int], Some(b));
            assert(digits_order(l@, i as int, r@, j as int, 0, *to_digit) == Order::Equal);
        }
    }
    let mut last_order = order_isize(a, b);
    let mut k: usize = 1;
    let mut outcome: Option<Order> = None;
    loop
        invariant_except_break
            outcome is None,
        invariant
            1 <= k,
            i + k <= l.len(),
            j + k <= r.len(),
            total_fn(*to_digit),
            det == single_valued(*to_digit),
            det ==> forall|t: int| i <= t < i + k ==> #[trigger] digit_at(l@, t, *to_digit) is Some,
            det ==> forall|t: int| j <= t < j + k ==> #[trigger] digit_at(r@, t, *to_digit) is Some,
            det ==> last_order == digits_order(l@, i as int, r@, j as int, k as int, *to_digit),
        ensures
            1 <= k,
            i + k <= l.len(),
            j + k <= r.len(),
            det ==> outcome == digit_runs_outcome(l@, i as int, r@, j as int, false, *to_digit),
            det && outcome is None ==> digit_end(l@, i as int, *to_digit) == i + k && digit_end(
                r@,
                j as int,
                *to_digit,
            ) == j + k,
        decreases l.len() - k,
    {
        let ll = digit_item(l, i + k, to_digit);
        let rr = digit_item(r, j + k, to_digit);
        proof {
            if det {
                lemma_digit_end_ge(l@, i as int, k as int, *to_digit);
                lemma_digit_end_ge(r@, j as int, k as int, *to_digit);
            }
        }
        match (ll, rr) {
            (Some(x), Some(y)) => {
                if last_order == Order::Equal {
                    last_order = order_isize(x, y);
                }
            },
            (Some(_), None) => {
                proof {
                    if det {
                        lemma_digit_end_at(r@, j as int, k as int, *to_digit);
                        lemma_digit_end_ge(l@, i as int, k + 1, *to_digit);
                    }
                }
                outcome = Some(Order::Greater);
                break;
            },
            (None, Some(_)) => {
                proof {
                    if det {
                        lemma_digit_end_at(l@, i as int, k as int, *to_digit);
                        lemma_digit_end_ge(r@, j as int, k + 1, *to_digit);
                    }
                }
                outcome = Some(Order::Less);
                break;
            },
            (None, None) => {
                proof {
                    if det {
                        lemma_digit_end_at(l@, i as int, k as int, *to_digit);
                        lemma_digit_end_at(r@, j as int, k as int, *to_digit);
                    }
                }
                if last_order != Order::Equal {
                    outcome = Some(last_order);
                }
                break;
            },
        }
        k = k + 1;
    }
    (outcome, k)
}

/// Compares two sequences of "characters" possibly containing "digits".
/// The natural ordering can be customized with the following parameters:
///
/// * `skip` returns true if the "character" does not affect the comparison,
///   other than splitting two consecutive digits.
/// * `cmp` compares two "characters", assuming that they are not "digits";
///   it is called only on pairs that `to_digit` does not map both to digits.
/// * `to_digit` converts a "character" into a "digit" if possible. The digit
///   of zero is special.
///
/// Where each closure gives one answer for one argument, the result is
/// [`iter_order_from`] from the start of both sequences.
pub fn compare_iter<T, Skip: Fn(&T) -> bool, Cmp: Fn(&T, &T) -> Ordering, ToDigit: Fn(&T) -> Option<
    isize,
>>(left: &[T], right: &[T], skip: Skip, cmp: Cmp, to_digit: ToDigit) -> (r: Ordering)
    requires
        total_fn(skip),
        accepts_unless_both_digits(cmp, to_digit),
        total_fn(to_digit),
    ensures
        single_valued(skip) && single_valued2(cmp) && single_valued(to_digit) ==> r
            == iter_order_from(left@, right@, 0, 0, skip, cmp, to_digit),
{
    let ghost det = single_valued(skip) && single_valued2(cmp) && single_valued(to_digit);
    let mut i: usize = 0;
    let mut j: usize = 0;
    loop
        invariant
            i <= left.len(),
            j <= right.len(),
            total_fn(skip),
            accepts_unless_both_digits(cmp, to_digit),
            total_fn(to_digit),
            det == (single_valued(skip) && single_valued2(cmp) && single_valued(to_digit)),
            det ==> iter_order_from(left@, right@, int_of(i), int_of(j), skip, cmp, to_digit)
                == iter_order_from(left@, right@, 0, 0, skip, cmp, to_digit),
        decreases left.len() - i + right.len() - j,
    {
        let i1 = skip_items(left, i, &skip);
        let j1 = skip_items(right, j, &skip);
        if i1 < left.len() && j1 < right.len() {
            let dl = to_digit(&left[i1]);
            let dr = to_digit(&right[j1]);
            proof {
                if det {
                    lemma_answer(to_digit, left@[int_of(i1)], dl);
                    lemma_answer(to_digit, right@[int_of(j1)], dr);
                }
            }
            match (dl, dr) {
                (Some(a), Some(b)) => {
                    let (outcome, k) = if a == 0 || b == 0 {
                        left_aligned_runs(left, i1, right, j1, a, b, &to_digit)
                    } else {
                        right_aligned_runs(left, i1, right, j1, a, b, &to_digit)
                    };
                    match outcome {
                        Some(o) => {
                            return to_ordering(o);
                        },
                        None => {
                            i = i1 + k;
                            j = j1 + k;
                        },
                    }
                },
                _ => {
                    let c = cmp(&left[i1], &right[j1]);
                    proof {
                        if det {
                            lemma_answer2(cmp, left@[int_of(i1)], right@[int_of(j1)], c);
                        }
                    }
                    match c {
                        Ordering::Equal => {
                            i = i1 + 1;
                            j = j1 + 1;
                        },
                        _ => {
                            return c;
                        },
                    }
                },
            }
        } else if i1 < left.len() {
            return Ordering::Greater;
        } else if j1 < right.len() {
            return Ordering::Less;
        } else {
            return Ordering::Equal;
        }
    }
}

} // verus!
