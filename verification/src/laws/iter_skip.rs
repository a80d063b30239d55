//! `compare_iter` passes over skipped items, however many stand together.

use core::cmp::Ordering;
use vstd::prelude::*;

use crate::compare_iter::{
    answer, answer2, digit_at, digit_end, digit_runs_outcome, digits_order, iter_order_from,
    lemma_digit_end, lemma_skip_end, skip_end,
};

verus! {

/// Position `p` of a sequence, as it stands once the item at `k` is taken
/// out of the sequence.
pub open spec fn shift(k: int, p: int) -> int {
    if p <= k {
        p
    } else {
        p - 1
    }
}

/// The item at `k` of `l` is skipped, is no digit, and does not stand
/// between two digits: taking it out joins no two digit runs.
pub open spec fn removable<T, S: Fn(&T) -> bool, D: Fn(&T) -> Option<isize>>(
    l: Seq<T>,
    k: int,
    skip: S,
    to_digit: D,
) -> bool {
    &&& 0 <= k < l.len()
    &&& answer(skip, l[k])
    &&& answer(to_digit, l[k]) is None
    &&& !(0 < k && k + 1 < l.len() && answer(to_digit, l[k - 1]) is Some && answer(
        to_digit,
        l[k + 1],
    ) is Some)
}

/// Taking out the item at `k` moves every later item one place down.
proof fn lemma_remove<T>(l: Seq<T>, k: int)
    requires
        0 <= k < l.len(),
    ensures
        l.remove(k).len() == l.len() - 1,
        forall|p: int| 0 <= p < l.len() && p != k ==> #[trigger] l[p] == l.remove(k)[shift(k, p)],
{
    l.remove_ensures(k);
    assert forall|p: int| 0 <= p < l.len() && p != k implies #[trigger] l[p] == l.remove(k)[shift(
        k,
        p,
    )] by {
        if p > k {
            assert(l.remove(k)[p - 1] == l[p - 1 + 1]);
        }
    }
}

/// Skipping in the shorter sequence ends where skipping in the longer one
/// ends, moved down.
proof fn lemma_skip_end_remove<T, S: Fn(&T) -> bool>(l: Seq<T>, k: int, p: int, skip: S)
    requires
        0 <= k < l.len(),
        answer(skip, l[k]),
        0 <= p <= l.len(),
    ensures
        shift(k, skip_end(l, p, skip)) == skip_end(l.remove(k), shift(k, p), skip),
    decreases l.len() - p,
{
    lemma_remove(l, k);
    let l2 = l.remove(k);
    if p < l.len() {
        if p == k {
            lemma_skip_end_remove(l, k, p + 1, skip);
        } else {
            assert(l[p] == l2[shift(k, p)]);
            if answer(skip, l[p]) {
                lemma_skip_end_remove(l, k, p + 1, skip);
            }
        }
    }
}

/// A digit run that does not start at `k` ends in the shorter sequence
/// where it ends in the longer one, moved down.
proof fn lemma_digit_end_remove<T, S: Fn(&T) -> bool, D: Fn(&T) -> Option<isize>>(
    l: Seq<T>,
    k: int,
    p: int,
    skip: S,
    to_digit: D,
)
    requires
        removable(l, k, skip, to_digit),
        0 <= p <= l.len(),
        p != k,
    ensures
        shift(k, digit_end(l, p, to_digit)) == digit_end(l.remove(k), shift(k, p), to_digit),
    decreases l.len() - p,
{
    lemma_remove(l, k);
    let l2 = l.remove(k);
    if p < l.len() {
        assert(l[p] == l2[shift(k, p)]);
        if answer(to_digit, l[p]) is Some {
            if p + 1 == k {
                if k + 1 < l.len() {
                    assert(l2[k] == l[k + 1]);
                }
                assert(digit_end(l, k, to_digit) == k);
                assert(digit_end(l2, k, to_digit) == k);
                assert(digit_end(l2, p, to_digit) == digit_end(l2, k, to_digit));
            } else {
                lemma_digit_end_remove(l, k, p + 1, skip, to_digit);
            }
        }
    }
}

/// Digit windows that hold the same digits compare alike.
proof fn lemma_digits_order_window<T, D: Fn(&T) -> Option<isize>>(
    l: Seq<T>,
    i: int,
    l2: Seq<T>,
    i2: int,
    r: Seq<T>,
    j: int,
    n: int,
    to_digit: D,
)
    requires
        forall|t: int|
            0 <= t < n ==> #[trigger] digit_at(l, i + t, to_digit) == digit_at(l2, i2 + t, to_digit),
    ensures
        digits_order(l, i, r, j, n, to_digit) == digits_order(l2, i2, r, j, n, to_digit),
    decreases n,
{
    if n > 0 {
        lemma_digits_order_window(l, i, l2, i2, r, j, n - 1, to_digit);
        assert(digit_at(l, i + (n - 1), to_digit) == digit_at(l2, i2 + (n - 1), to_digit));
    }
}

/// A digit run decides against another as it did before the item at `k`
/// was taken out.
proof fn lemma_outcome_remove<T, S: Fn(&T) -> bool, D: Fn(&T) -> Option<isize>>(
    l: Seq<T>,
    k: int,
    i: int,
    r: Seq<T>,
    j: int,
    lz: bool,
    skip: S,
    to_digit: D,
)
    requires
        removable(l, k, skip, to_digit),
        0 <= i <= l.len(),
        i != k,
        0 <= j <= r.len(),
    ensures
        digit_runs_outcome(l, i, r, j, lz, to_digit) == digit_runs_outcome(
            l.remove(k),
            shift(k, i),
            r,
            j,
            lz,
            to_digit,
        ),
        shift(k, digit_end(l, i, to_digit)) == digit_end(l.remove(k), shift(k, i), to_digit),
{
    lemma_remove(l, k);
    let l2 = l.remove(k);
    lemma_digit_end(l, i, to_digit);
    lemma_digit_end_remove(l, k, i, skip, to_digit);
    let e = digit_end(l, i, to_digit);
    if i < k && e > k {
        assert(digit_at(l, k, to_digit) is Some);
    }
    let i2 = shift(k, i);
    assert(digit_end(l2, i2, to_digit) - i2 == e - i);
    assert forall|t: int| 0 <= t < e - i implies #[trigger] digit_at(l, i + t, to_digit)
        == digit_at(l2, i2 + t, to_digit) by {
        assert(digit_at(l, i + t, to_digit) is Some);
        assert(i + t != k);
        assert(shift(k, i + t) == i2 + t);
        assert(l[i + t] == l2[shift(k, i + t)]);
    }
    let lb = digit_end(r, j, to_digit) - j;
    let n = if e - i < lb {
        e - i
    } else {
        lb
    };
    assert forall|t: int| 0 <= t < n implies #[trigger] digit_at(l, i + t, to_digit) == digit_at(
        l2,
        i2 + t,
        to_digit,
    ) by {
        assert(digit_at(l, i + t, to_digit) == digit_at(l2, i2 + t, to_digit));
    }
    lemma_digits_order_window(l, i, l2, i2, r, j, n, to_digit);
}

/// Taking out a removable item leaves the order from matching positions
/// unchanged.
proof fn lemma_iter_remove<T, S: Fn(&T) -> bool, C: Fn(&T, &T) -> Ordering, D: Fn(
    &T,
) -> Option<isize>>(
    l: Seq<T>,
    k: int,
    r: Seq<T>,
    i: int,
    j: int,
    skip: S,
    cmp: C,
    to_digit: D,
)
    requires
        removable(l, k, skip, to_digit),
        0 <= i <= l.len(),
        0 <= j <= r.len(),
    ensures
        iter_order_from(l, r, i, j, skip, cmp, to_digit) == iter_order_from(
            l.remove(k),
            r,
            shift(k, i),
            j,
            skip,
            cmp,
            to_digit,
        ),
    decreases l.len() - i + r.len() - j,
{
    lemma_remove(l, k);
    let l2 = l.remove(k);
    lemma_skip_end(l, i, skip);
    lemma_skip_end(r, j, skip);
    lemma_skip_end(l2, shift(k, i), skip);
    lemma_skip_end_remove(l, k, i, skip);
    let i1 = skip_end(l, i, skip);
    let j1 = skip_end(r, j, skip);
    let i2 = shift(k, i1);
    if i1 < l.len() && j1 < r.len() {
        assert(i1 != k);
        assert(l[i1] == l2[i2]);
        match (answer(to_digit, l[i1]), answer(to_digit, r[j1])) {
            (Some(a), Some(b)) => {
                lemma_outcome_remove(l, k, i1, r, j1, a == 0 || b == 0, skip, to_digit);
                lemma_digit_end(l, i1, to_digit);
                lemma_digit_end(l, i1 + 1, to_digit);
                lemma_digit_end(r, j1, to_digit);
                lemma_digit_end(r, j1 + 1, to_digit);
                if digit_runs_outcome(l, i1, r, j1, a == 0 || b == 0, to_digit) is None {
                    lemma_iter_remove(
                        l,
                        k,
                        r,
                        digit_end(l, i1, to_digit),
                        digit_end(r, j1, to_digit),
                        skip,
                        cmp,
                        to_digit,
                    );
                }
            },
            _ => {
                if answer2(cmp, l[i1], r[j1]) == Ordering::Equal {
                    assert(shift(k, i1 + 1) == i2 + 1);
                    lemma_iter_remove(l, k, r, i1 + 1, j1 + 1, skip, cmp, to_digit);
                }
            },
        }
    }
}

/// Items that `skip` accepts do not affect `compare_iter`, however many
/// stand together: taking out of the left sequence a skipped item that is
/// no digit and does not stand between two digits leaves the result
/// unchanged.  So `"a  b"` and `"a b"` compare equal when spaces are
/// skipped.
pub proof fn law_compare_iter_ignores_skipped<T, S: Fn(&T) -> bool, C: Fn(&T, &T) -> Ordering, D: Fn(
    &T,
) -> Option<isize>>(l: Seq<T>, k: int, r: Seq<T>, skip: S, cmp: C, to_digit: D)
    requires
        removable(l, k, skip, to_digit),
    ensures
        iter_order_from(l, r, 0, 0, skip, cmp, to_digit) == iter_order_from(
            l.remove(k),
            r,
            0,
            0,
            skip,
            cmp,
            to_digit,
        ),
{
    lemma_iter_remove(l, k, r, 0, 0, skip, cmp, to_digit);
}

/// Digit windows that hold the same digits compare alike, on the right.
proof fn lemma_digits_order_window_right<T, D: Fn(&T) -> Option<isize>>(
    l: Seq<T>,
    i: int,
    r: Seq<T>,
    j: int,
    r2: Seq<T>,
    j2: int,
    n: int,
    to_digit: D,
)
    requires
        forall|t: int|
            0 <= t < n ==> #[trigger] digit_at(r, j + t, to_digit) == digit_at(r2, j2 + t, to_digit),
    ensures
        digits_order(l, i, r, j, n, to_digit) == digits_order(l, i, r2, j2, n, to_digit),
    decreases n,
{
    if n > 0 {
        lemma_digits_order_window_right(l, i, r, j, r2, j2, n - 1, to_digit);
        assert(digit_at(r, j + (n - 1), to_digit) == digit_at(r2, j2 + (n - 1), to_digit));
    }
}

/// A digit run decides against another as it did before the item at `k`
/// of the right sequence was taken out.
proof fn lemma_outcome_remove_right<T, S: Fn(&T) -> bool, D: Fn(&T) -> Option<isize>>(
    l: Seq<T>,
    i: int,
    r: Seq<T>,
    k: int,
    j: int,
    lz: bool,
    skip: S,
    to_digit: D,
)
    requires
        removable(r, k, skip, to_digit),
        0 <= i <= l.len(),
        0 <= j <= r.len(),
        j != k,
    ensures
        digit_runs_outcome(l, i, r, j, lz, to_digit) == digit_runs_outcome(
            l,
            i,
            r.remove(k),
            shift(k, j),
            lz,
            to_digit,
        ),
        shift(k, digit_end(r, j, to_digit)) == digit_end(r.remove(k), shift(k, j), to_digit),
{
    lemma_remove(r, k);
    let r2 = r.remove(k);
    lemma_digit_end(r, j, to_digit);
    lemma_digit_end_remove(r, k, j, skip, to_digit);
    let e = digit_end(r, j, to_digit);
    if j < k && e > k {
        assert(digit_at(r, k, to_digit) is Some);
    }
    let j2 = shift(k, j);
    assert(digit_end(r2, j2, to_digit) - j2 == e - j);
    assert forall|t: int| 0 <= t < e - j implies #[trigger] digit_at(r, j + t, to_digit)
        == digit_at(r2, j2 + t, to_digit) by {
        assert(digit_at(r, j + t, to_digit) is Some);
        assert(j + t != k);
        assert(shift(k, j + t) == j2 + t);
        assert(r[j + t] == r2[shift(k, j + t)]);
    }
    let la = digit_end(l, i, to_digit) - i;
    let n = if la < e - j {
        la
    } else {
        e - j
    };
    assert forall|t: int| 0 <= t < n implies #[trigger] digit_at(r, j + t, to_digit) == digit_at(
        r2,
        j2 + t,
        to_digit,
    ) by {
        assert(digit_at(r, j + t, to_digit) == digit_at(r2, j2 + t, to_digit));
    }
    lemma_digits_order_window_right(l, i, r, j, r2, j2, n, to_digit);
}

/// Taking out a removable item of the right sequence leaves the order from
/// matching positions unchanged.
proof fn lemma_iter_remove_right<T, S: Fn(&T) -> bool, C: Fn(&T, &T) -> Ordering, D: Fn(
    &T,
) -> Option<isize>>(
    l: Seq<T>,
    r: Seq<T>,
    k: int,
    i: int,
    j: int,
    skip: S,
    cmp: C,
    to_digit: D,
)
    requires
        removable(r, k, skip, to_digit),
        0 <= i <= l.len(),
        0 <= j <= r.len(),
    ensures
        iter_order_from(l, r, i, j, skip, cmp, to_digit) == iter_order_from(
            l,
            r.remove(k),
            i,
            shift(k, j),
            skip,
            cmp,
            to_digit,
        ),
    decreases l.len() - i + r.len() - j,
{
    lemma_remove(r, k);
    let r2 = r.remove(k);
    lemma_skip_end(l, i, skip);
    lemma_skip_end(r, j, skip);
    lemma_skip_end(r2, shift(k, j), skip);
    lemma_skip_end_remove(r, k, j, skip);
    let i1 = skip_end(l, i, skip);
    let j1 = skip_end(r, j, skip);
    let j2 = shift(k, j1);
    if i1 < l.len() && j1 < r.len() {
        assert(j1 != k);
        assert(r[j1] == r2[j2]);
        match (answer(to_digit, l[i1]), answer(to_digit, r[j1])) {
            (Some(a), Some(b)) => {
                lemma_outcome_remove_right(l, i1, r, k, j1, a == 0 || b == 0, skip, to_digit);
                lemma_digit_end(l, i1, to_digit);
                lemma_digit_end(l, i1 + 1, to_digit);
                lemma_digit_end(r, j1, to_digit);
                lemma_digit_end(r, j1 + 1, to_digit);
                if digit_runs_outcome(l, i1, r, j1, a == 0 || b == 0, to_digit) is None {
                    lemma_iter_remove_right(
                        l,
                        r,
                        k,
                        digit_end(l, i1, to_digit),
                        digit_end(r, j1, to_digit),
                        skip,
                        cmp,
                        to_digit,
                    );
                }
            },
            _ => {
                if answer2(cmp, l[i1], r[j1]) == Ordering::Equal {
                    assert(shift(k, j1 + 1) == j2 + 1);
                    lemma_iter_remove_right(l, r, k, i1 + 1, j1 + 1, skip, cmp, to_digit);
                }
            },
        }
    }
}

/// The same on the right: taking out of the right sequence a skipped item
/// that is no digit and does not stand between two digits leaves the
/// result of `compare_iter` unchanged.
pub proof fn law_compare_iter_ignores_skipped_right<T, S: Fn(&T) -> bool, C: Fn(
    &T,
    &T,
) -> Ordering, D: Fn(&T) -> Option<isize>>(l: Seq<T>, r: Seq<T>, k: int, skip: S, cmp: C, to_digit: D)
    requires
        removable(r, k, skip, to_digit),
    ensures
        iter_order_from(l, r, 0, 0, skip, cmp, to_digit) == iter_order_from(
            l,
            r.remove(k),
            0,
            0,
            skip,
            cmp,
            to_digit,
        ),
{
    lemma_iter_remove_right(l, r, k, 0, 0, skip, cmp, to_digit);
}

} // verus!
