//! Laws of `compare_iter`.

use core::cmp::Ordering;
use vstd::prelude::*;

use crate::compare_iter::{
    answer, answer2, digit_end, digit_runs_outcome, digits_order, iter_order_from, lemma_digit_end,
    lemma_skip_end, skip_end,
};
use crate::order::Order;

verus! {

/// The outcome of the same comparison with its operands swapped.
pub open spec fn reversed_ordering(o: Ordering) -> Ordering {
    match o {
        Ordering::Less => Ordering::Greater,
        Ordering::Equal => Ordering::Equal,
        Ordering::Greater => Ordering::Less,
    }
}

proof fn lemma_digits_order_same<T, D: Fn(&T) -> Option<isize>>(
    l: Seq<T>,
    i: int,
    n: int,
    to_digit: D,
)
    ensures
        digits_order(l, i, l, i, n, to_digit) == Order::Equal,
    decreases n,
{
    if n > 0 {
        lemma_digits_order_same(l, i, n - 1, to_digit);
    }
}

proof fn lemma_digits_order_swap<T, D: Fn(&T) -> Option<isize>>(
    l: Seq<T>,
    i: int,
    r: Seq<T>,
    j: int,
    n: int,
    to_digit: D,
)
    ensures
        digits_order(r, j, l, i, n, to_digit) == digits_order(l, i, r, j, n, to_digit).reversed(),
    decreases n,
{
    if n > 0 {
        lemma_digits_order_swap(l, i, r, j, n - 1, to_digit);
    }
}

proof fn lemma_iter_reflexive_from<T, S: Fn(&T) -> bool, C: Fn(&T, &T) -> Ordering, D: Fn(
    &T,
) -> Option<isize>>(l: Seq<T>, i: int, skip: S, cmp: C, to_digit: D)
    requires
        0 <= i <= l.len(),
        forall|x: T| #[trigger] answer2(cmp, x, x) == Ordering::Equal,
    ensures
        iter_order_from(l, l, i, i, skip, cmp, to_digit) == Ordering::Equal,
    decreases l.len() - i,
{
    lemma_skip_end(l, i, skip);
    let i1 = skip_end(l, i, skip);
    if i1 < l.len() {
        match answer(to_digit, l[i1]) {
            Some(a) => {
                lemma_digit_end(l, i1, to_digit);
                lemma_digit_end(l, i1 + 1, to_digit);
                lemma_digits_order_same(l, i1, digit_end(l, i1, to_digit) - i1, to_digit);
                assert(digit_runs_outcome(l, i1, l, i1, a == 0 || a == 0, to_digit) is None);
                lemma_iter_reflexive_from(l, digit_end(l, i1, to_digit), skip, cmp, to_digit);
            },
            None => {
                assert(answer2(cmp, l[i1], l[i1]) == Ordering::Equal);
                lemma_iter_reflexive_from(l, i1 + 1, skip, cmp, to_digit);
            },
        }
    }
}

/// `compare_iter` finds every sequence equal to itself when `cmp` finds
/// every item equal to itself.
pub proof fn law_compare_iter_reflexive<T, S: Fn(&T) -> bool, C: Fn(&T, &T) -> Ordering, D: Fn(
    &T,
) -> Option<isize>>(l: Seq<T>, skip: S, cmp: C, to_digit: D)
    requires
        forall|x: T| #[trigger] answer2(cmp, x, x) == Ordering::Equal,
    ensures
        iter_order_from(l, l, 0, 0, skip, cmp, to_digit) == Ordering::Equal,
{
    lemma_iter_reflexive_from(l, 0, skip, cmp, to_digit);
}

proof fn lemma_iter_antisymmetric_from<T, S: Fn(&T) -> bool, C: Fn(&T, &T) -> Ordering, D: Fn(
    &T,
) -> Option<isize>>(l: Seq<T>, r: Seq<T>, i: int, j: int, skip: S, cmp: C, to_digit: D)
    requires
        0 <= i <= l.len(),
        0 <= j <= r.len(),
        forall|x: T, y: T| #[trigger] answer2(cmp, y, x) == reversed_ordering(answer2(cmp, x, y)),
    ensures
        iter_order_from(r, l, j, i, skip, cmp, to_digit) == reversed_ordering(
            iter_order_from(l, r, i, j, skip, cmp, to_digit),
        ),
    decreases l.len() - i + r.len() - j,
{
    lemma_skip_end(l, i, skip);
    lemma_skip_end(r, j, skip);
    let i1 = skip_end(l, i, skip);
    let j1 = skip_end(r, j, skip);
    if i1 < l.len() && j1 < r.len() {
        match (answer(to_digit, l[i1]), answer(to_digit, r[j1])) {
            (Some(a), Some(b)) => {
                lemma_digit_end(l, i1, to_digit);
                lemma_digit_end(r, j1, to_digit);
                let la = digit_end(l, i1, to_digit) - i1;
                let lb = digit_end(r, j1, to_digit) - j1;
                let m = if la < lb {
                    la
                } else {
                    lb
                };
                lemma_digits_order_swap(l, i1, r, j1, m, to_digit);
                assert(digit_runs_outcome(r, j1, l, i1, b == 0 || a == 0, to_digit) == match digit_runs_outcome(
                    l,
                    i1,
                    r,
                    j1,
                    a == 0 || b == 0,
                    to_digit,
                ) {
                    Some(o) => Some(o.reversed()),
                    None => None,
                });
                if digit_runs_outcome(l, i1, r, j1, a == 0 || b == 0, to_digit) is None {
                    lemma_digit_end(l, i1 + 1, to_digit);
                    lemma_digit_end(r, j1 + 1, to_digit);
                    lemma_iter_antisymmetric_from(
                        l,
                        r,
                        digit_end(l, i1, to_digit),
                        digit_end(r, j1, to_digit),
                        skip,
                        cmp,
                        to_digit,
                    );
                }
            },
            _ => {
                assert(answer2(cmp, r[j1], l[i1]) == reversed_ordering(answer2(cmp, l[i1], r[j1])));
                lemma_iter_antisymmetric_from(l, r, i1 + 1, j1 + 1, skip, cmp, to_digit);
            },
        }
    }
}

/// Swapping the sequences given to `compare_iter` reverses its result when
/// `cmp` is antisymmetric.
pub proof fn law_compare_iter_antisymmetric<T, S: Fn(&T) -> bool, C: Fn(&T, &T) -> Ordering, D: Fn(
    &T,
) -> Option<isize>>(l: Seq<T>, r: Seq<T>, skip: S, cmp: C, to_digit: D)
    requires
        forall|x: T, y: T| #[trigger] answer2(cmp, y, x) == reversed_ordering(answer2(cmp, x, y)),
    ensures
        iter_order_from(r, l, 0, 0, skip, cmp, to_digit) == reversed_ordering(
            iter_order_from(l, r, 0, 0, skip, cmp, to_digit),
        ),
{
    lemma_iter_antisymmetric_from(l, r, 0, 0, skip, cmp, to_digit);
}

} // verus!
