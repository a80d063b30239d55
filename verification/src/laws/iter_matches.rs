//! `compare_iter`, given the character rules of `compare`, orders ASCII
//! text without whitespace as `compare` does.

use core::cmp::Ordering;
use vstd::prelude::*;
use vstd::utf8::{encode_utf8, is_ascii_chars, is_ascii_chars_encode_utf8};

use crate::byte_utils::{digit_run_end, digit_step, lemma_digit_run_end, spec_is_digit, spec_is_ws};
use crate::compare::{after_digit, natural_order, natural_order_from};
use crate::compare_iter::{
    answer, answer2, digit_at, digit_end, digits_order, iter_order_from, lemma_digit_end, skip_end,
};
use crate::laws::no_whitespace;
use crate::laws::total_order::settled;
use crate::order::{
    first_diff, isize_order, lemma_first_diff_not_equal, order_of, ordering_of, Order,
};

verus! {

/// The decimal digit that `c` stands for, if it is one of `0`–`9`.
pub open spec fn decimal_digit(c: char) -> Option<isize> {
    if '0' <= c <= '9' {
        Some(((c as u32) - 48) as isize)
    } else {
        None
    }
}

/// The order of two characters by scalar value.
pub open spec fn char_order(x: char, y: char) -> Order {
    order_of(x as int, y as int)
}

/// On ASCII characters, digits, the digit zero and the order of characters
/// are those of their bytes.
proof fn lemma_ascii_chars_as_bytes(a: Seq<char>, b: Seq<char>, i: int, j: int)
    requires
        is_ascii_chars(a),
        is_ascii_chars(b),
        0 <= i < a.len(),
        0 <= j < b.len(),
    ensures
        encode_utf8(a).len() == a.len(),
        encode_utf8(b).len() == b.len(),
        spec_is_digit(encode_utf8(a)[i]) == decimal_digit(a[i]) is Some,
        spec_is_digit(encode_utf8(b)[j]) == decimal_digit(b[j]) is Some,
        (decimal_digit(a[i]) == Some(0isize)) == (encode_utf8(a)[i] == 48),
        (decimal_digit(b[j]) == Some(0isize)) == (encode_utf8(b)[j] == 48),
        char_order(a[i], b[j]) == order_of(encode_utf8(a)[i] as int, encode_utf8(b)[j] as int),
        decimal_digit(a[i]) is Some && decimal_digit(b[j]) is Some ==> isize_order(
            decimal_digit(a[i]).unwrap(),
            decimal_digit(b[j]).unwrap(),
        ) == order_of(encode_utf8(a)[i] as int, encode_utf8(b)[j] as int),
{
    is_ascii_chars_encode_utf8(a);
    is_ascii_chars_encode_utf8(b);
    assert(a[i] as u8 == encode_utf8(a)[i]);
    assert(b[j] as u8 == encode_utf8(b)[j]);
    assert('\0' <= a[i] <= '\u{7f}');
    assert('\0' <= b[j] <= '\u{7f}');
}

/// `first_diff` over `n + 1` positions is `first_diff` over the first `n`,
/// or else the order at the last position.
proof fn lemma_first_diff_snoc(x: Seq<u8>, i: int, y: Seq<u8>, j: int, n: int)
    requires
        0 <= n,
    ensures
        first_diff(x, i, y, j, n + 1) == match first_diff(x, i, y, j, n) {
            Some(o) => Some(o),
            None => if x[i + n] != y[j + n] {
                Some(order_of(x[i + n] as int, y[j + n] as int))
            } else {
                None
            }},
    decreases n,
{
    if n > 0 && x[i] == y[j] {
        lemma_first_diff_snoc(x, i + 1, y, j + 1, n - 1);
        assert(i + 1 + (n - 1) == i + n);
        assert(j + 1 + (n - 1) == j + n);
    } else if n == 0 {
        assert(first_diff(x, i + 1, y, j + 1, 0) is None);
        assert(first_diff(x, i, y, j, 0) is None);
    }
}

/// Every character of `s` has the digit `decimal_digit` gives it.
pub open spec fn digits_of_chars<D: Fn(&char) -> Option<isize>>(s: Seq<char>, to_digit: D) -> bool {
    forall|k: int| 0 <= k < s.len() ==> #[trigger] answer(to_digit, s[k]) == decimal_digit(s[k])
}

proof fn lemma_digit_end_as_bytes<D: Fn(&char) -> Option<isize>>(
    a: Seq<char>,
    k: int,
    to_digit: D,
)
    requires
        is_ascii_chars(a),
        digits_of_chars(a, to_digit),
        0 <= k <= a.len(),
    ensures
        digit_end(a, k, to_digit) == digit_run_end(encode_utf8(a), k),
    decreases a.len() - k,
{
    is_ascii_chars_encode_utf8(a);
    if k < a.len() {
        lemma_ascii_chars_as_bytes(a, a, k, k);
        assert(answer(to_digit, a[k]) == decimal_digit(a[k]));
        lemma_digit_end_as_bytes(a, k + 1, to_digit);
    }
}

proof fn lemma_digits_order_as_bytes<D: Fn(&char) -> Option<isize>>(
    a: Seq<char>,
    b: Seq<char>,
    i: int,
    n: int,
    to_digit: D,
)
    requires
        is_ascii_chars(a),
        is_ascii_chars(b),
        digits_of_chars(a, to_digit),
        digits_of_chars(b, to_digit),
        0 <= i,
        0 <= n,
        i + n <= a.len(),
        i + n <= b.len(),
        forall|t: int| i <= t < i + n ==> #[trigger] decimal_digit(a[t]) is Some,
        forall|t: int| i <= t < i + n ==> #[trigger] decimal_digit(b[t]) is Some,
    ensures
        digits_order(a, i, b, i, n, to_digit) == match first_diff(
            encode_utf8(a),
            i,
            encode_utf8(b),
            i,
            n,
        ) {
            Some(o) => o,
            None => Order::Equal},
    decreases n,
{
    if n > 0 {
        lemma_digits_order_as_bytes(a, b, i, n - 1, to_digit);
        lemma_first_diff_snoc(encode_utf8(a), i, encode_utf8(b), i, n - 1);
        lemma_first_diff_not_equal(encode_utf8(a), i, encode_utf8(b), i, n - 1);
        let k = i + n - 1;
        assert(decimal_digit(a[k]) is Some && decimal_digit(b[k]) is Some);
        assert(answer(to_digit, a[k]) == decimal_digit(a[k]));
        assert(answer(to_digit, b[k]) == decimal_digit(b[k]));
        lemma_ascii_chars_as_bytes(a, b, k, k);
    }
}

/// `skip` passes over no character of `s`.
pub open spec fn skips_nothing<S: Fn(&char) -> bool>(s: Seq<char>, skip: S) -> bool {
    forall|k: int| 0 <= k < s.len() ==> !#[trigger] answer(skip, s[k])
}

/// `order_items` orders characters by scalar value.
pub open spec fn orders_by_value<C: Fn(&char, &char) -> Ordering>(order_items: C) -> bool {
    forall|x: char, y: char| #[trigger] answer2(order_items, x, y) == ordering_of(char_order(x, y))
}

proof fn lemma_iter_matches_from<S: Fn(&char) -> bool, C: Fn(&char, &char) -> Ordering, D: Fn(
    &char,
) -> Option<isize>>(a: Seq<char>, b: Seq<char>, i: int, skip: S, order_items: C, to_digit: D)
    requires
        is_ascii_chars(a),
        is_ascii_chars(b),
        no_whitespace(encode_utf8(a)),
        no_whitespace(encode_utf8(b)),
        skips_nothing(a, skip),
        skips_nothing(b, skip),
        orders_by_value(order_items),
        digits_of_chars(a, to_digit),
        digits_of_chars(b, to_digit),
        0 <= i <= a.len(),
        i <= b.len(),
        i > 0 ==> encode_utf8(a)[i - 1] == encode_utf8(b)[i - 1],
        settled(encode_utf8(a), i),
        settled(encode_utf8(b), i),
    ensures
        iter_order_from(a, b, i, i, skip, order_items, to_digit) == ordering_of(
            natural_order_from(encode_utf8(a), encode_utf8(b), i, i),
        ),
    decreases a.len() - i,
{
    let ba = encode_utf8(a);
    let bb = encode_utf8(b);
    is_ascii_chars_encode_utf8(a);
    is_ascii_chars_encode_utf8(b);
    if i < a.len() {
        assert(!answer(skip, a[i]));
    }
    if i < b.len() {
        assert(!answer(skip, b[i]));
    }
    assert(skip_end(a, i, skip) == i);
    assert(skip_end(b, i, skip) == i);
    if i < a.len() && i < b.len() {
        lemma_ascii_chars_as_bytes(a, b, i, i);
        assert(answer(to_digit, a[i]) == decimal_digit(a[i]));
        assert(answer(to_digit, b[i]) == decimal_digit(b[i]));
        assert(!spec_is_ws(ba[i]) && !spec_is_ws(bb[i]));
        if decimal_digit(a[i]) is Some && decimal_digit(b[i]) is Some {
            lemma_digit_end_as_bytes(a, i, to_digit);
            lemma_digit_end_as_bytes(b, i, to_digit);
            lemma_digit_run_end(ba, i);
            lemma_digit_run_end(bb, i);
            lemma_digit_end(a, i, to_digit);
            lemma_digit_end(b, i, to_digit);
            let ka = digit_run_end(ba, i) - i;
            let kb = digit_run_end(bb, i) - i;
            let m = if ka < kb {
                ka
            } else {
                kb
            };
            assert forall|t: int| i <= t < i + m implies #[trigger] decimal_digit(a[t]) is Some by {
                assert(digit_at(a, t, to_digit) is Some);
                assert(answer(to_digit, a[t]) == decimal_digit(a[t]));
            }
            assert forall|t: int| i <= t < i + m implies #[trigger] decimal_digit(b[t]) is Some by {
                assert(digit_at(b, t, to_digit) is Some);
                assert(answer(to_digit, b[t]) == decimal_digit(b[t]));
            }
            lemma_digits_order_as_bytes(a, b, i, m, to_digit);
            lemma_first_diff_not_equal(ba, i, bb, i, m);
            if ka == kb {
                assert forall|t: int| i <= t < i + ka implies #[trigger] decimal_digit(a[t]) is Some by {
                    assert(digit_at(a, t, to_digit) is Some);
                    assert(answer(to_digit, a[t]) == decimal_digit(a[t]));
                }
            }
            let lz = ba[i] == 48 || bb[i] == 48;
            if digit_step(ba, bb, i, i, lz) is None {
                lemma_digit_run_end(ba, i + 1);
                lemma_digit_run_end(bb, i + 1);
                let e = digit_run_end(ba, i);
                assert(spec_is_digit(ba[e - 1]));
                lemma_first_diff_none_at(ba, i, bb, i, ka, e - 1 - i);
                lemma_iter_matches_from(a, b, e, skip, order_items, to_digit);
            }
        } else {
            assert(answer2(order_items, a[i], b[i]) == ordering_of(char_order(a[i], b[i])));
            assert(after_digit(ba, i) == after_digit(bb, i));
            if ba[i] == bb[i] {
                lemma_iter_matches_from(a, b, i + 1, skip, order_items, to_digit);
            }
        }
    }
}

/// With no first difference, the bytes at any given place of the windows
/// are equal.
proof fn lemma_first_diff_none_at(x: Seq<u8>, i: int, y: Seq<u8>, j: int, n: int, t: int)
    requires
        first_diff(x, i, y, j, n) is None,
        0 <= t < n,
    ensures
        x[i + t] == y[j + t],
    decreases n,
{
    if t > 0 {
        lemma_first_diff_none_at(x, i + 1, y, j + 1, n - 1, t - 1);
    }
}

/// `compare_iter` with the character rules of `compare` (nothing skipped,
/// characters ordered by value, `0`–`9` as digits) orders ASCII text
/// without whitespace as `compare` orders its bytes.
pub proof fn law_compare_iter_matches_compare<S: Fn(&char) -> bool, C: Fn(&char, &char) -> Ordering, D: Fn(
    &char,
) -> Option<isize>>(a: Seq<char>, b: Seq<char>, skip: S, order_items: C, to_digit: D)
    requires
        is_ascii_chars(a),
        is_ascii_chars(b),
        no_whitespace(encode_utf8(a)),
        no_whitespace(encode_utf8(b)),
        skips_nothing(a, skip),
        skips_nothing(b, skip),
        orders_by_value(order_items),
        digits_of_chars(a, to_digit),
        digits_of_chars(b, to_digit),
    ensures
        iter_order_from(a, b, 0, 0, skip, order_items, to_digit) == ordering_of(
            natural_order(encode_utf8(a), encode_utf8(b)),
        ),
{
    lemma_iter_matches_from(a, b, 0, skip, order_items, to_digit);
}

} // verus!
