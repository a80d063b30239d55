//! Three-way order values, as the specifications of this crate state them.
//!
//! The comparators compute an [`Order`] and hand it out as
//! `core::cmp::Ordering` at the public surface.

use core::cmp::Ordering;
use vstd::prelude::*;

verus! {

/// The outcome of a three-way comparison.
#[derive(PartialEq, Eq, Structural, Clone, Copy, Debug)]
pub enum Order {
    Less,
    Equal,
    Greater,
}

impl Order {
    /// The outcome of the same comparison with its operands swapped.
    pub open spec fn reversed(self) -> Order {
        match self {
            Order::Less => Order::Greater,
            Order::Equal => Order::Equal,
            Order::Greater => Order::Less,
        }
    }
}

/// The order of two integers.
pub open spec fn order_of(x: int, y: int) -> Order {
    if x < y {
        Order::Less
    } else if x == y {
        Order::Equal
    } else {
        Order::Greater
    }
}

/// `core::cmp::Ordering` value of an [`Order`].
pub open spec fn ordering_of(o: Order) -> Ordering {
    match o {
        Order::Less => Ordering::Less,
        Order::Equal => Ordering::Equal,
        Order::Greater => Ordering::Greater,
    }
}

/// `core::cmp::Ordering` value of an optional [`Order`].
pub open spec fn opt_ordering_of(o: Option<Order>) -> Option<Ordering> {
    match o {
        Some(x) => Some(ordering_of(x)),
        None => None,
    }
}

/// Converts an [`Order`] into `core::cmp::Ordering`.
pub fn to_ordering(o: Order) -> (r: Ordering)
    ensures
        r == ordering_of(o),
{
    match o {
        Order::Less => Ordering::Less,
        Order::Equal => Ordering::Equal,
        Order::Greater => Ordering::Greater,
    }
}

/// Order of two `usize` values.
pub fn order_usize(x: usize, y: usize) -> (r: Order)
    ensures
        r == order_of(x as int, y as int),
{
    if x < y {
        Order::Less
    } else if x == y {
        Order::Equal
    } else {
        Order::Greater
    }
}

/// Order of two bytes.
pub fn order_u8(x: u8, y: u8) -> (r: Order)
    ensures
        r == order_of(x as int, y as int),
{
    if x < y {
        Order::Less
    } else if x == y {
        Order::Equal
    } else {
        Order::Greater
    }
}

/// Order of two `u32` values.
pub fn order_u32(x: u32, y: u32) -> (r: Order)
    ensures
        r == order_of(x as int, y as int),
{
    if x < y {
        Order::Less
    } else if x == y {
        Order::Equal
    } else {
        Order::Greater
    }
}

/// The order of two `isize` values.
pub open spec fn isize_order(x: isize, y: isize) -> Order {
    if x < y {
        Order::Less
    } else if x == y {
        Order::Equal
    } else {
        Order::Greater
    }
}

/// Order of two `isize` values.
pub fn order_isize(x: isize, y: isize) -> (r: Order)
    ensures
        r == isize_order(x, y),
{
    if x < y {
        Order::Less
    } else if x == y {
        Order::Equal
    } else {
        Order::Greater
    }
}

/// The order of the first differing pair of bytes between `a[i..i+n]` and
/// `b[j..j+n]`, or `None` when the two windows hold the same bytes.
pub open spec fn first_diff(a: Seq<u8>, i: int, b: Seq<u8>, j: int, n: int) -> Option<Order>
    decreases n,
{
    if n <= 0 {
        None
    } else if a[i] != b[j] {
        Some(order_of(a[i] as int, b[j] as int))
    } else {
        first_diff(a, i + 1, b, j + 1, n - 1)
    }
}

/// Skipping a common prefix of equal bytes leaves `first_diff` unchanged.
pub proof fn lemma_first_diff_skip(a: Seq<u8>, i: int, b: Seq<u8>, j: int, n: int, k: int)
    requires
        0 <= k <= n,
        forall|t: int| i <= t < i + k ==> #[trigger] a[t] == b[j + (t - i)],
    ensures
        first_diff(a, i, b, j, n) == first_diff(a, i + k, b, j + k, n - k),
    decreases k,
{
    if k > 0 {
        assert(a[i] == b[j + (i - i)]);
        assert forall|t: int| i + 1 <= t < i + 1 + (k - 1) implies #[trigger] a[t] == b[j + 1 + (t - (i + 1))] by {
            assert(a[t] == b[j + (t - i)]);
        }
        lemma_first_diff_skip(a, i + 1, b, j + 1, n - 1, k - 1);
    }
}

/// Identical windows have no first difference.
pub proof fn lemma_first_diff_same(a: Seq<u8>, i: int, n: int)
    ensures
        first_diff(a, i, a, i, n) is None,
    decreases n,
{
    if n > 0 {
        lemma_first_diff_same(a, i + 1, n - 1);
    }
}

/// Swapping the two windows reverses the first difference.
pub proof fn lemma_first_diff_swap(a: Seq<u8>, i: int, b: Seq<u8>, j: int, n: int)
    ensures
        first_diff(b, j, a, i, n) == match first_diff(a, i, b, j, n) {
            Some(o) => Some(o.reversed()),
            None => None,
        },
    decreases n,
{
    if n > 0 && a[i] == b[j] {
        lemma_first_diff_swap(a, i + 1, b, j + 1, n - 1);
    }
}

/// A window without a first difference holds the same bytes on both sides.
pub proof fn lemma_first_diff_none(a: Seq<u8>, i: int, b: Seq<u8>, j: int, n: int)
    requires
        first_diff(a, i, b, j, n) is None,
    ensures
        forall|t: int| 0 <= t < n ==> #[trigger] a[i + t] == b[j + t],
    decreases n,
{
    if n > 0 {
        lemma_first_diff_none(a, i + 1, b, j + 1, n - 1);
        assert forall|t: int| 0 <= t < n implies #[trigger] a[i + t] == b[j + t] by {
            if t > 0 {
                assert(a[i + 1 + (t - 1)] == b[j + 1 + (t - 1)]);
            }
        }
    }
}

/// Replacing one side by a window with the same bytes keeps the first
/// difference.
pub proof fn lemma_first_diff_replace(a: Seq<u8>, a2: Seq<u8>, i: int, b: Seq<u8>, j: int, n: int)
    requires
        forall|t: int| 0 <= t < n ==> #[trigger] a2[i + t] == a[i + t],
    ensures
        first_diff(a2, i, b, j, n) == first_diff(a, i, b, j, n),
        first_diff(b, j, a2, i, n) == first_diff(b, j, a, i, n),
    decreases n,
{
    if n > 0 {
        assert(a2[i + 0] == a[i + 0]);
        assert forall|t: int| 0 <= t < n - 1 implies #[trigger] a2[i + 1 + t] == a[i + 1 + t] by {
            assert(a2[i + (t + 1)] == a[i + (t + 1)]);
        }
        lemma_first_diff_replace(a, a2, i + 1, b, j + 1, n - 1);
    }
}

/// A first difference is never `Equal`.
pub proof fn lemma_first_diff_not_equal(a: Seq<u8>, i: int, b: Seq<u8>, j: int, n: int)
    ensures
        first_diff(a, i, b, j, n) != Some(Order::Equal),
    decreases n,
{
    if n > 0 && a[i] == b[j] {
        lemma_first_diff_not_equal(a, i + 1, b, j + 1, n - 1);
    }
}

} // verus!
