//! Comparison of two equal-length byte windows.

use core::cmp::Ordering;
use vstd::prelude::*;

use super::skip_equal::{lemma_le_value_equal, load_u128, load_u64};
use crate::order::{
    first_diff, lemma_first_diff_skip, opt_ordering_of, order_u8, to_ordering, Order,
};

verus! {

/// `first_diff` on windows given by `usize` offsets and length.
pub open spec fn first_diff_at(a: Seq<u8>, ia: usize, b: Seq<u8>, ib: usize, len: usize) -> Option<
    Order,
> {
    first_diff(a, ia as int, b, ib as int, len as int)
}

/// The order of the first differing pair of bytes between
/// `a[ia..ia+len]` and `b[ib..ib+len]`, or `None` when they are equal.
///
/// Skips equal 16-byte words, then equal 8-byte words, then compares byte
/// by byte.
pub fn first_difference(a: &[u8], ia: usize, b: &[u8], ib: usize, len: usize) -> (r: Option<
    Order,
>)
    requires
        ia + len <= a@.len(),
        ib + len <= b@.len(),
    ensures
        r == first_diff(a@, ia as int, b@, ib as int, len as int),
{
    let mut k: usize = 0;
    while len - k >= 16
        invariant
            k <= len,
            ia + len <= a.len(),
            ib + len <= b.len(),
            forall|t: int| ia <= t < ia + k ==> #[trigger] a@[t] == b@[ib + (t - ia)],
        decreases len - k,
    {
        if load_u128(a, ia + k) != load_u128(b, ib + k) {
            break;
        }
        proof {
            lemma_le_value_equal(a@, ia + k, b@, ib + k, 16);
            assert forall|t: int| ia <= t < ia + k + 16 implies #[trigger] a@[t] == b@[ib + (t - ia)] by {
                if t >= ia + k {
                    assert(a@[ia + k + (t - ia - k)] == b@[ib + k + (t - ia - k)]);
                }
            }
        }
        k = k + 16;
    }
    while len - k >= 8
        invariant
            k <= len,
            ia + len <= a.len(),
            ib + len <= b.len(),
            forall|t: int| ia <= t < ia + k ==> #[trigger] a@[t] == b@[ib + (t - ia)],
        decreases len - k,
    {
        if load_u64(a, ia + k) != load_u64(b, ib + k) {
            break;
        }
        proof {
            lemma_le_value_equal(a@, ia + k, b@, ib + k, 8);
            assert forall|t: int| ia <= t < ia + k + 8 implies #[trigger] a@[t] == b@[ib + (t - ia)] by {
                if t >= ia + k {
                    assert(a@[ia + k + (t - ia - k)] == b@[ib + k + (t - ia - k)]);
                }
            }
        }
        k = k + 8;
    }
    while k < len
        invariant
            k <= len,
            ia + len <= a.len(),
            ib + len <= b.len(),
            forall|t: int| ia <= t < ia + k ==> #[trigger] a@[t] == b@[ib + (t - ia)],
        decreases len - k,
    {
        let va = a[ia + k];
        let vb = b[ib + k];
        if va != vb {
            proof {
                lemma_first_diff_skip(a@, ia as int, b@, ib as int, len as int, k as int);
            }
            return Some(order_u8(va, vb));
        }
        k = k + 1;
    }
    proof {
        lemma_first_diff_skip(a@, ia as int, b@, ib as int, len as int, len as int);
    }
    None
}

/// Compares two byte windows of equal length: `Some` of the order of the
/// first differing pair of bytes, or `None` if all `len` bytes are equal.
pub fn compare_word_at_a_time(a: &[u8], ia: usize, b: &[u8], ib: usize, len: usize) -> (r: Option<
    Ordering,
>)
    requires
        ia + len <= a@.len(),
        ib + len <= b@.len(),
    ensures
        r == opt_ordering_of(first_diff_at(a@, ia, b@, ib, len)),
{
    match first_difference(a, ia, b, ib, len) {
        Some(o) => Some(to_ordering(o)),
        None => None}
}

} // verus!
