//! Comparison state shared by the case-sensitive and case-insensitive
//! loops: the two current positions and the steps that move them.

use vstd::prelude::*;

use crate::byte_utils::{
    digit_run_end, digit_step, handle_digit_case, is_ascii_ws, is_digit, lemma_digit_run_end,
    lemma_ws_run_end, mismatch_from, simd_skip_equal, skip_whitespace, spec_is_digit, spec_is_ws,
    ws_run_end,
};
use crate::compare::{digit_goes_on, natural_order, natural_order_from};
use crate::compare_ignore_case::{ignore_case_order, ignore_case_order_from};
use crate::order::{
    lemma_first_diff_replace, lemma_first_diff_same, order_of, order_u8, order_usize, Order,
};
use crate::unicode::{bytes_from, char_at, char_len_at, lemma_char_len_at, scalar_at};

verus! {

/// The current positions of a comparison: `pa` in the left string and
/// `pb` in the right one.
pub struct CompareCtx {
    pub pa: usize,
    pub pb: usize}

/// The run of digits of `a` that starts at `k` inside a common prefix
/// `[0, p)` that does not end with a digit ends inside that prefix, at the
/// same place in `b`.
proof fn lemma_prefix_digit_run(a: Seq<u8>, b: Seq<u8>, k: int, p: int)
    requires
        0 <= k < p,
        p <= a.len(),
        p <= b.len(),
        forall|t: int| 0 <= t < p ==> #[trigger] a[t] == b[t],
        !spec_is_digit(a[p - 1]),
    ensures
        digit_run_end(a, k) < p,
        digit_run_end(b, k) == digit_run_end(a, k),
    decreases p - k,
{
    if spec_is_digit(a[k]) {
        assert(k + 1 < p);
        lemma_prefix_digit_run(a, b, k + 1, p);
    }
}

/// The same for runs of whitespace, in a prefix that does not end with
/// whitespace.
proof fn lemma_prefix_ws_run(a: Seq<u8>, b: Seq<u8>, k: int, p: int)
    requires
        0 <= k < p,
        p <= a.len(),
        p <= b.len(),
        forall|t: int| 0 <= t < p ==> #[trigger] a[t] == b[t],
        !spec_is_ws(a[p - 1]),
    ensures
        ws_run_end(a, k) < p,
        ws_run_end(b, k) == ws_run_end(a, k),
    decreases p - k,
{
    if spec_is_ws(a[k]) {
        assert(k + 1 < p);
        lemma_prefix_ws_run(a, b, k + 1, p);
    }
}

/// Inside a common prefix that ends with an ASCII byte, a whole character
/// starts at a non-ASCII byte of one string exactly when it starts there in
/// the other; it is the same character, and it ends inside the prefix.
proof fn lemma_prefix_scalar(a: Seq<u8>, b: Seq<u8>, k: int, p: int)
    requires
        0 <= k < p,
        p <= a.len(),
        p <= b.len(),
        forall|t: int| 0 <= t < p ==> #[trigger] a[t] == b[t],
        a[k] >= 128,
        a[p - 1] < 128,
    ensures
        scalar_at(a, k) == scalar_at(b, k),
        scalar_at(a, k) ==> char_at(a, k) == char_at(b, k) && char_len_at(a, k) == char_len_at(
            b,
            k,
        ) && k + char_len_at(a, k) < p,
{
    let sa = bytes_from(a, k);
    let sb = bytes_from(b, k);
    assert(sa[0] == a[k] && sb[0] == b[k] && a[k] == b[k]);
    if k + 1 < p {
        assert(sa[1] == a[k + 1] && sb[1] == b[k + 1] && a[k + 1] == b[k + 1]);
    }
    if k + 2 < p {
        assert(sa[2] == a[k + 2] && sb[2] == b[k + 2] && a[k + 2] == b[k + 2]);
    }
    if k + 3 < p {
        assert(sa[3] == a[k + 3] && sb[3] == b[k + 3] && a[k + 3] == b[k + 3]);
    }
    if k + 1 == p - 1 {
        assert(sa[1] < 128 && sb[1] < 128);
    }
    if k + 2 == p - 1 {
        assert(sa[2] < 128 && sb[2] < 128);
    }
}

/// Scanning a common prefix that ends with an ASCII byte outside any run of
/// digits or whitespace decides nothing: both comparisons go on at its end.
pub proof fn lemma_common_prefix_scan(a: Seq<u8>, b: Seq<u8>, k: int, p: int)
    requires
        0 <= k <= p,
        p <= a.len(),
        p <= b.len(),
        forall|t: int| 0 <= t < p ==> #[trigger] a[t] == b[t],
        p > 0 ==> !spec_is_digit(a[p - 1]) && !spec_is_ws(a[p - 1]) && a[p - 1] < 128,
    ensures
        natural_order_from(a, b, k, k) == natural_order_from(a, b, p, p),
        ignore_case_order_from(a, b, k, k) == ignore_case_order_from(a, b, p, p),
    decreases p - k,
{
    if k < p {
        assert(a[k] == b[k]);
        if spec_is_digit(a[k]) {
            lemma_prefix_digit_run(a, b, k, p);
            lemma_digit_run_end(a, k);
            lemma_digit_run_end(a, k + 1);
            lemma_digit_run_end(b, k);
            lemma_digit_run_end(b, k + 1);
            let e = digit_run_end(a, k);
            assert forall|t: int| 0 <= t < e - k implies #[trigger] b[k + t] == a[k + t] by {
                assert(a[k + t] == b[k + t]);
            }
            lemma_first_diff_replace(a, b, k, a, k, e - k);
            lemma_first_diff_same(a, k, e - k);
            lemma_common_prefix_scan(a, b, e, p);
        } else if spec_is_ws(a[k]) {
            lemma_prefix_ws_run(a, b, k, p);
            lemma_ws_run_end(a, k);
            lemma_ws_run_end(a, k + 1);
            lemma_ws_run_end(b, k);
            lemma_ws_run_end(b, k + 1);
            lemma_common_prefix_scan(a, b, ws_run_end(a, k), p);
        } else if a[k] >= 128 {
            lemma_prefix_scalar(a, b, k, p);
            lemma_common_prefix_scan(a, b, k + 1, p);
            if scalar_at(a, k) {
                lemma_char_len_at(a, k);
                lemma_common_prefix_scan(a, b, k + char_len_at(a, k), p);
            }
        } else {
            lemma_common_prefix_scan(a, b, k + 1, p);
        }
    }
}

/// Where a run of digits, whitespace or non-ASCII bytes that reaches up to
/// position `p` of `s` starts: `p` stepped back over every such byte just
/// before it.
pub open spec fn token_start(s: Seq<u8>, p: int) -> int
    decreases p,
{
    if 0 < p && (spec_is_digit(s[p - 1]) || spec_is_ws(s[p - 1]) || s[p - 1] >= 128) {
        token_start(s, p - 1)
    } else {
        p
    }
}

/// Where a comparison of `a` and `b` starts: the end of their common prefix,
/// stepped back to the start of the run it ends in.
pub open spec fn resume_point(a: Seq<u8>, b: Seq<u8>) -> int {
    let common_len = if a.len() < b.len() {
        a.len() as int
    } else {
        b.len() as int
    };
    token_start(a, mismatch_from(a, b, 0, common_len))
}

impl CompareCtx {
    /// Starts a comparison: skips the common prefix of both strings, then
    /// steps back to the start of the run of digits, whitespace or non-ASCII
    /// bytes it ends in, so that the comparison loop sees that run, and the
    /// characters in it, whole.
    pub fn new(a: &[u8], b: &[u8]) -> (r: Self)
        ensures
            r.pa == r.pb,
            r.pa == resume_point(a@, b@),
            r.pa <= a@.len(),
            r.pb <= b@.len(),
            natural_order_from(a@, b@, r.pa as int, r.pb as int) == natural_order(a@, b@),
            ignore_case_order_from(a@, b@, r.pa as int, r.pb as int) == ignore_case_order(a@, b@),
    {
        let common_len = if a.len() < b.len() {
            a.len()
        } else {
            b.len()
        };
        let mut p = simd_skip_equal(a, b, 0, common_len);
        while p > 0 && (is_digit(a[p - 1]) || is_ascii_ws(a[p - 1]) || a[p - 1] >= 128)
            invariant
                p <= common_len,
                common_len <= a@.len(),
                common_len <= b@.len(),
                forall|t: int| 0 <= t < p ==> #[trigger] a@[t] == b@[t],
                token_start(a@, p as int) == resume_point(a@, b@),
            decreases p,
        {
            p = p - 1;
        }
        proof {
            lemma_common_prefix_scan(a@, b@, 0, p as int);
        }
        CompareCtx { pa: p, pb: p }
    }

    /// Both current bytes when both positions are inside their strings;
    /// otherwise the order of the two remaining lengths.
    pub fn try_current(&self, a: &[u8], b: &[u8]) -> (r: Result<(u8, u8), Order>)
        requires
            self.pa <= a@.len(),
            self.pb <= b@.len(),
        ensures
            match r {
                Ok((ca, cb)) => self.pa < a@.len() && self.pb < b@.len() && ca == a@[self.pa as int]
                    && cb == b@[self.pb as int],
                Err(o) => !(self.pa < a@.len() && self.pb < b@.len()) && o == order_of(
                    a@.len() - self.pa,
                    b@.len() - self.pb,
                )},
    {
        if self.pa >= a.len() || self.pb >= b.len() {
            return Err(order_usize(a.len() - self.pa, b.len() - self.pb));
        }
        Ok((a[self.pa], b[self.pb]))
    }

    /// Handles the case where both current bytes are digits: compares the
    /// two digit runs, and moves past them when they are equal.
    pub fn handle_both_digits(&mut self, a: &[u8], b: &[u8]) -> (r: Option<Order>)
        requires
            old(self).pa < a@.len(),
            old(self).pb < b@.len(),
            spec_is_digit(a@[old(self).pa as int]),
            spec_is_digit(b@[old(self).pb as int]),
        ensures
            final(self).pa <= a@.len(),
            final(self).pb <= b@.len(),
            r == digit_step(
                a@,
                b@,
                old(self).pa as int,
                old(self).pb as int,
                a@[old(self).pa as int] == 48 || b@[old(self).pb as int] == 48,
            ),
            r is None ==> final(self).pa == digit_run_end(a@, old(self).pa as int)
                && final(self).pb == digit_run_end(b@, old(self).pb as int),
            r is None ==> final(self).pa > old(self).pa && final(self).pb > old(self).pb,
            r is Some ==> final(self).pa == old(self).pa && final(self).pb == old(self).pb,
    {
        proof {
            lemma_digit_run_end(a@, self.pa as int);
            lemma_digit_run_end(b@, self.pb as int);
            lemma_digit_run_end(a@, self.pa + 1);
            lemma_digit_run_end(b@, self.pb + 1);
        }
        let ca = a[self.pa];
        let cb = b[self.pb];
        let la0 = ca == 48u8;
        let lb0 = cb == 48u8;
        let (result, new_pa, new_pb) = handle_digit_case(a, b, self.pa, self.pb, la0 || lb0);
        if result.is_none() {
            self.pa = new_pa;
            self.pb = new_pb;
        }
        result
    }

    /// Where exactly one of the current bytes is a digit and it continues a
    /// digit run on its side, the digit run goes on on that side only: that
    /// side is greater.  See [`digit_goes_on`].
    pub fn check_digit_boundary(&self, a: &[u8], b: &[u8], ca: u8, cb: u8) -> (r: Option<Order>)
        requires
            self.pa < a@.len(),
            self.pb < b@.len(),
            ca == a@[self.pa as int],
            cb == b@[self.pb as int],
        ensures
            r == digit_goes_on(a@, b@, self.pa as int, self.pb as int),
    {
        let da = is_digit(ca);
        let db = is_digit(cb);
        if da && !db && self.pa > 0 && is_digit(a[self.pa - 1]) {
            return Some(Order::Greater);
        }
        if !da && db && self.pb > 0 && is_digit(b[self.pb - 1]) {
            return Some(Order::Less);
        }
        None
    }

    /// Order of two differing bytes.
    pub fn byte_order(&self, a: &[u8], b: &[u8], ca: u8, cb: u8) -> (r: Order)
        ensures
            r == order_of(ca as int, cb as int),
    {
        order_u8(ca, cb)
    }

    /// Skips ASCII whitespace on both sides.
    pub fn skip_ws(&mut self, a: &[u8], b: &[u8])
        requires
            old(self).pa < a@.len(),
            old(self).pb < b@.len(),
            spec_is_ws(a@[old(self).pa as int]) || spec_is_ws(b@[old(self).pb as int]),
        ensures
            final(self).pa == ws_run_end(a@, old(self).pa as int),
            final(self).pb == ws_run_end(b@, old(self).pb as int),
            final(self).pa <= a@.len(),
            final(self).pb <= b@.len(),
            old(self).pa <= final(self).pa,
            old(self).pb <= final(self).pb,
            final(self).pa + final(self).pb > old(self).pa + old(self).pb,
    {
        proof {
            lemma_ws_run_end(a@, self.pa as int);
            lemma_ws_run_end(b@, self.pb as int);
            lemma_ws_run_end(a@, self.pa + 1);
            lemma_ws_run_end(b@, self.pb + 1);
        }
        skip_whitespace(a, b, &mut self.pa, &mut self.pb);
    }

    /// Advances both positions by one byte.
    pub fn advance(&mut self, a: &[u8], b: &[u8])
        requires
            old(self).pa < a.len(),
            old(self).pb < b.len(),
        ensures
            final(self).pa == old(self).pa + 1,
            final(self).pb == old(self).pb + 1,
    {
        self.pa = self.pa + 1;
        self.pb = self.pb + 1;
    }
}

} // verus!
