//! A common prefix without whitespace, ending outside a digit run, does not
//! change how `compare` orders two strings.

use vstd::prelude::*;

use crate::byte_utils::{
    digit_run_end, digit_step, lemma_digit_run_end, lemma_ws_run_end, spec_is_digit, spec_is_ws,
    ws_run_end,
};
use crate::compare::{after_digit, natural_order, natural_order_from};
use crate::laws::no_whitespace;
use crate::order::first_diff;

verus! {

proof fn lemma_runs_shift(p: Seq<u8>, x: Seq<u8>, i: int)
    requires
        0 <= i <= x.len(),
    ensures
        digit_run_end(p + x, p.len() + i) == p.len() + digit_run_end(x, i),
        ws_run_end(p + x, p.len() + i) == p.len() + ws_run_end(x, i),
    decreases x.len() - i,
{
    if i < x.len() {
        assert((p + x)[p.len() + i] == x[i]);
        lemma_runs_shift(p, x, i + 1);
    }
}

proof fn lemma_first_diff_shift(p: Seq<u8>, x: Seq<u8>, i: int, q: Seq<u8>, y: Seq<u8>, j: int, n: int)
    requires
        0 <= i,
        0 <= j,
        i + n <= x.len(),
        j + n <= y.len(),
    ensures
        first_diff(p + x, p.len() + i, q + y, q.len() + j, n) == first_diff(x, i, y, j, n),
    decreases n,
{
    if n > 0 {
        assert((p + x)[p.len() + i] == x[i]);
        assert((q + y)[q.len() + j] == y[j]);
        lemma_first_diff_shift(p, x, i + 1, q, y, j + 1, n - 1);
    }
}

proof fn lemma_digit_step_shift(p: Seq<u8>, x: Seq<u8>, i: int, q: Seq<u8>, y: Seq<u8>, j: int, lz: bool)
    requires
        0 <= i <= x.len(),
        0 <= j <= y.len(),
    ensures
        digit_step(p + x, q + y, p.len() + i, q.len() + j, lz) == digit_step(x, y, i, j, lz),
{
    lemma_runs_shift(p, x, i);
    lemma_runs_shift(q, y, j);
    lemma_digit_run_end(x, i);
    lemma_digit_run_end(y, j);
    let ka = digit_run_end(x, i) - i;
    let kb = digit_run_end(y, j) - j;
    let m = if ka < kb {
        ka
    } else {
        kb
    };
    lemma_first_diff_shift(p, x, i, q, y, j, m);
    if ka == kb {
        lemma_first_diff_shift(p, x, i, q, y, j, ka);
    }
}

/// Comparing after prefixes is comparing the rest, once the byte before
/// each position says the same in both views.
proof fn lemma_natural_order_shift(p: Seq<u8>, x: Seq<u8>, i: int, q: Seq<u8>, y: Seq<u8>, j: int)
    requires
        0 <= i <= x.len(),
        0 <= j <= y.len(),
        after_digit(p + x, p.len() + i) == after_digit(x, i),
        after_digit(q + y, q.len() + j) == after_digit(y, j),
    ensures
        natural_order_from(p + x, q + y, p.len() + i, q.len() + j) == natural_order_from(x, y, i, j),
    decreases x.len() - i + y.len() - j,
{
    let a = p + x;
    let b = q + y;
    let pi = p.len() + i;
    let qj = q.len() + j;
    if i < x.len() && j < y.len() {
        assert(a[pi] == x[i] && b[qj] == y[j]);
        let ca = x[i];
        let cb = y[j];
        lemma_runs_shift(p, x, i);
        lemma_runs_shift(q, y, j);
        lemma_runs_shift(p, x, i + 1);
        lemma_runs_shift(q, y, j + 1);
        lemma_digit_run_end(x, i);
        lemma_digit_run_end(y, j);
        lemma_digit_run_end(x, i + 1);
        lemma_digit_run_end(y, j + 1);
        lemma_ws_run_end(x, i);
        lemma_ws_run_end(y, j);
        lemma_ws_run_end(x, i + 1);
        lemma_ws_run_end(y, j + 1);
        if spec_is_digit(ca) && spec_is_digit(cb) {
            lemma_digit_step_shift(p, x, i, q, y, j, ca == 48 || cb == 48);
            if digit_step(x, y, i, j, ca == 48 || cb == 48) is None {
                let ea = digit_run_end(x, i);
                let eb = digit_run_end(y, j);
                assert(a[p.len() + ea - 1] == x[ea - 1]);
                assert(b[q.len() + eb - 1] == y[eb - 1]);
                lemma_natural_order_shift(p, x, ea, q, y, eb);
            }
        } else if ca != cb {
            if spec_is_ws(ca) || spec_is_ws(cb) {
                let ea = ws_run_end(x, i);
                let eb = ws_run_end(y, j);
                if ea > i {
                    assert(a[p.len() + ea - 1] == x[ea - 1]);
                }
                if eb > j {
                    assert(b[q.len() + eb - 1] == y[eb - 1]);
                }
                lemma_natural_order_shift(p, x, ea, q, y, eb);
            }
        } else if spec_is_ws(ca) {
            let ea = ws_run_end(x, i);
            let eb = ws_run_end(y, j);
            assert(a[p.len() + ea - 1] == x[ea - 1]);
            assert(b[q.len() + eb - 1] == y[eb - 1]);
            lemma_natural_order_shift(p, x, ea, q, y, eb);
        } else {
            assert(a[pi] == x[i]);
            assert(b[qj] == y[j]);
            lemma_natural_order_shift(p, x, i + 1, q, y, j + 1);
        }
    }
}

/// Scanning a common prefix without whitespace that does not end inside a
/// digit run settles nothing.
proof fn lemma_scan_prefix(p: Seq<u8>, x: Seq<u8>, y: Seq<u8>, k: int)
    requires
        no_whitespace(p),
        p.len() > 0 ==> !spec_is_digit(p[p.len() - 1]),
        0 <= k <= p.len(),
    ensures
        natural_order_from(p + x, p + y, k, k) == natural_order_from(p + x, p + y, p.len() as int, p.len() as int),
    decreases p.len() - k,
{
    let a = p + x;
    let b = p + y;
    if k < p.len() {
        assert(a[k] == p[k] && b[k] == p[k]);
        assert(!spec_is_ws(p[k]));
        if spec_is_digit(p[k]) {
            lemma_digit_run_end(p, k);
            lemma_digit_run_end(p, k + 1);
            let e = digit_run_end(p, k);
            assert(e < p.len()) by {
                if e == p.len() {
                    assert(spec_is_digit(p[p.len() - 1]));
                }
            }
            lemma_digit_run_end_in_prefix(p, x, k);
            lemma_digit_run_end_in_prefix(p, y, k);
            lemma_digit_run_end(a, k);
            lemma_digit_run_end(b, k);
            lemma_first_diff_prefix_same(p, x, y, k, e - k);
            lemma_scan_prefix(p, x, y, e);
        } else {
            lemma_scan_prefix(p, x, y, k + 1);
        }
    }
}

/// A digit run that ends inside `p` ends at the same place in `p + x`.
proof fn lemma_digit_run_end_in_prefix(p: Seq<u8>, x: Seq<u8>, k: int)
    requires
        0 <= k <= p.len(),
        digit_run_end(p, k) < p.len(),
    ensures
        digit_run_end(p + x, k) == digit_run_end(p, k),
    decreases p.len() - k,
{
    if k < p.len() && spec_is_digit(p[k]) {
        assert((p + x)[k] == p[k]);
        lemma_digit_run_end_in_prefix(p, x, k + 1);
    } else if k < p.len() {
        assert((p + x)[k] == p[k]);
    }
}

/// Windows inside the common prefix have no first difference.
proof fn lemma_first_diff_prefix_same(p: Seq<u8>, x: Seq<u8>, y: Seq<u8>, k: int, n: int)
    requires
        0 <= k,
        k + n <= p.len(),
    ensures
        first_diff(p + x, k, p + y, k, n) is None,
    decreases n,
{
    if n > 0 {
        assert((p + x)[k] == p[k] && (p + y)[k] == p[k]);
        lemma_first_diff_prefix_same(p, x, y, k + 1, n - 1);
    }
}

/// A common prefix without whitespace that does not end with a digit does
/// not change how `compare` orders two strings:
/// `compare("rfc2", "rfc10")` is `compare("2", "10")`.
pub proof fn law_compare_common_prefix(p: Seq<u8>, x: Seq<u8>, y: Seq<u8>)
    requires
        no_whitespace(p),
        p.len() > 0 ==> !spec_is_digit(p[p.len() - 1]),
    ensures
        natural_order(p + x, p + y) == natural_order(x, y),
{
    lemma_scan_prefix(p, x, y, 0);
    if p.len() > 0 {
        assert((p + x)[p.len() - 1] == p[p.len() - 1]);
    }
    lemma_natural_order_shift(p, x, 0, p, y, 0);
}

/// Whitespace at the start of one string is passed over when the other
/// string starts with a byte that is not whitespace:
/// `compare("\ta", "a")` is `Equal`.
pub proof fn law_compare_leading_whitespace(w: Seq<u8>, x: Seq<u8>, y: Seq<u8>)
    requires
        w.len() > 0,
        forall|k: int| 0 <= k < w.len() ==> spec_is_ws(#[trigger] w[k]),
        y.len() > 0,
        !spec_is_ws(y[0]),
    ensures
        natural_order(w + x, y) == natural_order(x, y),
        natural_order(y, w + x) == natural_order(y, x),
{
    let e = Seq::<u8>::empty();
    let wx = w + x;
    assert(wx[0] == w[0]);
    lemma_ws_run_end(x, 0);
    lemma_ws_run_end(y, 0);
    lemma_ws_prefix_run(w, x, 0);
    let ex = ws_run_end(x, 0);
    if ex > 0 {
        assert(wx[w.len() + ex - 1] == x[ex - 1]);
    } else {
        assert(wx[w.len() - 1] == w[w.len() - 1]);
    }
    assert(e + y =~= y);
    assert(e + x =~= x);
    lemma_natural_order_shift(w, x, ex, e, y, 0);
    lemma_natural_order_shift(e, y, 0, w, x, ex);
    if ex > 0 {
        assert(spec_is_ws(x[0]));
    }
}

/// A run of whitespace that starts in `w`, which is all whitespace, goes
/// on into the whitespace at the start of `x`.
proof fn lemma_ws_prefix_run(w: Seq<u8>, x: Seq<u8>, k: int)
    requires
        0 <= k <= w.len(),
        forall|t: int| 0 <= t < w.len() ==> spec_is_ws(#[trigger] w[t]),
    ensures
        ws_run_end(w + x, k) == w.len() + ws_run_end(x, 0),
    decreases w.len() - k,
{
    if k < w.len() {
        assert((w + x)[k] == w[k]);
        lemma_ws_prefix_run(w, x, k + 1);
    } else {
        lemma_runs_shift(w, x, 0);
    }
}

} // verus!
