//! Length of the common prefix of two byte strings.

use vstd::prelude::*;

verus! {

/// The first index at or after `k` (and before `common_len`) where `a`
/// and `b` differ, or `common_len` when they agree up to there.
pub open spec fn mismatch_from(a: Seq<u8>, b: Seq<u8>, k: int, common_len: int) -> int
    decreases common_len - k,
{
    if k < common_len && a[k] == b[k] {
        mismatch_from(a, b, k + 1, common_len)
    } else {
        k
    }
}

/// `mismatch_from` is the first index where the strings differ.
pub proof fn lemma_mismatch_from(a: Seq<u8>, b: Seq<u8>, k: int, common_len: int)
    requires
        0 <= k <= common_len,
        common_len <= a.len(),
        common_len <= b.len(),
    ensures
        k <= mismatch_from(a, b, k, common_len) <= common_len,
        forall|t: int| k <= t < mismatch_from(a, b, k, common_len) ==> #[trigger] a[t] == b[t],
        mismatch_from(a, b, k, common_len) < common_len ==> a[mismatch_from(a, b, k, common_len)]
            != b[mismatch_from(a, b, k, common_len)],
    decreases common_len - k,
{
    if k < common_len && a[k] == b[k] {
        lemma_mismatch_from(a, b, k + 1, common_len);
    }
}

/// `256^n`.
pub open spec fn pow256(n: nat) -> nat
    decreases n,
{
    if n == 0 {
        1
    } else {
        256 * pow256((n - 1) as nat)
    }
}

/// The little-endian value of the `n` bytes of `s` from `i`.
pub open spec fn le_value(s: Seq<u8>, i: int, n: nat) -> nat
    decreases n,
{
    if n == 0 {
        0
    } else {
        s[i] as nat + 256 * le_value(s, i + 1, (n - 1) as nat)
    }
}

/// `n` bytes have a little-endian value below `256^n`.
pub proof fn lemma_le_value_bound(s: Seq<u8>, i: int, n: nat)
    ensures
        le_value(s, i, n) < pow256(n),
    decreases n,
{
    if n > 0 {
        lemma_le_value_bound(s, i + 1, (n - 1) as nat);
    }
}

/// Two windows have the same little-endian value exactly when they hold
/// the same bytes.
pub proof fn lemma_le_value_equal(s: Seq<u8>, i: int, t: Seq<u8>, j: int, n: nat)
    ensures
        (le_value(s, i, n) == le_value(t, j, n)) <==> (forall|k: int|
            0 <= k < n ==> #[trigger] s[i + k] == t[j + k]),
    decreases n,
{
    if n > 0 {
        lemma_le_value_equal(s, i + 1, t, j + 1, (n - 1) as nat);
        let vs = le_value(s, i + 1, (n - 1) as nat);
        let vt = le_value(t, j + 1, (n - 1) as nat);
        if le_value(s, i, n) == le_value(t, j, n) {
            assert(s[i] == t[j] && vs == vt) by {
                if vs < vt {
                    assert(s[i] as nat + 256 * vs < t[j] as nat + 256 * vt);
                } else if vt < vs {
                    assert(t[j] as nat + 256 * vt < s[i] as nat + 256 * vs);
                }
            }
            assert forall|k: int| 0 <= k < n implies #[trigger] s[i + k] == t[j + k] by {
                if k > 0 {
                    assert(s[i + 1 + (k - 1)] == t[j + 1 + (k - 1)]);
                }
            }
        }
        if forall|k: int| 0 <= k < n ==> #[trigger] s[i + k] == t[j + k] {
            assert(s[i + 0] == t[j + 0]);
            assert forall|k: int| 0 <= k < n - 1 implies #[trigger] s[i + 1 + k] == t[j + 1 + k] by {
                assert(s[i + (k + 1)] == t[j + (k + 1)]);
            }
        }
    }
}

/// Loads the little-endian `u64` held by `s[i..i + 8]`.
pub fn load_u64(s: &[u8], i: usize) -> (r: u64)
    requires
        i + 8 <= s@.len(),
    ensures
        r as nat == le_value(s@, i as int, 8),
{
    proof {
        reveal_with_fuel(pow256, 9);
    }
    let mut v: u64 = 0;
    let mut k: usize = 8;
    while k > 0
        invariant
            k <= 8,
            i + 8 <= s.len(),
            v as nat == le_value(s@, i + k, (8 - k) as nat),
            pow256(7) == 0x100000000000000,
        decreases k,
    {
        k = k - 1;
        proof {
            lemma_le_value_bound(s@, i + k + 1, (7 - k) as nat);
            lemma_pow256_monotonic((7 - k) as nat, 7);
        }
        v = v * 256 + s[i + k] as u64;
    }
    v
}

/// Loads the little-endian `u128` held by `s[i..i + 16]`.
pub fn load_u128(s: &[u8], i: usize) -> (r: u128)
    requires
        i + 16 <= s@.len(),
    ensures
        r as nat == le_value(s@, i as int, 16),
{
    proof {
        reveal_with_fuel(pow256, 17);
    }
    let mut v: u128 = 0;
    let mut k: usize = 16;
    while k > 0
        invariant
            k <= 16,
            i + 16 <= s.len(),
            v as nat == le_value(s@, i + k, (16 - k) as nat),
            pow256(15) == 0x1000000000000000000000000000000,
        decreases k,
    {
        k = k - 1;
        proof {
            lemma_le_value_bound(s@, i + k + 1, (15 - k) as nat);
            lemma_pow256_monotonic((15 - k) as nat, 15);
        }
        v = v * 256 + s[i + k] as u128;
    }
    v
}

proof fn lemma_pow256_monotonic(m: nat, n: nat)
    requires
        m <= n,
    ensures
        pow256(m) <= pow256(n),
    decreases n - m,
{
    if m < n {
        lemma_pow256_monotonic(m, (n - 1) as nat);
    }
}

/// Equal bytes over `[k, k + m)` leave the first mismatch where it is.
proof fn lemma_mismatch_skip(a: Seq<u8>, b: Seq<u8>, k: int, m: int, common_len: int)
    requires
        0 <= m,
        k + m <= common_len,
        forall|t: int| 0 <= t < m ==> #[trigger] a[k + t] == b[k + t],
    ensures
        mismatch_from(a, b, k, common_len) == mismatch_from(a, b, k + m, common_len),
    decreases m,
{
    if m > 0 {
        assert(a[k + 0] == b[k + 0]);
        assert forall|t: int| 0 <= t < m - 1 implies #[trigger] a[k + 1 + t] == b[k + 1 + t] by {
            assert(a[k + (t + 1)] == b[k + (t + 1)]);
        }
        lemma_mismatch_skip(a, b, k + 1, m - 1, common_len);
    }
}

/// Scans `a` and `b` from `k` and returns the first index where they
/// differ, or `common_len` when all bytes up to there are equal.
///
/// Compares 16 bytes at a time, then 8, then one by one.
pub fn finish_scalar(a: &[u8], b: &[u8], k: usize, common_len: usize) -> (r: usize)
    requires
        k <= common_len,
        common_len <= a@.len(),
        common_len <= b@.len(),
    ensures
        r == mismatch_from(a@, b@, k as int, common_len as int),
        k <= r <= common_len,
        forall|t: int| k <= t < r ==> #[trigger] a@[t] == b@[t],
        r < common_len ==> a@[r as int] != b@[r as int],
{
    proof {
        lemma_mismatch_from(a@, b@, k as int, common_len as int);
    }
    let mut i = k;
    while common_len - i >= 16
        invariant
            k <= i <= common_len,
            common_len <= a@.len(),
            common_len <= b@.len(),
            mismatch_from(a@, b@, i as int, common_len as int) == mismatch_from(
                a@,
                b@,
                k as int,
                common_len as int,
            ),
        decreases common_len - i,
    {
        if load_u128(a, i) != load_u128(b, i) {
            break;
        }
        proof {
            lemma_le_value_equal(a@, i as int, b@, i as int, 16);
            lemma_mismatch_skip(a@, b@, i as int, 16, common_len as int);
        }
        i = i + 16;
    }
    while common_len - i >= 8
        invariant
            k <= i <= common_len,
            common_len <= a@.len(),
            common_len <= b@.len(),
            mismatch_from(a@, b@, i as int, common_len as int) == mismatch_from(
                a@,
                b@,
                k as int,
                common_len as int,
            ),
        decreases common_len - i,
    {
        if load_u64(a, i) != load_u64(b, i) {
            break;
        }
        proof {
            lemma_le_value_equal(a@, i as int, b@, i as int, 8);
            lemma_mismatch_skip(a@, b@, i as int, 8, common_len as int);
        }
        i = i + 8;
    }
    while i < common_len && a[i] == b[i]
        invariant
            k <= i <= common_len,
            common_len <= a@.len(),
            common_len <= b@.len(),
            mismatch_from(a@, b@, i as int, common_len as int) == mismatch_from(
                a@,
                b@,
                k as int,
                common_len as int,
            ),
        decreases common_len - i,
    {
        i = i + 1;
    }
    i
}

/// Skips the common prefix of `a` and `b` from index `i`: returns the first
/// index in `i..common_len` where they differ, or `common_len`.
pub fn simd_skip_equal(a: &[u8], b: &[u8], i: usize, common_len: usize) -> (r: usize)
    requires
        i <= common_len,
        common_len <= a@.len(),
        common_len <= b@.len(),
    ensures
        r == mismatch_from(a@, b@, i as int, common_len as int),
        i <= r <= common_len,
        forall|t: int| i <= t < r ==> #[trigger] a@[t] == b@[t],
        r < common_len ==> a@[r as int] != b@[r as int],
{
    finish_scalar(a, b, i, common_len)
}

} // verus!
