//! ASCII detection.

use vstd::prelude::*;

verus! {

/// Every byte of `s` has its high bit clear.
pub open spec fn all_ascii(s: Seq<u8>) -> bool {
    forall|k: int| 0 <= k < s.len() ==> #[trigger] s[k] < 128
}

/// Returns `true` if every byte in `s` has bit 7 clear.
pub fn simd_is_ascii(s: &[u8]) -> (r: bool)
    ensures
        r == all_ascii(s@),
{
    let mut k: usize = 0;
    while k < s.len()
        invariant
            k <= s@.len(),
            forall|t: int| 0 <= t < k ==> #[trigger] s@[t] < 128,
        decreases s@.len() - k,
    {
        if s[k] >= 128 {
            return false;
        }
        k = k + 1;
    }
    true
}

} // verus!
