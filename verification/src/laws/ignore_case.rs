//! Laws of `compare_ignore_case`.

use vstd::prelude::*;

use crate::byte_utils::{
    all_ascii, digit_run_end, digit_step, lemma_digit_run_end, lemma_ws_run_end, spec_is_digit,
    spec_is_ws, ws_run_end,
};
use crate::compare::{after_digit, natural_order, natural_order_from};
use crate::compare_ignore_case::{
    ascii_lower, ignore_case_order, ignore_case_order_from, lex_order, lex_order_from,
    unicode_advance, unicode_fold_step,
};
use crate::laws::fold_tokens::{lemma_lex_equal, lemma_lex_reflexive};
use crate::laws::natural::lemma_digit_step_swap;
use crate::text::lowercase_of;
use crate::laws::no_whitespace;
use crate::order::{lemma_first_diff_replace, lemma_first_diff_same, Order};
use crate::unicode::{char_at, char_len_at, lemma_char_len_at, scalar_at};

verus! {

proof fn lemma_ignore_case_reflexive_from(s: Seq<u8>, i: int)
    requires
        0 <= i <= s.len(),
    ensures
        ignore_case_order_from(s, s, i, i) == Order::Equal,
    decreases s.len() - i,
{
    if i < s.len() {
        let c = s[i];
        if spec_is_digit(c) {
            lemma_digit_run_end(s, i);
            lemma_digit_run_end(s, i + 1);
            let k = digit_run_end(s, i) - i;
            lemma_first_diff_same(s, i, k);
            lemma_ignore_case_reflexive_from(s, digit_run_end(s, i));
        } else if spec_is_ws(c) {
            lemma_ws_run_end(s, i);
            lemma_ws_run_end(s, i + 1);
            lemma_ignore_case_reflexive_from(s, ws_run_end(s, i));
        } else if c >= 128 && scalar_at(s, i) {
            lemma_char_len_at(s, i);
            lemma_ignore_case_reflexive_from(s, i + char_len_at(s, i));
        } else {
            lemma_ignore_case_reflexive_from(s, i + 1);
        }
    }
}

/// Every string compares equal to itself under `compare_ignore_case`.
pub proof fn law_compare_ignore_case_reflexive(s: Seq<u8>)
    ensures
        ignore_case_order(s, s) == Order::Equal,
{
    lemma_ignore_case_reflexive_from(s, 0);
}

/// `s` with `A`–`Z` lowercased.
pub open spec fn ascii_lowercase(s: Seq<u8>) -> Seq<u8> {
    s.map_values(|c: u8| ascii_lower(c))
}

proof fn lemma_lowercase_runs(s: Seq<u8>, i: int)
    requires
        0 <= i <= s.len(),
    ensures
        digit_run_end(ascii_lowercase(s), i) == digit_run_end(s, i),
        ws_run_end(ascii_lowercase(s), i) == ws_run_end(s, i),
    decreases s.len() - i,
{
    if i < s.len() {
        lemma_lowercase_runs(s, i + 1);
    }
}

proof fn lemma_lowercase_digit_step(a: Seq<u8>, b: Seq<u8>, i: int, j: int, lz: bool)
    requires
        0 <= i <= a.len(),
        0 <= j <= b.len(),
    ensures
        digit_step(ascii_lowercase(a), ascii_lowercase(b), i, j, lz) == digit_step(a, b, i, j, lz),
{
    let la = ascii_lowercase(a);
    let lb = ascii_lowercase(b);
    lemma_lowercase_runs(a, i);
    lemma_lowercase_runs(b, j);
    lemma_digit_run_end(a, i);
    lemma_digit_run_end(b, j);
    let ka = digit_run_end(a, i) - i;
    let kb = digit_run_end(b, j) - j;
    let m = if ka < kb {
        ka
    } else {
        kb
    };
    assert forall|t: int| 0 <= t < m implies #[trigger] la[i + t] == a[i + t] by {
        assert(spec_is_digit(a[i + t]));
    }
    assert forall|t: int| 0 <= t < m implies #[trigger] lb[j + t] == b[j + t] by {
        assert(spec_is_digit(b[j + t]));
    }
    lemma_first_diff_replace(a, la, i, b, j, m);
    lemma_first_diff_replace(b, lb, j, la, i, m);
}

proof fn lemma_ignore_case_ascii_from(a: Seq<u8>, b: Seq<u8>, i: int, j: int)
    requires
        0 <= i <= a.len(),
        0 <= j <= b.len(),
        all_ascii(a),
        all_ascii(b),
    ensures
        ignore_case_order_from(a, b, i, j) == natural_order_from(
            ascii_lowercase(a),
            ascii_lowercase(b),
            i,
            j,
        ),
    decreases a.len() - i + b.len() - j,
{
    let la = ascii_lowercase(a);
    let lb = ascii_lowercase(b);
    if i < a.len() && j < b.len() {
        let ca = a[i];
        let cb = b[j];
        assert(la[i] == ascii_lower(ca) && lb[j] == ascii_lower(cb));
        assert(ca < 128 && cb < 128);
        assert(i > 0 ==> la[i - 1] == ascii_lower(a[i - 1]));
        assert(after_digit(la, i) == after_digit(a, i));
        lemma_lowercase_runs(a, i);
        lemma_lowercase_runs(b, j);
        lemma_digit_run_end(a, i);
        lemma_digit_run_end(b, j);
        lemma_ws_run_end(a, i);
        lemma_ws_run_end(b, j);
        if spec_is_digit(ca) && spec_is_digit(cb) {
            lemma_lowercase_digit_step(a, b, i, j, ca == 48 || cb == 48);
            if digit_step(a, b, i, j, ca == 48 || cb == 48) is None {
                lemma_digit_run_end(a, i + 1);
                lemma_digit_run_end(b, j + 1);
                lemma_ignore_case_ascii_from(a, b, digit_run_end(a, i), digit_run_end(b, j));
            }
        } else if ca == cb {
            if spec_is_ws(ca) {
                lemma_ws_run_end(a, i + 1);
                lemma_ws_run_end(b, j + 1);
                lemma_ignore_case_ascii_from(a, b, ws_run_end(a, i), ws_run_end(b, j));
            } else {
                lemma_ignore_case_ascii_from(a, b, i + 1, j + 1);
            }
        } else if spec_is_ws(ca) || spec_is_ws(cb) {
            lemma_ws_run_end(a, i + 1);
            lemma_ws_run_end(b, j + 1);
            lemma_ignore_case_ascii_from(a, b, ws_run_end(a, i), ws_run_end(b, j));
        } else if spec_is_digit(ca) != spec_is_digit(cb) && after_digit(a, i) {
        } else if ascii_lower(ca) == ascii_lower(cb) {
            lemma_ignore_case_ascii_from(a, b, i + 1, j + 1);
        }
    }
}

/// On ASCII strings, `compare_ignore_case` orders as `compare` does on the
/// same strings with `A`–`Z` lowercased.
pub proof fn law_ignore_case_ascii_is_lowercase_compare(a: Seq<u8>, b: Seq<u8>)
    requires
        all_ascii(a),
        all_ascii(b),
    ensures
        ignore_case_order(a, b) == natural_order(ascii_lowercase(a), ascii_lowercase(b)),
{
    lemma_ignore_case_ascii_from(a, b, 0, 0);
}

/// Lowercasing keeps a string free of whitespace.
pub proof fn lemma_lowercase_no_whitespace(s: Seq<u8>)
    requires
        no_whitespace(s),
    ensures
        no_whitespace(ascii_lowercase(s)),
{
    assert forall|k: int| 0 <= k < ascii_lowercase(s).len() implies !spec_is_ws(
        #[trigger] ascii_lowercase(s)[k],
    ) by {
        assert(!spec_is_ws(s[k]));
    }
}

proof fn lemma_lex_order_swap(s: Seq<char>, t: Seq<char>, k: int)
    ensures
        lex_order_from(t, s, k) == lex_order_from(s, t, k).reversed(),
    decreases s.len() - k,
{
    if k < s.len() && k < t.len() && s[k] == t[k] {
        lemma_lex_order_swap(s, t, k + 1);
    }
}

proof fn lemma_ignore_case_antisymmetric_from(a: Seq<u8>, b: Seq<u8>, i: int, j: int)
    requires
        0 <= i <= a.len(),
        0 <= j <= b.len(),
    ensures
        ignore_case_order_from(b, a, j, i) == ignore_case_order_from(a, b, i, j).reversed(),
    decreases a.len() - i + b.len() - j,
{
    if i < a.len() && j < b.len() {
        let ca = a[i];
        let cb = b[j];
        lemma_digit_run_end(a, i);
        lemma_digit_run_end(b, j);
        lemma_digit_run_end(a, i + 1);
        lemma_digit_run_end(b, j + 1);
        lemma_ws_run_end(a, i);
        lemma_ws_run_end(b, j);
        lemma_ws_run_end(a, i + 1);
        lemma_ws_run_end(b, j + 1);
        if spec_is_digit(ca) && spec_is_digit(cb) {
            lemma_digit_step_swap(a, b, i, j, ca == 48 || cb == 48);
            if digit_step(a, b, i, j, ca == 48 || cb == 48) is None {
                lemma_ignore_case_antisymmetric_from(a, b, digit_run_end(a, i), digit_run_end(b, j));
            }
        } else if spec_is_ws(ca) || spec_is_ws(cb) {
            lemma_ignore_case_antisymmetric_from(a, b, ws_run_end(a, i), ws_run_end(b, j));
        } else if ca == cb && ca < 128 {
            lemma_ignore_case_antisymmetric_from(a, b, i + 1, j + 1);
        } else if ca < 128 && cb < 128 {
            if ascii_lower(ca) == ascii_lower(cb) {
                lemma_ignore_case_antisymmetric_from(a, b, i + 1, j + 1);
            }
        } else if ca >= 128 && cb >= 128 {
            if scalar_at(a, i) && scalar_at(b, j) {
                lemma_char_len_at(a, i);
                lemma_char_len_at(b, j);
                lemma_lex_order_swap(lowercase_of(char_at(a, i)), lowercase_of(char_at(b, j)), 0);
            }
            if unicode_fold_step(a, b, i, j) is None {
                lemma_ignore_case_antisymmetric_from(
                    a,
                    b,
                    i + unicode_advance(a, b, i, j).0,
                    j + unicode_advance(a, b, i, j).1,
                );
            }
        }
    }
}

/// Swapping the arguments of `compare_ignore_case` reverses its result.
pub proof fn law_compare_ignore_case_antisymmetric(a: Seq<u8>, b: Seq<u8>)
    ensures
        ignore_case_order(b, a) == ignore_case_order(a, b).reversed(),
{
    lemma_ignore_case_antisymmetric_from(a, b, 0, 0);
}

/// `s` comes before `t` at position `m`: the two agree before `m`, and
/// there `s` has ended while `t` goes on, or `s` holds the character with
/// the smaller scalar value.
pub open spec fn smaller_at(s: Seq<char>, t: Seq<char>, m: int) -> bool {
    &&& 0 <= m <= s.len()
    &&& m <= t.len()
    &&& forall|i: int| 0 <= i < m ==> #[trigger] s[i] == t[i]
    &&& (m == s.len() && m < t.len()) || (m < s.len() && m < t.len() && (s[m] as u32) < (
    t[m] as u32))
}

proof fn lemma_lex_less_from(s: Seq<char>, t: Seq<char>, k: int)
    requires
        0 <= k <= s.len(),
        k <= t.len(),
        forall|i: int| 0 <= i < k ==> #[trigger] s[i] == t[i],
    ensures
        (lex_order_from(s, t, k) == Order::Less) <==> exists|m: int| #[trigger]
            smaller_at(s, t, m),
    decreases s.len() - k,
{
    if k == s.len() || k == t.len() || s[k] != t[k] {
        if lex_order_from(s, t, k) == Order::Less {
            assert(smaller_at(s, t, k));
        } else {
            assert forall|m: int| !#[trigger] smaller_at(s, t, m) by {
                if smaller_at(s, t, m) && m > k {
                    assert(s[k] == t[k]);
                }
            }
        }
    } else {
        lemma_lex_less_from(s, t, k + 1);
        assert forall|m: int| #[trigger] smaller_at(s, t, m) implies m != k by {}
    }
}

/// `lex_order`, by which `compare_ignore_case` ranks the lowercase mappings
/// of two characters, is the lexicographic order by scalar value: `s` comes
/// first exactly when, after a common prefix, `s` ends while `t` goes on or
/// holds the character with the smaller scalar value; two sequences are
/// equal exactly when they are the same; swapping them reverses the order.
pub proof fn law_lex_order_by_scalar_value(s: Seq<char>, t: Seq<char>)
    ensures
        (lex_order(s, t) == Order::Less) <==> exists|m: int| #[trigger] smaller_at(s, t, m),
        (lex_order(s, t) == Order::Equal) <==> s == t,
        lex_order(t, s) == lex_order(s, t).reversed(),
{
    lemma_lex_less_from(s, t, 0);
    lemma_lex_order_swap(s, t, 0);
    if lex_order(s, t) == Order::Equal {
        lemma_lex_equal(s, t, 0);
        assert(s =~= t);
    }
    if s == t {
        lemma_lex_reflexive(s, 0);
    }
}

} // verus!
