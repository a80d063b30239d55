//! Laws of the `Normalizer`.

use vstd::prelude::*;
use vstd::utf8::{encode_utf8, is_ascii_chars, is_ascii_chars_encode_utf8};

use crate::compare::natural_order;
use crate::compare_ignore_case::{ascii_lower, ignore_case_order};
use crate::laws::ignore_case::{ascii_lowercase, law_ignore_case_ascii_is_lowercase_compare};
use crate::laws::natural::{law_compare_antisymmetric, law_compare_reflexive};
use crate::laws::tokens::{law_compare_equal_substitutes, law_compare_transitive};
use crate::normalizer::{
    ascii_lower_char, ascii_lowered, normalization_applied, normalized, CaseMode, Normalization,
};
use crate::order::Order;
use crate::unicode::lemma_ascii_bytes;

verus! {

pub(crate) proof fn lemma_ascii_lower_char(c: char)
    requires
        '\0' <= c <= '\u{7f}',
    ensures
        '\0' <= ascii_lower_char(c) <= '\u{7f}',
        ascii_lower_char(c) as u8 == ascii_lower(c as u8),
{
}

/// For ASCII text, lowercasing the characters and then encoding them gives
/// the encoded bytes lowercased.
proof fn lemma_encode_ascii_lowered(s: Seq<char>)
    requires
        is_ascii_chars(s),
    ensures
        encode_utf8(ascii_lowered(s)) == ascii_lowercase(encode_utf8(s)),
{
    let l = ascii_lowered(s);
    assert forall|k: int| 0 <= k < l.len() implies '\0' <= #[trigger] l[k] <= '\u{7f}' by {
        lemma_ascii_lower_char(s[k]);
    }
    is_ascii_chars_encode_utf8(s);
    is_ascii_chars_encode_utf8(l);
    assert forall|k: int| 0 <= k < l.len() implies #[trigger] encode_utf8(l)[k] == ascii_lowercase(
        encode_utf8(s),
    )[k] by {
        assert(l[k] as u8 == encode_utf8(l)[k]);
        assert(s[k] as u8 == encode_utf8(s)[k]);
        lemma_ascii_lower_char(s[k]);
    }
    assert(encode_utf8(l) =~= ascii_lowercase(encode_utf8(s)));
}

/// On ASCII text, a `Normalizer` that folds case (`CaseMode::Fold` or
/// `CaseMode::AsciiOnly`, with any normalization form) orders strings as
/// `compare_ignore_case` does.
pub proof fn law_case_folding_normalizer_matches_ignore_case(
    n: Normalization,
    m: CaseMode,
    a: Seq<char>,
    b: Seq<char>,
)
    requires
        m == CaseMode::Fold || m == CaseMode::AsciiOnly,
        is_ascii_chars(a),
        is_ascii_chars(b),
    ensures
        natural_order(encode_utf8(normalized((n, m), a)), encode_utf8(normalized((n, m), b)))
            == ignore_case_order(encode_utf8(a), encode_utf8(b)),
{
    lemma_encode_ascii_lowered(a);
    lemma_encode_ascii_lowered(b);
    lemma_ascii_bytes(a);
    lemma_ascii_bytes(b);
    law_ignore_case_ascii_is_lowercase_compare(encode_utf8(a), encode_utf8(b));
}

/// On ASCII text, normalizing twice gives what normalizing once gives, and
/// the result is ASCII text again.
pub proof fn law_normalize_idempotent_on_ascii(config: (Normalization, CaseMode), s: Seq<char>)
    requires
        is_ascii_chars(s),
    ensures
        is_ascii_chars(normalized(config, s)),
        normalized(config, normalized(config, s)) == normalized(config, s),
{
    let l = ascii_lowered(s);
    assert forall|k: int| 0 <= k < l.len() implies '\0' <= #[trigger] l[k] <= '\u{7f}' by {
        lemma_ascii_lower_char(s[k]);
    }
    assert(ascii_lowered(l) =~= l);
}

/// The order that a `Normalizer` compares by.
pub open spec fn normalized_order(
    config: (Normalization, CaseMode),
    a: Seq<char>,
    b: Seq<char>,
) -> Order {
    natural_order(encode_utf8(normalized(config, a)), encode_utf8(normalized(config, b)))
}

/// Under every configuration, `Normalizer::compare` is reflexive,
/// antisymmetric and transitive, and two strings that it finds equal
/// compare alike against every string.
pub proof fn law_normalizer_compare_total_preorder(
    config: (Normalization, CaseMode),
    a: Seq<char>,
    b: Seq<char>,
    c: Seq<char>,
)
    ensures
        normalized_order(config, a, a) == Order::Equal,
        normalized_order(config, b, a) == normalized_order(config, a, b).reversed(),
        normalized_order(config, a, b) == Order::Less && normalized_order(config, b, c)
            == Order::Less ==> normalized_order(config, a, c) == Order::Less,
        normalized_order(config, a, b) == Order::Equal ==> normalized_order(config, a, c)
            == normalized_order(config, b, c) && normalized_order(config, c, a)
            == normalized_order(config, c, b),
{
    let na = encode_utf8(normalized(config, a));
    let nb = encode_utf8(normalized(config, b));
    let nc = encode_utf8(normalized(config, c));
    law_compare_reflexive(na);
    law_compare_antisymmetric(na, nb);
    if natural_order(na, nb) == Order::Less && natural_order(nb, nc) == Order::Less {
        law_compare_transitive(na, nb, nc);
    }
    if natural_order(na, nb) == Order::Equal {
        law_compare_equal_substitutes(na, nb, nc);
    }
}

/// A `Normalizer` that only lowercases ASCII letters gives back what it is
/// given when it is applied to its own result, for every string.
pub proof fn law_ascii_only_normalize_idempotent(s: Seq<char>)
    ensures
        normalized((Normalization::Identity, CaseMode::AsciiOnly), normalized(
            (Normalization::Identity, CaseMode::AsciiOnly),
            s,
        )) == normalized((Normalization::Identity, CaseMode::AsciiOnly), s),
{
    assert(ascii_lowered(ascii_lowered(s)) =~= ascii_lowered(s));
}

/// Under `CaseMode::AsciiOnly` the case step changes only the letters
/// `A`–`Z` (code points 65–90), each to the letter 32 code points up
/// (`a`–`z`); every other
/// character, every non-ASCII one included, stays as it is, in its place.
pub proof fn law_ascii_only_changes_only_capital_letters(n: Normalization, s: Seq<char>)
    ensures
        normalized((n, CaseMode::AsciiOnly), s).len() == normalization_applied(n, s).len(),
        forall|k: int|
            0 <= k < normalization_applied(n, s).len() ==> {
                let c = normalization_applied(n, s)[k];
                let d = #[trigger] normalized((n, CaseMode::AsciiOnly), s)[k];
                &&& 65 <= (c as u32) <= 90 ==> d as u32 == c as u32 + 32
                &&& !(65 <= (c as u32) <= 90) ==> d == c
            },
{
    let t = normalization_applied(n, s);
    assert forall|k: int| 0 <= k < t.len() implies {
        let c = t[k];
        let d = #[trigger] normalized((n, CaseMode::AsciiOnly), s)[k];
        &&& 65 <= (c as u32) <= 90 ==> d as u32 == c as u32 + 32
        &&& !(65 <= (c as u32) <= 90) ==> d == c
    } by {
        let c = t[k];
        assert(normalized((n, CaseMode::AsciiOnly), s)[k] == ascii_lower_char(c));
        if 65 <= (c as u32) <= 90 {
            let v: u32 = (c as u32 + 32) as u32;
            assert((v as char) as u32 == v);
        }
    }
}

} // verus!
