//! `compare_ignore_case` finds two strings equal when they differ only in
//! the case of their characters.

use vstd::prelude::*;
use vstd::utf8::{
    char_is_scalar, char_u32_cast, encode_scalar, encode_utf8, is_ascii_chars,
    is_ascii_chars_encode_utf8, has_width_2_encoding, has_width_3_encoding, leading_byte_width_2,
    leading_byte_width_3, leading_byte_width_4,
};

use crate::byte_utils::{digit_run_end, spec_is_digit, spec_is_ws, ws_run_end};
use crate::compare_ignore_case::{ignore_case_order, ignore_case_order_from, lex_order_from};
use crate::laws::normalizer::lemma_ascii_lower_char;
use crate::laws::unicode::law_decode_char_roundtrip;
use crate::normalizer::ascii_lower_char;
use crate::order::{first_diff, Order};
use crate::text::lowercase_of;
use crate::unicode::{bytes_from, char_at, char_len_at, scalar_at};

verus! {

/// The encoding of two sequences one after the other is the encoding of
/// the first followed by that of the second.
pub proof fn lemma_encode_concat(a: Seq<char>, b: Seq<char>)
    ensures
        encode_utf8(a + b) == encode_utf8(a) + encode_utf8(b),
    decreases a.len(),
{
    if a.len() == 0 {
        assert(a + b =~= b);
        assert(encode_utf8(a) =~= Seq::<u8>::empty());
        assert(encode_utf8(a) + encode_utf8(b) =~= encode_utf8(b));
    } else {
        assert((a + b).drop_first() =~= a.drop_first() + b);
        assert((a + b)[0] == a[0]);
        lemma_encode_concat(a.drop_first(), b);
        assert(encode_utf8(a + b) =~= encode_scalar(a[0] as u32) + (encode_utf8(a.drop_first())
            + encode_utf8(b)));
    }
}

/// An ASCII character encodes as its own byte; any other character
/// encodes as two to four bytes, the first of them at least `0xC0`.
pub proof fn lemma_encode_first_byte(c: char)
    ensures
        '\0' <= c <= '\u{7f}' ==> encode_scalar(c as u32) == seq![c as u8],
        !('\0' <= c <= '\u{7f}') ==> encode_scalar(c as u32).len() >= 2 && encode_scalar(
            c as u32,
        )[0] >= 0xC0,
{
    char_is_scalar(c);
    let v = c as u32;
    if '\0' <= c <= '\u{7f}' {
        assert((v & 0x7F) as u8 == v as u8) by (bit_vector)
            requires
                v <= 0x7f,
        ;
        assert(encode_scalar(v) =~= seq![c as u8]);
    } else {
        if has_width_2_encoding(v) {
            assert(leading_byte_width_2(v) >= 0xC0) by (bit_vector)
                requires
                    0x80 <= v <= 0x7FF,
            ;
        } else if has_width_3_encoding(v) {
            assert(leading_byte_width_3(v) >= 0xC0) by (bit_vector)
                requires
                    0x800 <= v <= 0xFFFF,
            ;
        } else {
            assert(leading_byte_width_4(v) >= 0xC0) by (bit_vector)
                requires
                    0x10000 <= v <= 0x10FFFF,
            ;
        }
    }
}

/// `c` is one of the ASCII digits `0`–`9`.
pub open spec fn is_digit_char(c: char) -> bool {
    '0' <= c <= '9'
}

/// `c` is ASCII whitespace as the comparators see it.
pub open spec fn is_ws_char(c: char) -> bool {
    c == ' ' || c == '\t' || c == '\n' || c == '\x0c' || c == '\r'
}

/// The number of digits at the start of `s`.
pub open spec fn digit_prefix_len(s: Seq<char>) -> nat
    decreases s.len(),
{
    if s.len() > 0 && is_digit_char(s[0]) {
        1 + digit_prefix_len(s.drop_first())
    } else {
        0
    }
}

/// The number of whitespace characters at the start of `s`.
pub open spec fn ws_prefix_len(s: Seq<char>) -> nat
    decreases s.len(),
{
    if s.len() > 0 && is_ws_char(s[0]) {
        1 + ws_prefix_len(s.drop_first())
    } else {
        0
    }
}

/// An ASCII character's byte is a digit or whitespace exactly when the
/// character is one.
proof fn lemma_ascii_byte_classes(c: char)
    requires
        '\0' <= c <= '\u{7f}',
    ensures
        spec_is_digit(c as u8) == is_digit_char(c),
        spec_is_ws(c as u8) == is_ws_char(c),
{
}

/// The encoding of a non-empty `s` after `p` starts with the encoding of
/// its first character.
proof fn lemma_encode_step(p: Seq<u8>, s: Seq<char>)
    requires
        s.len() > 0,
    ensures
        p + encode_utf8(s) == (p + encode_scalar(s[0] as u32)) + encode_utf8(s.drop_first()),
{
    assert(p + encode_utf8(s) =~= (p + encode_scalar(s[0] as u32)) + encode_utf8(s.drop_first()));
}

/// The digit run at the start of the encoding of `s` (after `p`) holds the
/// bytes of the digits that `s` starts with.
proof fn lemma_encoded_digit_run(p: Seq<u8>, s: Seq<char>)
    ensures
        digit_run_end(p + encode_utf8(s), p.len() as int) == p.len() + digit_prefix_len(s),
        digit_prefix_len(s) <= s.len(),
        forall|k: int|
            0 <= k < digit_prefix_len(s) ==> is_digit_char(#[trigger] s[k]) && (p + encode_utf8(
                s,
            ))[p.len() + k] == s[k] as u8,
    decreases s.len(),
{
    let x = p + encode_utf8(s);
    if s.len() == 0 {
        assert(encode_utf8(s) =~= Seq::<u8>::empty());
    } else {
        lemma_encode_step(p, s);
        lemma_encode_first_byte(s[0]);
        let e = encode_scalar(s[0] as u32);
        assert(x[p.len() as int] == e[0]);
        if is_digit_char(s[0]) {
            lemma_ascii_byte_classes(s[0]);
            let p2 = p + e;
            lemma_encoded_digit_run(p2, s.drop_first());
            assert forall|k: int| 0 <= k < digit_prefix_len(s) implies is_digit_char(#[trigger] s[k])
                && x[p.len() + k] == s[k] as u8 by {
                if k > 0 {
                    assert(s[k] == s.drop_first()[k - 1]);
                    assert(x[p2.len() + (k - 1)] == s.drop_first()[k - 1] as u8);
                }
            }
        } else if '\0' <= s[0] <= '\u{7f}' {
            lemma_ascii_byte_classes(s[0]);
        }
    }
}

/// The same for whitespace.
proof fn lemma_encoded_ws_run(p: Seq<u8>, s: Seq<char>)
    ensures
        ws_run_end(p + encode_utf8(s), p.len() as int) == p.len() + ws_prefix_len(s),
        ws_prefix_len(s) <= s.len(),
        forall|k: int|
            0 <= k < ws_prefix_len(s) ==> is_ws_char(#[trigger] s[k]) && (p + encode_utf8(s))[p.len()
                + k] == s[k] as u8,
    decreases s.len(),
{
    let x = p + encode_utf8(s);
    if s.len() == 0 {
        assert(encode_utf8(s) =~= Seq::<u8>::empty());
    } else {
        lemma_encode_step(p, s);
        lemma_encode_first_byte(s[0]);
        let e = encode_scalar(s[0] as u32);
        assert(x[p.len() as int] == e[0]);
        if is_ws_char(s[0]) {
            lemma_ascii_byte_classes(s[0]);
            let p2 = p + e;
            lemma_encoded_ws_run(p2, s.drop_first());
            assert forall|k: int| 0 <= k < ws_prefix_len(s) implies is_ws_char(#[trigger] s[k])
                && x[p.len() + k] == s[k] as u8 by {
                if k > 0 {
                    assert(s[k] == s.drop_first()[k - 1]);
                    assert(x[p2.len() + (k - 1)] == s.drop_first()[k - 1] as u8);
                }
            }
        } else if '\0' <= s[0] <= '\u{7f}' {
            lemma_ascii_byte_classes(s[0]);
        }
    }
}

/// `x` and `y` differ at most in case: they are equal, or both ASCII with
/// the same ASCII lowercase, or both non-ASCII with the same lowercase
/// mapping.
pub open spec fn same_up_to_case(x: char, y: char) -> bool {
    ||| x == y
    ||| ('\0' <= x <= '\u{7f}' && '\0' <= y <= '\u{7f}' && ascii_lower_char(x) == ascii_lower_char(y))
    ||| (!('\0' <= x <= '\u{7f}') && !('\0' <= y <= '\u{7f}') && lowercase_of(x) == lowercase_of(y))
}

/// `s` and `t` have the same length and differ at most in the case of
/// their characters.
pub open spec fn equal_up_to_case(s: Seq<char>, t: Seq<char>) -> bool {
    &&& s.len() == t.len()
    &&& forall|k: int| 0 <= k < s.len() ==> #[trigger] same_up_to_case(s[k], t[k])
}

/// Digits and whitespace have no other case.
proof fn lemma_same_up_to_case_classes(x: char, y: char)
    requires
        same_up_to_case(x, y),
    ensures
        is_digit_char(x) || is_digit_char(y) || is_ws_char(x) || is_ws_char(y) ==> x == y,
        '\0' <= x <= '\u{7f}' <==> '\0' <= y <= '\u{7f}',
{
}

proof fn lemma_equal_up_to_case_prefixes(s: Seq<char>, t: Seq<char>)
    requires
        equal_up_to_case(s, t),
    ensures
        digit_prefix_len(s) == digit_prefix_len(t),
        ws_prefix_len(s) == ws_prefix_len(t),
    decreases s.len(),
{
    if s.len() > 0 {
        assert(same_up_to_case(s[0], t[0]));
        lemma_same_up_to_case_classes(s[0], t[0]);
        assert forall|k: int| 0 <= k < s.drop_first().len() implies #[trigger] same_up_to_case(
            s.drop_first()[k],
            t.drop_first()[k],
        ) by {
            assert(same_up_to_case(s[k + 1], t[k + 1]));
        }
        lemma_equal_up_to_case_prefixes(s.drop_first(), t.drop_first());
    }
}

/// The part of `s` after its first `n` characters still differs from the
/// same part of `t` at most in case.
proof fn lemma_equal_up_to_case_skip(s: Seq<char>, t: Seq<char>, n: int)
    requires
        equal_up_to_case(s, t),
        0 <= n <= s.len(),
    ensures
        equal_up_to_case(s.skip(n), t.skip(n)),
{
    assert forall|k: int| 0 <= k < s.skip(n).len() implies #[trigger] same_up_to_case(
        s.skip(n)[k],
        t.skip(n)[k],
    ) by {
        assert(same_up_to_case(s[n + k], t[n + k]));
    }
}

/// Where the encoding of a non-ASCII character starts, after `p`, a whole
/// character starts: that one.
proof fn lemma_scalar_at_encoding(p: Seq<u8>, s: Seq<char>)
    requires
        s.len() > 0,
    ensures
        scalar_at(p + encode_utf8(s), p.len() as int),
        char_at(p + encode_utf8(s), p.len() as int) == s[0],
        char_len_at(p + encode_utf8(s), p.len() as int) == encode_scalar(s[0] as u32).len(),
{
    let x = p + encode_utf8(s);
    let rest = encode_utf8(s.drop_first());
    law_decode_char_roundtrip(s[0], rest);
    assert(seq![s[0]].drop_first() =~= Seq::<char>::empty());
    assert(encode_utf8(Seq::<char>::empty()) =~= Seq::<u8>::empty());
    assert(encode_utf8(seq![s[0]]) =~= encode_scalar(s[0] as u32));
    assert(bytes_from(x, p.len() as int) =~= encode_utf8(seq![s[0]]) + rest);
    char_u32_cast(s[0], s[0] as u32);
}

/// A character sequence equals itself under the lexicographic order.
proof fn lemma_lex_order_same(l: Seq<char>, k: int)
    requires
        0 <= k,
    ensures
        lex_order_from(l, l, k) == Order::Equal,
    decreases l.len() - k,
{
    if k < l.len() {
        lemma_lex_order_same(l, k + 1);
    }
}


/// Splitting `s` after its first `n` characters, where those are ASCII,
/// splits its encoding after `n` bytes.
proof fn lemma_encode_split_ascii(p: Seq<u8>, s: Seq<char>, n: int)
    requires
        0 <= n <= s.len(),
        forall|k: int| 0 <= k < n ==> '\0' <= #[trigger] s[k] <= '\u{7f}',
    ensures
        p + encode_utf8(s) == (p + encode_utf8(s.take(n))) + encode_utf8(s.skip(n)),
        (p + encode_utf8(s.take(n))).len() == p.len() + n,
{
    assert(s =~= s.take(n) + s.skip(n));
    lemma_encode_concat(s.take(n), s.skip(n));
    assert(is_ascii_chars(s.take(n)));
    is_ascii_chars_encode_utf8(s.take(n));
    assert(p + encode_utf8(s) =~= (p + encode_utf8(s.take(n))) + encode_utf8(s.skip(n)));
}

proof fn lemma_up_to_case_from(p: Seq<u8>, q: Seq<u8>, s: Seq<char>, t: Seq<char>)
    requires
        equal_up_to_case(s, t),
    ensures
        ignore_case_order_from(p + encode_utf8(s), q + encode_utf8(t), p.len() as int, q.len() as int)
            == Order::Equal,
    decreases s.len(),
{
    let a = p + encode_utf8(s);
    let b = q + encode_utf8(t);
    let i = p.len() as int;
    let j = q.len() as int;
    if s.len() == 0 {
        assert(encode_utf8(s) =~= Seq::<u8>::empty());
        assert(encode_utf8(t) =~= Seq::<u8>::empty());
    } else {
        assert(same_up_to_case(s[0], t[0]));
        lemma_same_up_to_case_classes(s[0], t[0]);
        lemma_encode_first_byte(s[0]);
        lemma_encode_first_byte(t[0]);
        lemma_encode_step(p, s);
        lemma_encode_step(q, t);
        let es = encode_scalar(s[0] as u32);
        let et = encode_scalar(t[0] as u32);
        assert(a[i] == es[0]);
        assert(b[j] == et[0]);
        lemma_equal_up_to_case_prefixes(s, t);
        lemma_encoded_digit_run(p, s);
        lemma_encoded_digit_run(q, t);
        lemma_encoded_ws_run(p, s);
        lemma_encoded_ws_run(q, t);
        if is_digit_char(s[0]) {
            lemma_ascii_byte_classes(s[0]);
            let r = digit_prefix_len(s) as int;
            assert forall|k: int| 0 <= k < r implies #[trigger] a[i + k] == b[j + k] by {
                assert(is_digit_char(s[k]));
                assert(same_up_to_case(s[k], t[k]));
                lemma_same_up_to_case_classes(s[k], t[k]);
            }
            assert forall|k: int| 0 <= k < r implies '\0' <= #[trigger] s[k] <= '\u{7f}' by {
                assert(is_digit_char(s[k]));
            }
            assert forall|k: int| 0 <= k < r implies '\0' <= #[trigger] t[k] <= '\u{7f}' by {
                assert(is_digit_char(s[k]));
                assert(same_up_to_case(s[k], t[k]));
                lemma_same_up_to_case_classes(s[k], t[k]);
            }
            lemma_first_diff_windows_equal(a, i, b, j, r);
            lemma_encode_split_ascii(p, s, r);
            lemma_encode_split_ascii(q, t, r);
            lemma_equal_up_to_case_skip(s, t, r);
            lemma_up_to_case_from(
                p + encode_utf8(s.take(r)),
                q + encode_utf8(t.take(r)),
                s.skip(r),
                t.skip(r),
            );
        } else if is_ws_char(s[0]) {
            lemma_ascii_byte_classes(s[0]);
            let r = ws_prefix_len(s) as int;
            assert forall|k: int| 0 <= k < r implies '\0' <= #[trigger] s[k] <= '\u{7f}' by {
                assert(is_ws_char(s[k]));
            }
            assert forall|k: int| 0 <= k < r implies '\0' <= #[trigger] t[k] <= '\u{7f}' by {
                assert(is_ws_char(s[k]));
                assert(same_up_to_case(s[k], t[k]));
                lemma_same_up_to_case_classes(s[k], t[k]);
            }
            lemma_encode_split_ascii(p, s, r);
            lemma_encode_split_ascii(q, t, r);
            lemma_equal_up_to_case_skip(s, t, r);
            lemma_up_to_case_from(
                p + encode_utf8(s.take(r)),
                q + encode_utf8(t.take(r)),
                s.skip(r),
                t.skip(r),
            );
        } else if '\0' <= s[0] <= '\u{7f}' {
            lemma_ascii_byte_classes(s[0]);
            lemma_ascii_byte_classes(t[0]);
            lemma_ascii_lower_char(s[0]);
            lemma_ascii_lower_char(t[0]);
            assert(s.drop_first() =~= s.skip(1));
            assert(t.drop_first() =~= t.skip(1));
            lemma_equal_up_to_case_skip(s, t, 1);
            lemma_up_to_case_from(p + es, q + et, s.drop_first(), t.drop_first());
        } else {
            lemma_scalar_at_encoding(p, s);
            lemma_scalar_at_encoding(q, t);
            lemma_lex_order_same(lowercase_of(s[0]), 0);
            assert(s.drop_first() =~= s.skip(1));
            assert(t.drop_first() =~= t.skip(1));
            lemma_equal_up_to_case_skip(s, t, 1);
            lemma_up_to_case_from(p + es, q + et, s.drop_first(), t.drop_first());
        }
    }
}

/// Windows that hold the same bytes have no first difference.
proof fn lemma_first_diff_windows_equal(a: Seq<u8>, i: int, b: Seq<u8>, j: int, n: int)
    requires
        forall|k: int| 0 <= k < n ==> #[trigger] a[i + k] == b[j + k],
    ensures
        first_diff(a, i, b, j, n) is None,
        forall|m: int| 0 <= m <= n ==> (#[trigger] first_diff(a, i, b, j, m)) is None,
    decreases n,
{
    if n > 0 {
        assert(a[i + 0] == b[j + 0]);
        assert forall|k: int| 0 <= k < n - 1 implies #[trigger] a[i + 1 + k] == b[j + 1 + k] by {
            assert(a[i + (k + 1)] == b[j + (k + 1)]);
        }
        lemma_first_diff_windows_equal(a, i + 1, b, j + 1, n - 1);
        assert forall|m: int| 0 <= m <= n implies (#[trigger] first_diff(a, i, b, j, m)) is None by {
            if m > 0 {
                assert(first_diff(a, i + 1, b, j + 1, m - 1) is None);
            }
        }
    }
}

/// `compare_ignore_case` finds two strings equal when they differ only in
/// the case of their characters: ASCII letters by their ASCII lowercase,
/// other characters by their lowercase mappings.
pub proof fn law_compare_ignore_case_equal_up_to_case(s: Seq<char>, t: Seq<char>)
    requires
        equal_up_to_case(s, t),
    ensures
        ignore_case_order(encode_utf8(s), encode_utf8(t)) == Order::Equal,
{
    let e = Seq::<u8>::empty();
    lemma_up_to_case_from(e, e, s, t);
    assert(e + encode_utf8(s) =~= encode_utf8(s));
    assert(e + encode_utf8(t) =~= encode_utf8(t));
}

} // verus!
