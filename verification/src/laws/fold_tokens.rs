//! `compare_ignore_case` on valid UTF-8 as the lexicographic order of
//! case-folded token sequences, and the total preorder that follows.

use vstd::prelude::*;
use vstd::utf8::{char_u32_cast, pop_first_scalar, valid_utf8};

use crate::byte_utils::{
    digit_run_end, digit_step, lemma_digit_run_end, lemma_ws_run_end, spec_is_digit, spec_is_ws,
    ws_run_end,
};
use crate::compare_ignore_case::{
    ascii_lower, ignore_case_order, ignore_case_order_from, lex_order, lex_order_from,
    unicode_advance, unicode_fold_step,
};
use crate::laws::tokens::{
    lemma_digit_run_end_full, lemma_digit_step_not_equal, lemma_digit_step_tokens, lemma_run_token,
};
use crate::laws::total_order::{lemma_digit_step_trans, lemma_digit_tie, settled};
use crate::order::{lemma_first_diff_same, order_of, Order};
use crate::text::lowercase_of;
use crate::unicode::{bytes_from, char_at, char_len_at, lemma_char_len_at, scalar_at};

verus! {

/// A token of the case-insensitive natural order.
pub enum FoldToken {
    /// Whitespace that ends a string.
    End,
    /// A run of digits.
    Run(Seq<u8>),
    /// An ASCII byte that is neither whitespace nor a digit, lowercased.
    Ascii(u8),
    /// A non-ASCII character, by its lowercase mapping.
    Wide(Seq<char>),
}

/// A well-formed token: runs hold at least one digit and nothing else, and
/// ASCII tokens hold no digit.
pub open spec fn fold_token_ok(x: FoldToken) -> bool {
    match x {
        FoldToken::Run(r) => r.len() > 0 && forall|k: int|
            0 <= k < r.len() ==> spec_is_digit(#[trigger] r[k]),
        FoldToken::Ascii(c) => !spec_is_digit(c),
        _ => true,
    }
}

/// Every token of `xs` is well formed.
pub open spec fn fold_tokens_ok(xs: Seq<FoldToken>) -> bool {
    forall|k: int| 0 <= k < xs.len() ==> fold_token_ok(#[trigger] xs[k])
}

/// The case-folded tokens of `s` from position `i` on: whitespace is
/// dropped, except that whitespace at the very end leaves an `End` token;
/// each digit run is one token, each other ASCII byte is a token by its
/// lowercase, and each non-ASCII character a token by its lowercase
/// mapping.  The tokens stop at a byte where no character starts.
pub open spec fn fold_tokens_from(s: Seq<u8>, i: int) -> Seq<FoldToken>
    decreases s.len() - i,
{
    if i < 0 || i >= s.len() {
        Seq::empty()
    } else if spec_is_ws(s[i]) {
        proof {
            lemma_ws_run_end(s, i);
            lemma_ws_run_end(s, i + 1);
        }
        if ws_run_end(s, i) >= s.len() {
            seq![FoldToken::End]
        } else {
            fold_tokens_from(s, ws_run_end(s, i))
        }
    } else if spec_is_digit(s[i]) {
        proof {
            lemma_digit_run_end(s, i);
            lemma_digit_run_end(s, i + 1);
        }
        seq![FoldToken::Run(s.subrange(i, digit_run_end(s, i)))] + fold_tokens_from(
            s,
            digit_run_end(s, i),
        )
    } else if s[i] < 128 {
        seq![FoldToken::Ascii(ascii_lower(s[i]))] + fold_tokens_from(s, i + 1)
    } else if scalar_at(s, i) {
        proof {
            lemma_char_len_at(s, i);
        }
        seq![FoldToken::Wide(lowercase_of(char_at(s, i)))] + fold_tokens_from(
            s,
            i + char_len_at(s, i),
        )
    } else {
        Seq::empty()
    }
}

/// The class of a token: `End` first, then runs and ASCII bytes, then
/// non-ASCII characters.
pub open spec fn fold_rank(x: FoldToken) -> int {
    match x {
        FoldToken::End => 0,
        FoldToken::Wide(_) => 2,
        _ => 1,
    }
}

/// The byte that leads a run or ASCII token.
pub open spec fn fold_lead(x: FoldToken) -> int {
    match x {
        FoldToken::Run(r) => r[0] as int,
        FoldToken::Ascii(c) => c as int,
        _ => 0,
    }
}

/// The order of two tokens: by class; two runs as [`digit_step`] says;
/// two non-ASCII characters by the lexicographic order of their lowercase
/// mappings; otherwise by the leading bytes.
pub open spec fn fold_token_order(x: FoldToken, y: FoldToken) -> Order {
    if fold_rank(x) != fold_rank(y) {
        order_of(fold_rank(x), fold_rank(y))
    } else {
        match (x, y) {
            (FoldToken::Run(r), FoldToken::Run(t)) => match digit_step(
                r,
                t,
                0,
                0,
                r[0] == 48 || t[0] == 48,
            ) {
                Some(o) => o,
                None => Order::Equal,
            },
            (FoldToken::Wide(u), FoldToken::Wide(v)) => lex_order(u, v),
            _ => order_of(fold_lead(x), fold_lead(y)),
        }
    }
}

/// Lexicographic order of two token sequences under [`fold_token_order`].
pub open spec fn fold_tokens_order(xs: Seq<FoldToken>, ys: Seq<FoldToken>) -> Order
    decreases xs.len(),
{
    if xs.len() == 0 || ys.len() == 0 {
        order_of(xs.len() as int, ys.len() as int)
    } else {
        match fold_token_order(xs[0], ys[0]) {
            Order::Equal => fold_tokens_order(xs.drop_first(), ys.drop_first()),
            o => o,
        }
    }
}

/// In valid UTF-8, a character starts at every position where the rest is
/// valid, and the rest after it is valid again; an ASCII byte is a
/// character of its own.
proof fn lemma_valid_step(s: Seq<u8>, i: int)
    requires
        0 <= i < s.len(),
        valid_utf8(bytes_from(s, i)),
    ensures
        scalar_at(s, i),
        valid_utf8(bytes_from(s, i + char_len_at(s, i))),
        s[i] < 128 ==> char_len_at(s, i) == 1,
{
    let t = bytes_from(s, i);
    assert(t[0] == s[i]);
    lemma_char_len_at(s, i);
    assert(pop_first_scalar(t) =~= bytes_from(s, i + char_len_at(s, i)));
}

/// Valid UTF-8 stays valid past a block of ASCII bytes.
proof fn lemma_valid_ascii_block(s: Seq<u8>, i: int, e: int)
    requires
        0 <= i <= e <= s.len(),
        forall|k: int| i <= k < e ==> #[trigger] s[k] < 128,
        valid_utf8(bytes_from(s, i)),
    ensures
        valid_utf8(bytes_from(s, e)),
    decreases e - i,
{
    if i < e {
        assert(s[i] < 128);
        lemma_valid_step(s, i);
        lemma_valid_ascii_block(s, i + 1, e);
    }
}

/// A whitespace run and a digit run hold ASCII bytes only.
proof fn lemma_valid_after_runs(s: Seq<u8>, i: int)
    requires
        0 <= i <= s.len(),
        valid_utf8(bytes_from(s, i)),
    ensures
        valid_utf8(bytes_from(s, ws_run_end(s, i))),
        valid_utf8(bytes_from(s, digit_run_end(s, i))),
{
    lemma_ws_run_end(s, i);
    lemma_digit_run_end(s, i);
    assert forall|k: int| i <= k < ws_run_end(s, i) implies #[trigger] s[k] < 128 by {
        assert(spec_is_ws(s[k]));
    }
    lemma_valid_ascii_block(s, i, ws_run_end(s, i));
    assert forall|k: int| i <= k < digit_run_end(s, i) implies #[trigger] s[k] < 128 by {
        assert(spec_is_digit(s[k]));
    }
    lemma_valid_ascii_block(s, i, digit_run_end(s, i));
}

/// `lex_order` finds every sequence equal to itself.
pub(crate) proof fn lemma_lex_reflexive(s: Seq<char>, k: int)
    requires
        0 <= k,
    ensures
        lex_order_from(s, s, k) == Order::Equal,
    decreases s.len() - k,
{
    if k < s.len() {
        lemma_lex_reflexive(s, k + 1);
    }
}

/// `lex_order` is transitive.
proof fn lemma_lex_trans(x: Seq<char>, y: Seq<char>, z: Seq<char>, k: int)
    requires
        0 <= k,
        lex_order_from(x, y, k) == Order::Less,
        lex_order_from(y, z, k) == Order::Less,
    ensures
        lex_order_from(x, z, k) == Order::Less,
    decreases x.len() - k,
{
    if k < x.len() && k < y.len() && k < z.len() && x[k] == y[k] && y[k] == z[k] {
        lemma_lex_trans(x, y, z, k + 1);
    }
}

/// Sequences that `lex_order` finds equal are the same.
pub(crate) proof fn lemma_lex_equal(x: Seq<char>, y: Seq<char>, k: int)
    requires
        0 <= k <= x.len(),
        k <= y.len(),
        lex_order_from(x, y, k) == Order::Equal,
    ensures
        x.len() == y.len(),
        forall|t: int| k <= t < x.len() ==> #[trigger] x[t] == y[t],
    decreases x.len() - k,
{
    if k < x.len() && k < y.len() {
        if x[k] != y[k] {
            char_u32_cast(x[k], x[k] as u32);
            char_u32_cast(y[k], y[k] as u32);
        }
        lemma_lex_equal(x, y, k + 1);
    }
}

/// The tokens of `s` from a byte that is not whitespace start with the
/// token of that byte or of the character that starts there.
proof fn lemma_fold_first_token(s: Seq<u8>, i: int)
    requires
        0 <= i < s.len(),
        !spec_is_ws(s[i]),
        valid_utf8(bytes_from(s, i)),
    ensures
        fold_tokens_from(s, i).len() > 0,
        spec_is_digit(s[i]) ==> fold_tokens_from(s, i)[0] == FoldToken::Run(
            s.subrange(i, digit_run_end(s, i)),
        ) && fold_tokens_from(s, i).drop_first() == fold_tokens_from(s, digit_run_end(s, i)),
        !spec_is_digit(s[i]) && s[i] < 128 ==> fold_tokens_from(s, i)[0] == FoldToken::Ascii(
            ascii_lower(s[i]),
        ) && fold_tokens_from(s, i).drop_first() == fold_tokens_from(s, i + 1),
        s[i] >= 128 ==> scalar_at(s, i) && fold_tokens_from(s, i)[0] == FoldToken::Wide(
            lowercase_of(char_at(s, i)),
        ) && fold_tokens_from(s, i).drop_first() == fold_tokens_from(s, i + char_len_at(s, i)),
{
    lemma_digit_run_end(s, i);
    lemma_digit_run_end(s, i + 1);
    lemma_valid_step(s, i);
    lemma_char_len_at(s, i);
    let ts = fold_tokens_from(s, i);
    if spec_is_digit(s[i]) {
        assert(ts.drop_first() =~= fold_tokens_from(s, digit_run_end(s, i)));
    } else if s[i] < 128 {
        assert(ts.drop_first() =~= fold_tokens_from(s, i + 1));
    } else {
        assert(ts.drop_first() =~= fold_tokens_from(s, i + char_len_at(s, i)));
    }
}

/// Valid UTF-8 with bytes left from `i` has tokens left.
proof fn lemma_fold_tokens_nonempty(s: Seq<u8>, i: int)
    requires
        0 <= i < s.len(),
        valid_utf8(bytes_from(s, i)),
    ensures
        fold_tokens_from(s, i).len() > 0,
    decreases s.len() - i,
{
    lemma_ws_run_end(s, i);
    lemma_ws_run_end(s, i + 1);
    if spec_is_ws(s[i]) {
        if ws_run_end(s, i) < s.len() {
            lemma_valid_after_runs(s, i);
            lemma_fold_tokens_nonempty(s, ws_run_end(s, i));
        }
    } else {
        lemma_fold_first_token(s, i);
    }
}

/// Every token of a string is well formed.
proof fn lemma_fold_tokens_ok(s: Seq<u8>, i: int)
    requires
        0 <= i <= s.len(),
    ensures
        fold_tokens_ok(fold_tokens_from(s, i)),
    decreases s.len() - i,
{
    if i < s.len() {
        lemma_ws_run_end(s, i);
        lemma_ws_run_end(s, i + 1);
        lemma_digit_run_end(s, i);
        lemma_digit_run_end(s, i + 1);
        let ts = fold_tokens_from(s, i);
        if spec_is_ws(s[i]) {
            if ws_run_end(s, i) < s.len() {
                lemma_fold_tokens_ok(s, ws_run_end(s, i));
            }
        } else if spec_is_digit(s[i]) || s[i] < 128 || scalar_at(s, i) {
            let e = if spec_is_digit(s[i]) {
                digit_run_end(s, i)
            } else if s[i] < 128 {
                i + 1
            } else {
                i + char_len_at(s, i)
            };
            if scalar_at(s, i) {
                lemma_char_len_at(s, i);
            }
            if spec_is_digit(s[i]) {
                lemma_run_token(s, i);
            }
            lemma_fold_tokens_ok(s, e);
            assert(ts.drop_first() =~= fold_tokens_from(s, e));
            assert(fold_token_ok(ts[0]));
            assert forall|k: int| 0 <= k < ts.len() implies fold_token_ok(#[trigger] ts[k]) by {
                if k > 0 {
                    assert(ts[k] == ts.drop_first()[k - 1]);
                }
            }
        }
    }
}

/// On valid UTF-8, from positions that do not split a digit run, the
/// case-insensitive natural order is the order of the token sequences.
proof fn lemma_ignore_case_tokens(a: Seq<u8>, b: Seq<u8>, i: int, j: int)
    requires
        0 <= i <= a.len(),
        0 <= j <= b.len(),
        settled(a, i),
        settled(b, j),
        valid_utf8(bytes_from(a, i)),
        valid_utf8(bytes_from(b, j)),
    ensures
        ignore_case_order_from(a, b, i, j) == fold_tokens_order(
            fold_tokens_from(a, i),
            fold_tokens_from(b, j),
        ),
    decreases a.len() - i + b.len() - j,
{
    let ta = fold_tokens_from(a, i);
    let tb = fold_tokens_from(b, j);
    if i == a.len() || j == b.len() {
        if i < a.len() {
            lemma_fold_tokens_nonempty(a, i);
        }
        if j < b.len() {
            lemma_fold_tokens_nonempty(b, j);
        }
    } else {
        let ca = a[i];
        let cb = b[j];
        lemma_ws_run_end(a, i);
        lemma_ws_run_end(a, i + 1);
        lemma_ws_run_end(b, j);
        lemma_ws_run_end(b, j + 1);
        lemma_digit_run_end(a, i);
        lemma_digit_run_end(a, i + 1);
        lemma_digit_run_end(b, j);
        lemma_digit_run_end(b, j + 1);
        lemma_valid_after_runs(a, i);
        lemma_valid_after_runs(b, j);
        if spec_is_digit(ca) && spec_is_digit(cb) {
            let lz = ca == 48 || cb == 48;
            lemma_fold_first_token(a, i);
            lemma_fold_first_token(b, j);
            lemma_run_token(a, i);
            lemma_run_token(b, j);
            lemma_digit_step_tokens(a, b, i, j, lz);
            lemma_digit_step_not_equal(a, b, i, j, lz);
            if digit_step(a, b, i, j, lz) is None {
                lemma_ignore_case_tokens(a, b, digit_run_end(a, i), digit_run_end(b, j));
            }
        } else if spec_is_ws(ca) || spec_is_ws(cb) {
            let wa = ws_run_end(a, i);
            let wb = ws_run_end(b, j);
            assert(ignore_case_order_from(a, b, i, j) == ignore_case_order_from(a, b, wa, wb));
            if wa < a.len() {
                assert(ta == fold_tokens_from(a, wa));
                lemma_fold_first_token(a, wa);
            }
            if wb < b.len() {
                assert(tb == fold_tokens_from(b, wb));
                lemma_fold_first_token(b, wb);
            }
            if wa < a.len() && wb < b.len() {
                lemma_ignore_case_tokens(a, b, wa, wb);
            } else if wa == a.len() && wb == b.len() {
                assert(ta.drop_first() =~= Seq::<FoldToken>::empty());
                assert(tb.drop_first() =~= Seq::<FoldToken>::empty());
                assert(fold_tokens_order(ta.drop_first(), tb.drop_first()) == Order::Equal);
            }
        } else {
            lemma_fold_first_token(a, i);
            lemma_fold_first_token(b, j);
            lemma_valid_step(a, i);
            lemma_valid_step(b, j);
            lemma_char_len_at(a, i);
            lemma_char_len_at(b, j);
            if ca < 128 && cb < 128 {
                if ascii_lower(ca) == ascii_lower(cb) {
                    lemma_ignore_case_tokens(a, b, i + 1, j + 1);
                }
            } else if ca >= 128 && cb >= 128 {
                let u = lowercase_of(char_at(a, i));
                let v = lowercase_of(char_at(b, j));
                if char_at(a, i) == char_at(b, j) {
                    lemma_lex_reflexive(u, 0);
                }
                assert(unicode_advance(a, b, i, j) == (char_len_at(a, i), char_len_at(b, j)));
                if unicode_fold_step(a, b, i, j) is None {
                    lemma_ignore_case_tokens(a, b, i + char_len_at(a, i), j + char_len_at(b, j));
                }
            }
        }
    }
}

/// `fold_token_order` is transitive on well-formed tokens.
proof fn lemma_fold_token_trans(x: FoldToken, y: FoldToken, z: FoldToken)
    requires
        fold_token_ok(x),
        fold_token_ok(y),
        fold_token_ok(z),
        fold_token_order(x, y) == Order::Less,
        fold_token_order(y, z) == Order::Less,
    ensures
        fold_token_order(x, z) == Order::Less,
{
    if fold_rank(x) == fold_rank(y) && fold_rank(y) == fold_rank(z) {
        match (x, y, z) {
            (FoldToken::Run(r), FoldToken::Run(t), FoldToken::Run(w)) => {
                assert(spec_is_digit(r[0]) && spec_is_digit(t[0]) && spec_is_digit(w[0]));
                lemma_digit_step_trans(r, t, w, 0);
            },
            (FoldToken::Wide(u), FoldToken::Wide(v), FoldToken::Wide(w)) => {
                lemma_lex_trans(u, v, w, 0);
            },
            (FoldToken::Run(r), _, _) => {
                assert(spec_is_digit(r[0]));
            },
            (_, FoldToken::Run(t), _) => {
                assert(spec_is_digit(t[0]));
            },
            (_, _, FoldToken::Run(w)) => {
                assert(spec_is_digit(w[0]));
            },
            _ => {},
        }
    }
}

/// Well-formed tokens that `fold_token_order` finds equal are the same
/// token.
proof fn lemma_fold_token_equal(x: FoldToken, y: FoldToken)
    requires
        fold_token_ok(x),
        fold_token_ok(y),
        fold_token_order(x, y) == Order::Equal,
    ensures
        x == y,
{
    match (x, y) {
        (FoldToken::Run(r), FoldToken::Run(t)) => {
            let lz = r[0] == 48 || t[0] == 48;
            lemma_digit_step_not_equal(r, t, 0, 0, lz);
            lemma_digit_tie(r, t, 0, lz);
            lemma_digit_run_end_full(r, 0);
            lemma_digit_run_end_full(t, 0);
            assert(r =~= t);
        },
        (FoldToken::Wide(u), FoldToken::Wide(v)) => {
            lemma_lex_equal(u, v, 0);
            assert(u =~= v);
        },
        (FoldToken::Run(r), _) => {
            assert(spec_is_digit(r[0]));
        },
        (_, FoldToken::Run(t)) => {
            assert(spec_is_digit(t[0]));
        },
        _ => {},
    }
}

/// `fold_tokens_order` is transitive on well-formed token sequences.
proof fn lemma_fold_tokens_trans(xs: Seq<FoldToken>, ys: Seq<FoldToken>, zs: Seq<FoldToken>)
    requires
        fold_tokens_ok(xs),
        fold_tokens_ok(ys),
        fold_tokens_ok(zs),
        fold_tokens_order(xs, ys) == Order::Less,
        fold_tokens_order(ys, zs) == Order::Less,
    ensures
        fold_tokens_order(xs, zs) == Order::Less,
    decreases xs.len(),
{
    if xs.len() > 0 && ys.len() > 0 && zs.len() > 0 {
        let x = xs[0];
        let y = ys[0];
        let z = zs[0];
        assert(fold_token_ok(x) && fold_token_ok(y) && fold_token_ok(z));
        if fold_token_order(x, y) == Order::Equal {
            lemma_fold_token_equal(x, y);
            if fold_token_order(y, z) == Order::Equal {
                lemma_fold_token_equal(y, z);
                assert(fold_tokens_ok(xs.drop_first()));
                assert(fold_tokens_ok(ys.drop_first()));
                assert(fold_tokens_ok(zs.drop_first()));
                lemma_fold_tokens_trans(xs.drop_first(), ys.drop_first(), zs.drop_first());
            }
        } else if fold_token_order(y, z) == Order::Equal {
            lemma_fold_token_equal(y, z);
        } else {
            lemma_fold_token_trans(x, y, z);
        }
    }
}

/// Well-formed token sequences that `fold_tokens_order` finds equal are
/// the same.
proof fn lemma_fold_tokens_equal(xs: Seq<FoldToken>, ys: Seq<FoldToken>)
    requires
        fold_tokens_ok(xs),
        fold_tokens_ok(ys),
        fold_tokens_order(xs, ys) == Order::Equal,
    ensures
        xs == ys,
    decreases xs.len(),
{
    if xs.len() > 0 && ys.len() > 0 {
        assert(fold_token_ok(xs[0]) && fold_token_ok(ys[0]));
        lemma_fold_token_equal(xs[0], ys[0]);
        assert(fold_tokens_ok(xs.drop_first()));
        assert(fold_tokens_ok(ys.drop_first()));
        lemma_fold_tokens_equal(xs.drop_first(), ys.drop_first());
        assert forall|k: int| 0 <= k < xs.len() implies #[trigger] xs[k] == ys[k] by {
            if k > 0 {
                assert(xs[k] == xs.drop_first()[k - 1]);
                assert(ys[k] == ys.drop_first()[k - 1]);
            }
        }
    }
    assert(xs =~= ys);
}

/// On valid UTF-8, `compare_ignore_case` orders two strings as the
/// lexicographic order of their case-folded token sequences.
pub proof fn law_compare_ignore_case_is_token_order(a: Seq<u8>, b: Seq<u8>)
    requires
        valid_utf8(a),
        valid_utf8(b),
    ensures
        ignore_case_order(a, b) == fold_tokens_order(fold_tokens_from(a, 0), fold_tokens_from(b, 0)),
{
    assert(bytes_from(a, 0) =~= a);
    assert(bytes_from(b, 0) =~= b);
    lemma_ignore_case_tokens(a, b, 0, 0);
}

/// On valid UTF-8, `compare_ignore_case` is transitive, and two strings
/// that it finds equal compare alike against every string.
pub proof fn law_compare_ignore_case_transitive(a: Seq<u8>, b: Seq<u8>, c: Seq<u8>)
    requires
        valid_utf8(a),
        valid_utf8(b),
        valid_utf8(c),
    ensures
        ignore_case_order(a, b) == Order::Less && ignore_case_order(b, c) == Order::Less
            ==> ignore_case_order(a, c) == Order::Less,
        ignore_case_order(a, b) == Order::Equal ==> ignore_case_order(a, c) == ignore_case_order(
            b,
            c,
        ) && ignore_case_order(c, a) == ignore_case_order(c, b),
{
    law_compare_ignore_case_is_token_order(a, b);
    law_compare_ignore_case_is_token_order(b, c);
    law_compare_ignore_case_is_token_order(a, c);
    law_compare_ignore_case_is_token_order(c, a);
    law_compare_ignore_case_is_token_order(c, b);
    let ta = fold_tokens_from(a, 0);
    let tb = fold_tokens_from(b, 0);
    let tc = fold_tokens_from(c, 0);
    lemma_fold_tokens_ok(a, 0);
    lemma_fold_tokens_ok(b, 0);
    lemma_fold_tokens_ok(c, 0);
    if fold_tokens_order(ta, tb) == Order::Less && fold_tokens_order(tb, tc) == Order::Less {
        lemma_fold_tokens_trans(ta, tb, tc);
    }
    if fold_tokens_order(ta, tb) == Order::Equal {
        lemma_fold_tokens_equal(ta, tb);
    }
}

/// Every token sequence is equal to itself under `fold_tokens_order`.
proof fn lemma_fold_tokens_reflexive(xs: Seq<FoldToken>)
    ensures
        fold_tokens_order(xs, xs) == Order::Equal,
    decreases xs.len(),
{
    if xs.len() > 0 {
        match xs[0] {
            FoldToken::Run(r) => {
                lemma_digit_run_end(r, 0);
                lemma_first_diff_same(r, 0, digit_run_end(r, 0));
            },
            FoldToken::Wide(u) => {
                lemma_lex_reflexive(u, 0);
            },
            _ => {},
        }
        lemma_fold_tokens_reflexive(xs.drop_first());
    }
}

/// On valid UTF-8, `compare_ignore_case` finds two strings equal exactly
/// when they have the same case-folded token sequence.
pub proof fn law_compare_ignore_case_equal_iff_same_tokens(a: Seq<u8>, b: Seq<u8>)
    requires
        valid_utf8(a),
        valid_utf8(b),
    ensures
        (ignore_case_order(a, b) == Order::Equal) <==> fold_tokens_from(a, 0) == fold_tokens_from(
            b,
            0,
        ),
{
    law_compare_ignore_case_is_token_order(a, b);
    lemma_fold_tokens_ok(a, 0);
    lemma_fold_tokens_ok(b, 0);
    if ignore_case_order(a, b) == Order::Equal {
        lemma_fold_tokens_equal(fold_tokens_from(a, 0), fold_tokens_from(b, 0));
    }
    lemma_fold_tokens_reflexive(fold_tokens_from(a, 0));
}

} // verus!
