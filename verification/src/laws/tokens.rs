//! `compare` as the lexicographic order of token sequences, and the total
//! preorder that follows from it.

use vstd::prelude::*;

use crate::byte_utils::{
    digit_run_end, digit_step, lemma_digit_run_end, lemma_ws_run_end, spec_is_digit, spec_is_ws,
    ws_run_end,
};
use crate::compare::{natural_order, natural_order_from};
use crate::laws::total_order::{lemma_digit_step_trans, lemma_digit_tie, settled};
use crate::order::{first_diff, lemma_first_diff_not_equal, lemma_first_diff_same, order_of, Order};

verus! {

/// A token of the natural order: one byte that is not a digit, or a run of
/// digits (empty for whitespace that ends a string).
pub open spec fn token_ok(x: Seq<u8>) -> bool {
    ||| x.len() == 1 && !spec_is_digit(x[0])
    ||| forall|k: int| 0 <= k < x.len() ==> spec_is_digit(#[trigger] x[k])
}

/// Every token of `xs` is well formed.
pub open spec fn tokens_ok(xs: Seq<Seq<u8>>) -> bool {
    forall|k: int| 0 <= k < xs.len() ==> token_ok(#[trigger] xs[k])
}

/// The tokens of `s` from position `i` on: whitespace is dropped, except
/// that whitespace at the very end leaves one empty token; each digit run
/// is one token, and each other byte is a token of its own.
pub open spec fn tokens_from(s: Seq<u8>, i: int) -> Seq<Seq<u8>>
    decreases s.len() - i,
{
    if i < 0 || i >= s.len() {
        Seq::empty()
    } else if spec_is_ws(s[i]) {
        proof {
            lemma_ws_run_end(s, i);
            lemma_ws_run_end(s, i + 1);
        }
        if ws_run_end(s, i) >= s.len() {
            seq![Seq::empty()]
        } else {
            tokens_from(s, ws_run_end(s, i))
        }
    } else if spec_is_digit(s[i]) {
        proof {
            lemma_digit_run_end(s, i);
            lemma_digit_run_end(s, i + 1);
        }
        seq![s.subrange(i, digit_run_end(s, i))] + tokens_from(s, digit_run_end(s, i))
    } else {
        seq![seq![s[i]]] + tokens_from(s, i + 1)
    }
}

/// The order of two tokens: the empty token comes first, two digit runs
/// compare as [`digit_step`] says, and otherwise the first bytes decide.
pub open spec fn token_order(x: Seq<u8>, y: Seq<u8>) -> Order {
    if x.len() == 0 || y.len() == 0 {
        order_of(x.len() as int, y.len() as int)
    } else if spec_is_digit(x[0]) && spec_is_digit(y[0]) {
        match digit_step(x, y, 0, 0, x[0] == 48 || y[0] == 48) {
            Some(o) => o,
            None => Order::Equal,
        }
    } else {
        order_of(x[0] as int, y[0] as int)
    }
}

/// Lexicographic order of two token sequences under [`token_order`].
pub open spec fn tokens_order(xs: Seq<Seq<u8>>, ys: Seq<Seq<u8>>) -> Order
    decreases xs.len(),
{
    if xs.len() == 0 || ys.len() == 0 {
        order_of(xs.len() as int, ys.len() as int)
    } else {
        match token_order(xs[0], ys[0]) {
            Order::Equal => tokens_order(xs.drop_first(), ys.drop_first()),
            o => o,
        }
    }
}

/// `first_diff` on windows cut out of `x` and `y` is `first_diff` on `x`
/// and `y` at the same places.
proof fn lemma_first_diff_subrange(
    x: Seq<u8>,
    i: int,
    ex: int,
    y: Seq<u8>,
    j: int,
    ey: int,
    p: int,
    n: int,
)
    requires
        0 <= i <= ex <= x.len(),
        0 <= j <= ey <= y.len(),
        0 <= p,
        p + n <= ex - i,
        p + n <= ey - j,
    ensures
        first_diff(x.subrange(i, ex), p, y.subrange(j, ey), p, n) == first_diff(
            x,
            i + p,
            y,
            j + p,
            n,
        ),
    decreases n,
{
    if n > 0 {
        assert(x.subrange(i, ex)[p] == x[i + p]);
        assert(y.subrange(j, ey)[p] == y[j + p]);
        lemma_first_diff_subrange(x, i, ex, y, j, ey, p + 1, n - 1);
    }
}

/// In a sequence of digits, the run from `t` reaches the end.
pub(crate) proof fn lemma_digit_run_end_full(s: Seq<u8>, t: int)
    requires
        0 <= t <= s.len(),
        forall|k: int| 0 <= k < s.len() ==> spec_is_digit(#[trigger] s[k]),
    ensures
        digit_run_end(s, t) == s.len(),
    decreases s.len() - t,
{
    if t < s.len() {
        lemma_digit_run_end_full(s, t + 1);
    }
}

/// The digit run cut out of `s` at `i` is all digits, and its own run is
/// all of it.
pub(crate) proof fn lemma_run_token(s: Seq<u8>, i: int)
    requires
        0 <= i <= s.len(),
    ensures
        forall|k: int|
            0 <= k < s.subrange(i, digit_run_end(s, i)).len() ==> spec_is_digit(
                #[trigger] s.subrange(i, digit_run_end(s, i))[k],
            ),
        digit_run_end(s.subrange(i, digit_run_end(s, i)), 0) == digit_run_end(s, i) - i,
{
    lemma_digit_run_end(s, i);
    let r = s.subrange(i, digit_run_end(s, i));
    assert forall|k: int| 0 <= k < r.len() implies spec_is_digit(#[trigger] r[k]) by {
        assert(r[k] == s[i + k]);
    }
    lemma_digit_run_end_full(r, 0);
}

/// Two digit runs compare as tokens as they do in place.
pub(crate) proof fn lemma_digit_step_tokens(a: Seq<u8>, b: Seq<u8>, i: int, j: int, lz: bool)
    requires
        0 <= i <= a.len(),
        0 <= j <= b.len(),
    ensures
        digit_step(
            a.subrange(i, digit_run_end(a, i)),
            b.subrange(j, digit_run_end(b, j)),
            0,
            0,
            lz,
        ) == digit_step(a, b, i, j, lz),
{
    lemma_digit_run_end(a, i);
    lemma_digit_run_end(b, j);
    lemma_run_token(a, i);
    lemma_run_token(b, j);
    let ea = digit_run_end(a, i);
    let eb = digit_run_end(b, j);
    let ka = ea - i;
    let kb = eb - j;
    let m = if ka < kb {
        ka
    } else {
        kb
    };
    lemma_first_diff_subrange(a, i, ea, b, j, eb, 0, m);
    if ka == kb {
        lemma_first_diff_subrange(a, i, ea, b, j, eb, 0, ka);
    }
}

/// A digit step never ends in `Equal`.
pub(crate) proof fn lemma_digit_step_not_equal(a: Seq<u8>, b: Seq<u8>, i: int, j: int, lz: bool)
    ensures
        digit_step(a, b, i, j, lz) != Some(Order::Equal),
{
    let ka = digit_run_end(a, i) - i;
    let kb = digit_run_end(b, j) - j;
    lemma_first_diff_not_equal(a, i, b, j, if ka < kb { ka } else { kb });
    lemma_first_diff_not_equal(a, i, b, j, ka);
}

/// The tokens of `s` from a byte that is not whitespace start with the
/// token of that byte.
proof fn lemma_first_token(s: Seq<u8>, i: int)
    requires
        0 <= i < s.len(),
        !spec_is_ws(s[i]),
    ensures
        tokens_from(s, i).len() > 0,
        tokens_from(s, i)[0].len() > 0,
        tokens_from(s, i)[0][0] == s[i],
        spec_is_digit(s[i]) ==> tokens_from(s, i)[0] == s.subrange(i, digit_run_end(s, i))
            && tokens_from(s, i).drop_first() == tokens_from(s, digit_run_end(s, i)),
        !spec_is_digit(s[i]) ==> tokens_from(s, i)[0] == seq![s[i]] && tokens_from(
            s,
            i,
        ).drop_first() == tokens_from(s, i + 1),
{
    lemma_digit_run_end(s, i);
    lemma_digit_run_end(s, i + 1);
    if spec_is_digit(s[i]) {
        let t = s.subrange(i, digit_run_end(s, i));
        assert(tokens_from(s, i) == seq![t] + tokens_from(s, digit_run_end(s, i)));
        assert(tokens_from(s, i).drop_first() =~= tokens_from(s, digit_run_end(s, i)));
        assert(t[0] == s[i]);
    } else {
        assert(tokens_from(s, i).drop_first() =~= tokens_from(s, i + 1));
    }
}

/// A string with bytes left from `i` has tokens left.
proof fn lemma_tokens_nonempty(s: Seq<u8>, i: int)
    requires
        0 <= i < s.len(),
    ensures
        tokens_from(s, i).len() > 0,
    decreases s.len() - i,
{
    lemma_ws_run_end(s, i);
    lemma_ws_run_end(s, i + 1);
    if spec_is_ws(s[i]) {
        if ws_run_end(s, i) < s.len() {
            lemma_tokens_nonempty(s, ws_run_end(s, i));
        }
    } else {
        lemma_first_token(s, i);
    }
}

/// Every token of a string is well formed.
proof fn lemma_tokens_ok(s: Seq<u8>, i: int)
    requires
        0 <= i <= s.len(),
    ensures
        tokens_ok(tokens_from(s, i)),
    decreases s.len() - i,
{
    if i < s.len() {
        lemma_ws_run_end(s, i);
        lemma_ws_run_end(s, i + 1);
        lemma_digit_run_end(s, i);
        lemma_digit_run_end(s, i + 1);
        if spec_is_ws(s[i]) {
            if ws_run_end(s, i) < s.len() {
                lemma_tokens_ok(s, ws_run_end(s, i));
            } else {
                assert(token_ok(tokens_from(s, i)[0]));
            }
        } else {
            lemma_first_token(s, i);
            let ts = tokens_from(s, i);
            let e = if spec_is_digit(s[i]) {
                digit_run_end(s, i)
            } else {
                i + 1
            };
            lemma_tokens_ok(s, e);
            if spec_is_digit(s[i]) {
                lemma_run_token(s, i);
            }
            assert(token_ok(ts[0]));
            assert forall|k: int| 0 <= k < ts.len() implies token_ok(#[trigger] ts[k]) by {
                if k > 0 {
                    assert(ts[k] == ts.drop_first()[k - 1]);
                }
            }
        }
    }
}

/// From positions that do not split a digit run, the natural order is the
/// order of the token sequences.
proof fn lemma_natural_order_tokens(a: Seq<u8>, b: Seq<u8>, i: int, j: int)
    requires
        0 <= i <= a.len(),
        0 <= j <= b.len(),
        settled(a, i),
        settled(b, j),
    ensures
        natural_order_from(a, b, i, j) == tokens_order(tokens_from(a, i), tokens_from(b, j)),
    decreases a.len() - i + b.len() - j,
{
    let ta = tokens_from(a, i);
    let tb = tokens_from(b, j);
    if i == a.len() || j == b.len() {
        if i < a.len() {
            lemma_tokens_nonempty(a, i);
        }
        if j < b.len() {
            lemma_tokens_nonempty(b, j);
        }
    } else {
        let ca = a[i];
        let cb = b[j];
        lemma_ws_run_end(a, i);
        lemma_ws_run_end(a, i + 1);
        lemma_ws_run_end(b, j);
        lemma_ws_run_end(b, j + 1);
        lemma_digit_run_end(a, i);
        lemma_digit_run_end(a, i + 1);
        lemma_digit_run_end(b, j);
        lemma_digit_run_end(b, j + 1);
        if spec_is_digit(ca) && spec_is_digit(cb) {
            let lz = ca == 48 || cb == 48;
            lemma_first_token(a, i);
            lemma_first_token(b, j);
            lemma_digit_step_tokens(a, b, i, j, lz);
            lemma_digit_step_not_equal(a, b, i, j, lz);
            if digit_step(a, b, i, j, lz) is None {
                lemma_natural_order_tokens(a, b, digit_run_end(a, i), digit_run_end(b, j));
            }
        } else if spec_is_ws(ca) || spec_is_ws(cb) {
            let wa = ws_run_end(a, i);
            let wb = ws_run_end(b, j);
            assert(natural_order_from(a, b, i, j) == natural_order_from(a, b, wa, wb));
            if wa < a.len() {
                assert(ta == tokens_from(a, wa));
                lemma_first_token(a, wa);
            }
            if wb < b.len() {
                assert(tb == tokens_from(b, wb));
                lemma_first_token(b, wb);
            }
            if wa < a.len() && wb < b.len() {
                lemma_natural_order_tokens(a, b, wa, wb);
            } else if wa == a.len() && wb == b.len() {
                assert(ta.drop_first() =~= Seq::<Seq<u8>>::empty());
                assert(tb.drop_first() =~= Seq::<Seq<u8>>::empty());
                assert(tokens_order(ta.drop_first(), tb.drop_first()) == Order::Equal);
            }
        } else {
            lemma_first_token(a, i);
            lemma_first_token(b, j);
            if ca == cb {
                lemma_natural_order_tokens(a, b, i + 1, j + 1);
            }
        }
    }
}

/// `token_order` is transitive on well-formed tokens.
proof fn lemma_token_trans(x: Seq<u8>, y: Seq<u8>, z: Seq<u8>)
    requires
        token_ok(x),
        token_ok(y),
        token_ok(z),
        token_order(x, y) == Order::Less,
        token_order(y, z) == Order::Less,
    ensures
        token_order(x, z) == Order::Less,
{
    if x.len() > 0 && y.len() > 0 && z.len() > 0 && spec_is_digit(x[0]) && spec_is_digit(y[0])
        && spec_is_digit(z[0]) {
        lemma_digit_step_trans(x, y, z, 0);
    }
}

/// Well-formed tokens that `token_order` finds equal are the same token.
proof fn lemma_token_equal(x: Seq<u8>, y: Seq<u8>)
    requires
        token_ok(x),
        token_ok(y),
        token_order(x, y) == Order::Equal,
    ensures
        x == y,
{
    if x.len() > 0 && y.len() > 0 {
        if spec_is_digit(x[0]) && spec_is_digit(y[0]) {
            let lz = x[0] == 48 || y[0] == 48;
            lemma_digit_step_not_equal(x, y, 0, 0, lz);
            lemma_digit_tie(x, y, 0, lz);
            lemma_digit_run_end_full(x, 0);
            lemma_digit_run_end_full(y, 0);
        }
        assert(x =~= y);
    }
}

/// `tokens_order` is transitive on well-formed token sequences.
proof fn lemma_tokens_trans(xs: Seq<Seq<u8>>, ys: Seq<Seq<u8>>, zs: Seq<Seq<u8>>)
    requires
        tokens_ok(xs),
        tokens_ok(ys),
        tokens_ok(zs),
        tokens_order(xs, ys) == Order::Less,
        tokens_order(ys, zs) == Order::Less,
    ensures
        tokens_order(xs, zs) == Order::Less,
    decreases xs.len(),
{
    if xs.len() > 0 && ys.len() > 0 && zs.len() > 0 {
        let x = xs[0];
        let y = ys[0];
        let z = zs[0];
        assert(token_ok(x) && token_ok(y) && token_ok(z));
        if token_order(x, y) == Order::Equal {
            lemma_token_equal(x, y);
            if token_order(y, z) == Order::Equal {
                lemma_token_equal(y, z);
                assert(tokens_ok(xs.drop_first()));
                assert(tokens_ok(ys.drop_first()));
                assert(tokens_ok(zs.drop_first()));
                lemma_tokens_trans(xs.drop_first(), ys.drop_first(), zs.drop_first());
            }
        } else if token_order(y, z) == Order::Equal {
            lemma_token_equal(y, z);
        } else {
            lemma_token_trans(x, y, z);
        }
    }
}

/// Well-formed token sequences that `tokens_order` finds equal are the same.
proof fn lemma_tokens_equal(xs: Seq<Seq<u8>>, ys: Seq<Seq<u8>>)
    requires
        tokens_ok(xs),
        tokens_ok(ys),
        tokens_order(xs, ys) == Order::Equal,
    ensures
        xs == ys,
    decreases xs.len(),
{
    if xs.len() > 0 && ys.len() > 0 {
        assert(token_ok(xs[0]) && token_ok(ys[0]));
        lemma_token_equal(xs[0], ys[0]);
        assert(tokens_ok(xs.drop_first()));
        assert(tokens_ok(ys.drop_first()));
        lemma_tokens_equal(xs.drop_first(), ys.drop_first());
        assert forall|k: int| 0 <= k < xs.len() implies #[trigger] xs[k] == ys[k] by {
            if k > 0 {
                assert(xs[k] == xs.drop_first()[k - 1]);
                assert(ys[k] == ys.drop_first()[k - 1]);
            }
        }
    }
    assert(xs =~= ys);
}

/// `compare` orders two strings as the lexicographic order of their token
/// sequences.
pub proof fn law_compare_is_token_order(a: Seq<u8>, b: Seq<u8>)
    ensures
        natural_order(a, b) == tokens_order(tokens_from(a, 0), tokens_from(b, 0)),
{
    lemma_natural_order_tokens(a, b, 0, 0);
}

/// `compare` is transitive: when `a` sorts before `b` and `b` before `c`,
/// `a` sorts before `c`.
pub proof fn law_compare_transitive(a: Seq<u8>, b: Seq<u8>, c: Seq<u8>)
    requires
        natural_order(a, b) == Order::Less,
        natural_order(b, c) == Order::Less,
    ensures
        natural_order(a, c) == Order::Less,
{
    lemma_natural_order_tokens(a, b, 0, 0);
    lemma_natural_order_tokens(b, c, 0, 0);
    lemma_natural_order_tokens(a, c, 0, 0);
    lemma_tokens_ok(a, 0);
    lemma_tokens_ok(b, 0);
    lemma_tokens_ok(c, 0);
    lemma_tokens_trans(tokens_from(a, 0), tokens_from(b, 0), tokens_from(c, 0));
}

/// Two strings that `compare` finds equal compare alike against every
/// string, on either side.
pub proof fn law_compare_equal_substitutes(a: Seq<u8>, b: Seq<u8>, c: Seq<u8>)
    requires
        natural_order(a, b) == Order::Equal,
    ensures
        natural_order(a, c) == natural_order(b, c),
        natural_order(c, a) == natural_order(c, b),
{
    lemma_natural_order_tokens(a, b, 0, 0);
    lemma_natural_order_tokens(a, c, 0, 0);
    lemma_natural_order_tokens(b, c, 0, 0);
    lemma_natural_order_tokens(c, a, 0, 0);
    lemma_natural_order_tokens(c, b, 0, 0);
    lemma_tokens_ok(a, 0);
    lemma_tokens_ok(b, 0);
    lemma_tokens_equal(tokens_from(a, 0), tokens_from(b, 0));
}

/// Every token sequence is equal to itself under `tokens_order`.
proof fn lemma_tokens_reflexive(xs: Seq<Seq<u8>>)
    ensures
        tokens_order(xs, xs) == Order::Equal,
    decreases xs.len(),
{
    if xs.len() > 0 {
        let x = xs[0];
        if x.len() > 0 && spec_is_digit(x[0]) {
            lemma_digit_run_end(x, 0);
            lemma_first_diff_same(x, 0, digit_run_end(x, 0));
        }
        lemma_tokens_reflexive(xs.drop_first());
    }
}

/// `compare` finds two strings equal exactly when they have the same token
/// sequence: when they differ only in whitespace that [`tokens_from`]
/// drops.
pub proof fn law_compare_equal_iff_same_tokens(a: Seq<u8>, b: Seq<u8>)
    ensures
        (natural_order(a, b) == Order::Equal) <==> tokens_from(a, 0) == tokens_from(b, 0),
{
    lemma_natural_order_tokens(a, b, 0, 0);
    lemma_tokens_ok(a, 0);
    lemma_tokens_ok(b, 0);
    if natural_order(a, b) == Order::Equal {
        lemma_tokens_equal(tokens_from(a, 0), tokens_from(b, 0));
    }
    lemma_tokens_reflexive(tokens_from(a, 0));
}

} // verus!
