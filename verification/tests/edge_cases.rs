//! Edge cases of the comparators, the normalizer and the byte helpers.

use core::cmp::Ordering;
use fast_natord::compare::common::CompareCtx;
use std::borrow::Cow;

use fast_natord::byte_utils::{first_difference, handle_digit_case, skip_whitespace};
use fast_natord::order::Order;
use fast_natord::unicode::decode_at;
use fast_natord::{compare, compare_ignore_case, compare_iter, Normalizer};

#[test]
fn whitespace_after_a_digit_run_keeps_antisymmetry() {
    assert_eq!(compare("12 3", "12a"), Ordering::Less);
    assert_eq!(compare("12a", "12 3"), Ordering::Greater);
}

#[test]
fn trailing_whitespace_counts_once_the_other_side_ends() {
    assert_eq!(compare("x ", "x"), Ordering::Greater);
    assert_eq!(compare("x  ", "x "), Ordering::Equal);
}

#[test]
fn digit_run_split_by_common_prefix_is_compared_whole() {
    assert_eq!(compare("0125", "01234"), Ordering::Greater);
    assert_eq!(compare("x0125", "x01234"), Ordering::Greater);
    assert_eq!(compare("a 19", "a 100"), Ordering::Less);
    assert_eq!(compare_ignore_case("X0125", "x01234"), Ordering::Greater);
}

#[test]
fn ignore_case_non_ascii_sharing_lead_byte_folds() {
    assert_eq!(compare_ignore_case("é", "è"), Ordering::Greater);
    assert_eq!(compare_ignore_case("É", "é"), Ordering::Equal);
    assert_eq!(compare_ignore_case("ÀB", "àb"), Ordering::Equal);
    assert_eq!(compare_ignore_case("Ж", "ж"), Ordering::Equal);
    assert_eq!(compare_ignore_case("caf\u{c9}2", "caf\u{e9}10"), Ordering::Less);
}

#[test]
fn ignore_case_non_ascii_with_different_lead_bytes_folds() {
    assert_eq!(compare_ignore_case("Ω", "ω"), Ordering::Equal);
    assert_eq!(compare_ignore_case("xΩ1", "Xω1"), Ordering::Equal);
    assert_eq!(compare_ignore_case("Я", "я"), Ordering::Equal);
}

#[test]
fn ignore_case_mixed_ascii_and_non_ascii_bytes() {
    assert_eq!(compare_ignore_case("a", "é"), Ordering::Less);
    assert_eq!(compare_ignore_case("Z", "é"), Ordering::Less);
}

#[test]
fn compare_iter_with_digit_values_of_other_bases() {
    let hex = |c: &char| c.to_digit(16).map(|v| v as isize);
    let l: Vec<char> = "xff".chars().collect();
    let r: Vec<char> = "x100".chars().collect();
    let o = compare_iter(&l, &r, |c: &char| c.is_whitespace(), |a: &char, b: &char| a.cmp(b), hex);
    assert_eq!(o, Ordering::Less);
}

#[test]
fn compare_iter_skips_what_skip_accepts() {
    let l: Vec<char> = "a-1".chars().collect();
    let r: Vec<char> = "a1".chars().collect();
    let o = compare_iter(
        &l,
        &r,
        |c: &char| *c == '-',
        |a: &char, b: &char| a.cmp(b),
        |c: &char| c.to_digit(10).map(|v| v as isize),
    );
    assert_eq!(o, Ordering::Equal);
}

#[test]
fn normalizer_borrows_only_when_nothing_changes() {
    let n = Normalizer::new().nfc().case_fold();
    assert!(matches!(n.normalize("abc"), Cow::Borrowed(_)));
    assert!(matches!(n.normalize("caf\u{e9}"), Cow::Borrowed(_)));
    assert!(matches!(n.normalize("Caf\u{e9}"), Cow::Owned(_)));
    assert!(matches!(n.normalize("cafe\u{301}"), Cow::Owned(_)));
    assert_eq!(n.normalize("CAFE\u{301}").as_ref(), "caf\u{e9}");
    assert_eq!(Normalizer::default().normalize("\u{212b}").as_ref(), "\u{212b}");
    assert_eq!(Normalizer::new().nfd().normalize("\u{c5}").as_ref(), "A\u{30a}");
}

#[test]
fn normalizer_case_fold_of_non_ascii() {
    let n = Normalizer::new().case_fold();
    assert_eq!(n.normalize("\u{3a9}MEGA").as_ref(), "\u{3c9}mega");
    assert_eq!(n.compare("\u{3a9}", "\u{3c9}"), Ordering::Equal);
}

#[test]
fn skip_whitespace_moves_both_positions() {
    let a = b"a  \tb";
    let b = b"a b";
    let mut pa = 1;
    let mut pb = 1;
    skip_whitespace(a, b, &mut pa, &mut pb);
    assert_eq!((pa, pb), (4, 2));
}

#[test]
fn handle_digit_case_reports_run_ends_on_ties() {
    assert_eq!(handle_digit_case(b"a12b", b"x12y", 1, 1, false), (None, 3, 3));
    assert_eq!(handle_digit_case(b"12", b"123", 0, 0, false).0, Some(Order::Less));
    assert_eq!(handle_digit_case(b"012", b"02", 0, 0, true).0, Some(Order::Less));
}

#[test]
fn first_difference_reports_order_of_first_differing_byte() {
    assert_eq!(first_difference(b"abcX", 0, b"zabcY", 1, 4), Some(Order::Less));
    assert_eq!(first_difference(b"abc", 0, b"abc", 0, 3), None);
}

#[test]
fn decode_at_rejects_malformed_sequences() {
    assert_eq!(decode_at(b"\xC3\xA9", 0), Some(('\u{e9}', 2)));
    assert_eq!(decode_at(b"\xC3\xA9", 1), None);
    assert_eq!(decode_at(b"\xC0\x80", 0), None);
    assert_eq!(decode_at(b"\xED\xA0\x80", 0), None);
    assert_eq!(decode_at(b"\xF4\x90\x80\x80", 0), None);
    assert_eq!(decode_at(b"\xE4\xB8", 0), None);
}

#[test]
fn apply_case_folds_a_normalized_string() {
    let fold = Normalizer::new().nfc().case_fold();
    let r = fold.apply_case(Cow::Owned("\u{c9}COLE 12".to_string()));
    assert_eq!(r.as_ref(), "\u{e9}cole 12");
    let ascii = Normalizer::new().case_ascii_only();
    let r = ascii.apply_case(Cow::Borrowed("\u{c9}COLE"));
    assert_eq!(r.as_ref(), "\u{c9}cole");
    assert!(matches!(ascii.apply_case(Cow::Borrowed("ecole")), Cow::Borrowed(_)));
}

#[test]
fn compare_ctx_starts_at_the_run_the_common_prefix_ends_in() {
    let c = CompareCtx::new(b"rfc12", b"rfc19");
    assert_eq!((c.pa, c.pb), (3, 3));
    let c = CompareCtx::new(b"abc", b"abd");
    assert_eq!((c.pa, c.pb), (2, 2));
    let c = CompareCtx::new(b"x  y", b"x  z");
    assert_eq!((c.pa, c.pb), (1, 1));
    let c = CompareCtx::new(b"same", b"same");
    assert_eq!((c.pa, c.pb), (4, 4));
    let c = CompareCtx::new("é1".as_bytes(), "é2".as_bytes());
    assert_eq!((c.pa, c.pb), (0, 0));
}
