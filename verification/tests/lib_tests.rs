//! Natural order, custom item order and normalization on fixed inputs.

use core::cmp::Ordering;
use fast_natord::{compare, compare_ignore_case, compare_iter, CaseMode, Normalization, Normalizer};

fn check_total_order(strs: &[&str]) {
    fn ordering_to_op(ord: Ordering) -> &'static str {
        match ord {
            Ordering::Greater => ">",
            Ordering::Equal => "=",
            Ordering::Less => "<",
        }
    }

    for (i, &x) in strs.iter().enumerate() {
        for (j, &y) in strs.iter().enumerate() {
            let actual = compare(x, y);
            let expected = i.cmp(&j);
            assert!(
                actual == expected,
                "expected x {} y, got x {} y (x = `{x}`, y = `{y}`)",
                ordering_to_op(expected),
                ordering_to_op(actual),
            );
        }
    }
}

#[test]
fn lib_test_numeric() {
    check_total_order(&["a", "a0", "a1", "a1a", "a1b", "a2", "a10", "a20"]);
}

#[test]
fn lib_test_multiple_parts() {
    check_total_order(&["x2-g8", "x2-y7", "x2-y8", "x8-y8"]);
}

#[test]
fn lib_test_leading_zeroes() {
    check_total_order(&["1.001", "1.002", "1.010", "1.02", "1.1", "1.3"]);
}

#[test]
fn lib_test_longer() {
    check_total_order(&[
        "1-02",
        "1-2",
        "1-20",
        "10-20",
        "fred",
        "jane",
        "pic1",
        "pic2",
        "pic2a",
        "pic3",
        "pic4",
        "pic4   alpha",
        "pic 4 else",
        "pic4  last",
        "pic5",
        "pic5.07",
        "pic5.08",
        "pic5.13",
        "pic5.113",
        "pic 5 something",
        "pic 6",
        "pic   7",
        "pic100",
        "pic100a",
        "pic120",
        "pic121",
        "pic2000",
        "tom",
        "x2-g8",
        "x2-y7",
        "x2-y8",
        "x8-y8",
    ]);
}

#[test]
fn lib_test_identical_strings() {
    assert_eq!(compare("hello", "hello"), Ordering::Equal);
    assert_eq!(compare("", ""), Ordering::Equal);
    assert_eq!(compare("123", "123"), Ordering::Equal);
}

#[test]
fn lib_test_empty_strings() {
    assert_eq!(compare("", "a"), Ordering::Less);
    assert_eq!(compare("a", ""), Ordering::Greater);
}

#[test]
fn lib_test_non_ascii() {
    assert_eq!(compare("café", "café"), Ordering::Equal);
    assert_eq!(compare("café", "cafe"), Ordering::Greater);
    assert_eq!(compare("cafe", "café"), Ordering::Less);
}

#[test]
fn lib_test_ignore_case() {
    assert_eq!(compare_ignore_case("ABC", "abc"), Ordering::Equal);
    assert_eq!(compare_ignore_case("AbC", "aBc"), Ordering::Equal);
    assert_eq!(compare_ignore_case("ABC", "abd"), Ordering::Less);
    assert_eq!(compare_ignore_case("ABC", "ABB"), Ordering::Greater);
}

#[test]
fn lib_test_ignore_case_numeric() {
    assert_eq!(compare_ignore_case("a10", "A2"), Ordering::Greater);
    assert_eq!(compare_ignore_case("A2", "a10"), Ordering::Less);
    assert_eq!(compare_ignore_case("pic10", "PIC2"), Ordering::Greater);
}

#[test]
fn lib_test_leading_zeros_ordering() {
    assert_eq!(compare("015", "12"), Ordering::Less);
    assert_eq!(compare("12", "015"), Ordering::Greater);
    assert_eq!(compare("0015", "015"), Ordering::Less);
}

#[test]
fn lib_test_same_pointer_optimization() {
    let s = String::from("some fairly long string that might be interned");
    let r = &s;
    assert_eq!(compare(r, &s), Ordering::Equal);
}

#[test]
fn lib_test_whitespace_skipping() {
    assert_eq!(compare("pic4   alpha", "pic 4 else"), Ordering::Less);
    assert_eq!(compare("pic 4 else", "pic4   alpha"), Ordering::Greater);
    assert_eq!(compare("pic 4 else", "pic4  last"), Ordering::Less);
    assert_eq!(compare("pic 5 something", "pic 6"), Ordering::Less);
}

#[test]
fn lib_test_digit_vs_non_digit() {
    assert_eq!(compare("a", "1"), Ordering::Greater);
    assert_eq!(compare("1", "a"), Ordering::Less);
}

#[test]
fn lib_test_long_digit_runs() {
    assert_eq!(compare("123456789", "123456788"), Ordering::Greater);
    assert_eq!(compare("99999", "100000"), Ordering::Less);
    assert_eq!(compare("100000", "99999"), Ordering::Greater);
}

#[test]
fn lib_test_very_long_prefix() {
    let a = "abcdefghijklmnopqrstuvwxyz00001";
    let b = "abcdefghijklmnopqrstuvwxyz00002";
    assert_eq!(compare(a, b), Ordering::Less);
}

#[test]
fn lib_test_whitespace_variants() {
    assert_eq!(compare("\ta", "a"), Ordering::Equal);
    assert_eq!(compare("a\tb", "ab"), Ordering::Equal);
    assert_eq!(compare("a\nb", "a\tb"), Ordering::Equal);
}

#[test]
fn test_compare_iter() {
    let result = compare_iter(
        &"a10".chars().collect::<Vec<char>>(),
        &"a2".chars().collect::<Vec<char>>(),
        |c| c.is_whitespace(),
        |a, b| a.cmp(b),
        |c| c.to_digit(10).map(|v| v as isize),
    );
    assert_eq!(result, Ordering::Greater);

    let result = compare_iter(
        &"a2".chars().collect::<Vec<char>>(),
        &"a10".chars().collect::<Vec<char>>(),
        |c| c.is_whitespace(),
        |a, b| a.cmp(b),
        |c| c.to_digit(10).map(|v| v as isize),
    );
    assert_eq!(result, Ordering::Less);

    let result = compare_iter(
        &"abc".chars().collect::<Vec<char>>(),
        &"abc".chars().collect::<Vec<char>>(),
        |c| c.is_whitespace(),
        |a, b| a.cmp(b),
        |c| c.to_digit(10).map(|v| v as isize),
    );
    assert_eq!(result, Ordering::Equal);
}

#[test]
fn lib_test_ignore_case_mixed_ascii_non_ascii() {
    assert_eq!(compare_ignore_case("a", "é"), Ordering::Less);
    assert_eq!(compare_ignore_case("é", "a"), Ordering::Greater);
}

#[test]
fn lib_test_ignore_case_both_non_ascii_different_lead_byte() {
    assert_eq!(compare_ignore_case("Ω", "ω"), Ordering::Equal);
    assert_eq!(compare_ignore_case("ω", "Ω"), Ordering::Equal);
}

#[test]
fn lib_test_ignore_case_non_ascii_both_lt() {
    assert_eq!(compare_ignore_case("é", "あ"), Ordering::Less);
    assert_eq!(compare_ignore_case("あ", "é"), Ordering::Greater);
}

#[test]
fn lib_test_ignore_case_non_ascii_numeric() {
    assert_eq!(compare_ignore_case("café10", "café2"), Ordering::Greater);
    assert_eq!(compare_ignore_case("café2", "café10"), Ordering::Less);
}

#[test]
fn lib_test_ignore_case_whitespace_non_ascii() {
    assert_eq!(compare_ignore_case("Café 10", "café 2"), Ordering::Greater);
    assert_eq!(compare_ignore_case("café 2", "Café 10"), Ordering::Less);
}

#[test]
fn lib_test_ignore_case_non_ascii_leading_zeros() {
    assert_eq!(compare_ignore_case("Café015", "café12"), Ordering::Less);
    assert_eq!(compare_ignore_case("café12", "Café015"), Ordering::Greater);
}

#[test]
fn lib_test_compare_iter_left_aligned_zeros() {
    let result = compare_iter(
        &"015".chars().collect::<Vec<char>>(),
        &"12".chars().collect::<Vec<char>>(),
        |c| c.is_whitespace(),
        |a, b| a.cmp(b),
        |c| c.to_digit(10).map(|v| v as isize),
    );
    assert_eq!(result, Ordering::Less);
}

#[test]
fn lib_test_compare_iter_right_aligned_accum() {
    let result = compare_iter(
        &"1243".chars().collect::<Vec<char>>(),
        &"1234".chars().collect::<Vec<char>>(),
        |c| c.is_whitespace(),
        |a, b| a.cmp(b),
        |c| c.to_digit(10).map(|v| v as isize),
    );
    assert_eq!(result, Ordering::Greater);
}

#[test]
fn lib_test_compare_iter_right_aligned_tie() {
    let result = compare_iter(
        &"1234".chars().collect::<Vec<char>>(),
        &"1234".chars().collect::<Vec<char>>(),
        |c| c.is_whitespace(),
        |a, b| a.cmp(b),
        |c| c.to_digit(10).map(|v| v as isize),
    );
    assert_eq!(result, Ordering::Equal);
}

#[test]
fn lib_test_compare_iter_left_longer() {
    let result = compare_iter(
        &"abc".chars().collect::<Vec<char>>(),
        &"ab".chars().collect::<Vec<char>>(),
        |c| c.is_whitespace(),
        |a, b| a.cmp(b),
        |c| c.to_digit(10).map(|v| v as isize),
    );
    assert_eq!(result, Ordering::Greater);

    let result = compare_iter(
        &"ab".chars().collect::<Vec<char>>(),
        &"abc".chars().collect::<Vec<char>>(),
        |c| c.is_whitespace(),
        |a, b| a.cmp(b),
        |c| c.to_digit(10).map(|v| v as isize),
    );
    assert_eq!(result, Ordering::Less);
}

#[test]
fn lib_test_compare_iter_empty() {
    let result = compare_iter(
        &"".chars().collect::<Vec<char>>(),
        &"".chars().collect::<Vec<char>>(),
        |c| c.is_whitespace(),
        |a, b| a.cmp(b),
        |c| c.to_digit(10).map(|v| v as isize),
    );
    assert_eq!(result, Ordering::Equal);

    let result = compare_iter(
        &"".chars().collect::<Vec<char>>(),
        &"a".chars().collect::<Vec<char>>(),
        |c| c.is_whitespace(),
        |a, b| a.cmp(b),
        |c| c.to_digit(10).map(|v| v as isize),
    );
    assert_eq!(result, Ordering::Less);
}

#[test]
fn lib_test_compare_iter_skip_whitespace() {
    let result = compare_iter(
        &"a b".chars().collect::<Vec<char>>(),
        &"ab".chars().collect::<Vec<char>>(),
        |c| c.is_whitespace(),
        |a, b| a.cmp(b),
        |c| c.to_digit(10).map(|v| v as isize),
    );
    assert_eq!(result, Ordering::Equal);
}

#[test]
fn lib_test_compare_iter_zero_length_digits() {
    let result = compare_iter(
        &"a0b".chars().collect::<Vec<char>>(),
        &"a00b".chars().collect::<Vec<char>>(),
        |c| c.is_whitespace(),
        |a, b| a.cmp(b),
        |c| c.to_digit(10).map(|v| v as isize),
    );
    assert_eq!(result, Ordering::Less);
}

#[test]
fn lib_test_compare_iter_right_aligned_longer_run_wins() {
    let result = compare_iter(
        &"a123".chars().collect::<Vec<char>>(),
        &"a12".chars().collect::<Vec<char>>(),
        |c| c.is_whitespace(),
        |a, b| a.cmp(b),
        |c| c.to_digit(10).map(|v| v as isize),
    );
    assert_eq!(result, Ordering::Greater);

    let result = compare_iter(
        &"a12".chars().collect::<Vec<char>>(),
        &"a123".chars().collect::<Vec<char>>(),
        |c| c.is_whitespace(),
        |a, b| a.cmp(b),
        |c| c.to_digit(10).map(|v| v as isize),
    );
    assert_eq!(result, Ordering::Less);
}

#[test]
fn lib_test_compare_iter_left_aligned_zero_vs_zeros() {
    let result = compare_iter(
        &"0".chars().collect::<Vec<char>>(),
        &"00".chars().collect::<Vec<char>>(),
        |c| c.is_whitespace(),
        |a, b| a.cmp(b),
        |c| c.to_digit(10).map(|v| v as isize),
    );
    assert_eq!(result, Ordering::Less);
}

#[test]
fn lib_test_compare_iter_skip_at_start() {
    let result = compare_iter(
        &" a".chars().collect::<Vec<char>>(),
        &"a".chars().collect::<Vec<char>>(),
        |c| c.is_whitespace(),
        |a, b| a.cmp(b),
        |c| c.to_digit(10).map(|v| v as isize),
    );
    assert_eq!(result, Ordering::Equal);

    let result = compare_iter(
        &"  ".chars().collect::<Vec<char>>(),
        &"".chars().collect::<Vec<char>>(),
        |c| c.is_whitespace(),
        |a, b| a.cmp(b),
        |c| c.to_digit(10).map(|v| v as isize),
    );
    assert_eq!(result, Ordering::Equal);
}

#[test]
fn lib_test_compare_iter_right_aligned_then_non_digit() {
    let result = compare_iter(
        &"a123b".chars().collect::<Vec<char>>(),
        &"a123c".chars().collect::<Vec<char>>(),
        |c| c.is_whitespace(),
        |a, b| a.cmp(b),
        |c| c.to_digit(10).map(|v| v as isize),
    );
    assert_eq!(result, Ordering::Less);
}

#[test]
fn lib_test_whitespace_at_start() {
    assert_eq!(compare("  abc", "abc"), Ordering::Equal);
    assert_eq!(compare("abc", "  abc"), Ordering::Equal);
    assert_eq!(compare("\t\nabc", "abc"), Ordering::Equal);
}

#[test]
fn lib_test_digit_vs_non_digit_with_ws() {
    assert_eq!(compare(" 1a", "a"), Ordering::Less);
}

#[test]
fn lib_test_compare_left_aligned_zero_varying_runs() {
    assert_eq!(compare("0015", "015"), Ordering::Less);
    assert_eq!(compare("015", "0015"), Ordering::Greater);
}

#[test]
fn lib_test_compare_word_at_a_time_diff() {
    assert_eq!(
        compare("12345678901234567890", "12345678901234567891"),
        Ordering::Less
    );
}

#[test]
fn lib_test_compare_left_aligned_zeros_equal_run() {
    assert_eq!(compare("000", "000"), Ordering::Equal);
    assert_eq!(compare("00", "00"), Ordering::Equal);
}

#[test]
fn lib_test_compare_ignore_case_left_aligned_zeros_equal_run() {
    assert_eq!(compare_ignore_case("000", "000"), Ordering::Equal);
    assert_eq!(compare_ignore_case("ABC000", "abc000"), Ordering::Equal);
}

#[test]
fn lib_test_compare_ignore_case_left_aligned_zero_mixed() {
    assert_eq!(compare_ignore_case("015", "12"), Ordering::Less);
    assert_eq!(compare_ignore_case("12", "015"), Ordering::Greater);
}

#[test]
fn test_compare_same_pointer_mutation() {
    assert_eq!(compare("ab", "ba"), Ordering::Less);
}

#[test]
fn test_compare_ignore_case_da2_or_mutation() {
    assert_eq!(compare_ignore_case("00a", "000x"), Ordering::Less);
}

#[test]
fn test_compare_ignore_case_xor_and_mutation() {
    assert_eq!(compare_ignore_case("22222222", "22232222"), Ordering::Less);
}

#[test]
fn test_compare_ignore_case_diff_eq_mutation() {
    assert_eq!(
        compare_ignore_case("22222222x", "22232222x"),
        Ordering::Less
    );
}

#[test]
fn test_compare_same_allocation_diff_len_mutation() {
    let s = String::from("ab");
    assert_eq!(compare(&s[..1], &s[..2]), Ordering::Less);

    assert_eq!(compare_ignore_case(&s[..1], &s[..2]), Ordering::Less);
}

#[test]
fn test_compare_last_eq_digit_mutation() {
    assert_eq!(compare("12345678a", "123456789a"), Ordering::Less);
}

#[test]
fn test_compare_da2_or_mutation() {
    assert_eq!(compare("00a", "000x"), Ordering::Less);
}

#[test]
fn test_compare_whitespace_pb_bound_mutation() {
    let v = vec![b' ', b' ', b' '];
    let right = core::str::from_utf8(&v[..2]).unwrap();
    assert_eq!(compare("a", right), Ordering::Greater);
}

#[test]
fn test_compare_da2_bound_mutation() {
    let v = vec![b'0', b'0', b'2'];
    let left = core::str::from_utf8(&v[..2]).unwrap();
    assert_eq!(compare(left, "00"), Ordering::Equal);
}

#[test]
fn test_compare_db2_bound_mutation() {
    let v = vec![b'0', b'0', b'2'];
    let right = core::str::from_utf8(&v[..2]).unwrap();
    assert_eq!(compare("00", right), Ordering::Equal);
}

#[test]
fn test_compare_pa_scan_bound_mutation() {
    let v = vec![b'0', b'2'];
    let left = core::str::from_utf8(&v[..1]).unwrap();
    assert_eq!(compare(left, "0a"), Ordering::Less);
}

#[test]
fn test_compare_pb_scan_bound_mutation() {
    let v = vec![b'0', b'2'];
    let right = core::str::from_utf8(&v[..1]).unwrap();
    assert_eq!(compare("0a", right), Ordering::Greater);
}

#[test]
fn test_compare_ka_eq_mutation() {
    assert_eq!(compare("01a", "01b"), Ordering::Less);
}

#[test]
fn lib_test_compare_word_at_a_time_tail() {
    assert_eq!(compare("12345678", "12345679"), Ordering::Less);
}

#[test]
fn test_normalizer_nfd_mutation() {
    let nfd = Normalizer::default().nfd().normalize("\u{e9}");
    let raw = Normalizer::default().normalize("\u{e9}");
    assert_ne!(
        nfd.as_ref(),
        raw.as_ref(),
        "nfd() should decompose precomposed characters"
    );
}

#[test]
fn test_normalizer_nfkc_mutation() {
    let nfkc = Normalizer::default().nfkc().normalize("\u{2460}");
    let raw = Normalizer::default().normalize("\u{2460}");
    assert_ne!(
        nfkc.as_ref(),
        raw.as_ref(),
        "nfkc() should compatibility-decompose"
    );
}

#[test]
fn test_normalizer_nfkd_mutation() {
    let nfkd = Normalizer::default().nfkd().normalize("\u{2460}");
    let raw = Normalizer::default().normalize("\u{2460}");
    assert_ne!(
        nfkd.as_ref(),
        raw.as_ref(),
        "nfkd() should compatibility-decompose"
    );
}

#[test]
fn test_normalizer_case_sensitive_mutation() {
    let norm = Normalizer::default()
        .nfc()
        .case_fold()
        .case_sensitive();
    assert_eq!(
        norm.compare("\u{e9}", "e\u{301}"),
        Ordering::Equal,
        "case_sensitive should preserve NFC setting"
    );
}

#[test]
fn test_compare_ignore_case_pa_scan_bound_mutation() {
    let v = vec![b'0', b'2'];
    let left = core::str::from_utf8(&v[..1]).unwrap();
    assert_eq!(compare_ignore_case(left, "0a"), Ordering::Less);
}

#[test]
fn test_compare_ignore_case_pb_scan_bound_mutation() {
    let v = vec![b'0', b'2'];
    let right = core::str::from_utf8(&v[..1]).unwrap();
    assert_eq!(compare_ignore_case("0a", right), Ordering::Greater);
}

#[test]
fn test_compare_ignore_case_db2_or_mutation() {
    assert_eq!(compare_ignore_case("000x", "00a"), Ordering::Greater);
}

#[test]
fn test_compare_ignore_case_xor_div_mutation() {
    assert_eq!(
        compare_ignore_case("01345678", "02345678"),
        Ordering::Less
    );
}
