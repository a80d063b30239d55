//! Natural order over items with caller-supplied rules.

use core::cmp::Ordering;
use fast_natord::compare_iter;

#[test]
fn test_compare_iter_basic() {
    let result = compare_iter(
        &"a10".chars().collect::<Vec<char>>(),
        &"a2".chars().collect::<Vec<char>>(),
        |c| c.is_whitespace(),
        |a, b| a.cmp(b),
        |c| c.to_digit(10).map(|v| v as isize),
    );
    assert_eq!(result, Ordering::Greater);

    let result = compare_iter(
        &"a2".chars().collect::<Vec<char>>(),
        &"a10".chars().collect::<Vec<char>>(),
        |c| c.is_whitespace(),
        |a, b| a.cmp(b),
        |c| c.to_digit(10).map(|v| v as isize),
    );
    assert_eq!(result, Ordering::Less);

    let result = compare_iter(
        &"abc".chars().collect::<Vec<char>>(),
        &"abc".chars().collect::<Vec<char>>(),
        |c| c.is_whitespace(),
        |a, b| a.cmp(b),
        |c| c.to_digit(10).map(|v| v as isize),
    );
    assert_eq!(result, Ordering::Equal);
}

#[test]
fn compare_iter_test_compare_iter_left_aligned_zeros() {
    let result = compare_iter(
        &"015".chars().collect::<Vec<char>>(),
        &"12".chars().collect::<Vec<char>>(),
        |c| c.is_whitespace(),
        |a, b| a.cmp(b),
        |c| c.to_digit(10).map(|v| v as isize),
    );
    assert_eq!(result, Ordering::Less);
}

#[test]
fn compare_iter_test_compare_iter_right_aligned_accum() {
    let result = compare_iter(
        &"1243".chars().collect::<Vec<char>>(),
        &"1234".chars().collect::<Vec<char>>(),
        |c| c.is_whitespace(),
        |a, b| a.cmp(b),
        |c| c.to_digit(10).map(|v| v as isize),
    );
    assert_eq!(result, Ordering::Greater);
}

#[test]
fn compare_iter_test_compare_iter_right_aligned_tie() {
    let result = compare_iter(
        &"1234".chars().collect::<Vec<char>>(),
        &"1234".chars().collect::<Vec<char>>(),
        |c| c.is_whitespace(),
        |a, b| a.cmp(b),
        |c| c.to_digit(10).map(|v| v as isize),
    );
    assert_eq!(result, Ordering::Equal);
}

#[test]
fn compare_iter_test_compare_iter_left_longer() {
    let result = compare_iter(
        &"abc".chars().collect::<Vec<char>>(),
        &"ab".chars().collect::<Vec<char>>(),
        |c| c.is_whitespace(),
        |a, b| a.cmp(b),
        |c| c.to_digit(10).map(|v| v as isize),
    );
    assert_eq!(result, Ordering::Greater);

    let result = compare_iter(
        &"ab".chars().collect::<Vec<char>>(),
        &"abc".chars().collect::<Vec<char>>(),
        |c| c.is_whitespace(),
        |a, b| a.cmp(b),
        |c| c.to_digit(10).map(|v| v as isize),
    );
    assert_eq!(result, Ordering::Less);
}

#[test]
fn compare_iter_test_compare_iter_empty() {
    let result = compare_iter(
        &"".chars().collect::<Vec<char>>(),
        &"".chars().collect::<Vec<char>>(),
        |c| c.is_whitespace(),
        |a, b| a.cmp(b),
        |c| c.to_digit(10).map(|v| v as isize),
    );
    assert_eq!(result, Ordering::Equal);

    let result = compare_iter(
        &"".chars().collect::<Vec<char>>(),
        &"a".chars().collect::<Vec<char>>(),
        |c| c.is_whitespace(),
        |a, b| a.cmp(b),
        |c| c.to_digit(10).map(|v| v as isize),
    );
    assert_eq!(result, Ordering::Less);
}

#[test]
fn compare_iter_test_compare_iter_skip_whitespace() {
    let result = compare_iter(
        &"a b".chars().collect::<Vec<char>>(),
        &"ab".chars().collect::<Vec<char>>(),
        |c| c.is_whitespace(),
        |a, b| a.cmp(b),
        |c| c.to_digit(10).map(|v| v as isize),
    );
    assert_eq!(result, Ordering::Equal);
}

#[test]
fn compare_iter_test_compare_iter_zero_length_digits() {
    let result = compare_iter(
        &"a0b".chars().collect::<Vec<char>>(),
        &"a00b".chars().collect::<Vec<char>>(),
        |c| c.is_whitespace(),
        |a, b| a.cmp(b),
        |c| c.to_digit(10).map(|v| v as isize),
    );
    assert_eq!(result, Ordering::Less);
}

#[test]
fn compare_iter_test_compare_iter_right_aligned_longer_run_wins() {
    let result = compare_iter(
        &"a123".chars().collect::<Vec<char>>(),
        &"a12".chars().collect::<Vec<char>>(),
        |c| c.is_whitespace(),
        |a, b| a.cmp(b),
        |c| c.to_digit(10).map(|v| v as isize),
    );
    assert_eq!(result, Ordering::Greater);

    let result = compare_iter(
        &"a12".chars().collect::<Vec<char>>(),
        &"a123".chars().collect::<Vec<char>>(),
        |c| c.is_whitespace(),
        |a, b| a.cmp(b),
        |c| c.to_digit(10).map(|v| v as isize),
    );
    assert_eq!(result, Ordering::Less);
}

#[test]
fn compare_iter_test_compare_iter_left_aligned_zero_vs_zeros() {
    let result = compare_iter(
        &"0".chars().collect::<Vec<char>>(),
        &"00".chars().collect::<Vec<char>>(),
        |c| c.is_whitespace(),
        |a, b| a.cmp(b),
        |c| c.to_digit(10).map(|v| v as isize),
    );
    assert_eq!(result, Ordering::Less);
}

#[test]
fn compare_iter_test_compare_iter_skip_at_start() {
    let result = compare_iter(
        &" a".chars().collect::<Vec<char>>(),
        &"a".chars().collect::<Vec<char>>(),
        |c| c.is_whitespace(),
        |a, b| a.cmp(b),
        |c| c.to_digit(10).map(|v| v as isize),
    );
    assert_eq!(result, Ordering::Equal);

    let result = compare_iter(
        &"  ".chars().collect::<Vec<char>>(),
        &"".chars().collect::<Vec<char>>(),
        |c| c.is_whitespace(),
        |a, b| a.cmp(b),
        |c| c.to_digit(10).map(|v| v as isize),
    );
    assert_eq!(result, Ordering::Equal);
}

#[test]
fn compare_iter_test_compare_iter_right_aligned_then_non_digit() {
    let result = compare_iter(
        &"a123b".chars().collect::<Vec<char>>(),
        &"a123c".chars().collect::<Vec<char>>(),
        |c| c.is_whitespace(),
        |a, b| a.cmp(b),
        |c| c.to_digit(10).map(|v| v as isize),
    );
    assert_eq!(result, Ordering::Less);
}

#[test]
fn compare_iter_never_asks_cmp_about_two_digits() {
    let cmp = |a: &char, b: &char| {
        if a.is_ascii_digit() && b.is_ascii_digit() {
            panic!("cmp called on two digits: {a:?} {b:?}");
        }
        a.cmp(b)
    };
    let cases = [
        ("a10", "a2", Ordering::Greater),
        ("x007y", "x07y", Ordering::Less),
        ("12a", "12b", Ordering::Less),
        ("9", "a", Ordering::Less),
        ("v1.10", "v1.9", Ordering::Greater),
        ("0", "00", Ordering::Less),
    ];
    for (a, b, expected) in cases {
        let l: Vec<char> = a.chars().collect();
        let r: Vec<char> = b.chars().collect();
        let result = compare_iter(
            &l,
            &r,
            |c: &char| c.is_whitespace(),
            cmp,
            |c: &char| c.to_digit(10).map(|v| v as isize),
        );
        assert_eq!(result, expected, "{a:?} {b:?}");
    }
}
