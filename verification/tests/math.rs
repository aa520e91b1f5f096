use computorv1::decimal::{push_decimal, push_signed};
use computorv1::math::{gcd, number_len};

#[test]
fn gcd_of_small_numbers() {
    assert_eq!(gcd(12, 18), 6);
    assert_eq!(gcd(50, 20), 10);
    assert_eq!(gcd(17, 5), 1);
    assert_eq!(gcd(48, 64), 16);
    assert_eq!(gcd(1, 1), 1);
    assert_eq!(gcd(7, 7), 7);
}

#[test]
fn gcd_is_symmetric() {
    for (a, b) in [(12u64, 18u64), (0, 9), (1 << 40, 6), (35, 49), (u64::MAX, 15)] {
        assert_eq!(gcd(a, b), gcd(b, a));
    }
}

#[test]
fn gcd_with_zero_is_the_other_argument() {
    assert_eq!(gcd(9, 0), 9);
    assert_eq!(gcd(0, 9), 9);
    assert_eq!(gcd(u64::MAX, 0), u64::MAX);
}

#[test]
fn gcd_of_zero_and_zero_is_zero() {
    assert_eq!(gcd(0, 0), 0);
}

#[test]
fn gcd_of_large_numbers() {
    assert_eq!(gcd(u64::MAX, u64::MAX), u64::MAX);
    assert_eq!(gcd(1 << 63, 1 << 62), 1 << 62);
    assert_eq!(gcd(u64::MAX, 1 << 63), 1);
    assert_eq!(gcd(3 << 20, 9 << 10), 3 << 10);
}

#[test]
fn number_len_counts_decimal_digits() {
    assert_eq!(number_len(0), 1);
    assert_eq!(number_len(9), 1);
    assert_eq!(number_len(10), 2);
    assert_eq!(number_len(9999), 4);
    assert_eq!(number_len(10000), 5);
    assert_eq!(number_len(u64::MAX), 20);
}

#[test]
fn decimal_notation() {
    let mut s = String::from("n=");
    push_decimal(&mut s, 0);
    assert_eq!(s, "n=0");
    let mut s = String::new();
    push_decimal(&mut s, 9075);
    assert_eq!(s, "9075");
    let mut s = String::new();
    push_decimal(&mut s, u64::MAX);
    assert_eq!(s, "18446744073709551615");
}

#[test]
fn signed_decimal_notation() {
    let mut s = String::new();
    push_signed(&mut s, -12);
    assert_eq!(s, "-12");
    let mut s = String::new();
    push_signed(&mut s, i32::MIN);
    assert_eq!(s, "-2147483648");
    let mut s = String::new();
    push_signed(&mut s, i32::MAX);
    assert_eq!(s, "2147483647");
}
