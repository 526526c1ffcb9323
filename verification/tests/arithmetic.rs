use bignum::big::BigDecimal;
use bignum::native::{add_vec as native_add_vec, multiply, sqr as native_sqr, to_digits, to_number};
use bignum::oper::{add_vec, mul_vec, normalize, sqr};

fn digits(text: &str) -> Vec<u8> {
    text.bytes().rev().map(|b| b - b'0').collect()
}

fn text(digits: &[u8]) -> String {
    digits.iter().rev().map(|d| (b'0' + d) as char).collect()
}

fn nines(n: usize) -> String {
    "9".repeat(n)
}

/// (10^n - 1)^2 = 10^(2n) - 2 * 10^n + 1
fn nines_squared(n: usize) -> String {
    format!("{}8{}1", "9".repeat(n - 1), "0".repeat(n - 1))
}

#[test]
fn add_small_numbers() {
    assert_eq!(add_vec(&digits("123"), &digits("989")), digits("1112"));
    assert_eq!(add_vec(&digits("1"), &digits("999")), digits("1000"));
    assert_eq!(add_vec(&digits("5"), &digits("4")), digits("9"));
}

#[test]
fn add_zero_returns_other_operand() {
    assert_eq!(add_vec(&digits("0"), &digits("4711")), digits("4711"));
    assert_eq!(add_vec(&digits("4711"), &digits("0")), digits("4711"));
    assert_eq!(add_vec(&digits("0"), &digits("0")), digits("0"));
}

#[test]
fn add_keeps_width_of_longer_operand() {
    // operands that are not canonical keep their width
    assert_eq!(add_vec(&[5, 0, 0], &[4]), vec![9, 0, 0]);
    assert_eq!(add_vec(&[], &[4]), vec![4]);
    assert_eq!(add_vec(&[], &[]), Vec::<u8>::new());
}

#[test]
fn add_matches_native_around_threshold() {
    for n in [17usize, 18, 19, 36, 37, 38] {
        let a = nines(n);
        let expected = format!("1{}8", "9".repeat(n - 1));
        assert_eq!(text(&add_vec(&digits(&a), &digits(&a))), expected);
        assert_eq!(text(&native_add_vec(&digits(&a), &digits(&a))), expected);
    }
    let a: u128 = 123_456_789_012_345_678;
    let b: u128 = 987_654_321_098_765_432_109;
    assert_eq!(
        text(&add_vec(&digits(&a.to_string()), &digits(&b.to_string()))),
        (a + b).to_string()
    );
    assert_eq!(
        text(&native_add_vec(&digits(&a.to_string()), &digits(&b.to_string()))),
        (a + b).to_string()
    );
}

#[test]
fn add_is_commutative_and_associative() {
    let a = digits("99999999999999999999999999999999999999999");
    let b = digits("1");
    let c = digits("123456789012345678901234567890");
    assert_eq!(add_vec(&a, &b), add_vec(&b, &a));
    assert_eq!(add_vec(&add_vec(&a, &b), &c), add_vec(&a, &add_vec(&b, &c)));
    assert_eq!(text(&add_vec(&a, &b)), "100000000000000000000000000000000000000000");
}

#[test]
fn multiply_small_numbers() {
    assert_eq!(mul_vec(&digits("12"), &digits("12")), digits("144"));
    assert_eq!(mul_vec(&digits("99"), &digits("99")), digits("9801"));
    assert_eq!(mul_vec(&digits("25"), &digits("4")), digits("100"));
    assert_eq!(multiply(&digits("12"), &digits("12")), digits("144"));
    assert_eq!(multiply(&digits("99"), &digits("99")), digits("9801"));
}

#[test]
fn multiply_matches_native_around_threshold() {
    let a: u128 = 12_345_678_901_234_567;
    let b: u128 = 9_876_543_210_987_654_321;
    let expected = (a * b).to_string();
    assert_eq!(text(&mul_vec(&digits(&a.to_string()), &digits(&b.to_string()))), expected);
    assert_eq!(text(&multiply(&digits(&a.to_string()), &digits(&b.to_string()))), expected);
    for n in [18usize, 19, 36, 37, 38, 64, 100] {
        let a = digits(&nines(n));
        assert_eq!(text(&mul_vec(&a, &a)), nines_squared(n));
        assert_eq!(text(&multiply(&a, &a)), nines_squared(n));
    }
}

#[test]
fn multiply_operands_of_different_length() {
    // 10^40 + 1 times 10^3 + 1
    let a = format!("1{}1", "0".repeat(39));
    let b = "1001";
    let expected = format!("1001{}1001", "0".repeat(36));
    assert_eq!(text(&mul_vec(&digits(&a), &digits(b))), expected);
    assert_eq!(text(&mul_vec(&digits(b), &digits(&a))), expected);
    assert_eq!(text(&multiply(&digits(&a), &digits(b))), expected);
}

#[test]
fn multiply_identity_and_zero() {
    for n in [1usize, 5, 37, 38, 80] {
        let a = digits(&nines(n));
        assert_eq!(mul_vec(&a, &[1]), a);
        assert_eq!(mul_vec(&[1], &a), a);
        assert_eq!(mul_vec(&a, &[0]), vec![0]);
        assert_eq!(mul_vec(&[0], &a), vec![0]);
        assert_eq!(multiply(&a, &vec![1]), a);
        assert_eq!(multiply(&vec![1], &a), a);
        assert_eq!(multiply(&a, &vec![0]), vec![0]);
        assert_eq!(multiply(&vec![0], &a), vec![0]);
    }
}

#[test]
fn multiply_trims_operands_that_are_not_canonical() {
    assert_eq!(mul_vec(&[0, 0], &[5, 5]), vec![0]);
    assert_eq!(mul_vec(&[2, 0, 0], &[3, 0]), vec![6]);
    assert_eq!(mul_vec(&[], &[]), vec![0]);
}

#[test]
fn square_equals_multiply_by_itself() {
    for n in [1usize, 2, 18, 19, 37, 38, 75] {
        let a = digits(&nines(n));
        assert_eq!(sqr(&a), mul_vec(&a, &a));
        assert_eq!(native_sqr(&a), multiply(&a, &a));
    }
    assert_eq!(sqr(&[0]), vec![0]);
    assert_eq!(sqr(&[1]), vec![1]);
    assert_eq!(text(&sqr(&digits("12345678901234567890"))), "152415787532388367501905199875019052100");
}

#[test]
fn product_has_sum_of_lengths_or_one_less() {
    let cases = [("1", "1"), ("9", "9"), ("10", "10"), ("99", "99"), ("100", "999")];
    for (a, b) in cases {
        let len = mul_vec(&digits(a), &digits(b)).len();
        assert!(len == a.len() + b.len() || len == a.len() + b.len() - 1);
    }
    let a = digits(&nines(40));
    let b = digits(&format!("1{}", "0".repeat(40)));
    assert_eq!(mul_vec(&a, &a).len(), 80);
    assert_eq!(mul_vec(&b, &b).len(), 81);
}

#[test]
fn normalize_carries_and_trims() {
    // the coefficients of 99 * 99
    assert_eq!(normalize(&[81, 162, 81, 0], 4, 2), vec![1, 0, 8, 9]);
    // the coefficients of 12 * 12, with padding
    assert_eq!(normalize(&[4, 4, 1, 0, 0, 0, 0, 0], 8, 2), vec![4, 4, 1]);
    // nothing but zeros leaves the single digit zero
    assert_eq!(normalize(&[0, 0, 0, 0], 4, 1), vec![0]);
    assert_eq!(normalize(&[], 0, 0), Vec::<u8>::new());
}

#[test]
fn normalize_reads_no_more_than_twice_the_source_length_plus_two() {
    // src_size 0 reads two coefficients; the third is not seen
    assert_eq!(normalize(&[5, 3, 7, 1], 4, 0), vec![5, 3]);
    // a carry out of the last coefficient read is dropped
    assert_eq!(normalize(&[95, 99], 2, 3), vec![5, 8]);
    assert_eq!(normalize(&[4294967295, 4294967295], 2, 1), vec![5, 4]);
}

#[test]
fn native_digits_and_number_round_trip() {
    assert_eq!(to_digits(0), Vec::<u8>::new());
    assert_eq!(to_digits(7), vec![7]);
    assert_eq!(to_digits(1203), vec![3, 0, 2, 1]);
    assert_eq!(to_number(&vec![3, 0, 2, 1]), 1203);
    assert_eq!(to_number(&vec![]), 0);
    let big: u128 = 99_999_999_999_999_999_999_999_999_999_999_999_999;
    assert_eq!(to_number(&to_digits(big)), big);
    assert_eq!(to_digits(u128::MAX).len(), 39);
}

#[test]
fn big_decimal_operators() {
    let a = BigDecimal::from_integer(123_456_789);
    let b = BigDecimal::from_integer(987_654_321);
    assert_eq!((a + b).to_string(), "1111111110");
    let a = BigDecimal::from_integer(123_456_789);
    let b = BigDecimal::from_integer(987_654_321);
    assert_eq!((a * b).to_string(), "121932631112635269");
    let mut c = BigDecimal::from_integer(99);
    c.add_assign(BigDecimal::one());
    assert_eq!(c.to_string(), "100");
    c.mul_assign(BigDecimal::from_integer(100));
    assert_eq!(c.to_string(), "10000");
    assert_eq!(c.sqr().to_string(), "100000000");
    assert_eq!(c.plus(&BigDecimal::zero()).digits, c.digits);
    assert_eq!(c.times(&BigDecimal::zero()).digits, vec![0]);
    assert_eq!(BigDecimal::zero().digits, vec![0]);
    assert_eq!(BigDecimal::one().digits, vec![1]);
}

#[test]
fn big_decimal_from_integer_and_digits() {
    assert_eq!(BigDecimal::from_integer(0).digits, vec![0]);
    assert_eq!(BigDecimal::from_integer(10).digits, vec![0, 1]);
    assert_eq!(BigDecimal::from_integer(u128::MAX).to_string(), u128::MAX.to_string());
    assert_eq!(BigDecimal::from_digits(&[3, 2, 1]).to_string(), "123");
    let digits: &[u8] = &[3, 2, 1];
    assert_eq!(BigDecimal::from(digits).digits, vec![3, 2, 1]);
}

use bignum::ft::RevCash;
use bignum::oper::{long_mul, mul_vec_with, sqr_with};

#[test]
fn long_numbers_multiply_exactly() {
    for n in [1_000usize, 4_096, 10_000, 65_536] {
        let a = digits(&nines(n));
        assert_eq!(text(&mul_vec(&a, &a)), nines_squared(n));
        assert_eq!(text(&sqr(&a)), nines_squared(n));
    }
    // (10^n + 1) * (10^m + 1) = 10^(n + m) + 10^n + 10^m + 1
    let a = format!("1{}1", "0".repeat(2_999));
    let b = format!("1{}1", "0".repeat(499));
    let expected = format!("1{}1{}1{}1", "0".repeat(499), "0".repeat(2_499), "0".repeat(499));
    assert_eq!(text(&mul_vec(&digits(&a), &digits(&b))), expected);
    assert_eq!(text(&mul_vec(&digits(&b), &digits(&a))), expected);
}

#[test]
fn long_multiplication_equals_multiplication_by_transform() {
    for n in [2usize, 3, 17, 64, 200] {
        let a: Vec<u8> = (0..n).map(|i| ((i * 7 + 3) % 10) as u8).collect();
        let mut b: Vec<u8> = (0..n + 5).map(|i| ((i * 3 + 1) % 10) as u8).collect();
        b.push(4);
        // the operand `a` may end in zeros; both ways give the canonical digits
        assert_eq!(long_mul(&a, &b), mul_vec(&a, &b));
        assert_eq!(long_mul(&b, &a), mul_vec(&a, &b));
    }
    assert_eq!(long_mul(&digits("99"), &digits("99")), digits("9801"));
    assert_eq!(
        long_mul(&digits("12345678901234567890"), &digits("98765432109876543210")),
        digits("1219326311370217952237463801111263526900")
    );
    // the long way trims, and takes no shortcut for one and zero
    assert_eq!(long_mul(&[0, 0], &[5]), vec![0]);
    assert_eq!(long_mul(&[1], &[5, 0]), vec![5]);
    assert_eq!(long_mul(&[], &[]), vec![0]);
}

#[test]
fn multiplication_with_a_cache_gives_the_same_digits() {
    let mut cache = RevCash::new(8);
    for n in [2usize, 30, 100, 128, 129, 1_000] {
        let a = digits(&nines(n));
        let b: Vec<u8> = (0..n).map(|i| ((i * 7 + 3) % 9 + 1) as u8).collect();
        assert_eq!(mul_vec_with(&a, &b, &mut cache), mul_vec(&a, &b));
        assert_eq!(sqr_with(&a, &mut cache), sqr(&a));
        assert_eq!(text(&sqr_with(&a, &mut cache)), nines_squared(n));
    }
}

#[test]
fn multiplication_takes_the_transform_length_into_the_cache() {
    let mut cache = RevCash::new(0);
    assert!(!cache.has(8));
    // three digits: the next power of two is 4, the transform length 8
    assert_eq!(mul_vec_with(&digits("111"), &digits("111"), &mut cache), digits("12321"));
    assert!(cache.has(8));
    assert!(!cache.has(4) && !cache.has(16));
    // four digits still have room in 8, five need 16
    mul_vec_with(&digits("1111"), &digits("11"), &mut cache);
    assert!(!cache.has(16));
    sqr_with(&digits("11111"), &mut cache);
    assert!(cache.has(16));
    // one digit needs the length 2
    mul_vec_with(&digits("7"), &digits("8"), &mut cache);
    assert!(cache.has(2));
    // zero and one are answered without a transform
    let mut untouched = RevCash::new(0);
    mul_vec_with(&digits("0"), &digits("123456789"), &mut untouched);
    mul_vec_with(&digits("123456789"), &digits("1"), &mut untouched);
    sqr_with(&digits("1"), &mut untouched);
    for k in 0..8 {
        assert!(!untouched.has(1 << k));
    }
}
