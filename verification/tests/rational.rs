use bignum::rational::{gcd, Ratio, Sign};

#[test]
fn greatest_common_divisor() {
    assert_eq!(gcd(12, 18), 6);
    assert_eq!(gcd(18, 12), 6);
    assert_eq!(gcd(17, 5), 1);
    assert_eq!(gcd(7, 0), 7);
    assert_eq!(gcd(1, u64::MAX), 1);
    assert_eq!(gcd(1 << 40, 1 << 20), 1 << 20);
}

#[test]
fn new_reduces_to_lowest_terms() {
    assert_eq!(Ratio::new(2, 4).to_string(), "(1/2)");
    assert_eq!(Ratio::new(4, 2).to_string(), "2");
    assert_eq!(Ratio::new(-2, 4).to_string(), "-(1/2)");
    assert_eq!(Ratio::new(2, -4).to_string(), "-(1/2)");
    assert_eq!(Ratio::new(-2, -4).to_string(), "(1/2)");
    assert_eq!(Ratio::new(-6, 3).to_string(), "-2");
    assert_eq!(Ratio::new(0, 5).to_string(), "0");
    assert_eq!(Ratio::new(i64::MAX, i64::MAX).to_string(), "1");
    assert_eq!(Ratio::new(i64::MAX, 1).to_string(), i64::MAX.to_string());
}

#[test]
fn zero_numerator_keeps_the_denominator() {
    assert!(matches!(Ratio::new(0, 5).sign(), Sign::Null));
    let sum = Ratio::new(0, 5) + Ratio::new(1, 1);
    assert_eq!(sum.to_string(), "1");
}

#[test]
fn reciprocal_and_whole_numbers() {
    assert_eq!(Ratio::reciproc(3).to_string(), "(1/3)");
    assert_eq!(Ratio::reciproc(-3).to_string(), "-(1/3)");
    assert_eq!(Ratio::reciproc(1).to_string(), "1");
    assert_eq!(Ratio::from_integer(-7).to_string(), "-7");
    assert_eq!(Ratio::from_integer(0).to_string(), "0");
}

#[test]
fn sign_gives_absolute_values() {
    assert!(matches!(Ratio::new(3, 4).sign(), Sign::Plus(3, 4)));
    assert!(matches!(Ratio::new(-3, 4).sign(), Sign::Minus(3, 4)));
    assert!(matches!(Ratio::new(3, -4).sign(), Sign::Minus(3, 4)));
    assert!(matches!(Ratio::new(-3, -4).sign(), Sign::Plus(3, 4)));
}

#[test]
fn arithmetic_of_fractions() {
    assert_eq!((Ratio::new(1, 2) + Ratio::new(1, 3)).to_string(), "(5/6)");
    assert_eq!((Ratio::new(1, 2) - Ratio::new(1, 3)).to_string(), "(1/6)");
    assert_eq!((Ratio::new(1, 3) - Ratio::new(1, 2)).to_string(), "-(1/6)");
    assert_eq!((Ratio::new(2, 3) * Ratio::new(3, 4)).to_string(), "(1/2)");
    assert_eq!((Ratio::new(2, 3) / Ratio::new(4, 3)).to_string(), "(1/2)");
    assert_eq!((Ratio::new(1, 2) + Ratio::new(1, 2)).to_string(), "1");
    assert_eq!((Ratio::new(1, 2) - Ratio::new(1, 2)).to_string(), "0");
}

#[test]
fn assignment_operations() {
    let mut r = Ratio::from_integer(1);
    r.add_assign(Ratio::reciproc(2));
    assert_eq!(r.to_string(), "(3/2)");
    r.sub_assign(Ratio::reciproc(3));
    assert_eq!(r.to_string(), "(7/6)");
    r.mul_assign(Ratio::new(6, 7));
    assert_eq!(r.to_string(), "1");
    r.div_assign(Ratio::new(-5, 10));
    assert_eq!(r.to_string(), "-2");
}

#[test]
fn harmonic_sum() {
    let mut r = Ratio::from_integer(1);
    for x in 2..=20 {
        r.add_assign(Ratio::reciproc(x));
    }
    assert_eq!(r.to_string(), "(55835135/15519504)");
}
