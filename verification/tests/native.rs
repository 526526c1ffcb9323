use bignum::big::ParseError;
use bignum::native::{random_operand, Big};

#[test]
fn big_from_number() {
    assert_eq!(Big::from_num(0).0, vec![0]);
    assert_eq!(Big::from_num(9).0, vec![9]);
    assert_eq!(Big::from_num(10).0, vec![0, 1]);
    assert_eq!(Big::from_num(1203).0, vec![3, 0, 2, 1]);
    assert_eq!(Big::zero().0, vec![0]);
    assert_eq!(Big::one().0, vec![1]);
}

#[test]
fn big_from_and_to_string() {
    let n = Big::from_str("12345678901234567890123456789012345678901234567890".to_string()).unwrap();
    assert_eq!(n.to_str(), "12345678901234567890123456789012345678901234567890");
    assert_eq!(Big::from_str("007".to_string()).unwrap().0, vec![7, 0, 0]);
    assert!(matches!(Big::from_str("12x".to_string()), Err(ParseError::NotADigit)));
    assert!(matches!(Big::from_str("１２".to_string()), Err(ParseError::NotADigit)));
    assert_eq!(Big::from_num(u128::MAX).to_str(), u128::MAX.to_string());
}

#[test]
fn big_equality_compares_digits() {
    assert!(Big::from_num(1203) == Big::from_str("1203".to_string()).unwrap());
    assert!(Big::from_num(1203) != Big::from_num(1204));
    assert!(Big::from_num(7) != Big::from_str("07".to_string()).unwrap());
    let a = Big::from_num(55);
    assert!(a.clone() == a);
}

#[test]
fn big_operators() {
    let a = Big::from_num(u128::MAX);
    let b = Big::from_num(u128::MAX);
    assert_eq!((a + b).to_str(), "680564733841876926926749214863536422910");
    let a = Big::from_num(u128::MAX);
    let b = Big::from_num(u128::MAX);
    assert_eq!(
        (a * b).to_str(),
        "115792089237316195423570985008687907852589419931798687112530834793049593217025"
    );
    assert_eq!((Big::from_num(99) + 1u128).to_str(), "100");
    assert_eq!((1u128 + Big::from_num(99)).to_str(), "100");
    let mut c = Big::from_num(5);
    c.add_assign(Big::from_num(6));
    assert_eq!(c.to_str(), "11");
    assert_eq!(Big::from_num(u128::MAX).sqr().to_str(),
        "115792089237316195423570985008687907852589419931798687112530834793049593217025");
    assert_eq!(Big::from_num(12).sqr().0, vec![4, 4, 1]);
}

#[test]
fn native_shortcut_leaves_no_digit_for_zero() {
    assert_eq!(bignum::native::add_vec(&vec![0, 0], &vec![0, 0]), Vec::<u8>::new());
    assert_eq!(bignum::native::multiply(&vec![0, 0], &vec![5, 5]), Vec::<u8>::new());
}

#[test]
fn random_operands_are_digits() {
    let mut inner = [false; 10];
    let mut last = [false; 10];
    for _ in 0..200 {
        let v = random_operand(40);
        assert_eq!(v.len(), 40);
        for (i, &d) in v.iter().enumerate() {
            assert!(d <= 8);
            if i + 1 < v.len() {
                assert!(d >= 1);
                inner[d as usize] = true;
            } else {
                last[d as usize] = true;
            }
        }
    }
    // the draws differ: neither bound of the range comes back every time
    assert!(inner.iter().filter(|&&s| s).count() >= 2);
    assert!(last.iter().filter(|&&s| s).count() >= 2);
    assert!(!inner[0] && !inner[9] && !last[9]);
    assert_eq!(random_operand(0), Vec::<u8>::new());
}

fn native_digits(text: &str) -> Vec<u8> {
    text.bytes().rev().map(|b| b - b'0').collect()
}

fn native_text(digits: &[u8]) -> String {
    digits.iter().rev().map(|d| (b'0' + d) as char).collect()
}

#[test]
fn shortcut_and_long_way_agree_at_the_threshold() {
    // 18 and 19 digits are 37 together: the last operands of the shortcut
    let a = "999999999999999999";
    let b = "9999999999999999999";
    let c = "99999999999999999999";
    assert_eq!(
        native_text(&bignum::native::multiply(&native_digits(a), &native_digits(b))),
        "9999999999999999989000000000000000001"
    );
    assert_eq!(
        native_text(&bignum::native::multiply(&native_digits(a), &native_digits(c))),
        "99999999999999999899000000000000000001"
    );
    assert_eq!(
        native_text(&bignum::native::add_vec(&native_digits(a), &native_digits(b))),
        "10999999999999999998"
    );
    assert_eq!(
        native_text(&bignum::native::add_vec(&native_digits(a), &native_digits(c))),
        "100999999999999999998"
    );
    for (x, y) in [(a, b), (a, c), (b, c), (c, c)] {
        assert_eq!(
            bignum::native::multiply(&native_digits(x), &native_digits(y)),
            bignum::oper::mul_vec(&native_digits(x), &native_digits(y))
        );
        assert_eq!(
            bignum::native::add_vec(&native_digits(x), &native_digits(y)),
            bignum::oper::add_vec(&native_digits(x), &native_digits(y))
        );
    }
}
