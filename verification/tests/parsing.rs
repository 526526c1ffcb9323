use bignum::big::{null_substring, parse_str, to_vec, BigDecimal, ParseError};

#[test]
fn decimal_string_parses_to_reversed_digits() {
    assert_eq!(to_vec("123"), Ok(vec![3, 2, 1]));
    assert_eq!(to_vec("007"), Ok(vec![7, 0, 0]));
    assert_eq!(to_vec(""), Ok(vec![]));
    assert_eq!(BigDecimal::from_decimal_string("9081").unwrap().digits, vec![1, 8, 0, 9]);
}

#[test]
fn decimal_string_rejects_other_characters() {
    assert_eq!(to_vec("12a"), Err(ParseError::NotADigit));
    assert_eq!(to_vec("-12"), Err(ParseError::NotADigit));
    assert_eq!(to_vec("1 2"), Err(ParseError::NotADigit));
    assert_eq!(to_vec("١٢"), Err(ParseError::NotADigit));
    assert_eq!(to_vec("/"), Err(ParseError::NotADigit));
    assert_eq!(to_vec(":"), Err(ParseError::NotADigit));
    assert!(matches!(BigDecimal::from_decimal_string("7*3"), Err(ParseError::NotADigit)));
}

#[test]
fn trailing_zeros_are_counted() {
    assert_eq!(null_substring("1000"), 3);
    assert_eq!(null_substring("000"), 3);
    assert_eq!(null_substring("0001"), 0);
    assert_eq!(null_substring(""), 0);
}

#[test]
fn repetition_equals_written_out_number() {
    let repeated = BigDecimal::from_repetition_expression("7*3").unwrap();
    let plain = BigDecimal::from_repetition_expression("777").unwrap();
    assert_eq!(repeated.digits, plain.digits);
    assert_eq!(repeated.to_string(), "777");
    let repeated = BigDecimal::from_repetition_expression("9856*3").unwrap();
    assert_eq!(repeated.to_string(), "985698569856");
    let repeated = BigDecimal::from_repetition_expression("120*2").unwrap();
    assert_eq!(repeated.digits, vec![0, 2, 1, 0, 2, 1]);
    let big = BigDecimal::from_repetition_expression("1*100").unwrap();
    assert_eq!(big.digits, vec![1; 100]);
}

#[test]
fn repetition_of_zeros_is_zero() {
    assert_eq!(BigDecimal::from_repetition_expression("0*5").unwrap().digits, vec![0]);
    assert_eq!(BigDecimal::from_repetition_expression("00*5").unwrap().digits, vec![0]);
    assert_eq!(BigDecimal::from_repetition_expression("5*0").unwrap().digits, vec![0]);
    assert_eq!(BigDecimal::from_repetition_expression("0*0").unwrap().digits, vec![0]);
}

#[test]
fn repetition_count_may_carry_a_plus() {
    assert_eq!(BigDecimal::from_repetition_expression("7*+2").unwrap().digits, vec![7, 7]);
    assert_eq!(BigDecimal::from_repetition_expression("7*02").unwrap().digits, vec![7, 7]);
}

#[test]
fn malformed_repetition_is_rejected() {
    assert!(matches!(BigDecimal::from_repetition_expression("*3"), Err(ParseError::EmptyBase)));
    assert!(matches!(BigDecimal::from_repetition_expression("*"), Err(ParseError::EmptyBase)));
    assert!(matches!(BigDecimal::from_repetition_expression("7*"), Err(ParseError::BadCount)));
    assert!(matches!(BigDecimal::from_repetition_expression("7*x"), Err(ParseError::BadCount)));
    assert!(matches!(BigDecimal::from_repetition_expression("7*-1"), Err(ParseError::BadCount)));
    assert!(matches!(BigDecimal::from_repetition_expression("7*+"), Err(ParseError::BadCount)));
    assert!(matches!(BigDecimal::from_repetition_expression("7*3*2"), Err(ParseError::BadCount)));
    assert!(matches!(
        BigDecimal::from_repetition_expression("7*18446744073709551616"),
        Err(ParseError::BadCount)
    ));
    assert!(matches!(BigDecimal::from_repetition_expression("0*x"), Err(ParseError::BadCount)));
    assert!(matches!(BigDecimal::from_repetition_expression("7a*3"), Err(ParseError::NotADigit)));
    assert!(matches!(BigDecimal::from_repetition_expression("7a"), Err(ParseError::NotADigit)));
}

#[test]
fn repetition_count_up_to_64_bits_is_read() {
    // a base of zeros never needs the copies made
    let r = BigDecimal::from_repetition_expression("0*18446744073709551615").unwrap();
    assert_eq!(r.digits, vec![0]);
}

#[test]
fn parse_str_splits_at_the_index() {
    assert_eq!(parse_str("12*2", 2).unwrap().digits, vec![2, 1, 2, 1]);
    assert!(matches!(parse_str("12*2", 0), Err(ParseError::EmptyBase)));
    // the byte at the index itself is not looked at
    assert_eq!(parse_str("12x3", 2).unwrap().digits, vec![2, 1, 2, 1, 2, 1]);
}

#[test]
fn display_round_trip() {
    for text in ["0", "1", "10", "123456789012345678901234567890123456789012345678901234567890"] {
        assert_eq!(BigDecimal::from_decimal_string(text).unwrap().to_string(), text);
    }
}
