use n_bit_number::bigint::BIGINT;

#[test]
fn lib_test_increment() {
    let b1 = BIGINT::new("10").unwrap();
    let b2 = BIGINT::new("1").unwrap();
    let b3 = b1.add(&b2);
    assert_eq!(b3, BIGINT::new("11").unwrap());
}

#[test]
fn test_identity() {
    let identity = BIGINT::new("0").unwrap();

    // additive identity added to itself should be result the same
    let b2 = BIGINT::new("0").unwrap();
    let b3 = identity.add(&b2);
    assert_eq!(b3, b2);

    // additive identity added to any n should result the sum being n
    let b4 = BIGINT::new("1234").unwrap();
    let b5 = identity.add(&b4);
    assert_eq!(b5, b4);
}

#[test]
fn test_to_string() {
    // zero padding test
    let b2 = BIGINT::new("1000000000000000000").unwrap();
    assert_eq!(b2.to_string(), "1000000000000000000");

    // sign test
    let b3 = BIGINT::new("-1").unwrap();
    assert_eq!(b3.to_string(), "-1");
}

#[test]
fn test_signed_operation() {
    // adding two negative numbers
    let b1 = BIGINT::new("-1").unwrap();
    let b2 = BIGINT::new("-1").unwrap();
    let b3 = b1.add(&b2);
    assert_eq!(b3, BIGINT::new("-2").unwrap());

    // subtractions on different signs
    let b1 = BIGINT::new("100000000000000000000").unwrap();
    let b2 = BIGINT::new("-100000000000000000000").unwrap();
    let b3 = b1.subtract(&b2);
    assert_eq!(b3, BIGINT::new("200000000000000000000").unwrap());

    let b1 = BIGINT::new("100000000000000000000").unwrap();
    let b2 = BIGINT::new("-100000000000000000000").unwrap();
    let b3 = b2.subtract(&b1);
    assert_eq!(b3, BIGINT::new("-200000000000000000000").unwrap());
}

#[test]
fn test_comparision() {
    let b1 = BIGINT::new("11000000000000000000").unwrap();
    let b2 = BIGINT::new("12000000000000000000").unwrap();
    let b3 = BIGINT::new("9000000000000000000").unwrap();
    let b4 = BIGINT::new("-12000000000000000000").unwrap();
    let b5 = BIGINT::new("-9000000000000000000").unwrap();

    assert!(b2 > b1);
    assert!(b1 > b3);
    assert!(b1 > b4);
    assert!(b5 > b4);
}

#[test]
fn lib_test_subtraction() {
    let b1 = BIGINT::new("11000000000000000000").unwrap();
    let b2 = BIGINT::new("1000000000000000000").unwrap();
    let b3 = b1.subtract(&b2);
    assert_eq!(b3, BIGINT::new("10000000000000000000").unwrap());

    let b1 = BIGINT::new("10000000000000000000").unwrap();
    let b2 = BIGINT::new("1").unwrap();
    let b3 = b1.subtract(&b2);
    assert_eq!(b3, BIGINT::new("9999999999999999999").unwrap());

    let b1 = BIGINT::new("10000000000000000000").unwrap();
    let b2 = BIGINT::new("1").unwrap();
    let b3 = b2.subtract(&b1);
    assert_eq!(b3.get_sign(), true);
    assert_eq!(b3, BIGINT::new("-9999999999999999999").unwrap());
}
