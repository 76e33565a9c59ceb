use n_bit_number::bigint::BIGINT;

#[test]
fn test_subtraction_decrement() {
    let b1 = BIGINT::new("10000000000000000000").unwrap();
    let b2 = BIGINT::new("1").unwrap();
    let b3 = b1.subtract(&b2);
    assert_eq!(b3, BIGINT::new("9999999999999999999").unwrap());
}

#[test]
fn test_subtraction_test_subtraction() {
    let b1 = BIGINT::new("11000000000000000000").unwrap();
    let b2 = BIGINT::new("1000000000000000000").unwrap();
    let b3 = b1.subtract(&b2);
    assert_eq!(b3, BIGINT::new("10000000000000000000").unwrap());

    let b1 = BIGINT::new("10000000000000000000").unwrap();
    let b2 = BIGINT::new("1").unwrap();
    let b3 = b2.subtract(&b1);
    assert_eq!(b3, BIGINT::new("-9999999999999999999").unwrap());

    let b1 = BIGINT::new("100000000000000000000").unwrap();
    let b2 = BIGINT::new("-100000000000000000000").unwrap();
    let b3 = b1.subtract(&b2);
    assert_eq!(b3, BIGINT::new("200000000000000000000").unwrap());

    let b1 = BIGINT::new("100000000000000000000").unwrap();
    let b2 = BIGINT::new("-100000000000000000000").unwrap();
    let b3 = b2.subtract(&b1);
    assert_eq!(b3, BIGINT::new("-200000000000000000000").unwrap());

    let b1 = BIGINT::new("-100000000000000000000").unwrap();
    let b2 = BIGINT::new("-100000000000000000000").unwrap();
    let b3 = b2.subtract(&b1);
    assert_eq!(b3, BIGINT::new("0").unwrap());
}
