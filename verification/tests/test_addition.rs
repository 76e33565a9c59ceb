use n_bit_number::bigint::BIGINT;

#[test]
fn test_addition_test_increment() {
    let b1 = BIGINT::new("10").unwrap();
    let b2 = BIGINT::new("1").unwrap();
    let b3 = b1.add(&b2);
    assert_eq!(b3, BIGINT::new("11").unwrap());
}

#[test]
fn test_addition() {
    // adding on different signs
    let b1 = BIGINT::new("100000000000000000000").unwrap();
    let b2 = BIGINT::new("100000000000000000000").unwrap();
    let b3 = b1.add(&b2);
    assert_eq!(b3, BIGINT::new("200000000000000000000").unwrap());

    let b1 = BIGINT::new("-100000000000000000000").unwrap();
    let b2 = BIGINT::new("-100000000000000000000").unwrap();
    let b3 = b1.add(&b2);
    assert_eq!(b3, BIGINT::new("-200000000000000000000").unwrap());

    let b1 = BIGINT::new("100000000000000000000").unwrap();
    let b2 = BIGINT::new("-100000000000000000000").unwrap();
    let b3 = b1.add(&b2);
    assert_eq!(b3, BIGINT::new("0").unwrap());

    let b1 = BIGINT::new("-100000000000000000000").unwrap();
    let b2 = BIGINT::new("100000000000000000000").unwrap();
    let b3 = b1.add(&b2);
    assert_eq!(b3, BIGINT::new("0").unwrap());
}
