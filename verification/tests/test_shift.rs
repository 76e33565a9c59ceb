use n_bit_number::bigint::BIGINT;

#[test]
fn test_shift_left() {
    let mut b1 = BIGINT::new("1").unwrap();
    b1.shl(1);
    assert_eq!(b1, BIGINT::new("2").unwrap());

    let mut b2 = BIGINT::from_repr(false, vec![1, 2, 3]);
    b2.shl(1);
    assert_eq!(b2, BIGINT::from_repr(false, vec![2, 4, 6]));
}

#[test]
fn test_shift_right() {
    let mut b1 = BIGINT::new("2").unwrap();
    b1.shr(1);
    assert_eq!(b1, BIGINT::new("1").unwrap());

    let mut b2 = BIGINT::from_repr(false, vec![2, 4, 6]);
    b2.shr(1);
    assert_eq!(b2, BIGINT::from_repr(false, vec![1, 2, 3]));
}
