use n_bit_number::bigint::{BigIntError, BIGINT};
use n_bit_number::operation::{op_add, op_sub};
use n_bit_number::utils::{big_n_str_to_vec, coalesce_vector};
use std::cmp::Ordering;

#[test]
fn test_round_trip_strips_and_normalizes() {
    // leading zeros are dropped
    let b = BIGINT::new("007").unwrap();
    assert_eq!(b.to_string(), "7");

    // negative zero renders without a sign
    let b = BIGINT::new("-0").unwrap();
    assert_eq!(b.to_string(), "0");

    // zero-padded negative values keep sign and digits
    let b = BIGINT::new("-007000000000000000001").unwrap();
    assert_eq!(b.to_string(), "-7000000000000000001");

    // an already-canonical literal comes back unchanged
    let b = BIGINT::new("123456789012345678901234567890").unwrap();
    assert_eq!(b.to_string(), "123456789012345678901234567890");
}

#[test]
fn test_add_commutative_and_associative() {
    let cases = ["5", "-5", "999999999999999999", "-100000000000000000000", "0"];
    for x in cases.iter() {
        for y in cases.iter() {
            let a = BIGINT::new(x).unwrap();
            let b = BIGINT::new(y).unwrap();
            assert_eq!(a.add(&b), b.add(&a));
            for z in cases.iter() {
                let c = BIGINT::new(z).unwrap();
                assert_eq!(a.add(&b).add(&c), a.add(&b.add(&c)));
            }
        }
    }
}

#[test]
fn test_add_identity_both_signs() {
    let zero = BIGINT::new("0").unwrap();
    let pos = BIGINT::new("42000000000000000000").unwrap();
    let neg = BIGINT::new("-42000000000000000000").unwrap();
    assert_eq!(pos.add(&zero), pos);
    assert_eq!(neg.add(&zero), neg);
}

#[test]
fn test_subtract_self_is_zero() {
    for s in ["1", "-1", "123456789012345678901234567890", "-9999999999999999999"].iter() {
        let x = BIGINT::new(s).unwrap();
        let d = x.subtract(&x);
        assert_eq!(d.to_string(), "0");
        assert_eq!(d.get_sign(), false);
    }
}

#[test]
fn test_negation_cancels() {
    for s in ["7", "-7", "10000000000000000000"].iter() {
        let x = BIGINT::new(s).unwrap();
        let nx = x.clone().negate();
        assert_eq!(x.add(&nx).to_string(), "0");
    }

    // subtraction is addition of the negation
    let a = BIGINT::new("12000000000000000005").unwrap();
    let b = BIGINT::new("-3000000000000000001").unwrap();
    assert_eq!(a.subtract(&b), a.add(&b.clone().negate()));
    assert_eq!(b.subtract(&a), b.add(&a.clone().negate()));
}

#[test]
fn test_compare_is_total_order() {
    let a = BIGINT::new("12000000000000000000").unwrap();
    let b = BIGINT::new("11000000000000000000").unwrap();
    assert_eq!(a.compare(&b), Ordering::Greater);
    assert_eq!(b.compare(&a), Ordering::Less);
    assert_eq!(a.compare(&a), Ordering::Equal);

    // order reverses for negated pairs
    let na = BIGINT::new("-12000000000000000000").unwrap();
    let nb = BIGINT::new("-9000000000000000000").unwrap();
    assert!(na < nb);
    assert_eq!(na.compare(&nb), Ordering::Less);
}

#[test]
fn test_multi_block_carry() {
    let a = BIGINT::new("999999999999999999").unwrap();
    let one = BIGINT::new("1").unwrap();
    let sum = a.add(&one);
    assert_eq!(sum.to_string(), "1000000000000000000");

    // the carry creates a second block
    assert_eq!(sum.get_repr(), &vec![0, 1]);
}

#[test]
fn test_multi_block_borrow() {
    let a = BIGINT::new("10000000000000000000").unwrap();
    let one = BIGINT::new("1").unwrap();
    let diff = a.subtract(&one);
    assert_eq!(diff.to_string(), "9999999999999999999");
}

#[test]
fn test_coalesce_idempotent_and_zero() {
    // canonicalizing an already-canonical magnitude returns it unchanged
    let v = vec![5, 0, 7];
    let once = coalesce_vector(&v);
    assert_eq!(once, v);
    let twice = coalesce_vector(&once);
    assert_eq!(twice, once);

    // the all-zero sequence of any length collapses to the single zero block
    assert_eq!(coalesce_vector(&vec![0, 0, 0, 0]), vec![0]);
    assert_eq!(coalesce_vector(&vec![0]), vec![0]);

    // trailing zero blocks are dropped
    assert_eq!(coalesce_vector(&vec![1, 2, 0, 0]), vec![1, 2]);
}

#[test]
fn test_invalid_literals() {
    assert_eq!(BIGINT::new(""), Err(BigIntError::InvalidLiteral));
    assert_eq!(BIGINT::new("-"), Err(BigIntError::InvalidLiteral));
    assert_eq!(BIGINT::new("12a3"), Err(BigIntError::InvalidLiteral));
    assert_eq!(BIGINT::new("--1"), Err(BigIntError::InvalidLiteral));
    assert_eq!(BIGINT::new("+1"), Err(BigIntError::InvalidLiteral));
    assert_eq!(BIGINT::new(" 1"), Err(BigIntError::InvalidLiteral));
    assert!(BIGINT::new("1").is_ok());
}

#[test]
fn test_parse_blocks() {
    // one full block plus one digit splits least-significant first
    let v = big_n_str_to_vec("1000000000000000000").unwrap();
    assert_eq!(v, vec![0, 1]);

    let v = big_n_str_to_vec("7").unwrap();
    assert_eq!(v, vec![7]);

    assert_eq!(big_n_str_to_vec(""), Err(BigIntError::InvalidLiteral));
    assert_eq!(big_n_str_to_vec("12x"), Err(BigIntError::InvalidLiteral));
}

#[test]
fn test_magnitude_operations_ignore_sign() {
    let a = BIGINT::new("-2").unwrap();
    let b = BIGINT::new("3").unwrap();
    assert_eq!(op_add(&a, &b), BIGINT::new("5").unwrap());

    let a = BIGINT::new("2").unwrap();
    let b = BIGINT::new("-5").unwrap();
    assert_eq!(op_sub(&a, &b), BIGINT::new("-3").unwrap());

    let a = BIGINT::new("-12000000000000000000").unwrap();
    let b = BIGINT::new("9000000000000000000").unwrap();
    assert_eq!(a.compare_magnitude(&b), Ordering::Greater);
}

#[test]
fn test_from_repr_canonicalizes() {
    // redundant most-significant zero blocks are dropped
    assert_eq!(
        BIGINT::from_repr(false, vec![1, 2, 0]),
        BIGINT::from_repr(false, vec![1, 2])
    );

    // an all-zero magnitude is zero with a non-negative sign
    let z = BIGINT::from_repr(true, vec![0, 0]);
    assert_eq!(z, BIGINT::new("0").unwrap());
    assert_eq!(z.get_sign(), false);
}

#[test]
fn test_equals_matches_equality() {
    let a = BIGINT::new("0070").unwrap();
    let b = BIGINT::new("70").unwrap();
    assert!(a.equals(&b));
    assert!(a == b);

    let c = BIGINT::new("-70").unwrap();
    assert!(!a.equals(&c));
    assert!(a != c);
}
