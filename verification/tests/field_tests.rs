use multilinear::field::Felt;

#[test]
fn test_field_mul_and_sub() {
    let three = Felt::from_u64(3);
    let four = Felt::from_u64(4);
    assert_eq!(three.mul(&four), Felt::from_u64(12));
    assert_eq!(Felt::from_u64(5).sub(&Felt::from_u64(2)), Felt::from_u64(3));

    // subtraction wraps modulo the field order: -1 is a 255-bit value whose
    // big-endian encoding starts with the order's leading byte
    let minus_one = Felt::from_u64(0).sub(&Felt::from_u64(1));
    assert!(minus_one != Felt::from_u64(0));
    let bytes = minus_one.to_be_bytes();
    assert_eq!(bytes.len(), 32);
    assert_eq!(bytes[0], 0x73);
    assert_eq!(bytes[31], 0x00);
    // adding one back: (-1) * 1 stays put, and (-1) - (-2) == 1
    let minus_two = Felt::from_u64(0).sub(&Felt::from_u64(2));
    assert_eq!(minus_one.sub(&minus_two), Felt::from_u64(1));
}

#[test]
fn test_zero_and_one_tests() {
    assert!(Felt::from_u64(0).is_zero());
    assert!(!Felt::from_u64(0).is_one());
    assert!(Felt::from_u64(1).is_one());
    assert!(!Felt::from_u64(1).is_zero());
    assert!(!Felt::from_u64(7).is_zero());
    assert!(!Felt::from_u64(7).is_one());
    // a wrapped difference that lands exactly on one
    assert!(Felt::from_u64(8).sub(&Felt::from_u64(7)).is_one());
}
