use bnum::integer::Integer;
use bnum::types::{I128, I256, U128, U256};

type U13 = Integer<false, 2, 13, 1>;
type I13 = Integer<true, 2, 13, 1>;
type U8 = Integer<false, 1, 0, 1>;

#[test]
fn casts_between_integer_types() {
    let a = I256::cast_from_i128(-2);
    assert_eq!(U256::cast_from_integer(a), U256::max_value().wrapping_sub(U256::one()));
    assert_eq!(I13::cast_from_integer(a), I13::cast_from_i128(-2));
    assert_eq!(U13::cast_from_integer(a), U13::cast_from_u128(8190));
    assert_eq!(U8::cast_from_integer(U256::cast_from_u128(0x1234)), U8::cast_from_u128(0x34));
    assert_eq!(I256::cast_from_integer(I13::cast_from_i128(-4096)), I256::cast_from_i128(-4096));
    assert_eq!(I256::cast_from_integer(U13::cast_from_u128(8191)), I256::cast_from_i128(8191));
}

#[test]
fn checked_conversions() {
    assert!(U13::try_from_u128(8191).is_ok());
    assert!(U13::try_from_u128(8192).is_err());
    assert!(I13::try_from_i128(-4096).is_ok());
    assert!(I13::try_from_i128(-4097).is_err());
    assert!(I13::try_from_i128(4095).is_ok());
    assert!(I13::try_from_i128(4096).is_err());
    assert!(U256::try_from_i128(-1).is_err());
    let e = U256::try_from_i128(-1).unwrap_err();
    assert!(e.to_string().contains("out of range integral type conversion attempted"));
    assert_eq!(I13::try_from_integer(U13::cast_from_u128(4095)), Ok(I13::cast_from_i128(4095)));
    assert!(I13::try_from_integer(U13::cast_from_u128(4096)).is_err());
    assert!(U13::try_from_integer(I13::cast_from_i128(-1)).is_err());
    assert_eq!(U256::max_value().try_to_u128().is_err(), true);
    assert_eq!(U256::cast_from_u128(u128::MAX).try_to_u128(), Ok(u128::MAX));
    assert_eq!(I256::cast_from_i128(i128::MIN).try_to_i128(), Ok(i128::MIN));
    assert!(I256::cast_from_i128(i128::MIN).wrapping_sub(I256::one()).try_to_i128().is_err());
}

#[test]
fn primitive_round_trips() {
    for v in [0i128, 1, -1, 12345, -98765, i128::MAX, i128::MIN] {
        assert_eq!(I128::cast_from_i128(v).cast_to_i128(), v);
        assert_eq!(I256::cast_from_i128(v).cast_to_i128(), v);
    }
    for v in [0u128, 1, 255, 256, u128::MAX] {
        assert_eq!(U128::cast_from_u128(v).cast_to_u128(), v);
    }
    assert_eq!(I256::cast_from_i128(-1).cast_to_u128(), u128::MAX);
    assert_eq!(U13::cast_from_u128(0x3fff), U13::cast_from_u128(0x1fff));
}

#[test]
fn bool_and_char() {
    assert_eq!(U256::from_bool(true), U256::one());
    assert_eq!(I256::from_bool(false), I256::zero());
    assert_eq!(U13::try_from_char('a'), Ok(U13::cast_from_u128(97)));
    assert!(U8::try_from_char('\u{100}').is_err());
    assert_eq!(U8::try_from_char('\u{ff}'), Ok(U8::cast_from_u128(255)));
}

#[test]
fn slices_with_sign_padding_round_trip() {
    type I48 = Integer<true, 6, 0, 1>;
    type U48 = Integer<false, 6, 0, 1>;
    for x in [0i128, 1, -1, 123_456_789, -123_456_789, (1i128 << 47) - 1, -(1i128 << 47)] {
        let v = I48::cast_from_i128(x);
        let pad = if x < 0 { 0xFFu8 } else { 0 };
        let le = v.to_le_bytes();
        let be = v.to_be_bytes();
        assert_eq!(I48::from_le_slice(&le), Some(v));
        for k in 0..4usize {
            let padded_le: Vec<u8> = le.iter().copied().chain(std::iter::repeat(pad).take(k)).collect();
            let padded_be: Vec<u8> = std::iter::repeat(pad).take(k).chain(be.iter().copied()).collect();
            assert_eq!(I48::from_le_slice(&padded_le), Some(v));
            assert_eq!(I48::from_be_slice(&padded_be), Some(v));
        }
    }
    let u = U48::cast_from_u128(0xABCD);
    let mut padded = u.to_le_bytes().to_vec();
    padded.extend_from_slice(&[0, 0, 0]);
    assert_eq!(U48::from_le_slice(&padded), Some(u));
}
