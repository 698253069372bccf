use bnum::integer::Integer;
use bnum::literal_parse::{
    get_integer_params, get_integer_params_fallback, get_overflow_mode, get_signedness, IntLiteralParser,
    ParseIntLiteralError, TypeDescriptorError,
};
use bnum::random::{canon_begin, canon_continue, lemire_step, UniformError, UniformInt};
use bnum::sign::Sign;
use bnum::types::{I256, U256};

type I24p = Integer<true, 3, 24, 1>;
type U8w = Integer<false, 1, 0, 0>;
type I8w = Integer<true, 1, 0, 0>;

#[test]
fn sign_operations() {
    assert_eq!(Sign::Minus.negate(), Sign::Plus);
    assert_eq!(Sign::Zero.negate(), Sign::Zero);
    assert_eq!(Sign::Minus.combine(Sign::Minus), Sign::Plus);
    assert_eq!(Sign::Minus.combine(Sign::Zero), Sign::Zero);
    assert_eq!(Sign::Plus.combine(Sign::Minus), Sign::Minus);
    assert_eq!(Sign::Zero.not(), Sign::Minus);
    assert_eq!(Sign::Minus.not(), Sign::Plus);
    assert_eq!(Sign::Minus.bit_and(Sign::Minus), Sign::Minus);
    assert_eq!(Sign::Minus.bit_and(Sign::Plus), Sign::Plus);
    assert_eq!(Sign::Plus.bit_and(Sign::Zero), Sign::Zero);
    assert_eq!(Sign::default(), Sign::Zero);
}

#[test]
fn type_descriptors() {
    assert_eq!(get_integer_params("U256"), Ok((false, 256, 1)));
    assert_eq!(get_integer_params("I511s"), Ok((true, 511, 2)));
    assert_eq!(get_integer_params("U24w"), Ok((false, 24, 0)));
    assert_eq!(get_integer_params("I259p"), Ok((true, 259, 1)));
    assert_eq!(get_integer_params(""), Err((TypeDescriptorError::InvalidSuffix, "")));
    assert_eq!(get_integer_params("A256"), Err((TypeDescriptorError::InvalidSignDescriptor, "A")));
    assert_eq!(get_integer_params("Ux256"), Err((TypeDescriptorError::InvalidSignDescriptor, "Ux")));
    assert_eq!(get_integer_params("256"), Err((TypeDescriptorError::NoSignDescriptor, "")));
    assert_eq!(get_integer_params("Uabc"), Err((TypeDescriptorError::NoBitWidthSpecified, "")));
    assert_eq!(get_integer_params("I1"), Err((TypeDescriptorError::BitWidthTooSmall, "1")));
    assert_eq!(get_integer_params("U4294967296"), Err((TypeDescriptorError::BitWidthTooLarge, "4294967296")));
    assert_eq!(get_integer_params("U4294967295"), Ok((false, 4294967295, 1)));
    assert_eq!(get_integer_params("U1024x"), Err((TypeDescriptorError::InvalidOverflowModeDescriptor, "x")));
    assert_eq!(get_integer_params("U1024ws"), Err((TypeDescriptorError::InvalidOverflowModeDescriptor, "ws")));
    assert!(get_signedness("I256"));
    assert!(!get_signedness("U256"));
    assert!(!get_signedness(""));
    assert_eq!(get_overflow_mode("U256w"), 0);
    assert_eq!(get_overflow_mode("U256s"), 2);
    assert_eq!(get_overflow_mode("U256"), 1);
    assert_eq!(get_integer_params_fallback(""), (true, Ok(false), 8, 0, 0));
    assert_eq!(get_integer_params_fallback("U12s"), (false, Ok(false), 2, 12, 2));
    assert_eq!(
        get_integer_params_fallback("X12"),
        (true, Err((TypeDescriptorError::InvalidSignDescriptor, "X")), 8, 0, 0)
    );
}

#[test]
fn integer_literals() {
    let a = IntLiteralParser::<false, true, 32, 0, 1>::parse(false, 16, b"_ABCDEF_");
    assert_eq!(a.to_str_radix(16), "abcdef");
    let b = IntLiteralParser::<false, false, 64, 511, 2>::parse(false, 10, b"1_23_456");
    assert_eq!(b.to_str_radix(10), "123456");
    let c: Integer<false, 33, 257, 0> = IntLiteralParser::<true, false, 8, 0, 0>::parse(false, 8, b"123_45_670");
    assert_eq!(c.to_str_radix(8), "12345670");
    let d = I24p::from_literal_str(false, 2, b"101010111100110111_");
    assert_eq!(d.to_str_radix(2), "101010111100110111");

    assert_eq!(U256::from_literal_str_checked(false, 10, b""), Err(ParseIntLiteralError::NoDigits));
    assert_eq!(U256::from_literal_str_checked(true, 10, b"1"), Err(ParseIntLiteralError::UnsignedNegation));
    assert_eq!(U256::from_literal_str_checked(false, 10, b"12a"), Err(ParseIntLiteralError::InvalidDigit));
    assert_eq!(U8w::from_literal_str_checked(false, 10, b"256"), Err(ParseIntLiteralError::OutOfRange));
    assert_eq!(I8w::from_literal_str_checked(true, 10, b"128"), Ok(I8w::min_value()));
    assert_eq!(I8w::from_literal_str_checked(true, 10, b"129"), Err(ParseIntLiteralError::OutOfRange));
    assert_eq!(I8w::from_literal_str_checked(false, 10, b"128"), Err(ParseIntLiteralError::OutOfRange));
    assert_eq!(U8w::from_literal_str_checked(false, 10, b"99999999999999999999z"), Err(ParseIntLiteralError::InvalidDigit));
    assert_eq!(I256::from_literal_str_checked(true, 16, b"ff"), Ok(I256::cast_from_i128(-255)));
}

#[test]
fn uniform_sampler_construction() {
    let low = I256::cast_from_i128(-10);
    let high = I256::cast_from_i128(10);
    assert!(UniformInt::new_inclusive(high, low).is_err());
    assert_eq!(UniformInt::new(low, low).unwrap_err(), UniformError::EmptyRange);
    let u = UniformInt::new_inclusive(low, high).unwrap();
    assert!(!u.is_full_range());
    let full = UniformInt::new_inclusive(I256::min_value(), I256::max_value()).unwrap();
    assert!(full.is_full_range());
}

#[test]
fn uniform_sampler_steps() {
    // 21 values from -10; the threshold is 2^256 mod 21 = 16
    let low = I256::cast_from_i128(-10);
    let high = I256::cast_from_i128(10);
    let u = UniformInt::new_inclusive(low, high).unwrap();
    assert_eq!(u.sample_step(U256::zero()), None);
    assert_eq!(u.sample_step(U256::one()), Some(low));
    assert_eq!(u.sample_step(U256::max_value()), Some(high));

    // 3 values from 3, with 32-bit draws; the threshold is 2^32 mod 3 = 1
    let small = UniformInt::new_inclusive(U8w::cast_from_u128(3), U8w::cast_from_u128(5)).unwrap();
    assert_eq!(small.sample_step_u32(0), None);
    assert_eq!(small.sample_step_u32(1), Some(U8w::cast_from_u128(3)));
    assert_eq!(small.sample_step_u32(u32::MAX), Some(U8w::cast_from_u128(5)));
}

#[test]
fn range_sampling_steps() {
    let range = U256::cast_from_u128(3);
    assert_eq!(lemire_step(range, U256::one(), U256::zero()), None);
    assert_eq!(lemire_step(range, U256::one(), U256::max_value()), Some(U256::cast_from_u128(2)));

    let t = canon_begin(range, U256::zero());
    assert!(t.done);
    assert_eq!(t.result, U256::zero());
    let t = canon_begin(range, U256::max_value());
    assert!(t.done);
    assert_eq!(t.result, U256::cast_from_u128(2));

    // (2^256 - 1) / 3 times 3 leaves the low part 2^256 - 1: another draw is needed
    let third = U256::max_value().wrapping_div(U256::cast_from_u128(3));
    let s = canon_begin(range, third);
    assert!(!s.done);
    assert_eq!(s.result, U256::zero());
    assert_eq!(s.lo, U256::max_value());
    let carried = canon_continue(range, s, U256::max_value());
    assert!(carried.done);
    assert_eq!(carried.result, U256::one());
    let kept = canon_continue(range, s, U256::zero());
    assert!(kept.done);
    assert_eq!(kept.result, U256::zero());
}

#[test]
fn unchecked_literal_is_the_checked_value() {
    type I24 = Integer<true, 3, 24, 1>;
    for (neg, radix, digits) in [(false, 10u32, "8388607"), (true, 10, "8388608"), (false, 16, "7f_ff"), (true, 2, "101")] {
        let checked = I24::from_literal_str_checked(neg, radix, digits.as_bytes());
        assert_eq!(checked, Ok(I24::from_literal_str(neg, radix, digits.as_bytes())));
    }
    assert!(I24::from_literal_str_checked(false, 10, b"8388608").is_err());
}
