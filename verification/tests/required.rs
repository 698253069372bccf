use bnum::integer::Integer;
use bnum::literal_parse::{
    concat_strs, get_integer_params_fallback, get_negative_radix_digits_type_descriptor, get_size_params_from_bits,
    IntLiteralParser,
};
use bnum::overflow::{str_eq, OverflowMode};
use bnum::types::{I1024, I128, I2048, I256, I4096, I512, I8192, U1024, U128, U2048, U256, U4096, U512, U8192};

type U3 = Integer<false, 1, 3, 1>;
type U2 = Integer<false, 1, 2, 1>;
type I4 = Integer<true, 1, 4, 1>;
type I2 = Integer<true, 1, 2, 1>;
type U13s = Integer<false, 2, 13, 2>;
type U64 = Integer<false, 8, 0, 1>;
type U256w = Integer<false, 32, 0, 0>;
type I512s = Integer<true, 64, 0, 2>;
type U123p = Integer<false, 16, 123, 1>;

#[test]
fn test_narrow_widths_ilog10_is_zero() {
    let a = U3::from_literal_str(false, 10, b"7");
    assert_eq!(a.checked_ilog10(), Some(0));

    let b = U2::from_literal_str(false, 10, b"3");
    assert_eq!(b.checked_ilog10(), Some(0));

    let c = I4::from_literal_str(false, 10, b"6");
    assert_eq!(c.checked_ilog10(), Some(0));
}

#[test]
fn test_narrow_width_checked_ilog_is_none() {
    let a = I2::from_literal_str(false, 10, b"1");
    assert_eq!(a.checked_ilog(a), None);
}

#[test]
fn invalid_char_conversion_error() {
    let invalid_char = char::from_u32(0x2764).unwrap();

    let test_msg = U13s::try_from_char(invalid_char).unwrap_err().to_string();

    assert!(test_msg.contains("unicode code point out of range"));
}

#[test]
fn aaa() {
    let a = U64::from_literal_str(false, 16, b"d73104da53b99783");
    println!("{:?}", a.to_radix_le(256));
}

#[test]
fn ttt() {}

#[test]
fn test_concat_strs() {
    let msgs: &[&str] = &["Hello, ", "world!", " This ", "is", " ", "a ", "test."];
    let concatenated: [u8; 29] = concat_strs::<29>(msgs);
    assert_eq!(&concatenated, b"Hello, world! This is a test.");
}

#[test]
fn test_get_size_params() {
    for (bits, n, b) in [
        (1, 1, 1),
        (7, 1, 7),
        (8, 1, 0),
        (9, 2, 9),
        (15, 2, 15),
        (16, 2, 0),
        (17, 3, 17),
        (31, 4, 31),
        (32, 4, 0),
        (33, 5, 33),
        (255, 32, 255),
        (256, 32, 0),
        (257, 33, 257),
    ] {
        assert_eq!(get_size_params_from_bits(bits), (n, b));
    }
}

#[test]
fn cases_t_macro() {}

#[test]
fn cases_use_types_macro() {
    assert_eq!(U256w::BITS(), 256);
    assert_eq!(I512s::OVERFLOW_MODE(), OverflowMode::Saturate);
    assert!(!U123p::min_value().is_negative_internal());
}

#[test]
fn test_str_eq() {
    assert!(str_eq("hello", "hello"));
    assert!(!str_eq("hello", "world"));
    assert!(str_eq("", ""));
    assert!(str_eq("a", "a"));
    assert!(str_eq("hi there", "hi there"));
    assert!(!str_eq("hello", "helloo"));
    assert!(!str_eq("", "a"));
}

#[test]
fn test_overflow_mode_to_u8() {
    assert_eq!(OverflowMode::Wrap.to_u8(), 0);
    assert_eq!(OverflowMode::Panic.to_u8(), 1);
    assert_eq!(OverflowMode::Saturate.to_u8(), 2);
}

#[test]
fn test_int_bits() {
    assert_eq!(U128::BITS(), 128);
    assert_eq!(I128::BITS(), 128);
    assert_eq!(U256::BITS(), 256);
    assert_eq!(I256::BITS(), 256);
    assert_eq!(U512::BITS(), 512);
    assert_eq!(I512::BITS(), 512);
    assert_eq!(U1024::BITS(), 1024);
    assert_eq!(I1024::BITS(), 1024);
    assert_eq!(U2048::BITS(), 2048);
    assert_eq!(I2048::BITS(), 2048);
    assert_eq!(U4096::BITS(), 4096);
    assert_eq!(I4096::BITS(), 4096);
    assert_eq!(U8192::BITS(), 8192);
    assert_eq!(I8192::BITS(), 8192);
}

#[test]
fn test_n_macro() {
    type I256 = Integer<true, 32, 0, 1>;
    let (neg, radix, digits, descriptor) = get_negative_radix_digits_type_descriptor("0x_ABCDEF_");
    assert_eq!((neg, radix, digits, descriptor), (false, 16, &b"_ABCDEF_"[..], ""));
    assert_eq!(get_integer_params_fallback(descriptor).0, true);
    let a: I256 = IntLiteralParser::<true, false, 8, 0, 0>::parse(neg, radix, digits);
    assert_eq!(a.to_str_radix(16), "abcdef");

    let (neg, radix, digits, descriptor) = get_negative_radix_digits_type_descriptor("1_23_456U511s");
    assert_eq!(get_integer_params_fallback(descriptor), (false, Ok(false), 64, 511, 2));
    let b = IntLiteralParser::<false, false, 64, 511, 2>::parse(neg, radix, digits);
    assert_eq!(b.to_str_radix(10), "123456");

    let (neg, radix, digits, descriptor) = get_negative_radix_digits_type_descriptor("0o123_45_670U257w");
    assert_eq!(get_integer_params_fallback(descriptor), (false, Ok(false), 33, 257, 0));
    let c = IntLiteralParser::<false, false, 33, 257, 0>::parse(neg, radix, digits);
    assert_eq!(c.to_str_radix(8), "12345670");

    type I24p = Integer<true, 3, 0, 1>;
    let (neg, radix, digits, descriptor) = get_negative_radix_digits_type_descriptor("0b101010111100110111_I24p");
    assert_eq!(get_integer_params_fallback(descriptor), (false, Ok(true), 3, 0, 1));
    let d: I24p = IntLiteralParser::<false, true, 3, 0, 1>::parse(neg, radix, digits);
    assert_eq!(d.to_str_radix(2), "101010111100110111");
}
