use bnum::errors::IntErrorKind;
use bnum::integer::Integer;
use bnum::types::{I256, I512, U256, U512};

type I64 = Integer<true, 8, 0, 1>;
type U64 = Integer<false, 8, 0, 1>;
type I8 = Integer<true, 1, 0, 1>;

fn kind<T: core::fmt::Debug>(r: Result<T, bnum::errors::ParseIntError>) -> IntErrorKind {
    *r.unwrap_err().kind()
}

#[test]
fn from_str_radix_examples() {
    assert_eq!(U512::from_str_radix("A", 16), Ok(U512::cast_from_u128(10)));
    assert_eq!(I512::from_str_radix("-B", 16), Ok(I512::cast_from_i128(-11)));
    assert_eq!(U512::from_ascii(b"+10"), Ok(U512::cast_from_u128(10)));
    assert_eq!(I512::from_ascii(b"-1234"), Ok(I512::cast_from_i128(-1234)));
    assert_eq!(U512::from_ascii_radix(b"A", 16), Ok(U512::cast_from_u128(10)));
    assert_eq!(I512::from_ascii_radix(b"-C", 16), Ok(I512::cast_from_i128(-12)));
}

#[test]
fn parse_errors() {
    assert_eq!(kind(U256::from_str_radix("", 10)), IntErrorKind::Empty);
    assert_eq!(kind(U256::from_str_radix("a", 10)), IntErrorKind::InvalidDigit);
    assert_eq!(kind(U256::from_str_radix("+", 10)), IntErrorKind::InvalidDigit);
    assert_eq!(kind(I256::from_str_radix("-", 10)), IntErrorKind::InvalidDigit);
    assert_eq!(kind(U256::from_str_radix("-1", 10)), IntErrorKind::InvalidDigit);
    assert_eq!(kind(U256::from_str_radix(" 1", 10)), IntErrorKind::InvalidDigit);
    assert_eq!(kind(U256::from_str_radix("1_000", 10)), IntErrorKind::InvalidDigit);
    assert_eq!(kind(I64::from_str_radix("-9223372036854775809", 10)), IntErrorKind::NegOverflow);
    assert_eq!(kind(I64::from_str_radix("9223372036854775808", 10)), IntErrorKind::PosOverflow);
    assert_eq!(kind(U64::from_str_radix("18446744073709551616", 10)), IntErrorKind::PosOverflow);
    assert_eq!(kind(I8::from_str_radix("128a", 10)), IntErrorKind::PosOverflow);
    assert_eq!(I64::from_str_radix("-9223372036854775808", 10), Ok(I64::min_value()));
    assert_eq!(I64::from_str_radix("+9223372036854775807", 10), Ok(I64::max_value()));
    assert_eq!(kind(I64::from_str_radix("-8000000000000001", 16)), IntErrorKind::NegOverflow);
    assert_eq!(I64::from_str_radix("8000000000000000", 16).is_err(), true);
    assert_eq!(kind(I64::from_str_radix("+-23459374", 15)), IntErrorKind::InvalidDigit);
    assert_eq!(kind(I64::from_str_radix("gap gap", 36)), IntErrorKind::InvalidDigit);
}

#[test]
fn parse_error_messages() {
    let e = U256::from_str_radix("", 10).unwrap_err();
    assert_eq!(e.to_string(), "cannot parse integer from empty string");
    let e = U256::from_str_radix("z", 10).unwrap_err();
    assert_eq!(e.to_string(), "invalid digit found in string");
}

#[test]
fn to_str_radix_examples() {
    let src = "abcdefghijklmnopqrstuvwxyz";
    let n = U512::from_str_radix(src, 36).unwrap();
    assert_eq!(n.to_str_radix(36), src);
    let a = I512::from_literal_str(true, 8, b"123456701234567");
    assert_eq!(a.to_str_radix(8), "-123456701234567");
    assert_eq!(U256::zero().to_str_radix(10), "0");
    assert_eq!(I256::cast_from_i128(-255).to_str_radix(16), "-ff");
}

#[test]
fn radix_digit_examples() {
    let digits = [3u8, 55, 60, 100, 5, 0, 5, 88];
    let n = U512::from_radix_be(&digits, 120).unwrap();
    assert_eq!(n.to_radix_be(120), digits.to_vec());

    let digits = [1u8, 67, 88, 200, 55, 68, 87, 120, 178];
    let n = U512::from_radix_le(&digits, 250).unwrap();
    assert_eq!(n.to_radix_le(250), digits.to_vec());

    let a = U512::from_radix_be(&[4, 3, 2, 1], 11).unwrap();
    assert_eq!(a, U512::cast_from_u128(4 * 11 * 11 * 11 + 3 * 11 * 11 + 2 * 11 + 1));
    let b = U512::from_radix_le(&[5, 6, 7, 8], 18).unwrap();
    assert_eq!(b, U512::cast_from_u128(5 + 6 * 18 + 7 * 18 * 18 + 8 * 18 * 18 * 18));

    assert_eq!(U512::from_radix_be(&[], 10), Some(U512::zero()));
    assert_eq!(U512::from_radix_le(&[], 10), Some(U512::zero()));
    assert_eq!(U512::from_radix_le(&[10], 10), None);
    assert_eq!(U512::zero().to_radix_le(7), vec![0]);

    let max = U512::max_value();
    assert_eq!(U512::from_radix_be(&max.to_radix_be(12), 12), Some(max));
    assert_eq!(U512::from_radix_le(&max.to_radix_le(15), 15), Some(max));
    let mut too_big = max.to_radix_le(256);
    too_big.push(1);
    assert_eq!(U512::from_radix_le(&too_big, 256), None);
}

fn std_kind(e: &std::num::ParseIntError) -> IntErrorKind {
    match e.kind() {
        std::num::IntErrorKind::Empty => IntErrorKind::Empty,
        std::num::IntErrorKind::InvalidDigit => IntErrorKind::InvalidDigit,
        std::num::IntErrorKind::PosOverflow => IntErrorKind::PosOverflow,
        std::num::IntErrorKind::NegOverflow => IntErrorKind::NegOverflow,
        _ => IntErrorKind::Zero,
    }
}

const PARSE_INPUTS: [&str; 24] = [
    "", "+", "-", "0", "-0", "+0", "127", "128", "-128", "-129", "255", "256", "-1", "12a", "1_0",
    "-129a", "128a", "a128", "9223372036854775807", "9223372036854775808",
    "-9223372036854775808", "-9223372036854775809", "18446744073709551615",
    "18446744073709551616",
];

#[test]
fn parsing_agrees_with_primitive_integers() {
    for src in PARSE_INPUTS {
        for radix in [2u32, 10, 16, 36] {
            match (I8::from_str_radix(src, radix), i8::from_str_radix(src, radix)) {
                (Ok(a), Ok(b)) => assert_eq!(a, I8::cast_from_i128(b as i128)),
                (Err(a), Err(b)) => assert_eq!(a.kind, std_kind(&b), "{} radix {}", src, radix),
                (a, b) => panic!("{} radix {}: {:?} vs {:?}", src, radix, a, b),
            }
            match (I64::from_str_radix(src, radix), i64::from_str_radix(src, radix)) {
                (Ok(a), Ok(b)) => assert_eq!(a, I64::cast_from_i128(b as i128)),
                (Err(a), Err(b)) => assert_eq!(a.kind, std_kind(&b), "{} radix {}", src, radix),
                (a, b) => panic!("{} radix {}: {:?} vs {:?}", src, radix, a, b),
            }
            match (U64::from_str_radix(src, radix), u64::from_str_radix(src, radix)) {
                (Ok(a), Ok(b)) => assert_eq!(a, U64::cast_from_u128(b as u128)),
                (Err(a), Err(b)) => assert_eq!(a.kind, std_kind(&b), "{} radix {}", src, radix),
                (a, b) => panic!("{} radix {}: {:?} vs {:?}", src, radix, a, b),
            }
        }
    }
}
