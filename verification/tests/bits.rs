use bnum::integer::Integer;
use bnum::types::{I256, U256};

type U24 = Integer<false, 3, 24, 1>;
type I24 = Integer<true, 3, 24, 1>;
type I12 = Integer<true, 2, 12, 1>;
type U16w = Integer<false, 2, 0, 0>;

fn u256(v: u128) -> U256 {
    U256::cast_from_u128(v)
}

fn i256(v: i128) -> I256 {
    I256::cast_from_i128(v)
}

#[test]
fn bit_examples() {
    let a = U24::from_literal_str(false, 2, b"1101001101");
    for i in [0, 2, 3, 6, 8, 9] {
        assert!(a.bit(i));
    }
    assert!(!a.bit(1));
    let b = I24::from_literal_str(false, 2, b"0010110010");
    for i in [1, 4, 5, 7] {
        assert!(b.bit(i));
    }
    let c = I24::cast_from_i128(-1);
    assert!(c.bit(23));
}

#[test]
fn set_bit_examples() {
    let mut a = U24::from_literal_str(false, 2, b"1001011001001");
    a.set_bit(2, true);
    assert_eq!(a, U24::from_literal_str(false, 2, b"1001011001101"));
    a.set_bit(1, false);
    assert_eq!(a, U24::from_literal_str(false, 2, b"1001011001101"));

    let mut b = I24::from_literal_str(false, 2, b"010010110110100");
    b.set_bit(4, false);
    assert_eq!(b, I24::from_literal_str(false, 2, b"010010110100100"));
    b.set_bit(0, false);
    assert_eq!(b, I24::from_literal_str(false, 2, b"010010110100100"));

    // writing the sign bit of a narrow signed type makes it negative
    let mut c = I12::zero();
    c.set_bit(11, true);
    assert_eq!(c, I12::min_value());
}

#[test]
fn bitwise_operations() {
    assert_eq!(u256(0b1100).bitand(u256(0b1010)), u256(0b1000));
    assert_eq!(u256(0b1100).bitor(u256(0b1010)), u256(0b1110));
    assert_eq!(u256(0b1100).bitxor(u256(0b1010)), u256(0b0110));
    assert_eq!(i256(-1).bitand(i256(12345)), i256(12345));
    assert_eq!(i256(-8).bitor(i256(3)), i256(-5));
    assert_eq!(u256(5).not(), U256::max_value().wrapping_sub(u256(5)));
    assert_eq!(i256(5).not(), i256(-6));
    assert_eq!(I12::cast_from_i128(-1).bitxor(I12::cast_from_i128(0x7ff)), I12::min_value());
}

#[test]
fn counting_bits() {
    assert_eq!(u256(0b1011).count_ones(), 3);
    assert_eq!(u256(0b1011).count_zeros(), 253);
    assert_eq!(i256(-1).count_ones(), 256);
    assert_eq!(I12::cast_from_i128(-1).count_ones(), 12);
    assert_eq!(u256(1).leading_zeros(), 255);
    assert_eq!(U256::zero().leading_zeros(), 256);
    assert_eq!(i256(-1).leading_ones(), 256);
    assert_eq!(i256(-2).trailing_zeros(), 1);
    assert_eq!(U256::zero().trailing_zeros(), 256);
    assert_eq!(u256(0b0111).trailing_ones(), 3);
    assert_eq!(u256(1000).bits(), 10);
    assert_eq!(U256::zero().bits(), 0);
}

#[test]
fn shifts() {
    assert_eq!(u256(1).shl(255), u256(2).pow(255));
    assert_eq!(u256(1).checked_shl(256), None);
    assert_eq!(u256(3).wrapping_shl(257), u256(6));
    assert_eq!(i256(-16).shr(2), i256(-4));
    assert_eq!(i256(-1).unbounded_shr(1000), i256(-1));
    assert_eq!(u256(12345).unbounded_shr(1000), U256::zero());
    assert_eq!(u256(12345).unbounded_shl(256), U256::zero());
    assert_eq!(i256(-7).shr(1), i256(-4));
}

#[test]
fn rotations_and_reversals() {
    let x = U16w::cast_from_u128(0x8001);
    assert_eq!(x.rotate_left(1), U16w::cast_from_u128(0x0003));
    assert_eq!(x.rotate_right(1), U16w::cast_from_u128(0xC000));
    assert_eq!(x.rotate_left(17), U16w::cast_from_u128(0x0003));
    assert_eq!(U16w::cast_from_u128(0x1234).swap_bytes(), U16w::cast_from_u128(0x3412));
    assert_eq!(U16w::cast_from_u128(0x0001).reverse_bits(), U16w::cast_from_u128(0x8000));
    assert_eq!(U16w::cast_from_u128(0x00F0).reverse_bits(), U16w::cast_from_u128(0x0F00));
    let y = U24::cast_from_u128(0x800001);
    assert_eq!(y.rotate_left(4), U24::cast_from_u128(0x000018));
    assert_eq!(y.reverse_bits(), y);
}

#[test]
fn byte_conversions() {
    let v = u256(0x0102030405060708);
    let le = v.to_le_bytes();
    assert_eq!(le[0], 8);
    assert_eq!(le[7], 1);
    assert_eq!(U256::from_le_bytes(le), v);
    let be = v.to_be_bytes();
    assert_eq!(be[31], 8);
    assert_eq!(U256::from_be_bytes(be), v);
    assert_eq!(I256::from_le_slice(&[0xff]), Some(i256(-1)));
    assert_eq!(U256::from_le_slice(&[0xff]), Some(u256(255)));
    assert_eq!(U24::from_le_slice(&[1, 2, 3, 4]), None);
    assert_eq!(U24::from_le_slice(&[1, 2, 3, 0]), Some(U24::cast_from_u128(0x030201)));
    assert_eq!(U24::from_be_slice(&[1, 2, 3]), Some(U24::cast_from_u128(0x010203)));
    assert_eq!(I12::from_le_slice(&[0xff, 0xf7]), None);
    assert_eq!(I12::from_le_slice(&[0xff, 0xff]), Some(I12::cast_from_i128(-1)));
    assert_eq!(U24::from_le_slice(&[]), Some(U24::zero()));
}

#[test]
fn reverse_bits_twice_is_identity() {
    for x in [0i128, 1, -1, 0x5A5, -2048, 2047, -731] {
        let v = I12::cast_from_i128(x);
        assert_eq!(v.reverse_bits().reverse_bits(), v);
    }
    let big = u256(0x0123_4567_89ab_cdef_fedc_ba98_7654_3210);
    assert_ne!(big.reverse_bits(), big);
    assert_eq!(big.reverse_bits().reverse_bits(), big);
}

#[test]
fn bits_is_width_minus_leading_zeros() {
    for x in [0u128, 1, 2, 3, 255, 256, 0xFFFF_FFFF, 1 << 100, u128::MAX] {
        let v = u256(x);
        assert_eq!(v.bits(), 256 - v.leading_zeros());
    }
    let w = U24::cast_from_u128(0x00_8000);
    assert_eq!(w.bits(), 16);
    assert_eq!(w.bits(), 24 - w.leading_zeros());
}

#[test]
fn wide_shift_amounts() {
    type U256w = Integer<false, 32, 0, 0>;
    type U256s = Integer<false, 32, 0, 2>;
    assert_eq!(U256w::shift_exponent_u128(7), 7);
    assert_eq!(U256w::shift_exponent_u128((1u128 << 32) + 1), 1);
    assert_eq!(U256s::shift_exponent_u128(1u128 << 40), u32::MAX);
    assert_eq!(U16w::shift_exponent_i128(-1), 15);
    assert_eq!(U16w::shift_exponent_i128(-16), 0);
    assert_eq!(U16w::shift_exponent_i128(-17), 15);
    assert_eq!(U16w::shift_exponent_i128(1i128 << 40), 0);
    assert_eq!(U256s::shift_exponent_i128(-3), u32::MAX);
    assert_eq!(U256::shift_exponent_i128(200), 200);
}
