use bnum::integer::Integer;
use bnum::types::{I1024, I2048, I256, I512, U1024, U2048, U256, U512};

type U8w = Integer<false, 1, 0, 0>;
type I8s = Integer<true, 1, 0, 2>;
type I12 = Integer<true, 2, 12, 1>;

fn u256(v: u128) -> U256 {
    U256::cast_from_u128(v)
}

fn i256(v: i128) -> I256 {
    I256::cast_from_i128(v)
}

#[test]
fn add_sub_overflow_variants() {
    let max = U256::max_value();
    let one = U256::one();
    assert_eq!(max.overflowing_add(one), (U256::zero(), true));
    assert_eq!(max.wrapping_add(one), U256::zero());
    assert_eq!(max.checked_add(one), None);
    assert_eq!(max.saturating_add(one), max);
    assert_eq!(u256(5).checked_add(u256(7)), Some(u256(12)));
    assert_eq!(U256::zero().overflowing_sub(one), (max, true));
    assert_eq!(u256(10).checked_sub(u256(11)), None);
    assert_eq!(u256(10).saturating_sub(u256(11)), U256::zero());

    let imin = I256::min_value();
    let imax = I256::max_value();
    assert_eq!(imax.overflowing_add(I256::one()), (imin, true));
    assert_eq!(imin.checked_neg(), None);
    assert_eq!(imin.wrapping_neg(), imin);
    assert_eq!(imin.saturating_neg(), imax);
    assert_eq!(i256(-3).neg(), i256(3));
    assert_eq!(i256(-7).add(i256(10)), i256(3));
}

#[test]
fn narrow_width_wrapping_and_saturating() {
    let a = U8w::cast_from_u128(250);
    assert_eq!(a.add(U8w::cast_from_u128(10)), U8w::cast_from_u128(4));
    let b = I8s::cast_from_i128(100);
    assert_eq!(b.add(I8s::cast_from_i128(100)), I8s::cast_from_i128(127));
    assert_eq!(I8s::cast_from_i128(-100).sub(I8s::cast_from_i128(100)), I8s::cast_from_i128(-128));
    let c = I12::cast_from_i128(2047);
    assert_eq!(c.overflowing_add(I12::one()), (I12::cast_from_i128(-2048), true));
    assert_eq!(I12::cast_from_i128(4095), I12::cast_from_i128(-1));
}

#[test]
fn multiplication_and_division() {
    assert_eq!(u256(12345).checked_mul(u256(678)), Some(u256(12345 * 678)));
    assert_eq!(U256::max_value().checked_mul(u256(2)), None);
    assert_eq!(U256::max_value().wrapping_mul(u256(2)), U256::max_value().wrapping_sub(U256::one()));
    assert_eq!(i256(-6).wrapping_mul(i256(7)), i256(-42));
    assert_eq!(I256::min_value().saturating_mul(i256(-1)), I256::max_value());

    assert_eq!(i256(-7).wrapping_div(i256(2)), i256(-3));
    assert_eq!(i256(-7).wrapping_rem(i256(2)), i256(-1));
    assert_eq!(i256(-7).wrapping_div_euclid(i256(2)), i256(-4));
    assert_eq!(i256(-7).wrapping_rem_euclid(i256(2)), i256(1));
    assert_eq!(i256(7).wrapping_div_euclid(i256(-2)), i256(-3));
    assert_eq!(i256(7).wrapping_rem_euclid(i256(-2)), i256(1));
    assert_eq!(I256::min_value().checked_div(i256(-1)), None);
    assert_eq!(I256::min_value().overflowing_div(i256(-1)), (I256::min_value(), true));
    assert_eq!(u256(100).checked_div(U256::zero()), None);
    assert_eq!(i256(-7).div_floor(i256(2)), i256(-4));
    assert_eq!(i256(-7).div_ceil(i256(2)), i256(-3));
    assert_eq!(u256(7).div_ceil(u256(2)), u256(4));
    assert_eq!(u256(16).next_multiple_of(u256(8)), u256(16));
    assert_eq!(u256(17).next_multiple_of(u256(8)), u256(24));
}

#[test]
fn powers_and_roots() {
    assert_eq!(u256(3).checked_pow(5), Some(u256(243)));
    assert_eq!(u256(2).checked_pow(256), None);
    assert_eq!(u256(2).wrapping_pow(256), U256::zero());
    assert_eq!(i256(-2).pow(3), i256(-8));
    assert_eq!(u256(2).pow(255).overflowing_mul(u256(2)), (U256::zero(), true));
    assert_eq!(u256(99).isqrt(), u256(9));
    assert_eq!(u256(100).isqrt(), u256(10));
    assert_eq!(U256::power_of_two(100), u256(1).shl(100));
    assert!(u256(64).is_power_of_two());
    assert!(!u256(65).is_power_of_two());
    assert_eq!(u256(65).next_power_of_two(), u256(128));
    assert_eq!(u256(64).next_power_of_two(), u256(64));
    assert_eq!(U256::max_value().checked_next_power_of_two(), None);
}

#[test]
fn logarithms() {
    assert_eq!(u256(1000).ilog10(), 3);
    assert_eq!(u256(999).ilog10(), 2);
    assert_eq!(u256(1024).ilog2(), 10);
    assert_eq!(u256(1023).ilog2(), 9);
    assert_eq!(u256(80).ilog(u256(3)), 3);
    assert_eq!(U256::zero().checked_ilog2(), None);
    assert_eq!(i256(-5).checked_ilog10(), None);
}

#[test]
fn signs_and_midpoint() {
    assert_eq!(i256(-5).abs(), i256(5));
    assert_eq!(I256::min_value().checked_abs(), None);
    assert_eq!(i256(-5).signum(), i256(-1));
    assert_eq!(i256(0).signum(), i256(0));
    assert_eq!(i256(9).signum(), i256(1));
    assert_eq!(i256(-5).abs_diff(i256(7)), u256(12));
    assert_eq!(i256(-1).cast_unsigned(), U256::max_value());
    assert_eq!(U256::max_value().cast_signed(), i256(-1));
    assert_eq!(u256(3).midpoint(u256(8)), u256(5));
    assert_eq!(i256(-3).midpoint(i256(8)), i256(2));
    assert_eq!(u256(5).checked_add_signed(i256(-6)), None);
    assert_eq!(u256(5).checked_add_signed(i256(-5)), Some(U256::zero()));
    assert_eq!(i256(5).checked_sub_unsigned(u256(10)), Some(i256(-5)));
    assert_eq!(u256(3).checked_signed_diff(u256(10)), Some(i256(-7)));
}

#[test]
fn comparisons() {
    assert!(i256(-3).lt(&i256(2)));
    assert!(u256(3).ge(&u256(3)));
    assert_eq!(i256(-3).max(i256(2)), i256(2));
    assert_eq!(i256(-3).min(i256(2)), i256(-3));
    assert_eq!(i256(50).clamp(i256(0), i256(10)), i256(10));
    assert_eq!(i256(-3).cmp(&i256(2)), core::cmp::Ordering::Less);
}

#[test]
fn carrying_and_borrowing_examples() {
    let one = U1024::one();
    assert_eq!(one.carrying_add(one, true), (U1024::cast_from_u128(3), false));
    assert_eq!(U1024::max_value().carrying_add(one, false), (U1024::zero(), true));
    assert_eq!(U1024::max_value().carrying_add(U1024::max_value(), true), (U1024::max_value(), true));
    let ione = I1024::one();
    assert_eq!(I1024::max_value().carrying_add(I1024::zero(), true), (I1024::min_value(), true));
    assert_eq!(I1024::max_value().carrying_add(I1024::max_value(), true), (I1024::cast_from_i128(-1), true));
    assert_eq!(I1024::min_value().carrying_add(I1024::min_value(), true), (ione, true));

    let two = U512::cast_from_u128(2);
    assert_eq!(two.borrowing_sub(U512::one(), true), (U512::zero(), false));
    assert_eq!(U512::zero().borrowing_sub(U512::one(), false), (U512::max_value(), true));
    assert_eq!(U512::max_value().borrowing_sub(U512::max_value(), true), (U512::max_value(), true));
    assert_eq!(I512::one().borrowing_sub(I512::one(), true), (I512::cast_from_i128(-1), false));
    assert_eq!(I512::min_value().borrowing_sub(I512::one(), false), (I512::max_value(), true));
    assert_eq!(I512::zero().borrowing_sub(I512::min_value(), true), (I512::max_value(), false));
}

#[test]
fn widening_and_carrying_mul_examples() {
    assert_eq!(u256(7).widening_mul(u256(3)), (u256(21), U256::zero()));
    assert_eq!(u256(2).pow(255).widening_mul(u256(2).pow(100)), (U256::zero(), u256(2).pow(99)));
    assert_eq!(i256(-5).widening_mul(i256(8)), (i256(-40).cast_unsigned(), i256(-1)));
    assert_eq!(I256::min_value().widening_mul(i256(2)), (U256::zero(), i256(-1)));

    let u = |v: u128| U2048::cast_from_u128(v);
    let i = |v: i128| I2048::cast_from_i128(v);
    assert_eq!(u(7).carrying_mul(u(3), u(5)), (u(26), u(0)));
    assert_eq!(U2048::max_value().carrying_mul(U2048::max_value(), U2048::max_value()), (u(0), U2048::max_value()));
    assert_eq!(i(-5).carrying_mul(i(8), i(-6)), (i(-46).cast_unsigned(), i(-1)));
    assert_eq!(I2048::min_value().carrying_mul(i(2), i(3)), (u(3), i(-1)));
    assert_eq!(u(7).carrying_mul_add(u(3), u(5), u(12)), (u(38), u(0)));
    assert_eq!(
        U2048::max_value().carrying_mul_add(U2048::max_value(), U2048::max_value(), U2048::max_value()),
        (U2048::max_value(), U2048::max_value())
    );
    assert_eq!(i(-5).carrying_mul_add(i(8), i(-6), i(-11)), (i(-57).cast_unsigned(), i(-1)));
    assert_eq!(I2048::min_value().carrying_mul_add(i(2), i(3), i(-2)), (u(1), i(-1)));
}

#[test]
fn rounded_division_and_euclidean_remainder_docs() {
    assert_eq!(U512::cast_from_u128(37).div_ceil(U512::cast_from_u128(8)), U512::cast_from_u128(5));
    assert_eq!(I512::cast_from_i128(-37).div_ceil(I512::cast_from_i128(8)), I512::cast_from_i128(-4));
    assert_eq!(U1024::cast_from_u128(37).rem_euclid(U1024::cast_from_u128(8)), U1024::cast_from_u128(5));
    assert_eq!(I1024::cast_from_i128(-37).rem_euclid(I1024::cast_from_i128(-8)), I1024::cast_from_i128(3));
    // in the wrapping and saturating modes too, the quotient of a Euclidean remainder must fit
    assert_eq!(I8s::cast_from_i128(-128).checked_rem_euclid(I8s::cast_from_i128(-1)), None);
    assert_eq!(I8s::cast_from_i128(-7).rem_euclid(I8s::cast_from_i128(2)), I8s::cast_from_i128(1));
}
