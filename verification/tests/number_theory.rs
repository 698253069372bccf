use bnum::integer::Integer;
use bnum::types::{I256, U256};

type I8w = Integer<true, 1, 0, 0>;
type I8p = Integer<true, 1, 0, 1>;

fn u256(v: u128) -> U256 {
    U256::cast_from_u128(v)
}

fn i256(v: i128) -> I256 {
    I256::cast_from_i128(v)
}

#[test]
fn gcd_examples() {
    assert_eq!(u256(12).gcd(&u256(18)), u256(6));
    assert_eq!(u256(17).gcd(&u256(5)), u256(1));
    assert_eq!(u256(0).gcd(&u256(9)), u256(9));
    assert_eq!(u256(0).gcd(&u256(0)), u256(0));
    assert_eq!(i256(-12).gcd(&i256(18)), i256(6));
    assert_eq!(I8w::min_value().gcd(&I8w::zero()), I8w::min_value());
    assert_eq!(I8w::min_value().gcd(&I8w::cast_from_i128(-64)), I8w::cast_from_i128(64));
}

#[test]
fn lcm_examples() {
    assert_eq!(u256(4).lcm(&u256(6)), u256(12));
    assert_eq!(u256(7).lcm(&u256(5)), u256(35));
    assert_eq!(u256(0).lcm(&u256(9)), u256(0));
    assert_eq!(u256(9).lcm(&u256(0)), u256(0));
    assert_eq!(i256(-4).lcm(&i256(6)), i256(12));
    assert_eq!(i256(-4).lcm(&i256(-6)), i256(12));
    // lcm(100, 3) = 300 wraps to 44 in an 8-bit wrapping type
    assert_eq!(I8w::cast_from_i128(100).lcm(&I8w::cast_from_i128(3)), I8w::cast_from_i128(44));
}

#[test]
fn nth_root_examples() {
    assert_eq!(u256(1000).nth_root(3), u256(10));
    assert_eq!(u256(999).nth_root(3), u256(9));
    assert_eq!(u256(2).pow(200).nth_root(4), u256(2).pow(50));
    assert_eq!(i256(-27).nth_root(3), i256(-3));
    assert_eq!(i256(-30).nth_root(3), i256(-3));
    assert_eq!(u256(99).nth_root(2), u256(9));
    assert_eq!(u256(99).nth_root(1), u256(99));
    assert_eq!(U256::max_value().nth_root(256), u256(1));
    assert_eq!(I8p::min_value().nth_root(7), I8p::cast_from_i128(-2));
}

#[test]
fn floored_remainders() {
    assert_eq!(i256(-7).mod_floor(&i256(3)), i256(2));
    assert_eq!(i256(7).mod_floor(&i256(-3)), i256(-2));
    assert_eq!(i256(-6).mod_floor(&i256(3)), i256(0));
    assert_eq!(i256(7).div_rem(&i256(-3)), (i256(-2), i256(1)));
    assert!(i256(12).is_multiple_of(&i256(-4)));
    assert!(!i256(12).is_multiple_of(&i256(5)));
    assert!(i256(0).is_multiple_of(&i256(0)));
    assert!(!i256(3).is_multiple_of(&i256(0)));
    assert_eq!(i256(5).abs_sub(&i256(3)), i256(2));
    assert_eq!(i256(3).abs_sub(&i256(5)), i256(0));
}

#[test]
fn unchecked_arithmetic() {
    assert_eq!(u256(5).unchecked_add(u256(6)), u256(11));
    assert_eq!(u256(6).unchecked_sub(u256(5)), u256(1));
    assert_eq!(u256(6).unchecked_mul(u256(5)), u256(30));
    assert_eq!(u256(1).unchecked_shl(200), u256(2).pow(200));
    assert_eq!(u256(2).pow(200).unchecked_shr(199), u256(2));
    assert_eq!(i256(5).unchecked_neg(), i256(-5));
}

#[test]
fn lcm_divides_every_common_multiple() {
    for a in 1..=12u128 {
        for b in 1..=12u128 {
            let l = u256(a).lcm(&u256(b));
            assert!(u256(a).gcd(&u256(b)).mul(l) == u256(a * b));
            for c in 1..=150u128 {
                if c % a == 0 && c % b == 0 {
                    assert!(u256(c).is_multiple_of(&l));
                }
            }
        }
    }
    assert_eq!(i256(-6).lcm(&i256(10)), i256(30));
    assert!(i256(-90).is_multiple_of(&i256(-6).lcm(&i256(10))));
}
