//! The mathematical meaning of a fixed-width integer: its range, how an
//! out-of-range result wraps or saturates, and how a byte pattern decodes.
use crate::digits::radix_pow;
use vstd::arithmetic::div_mod::*;
use vstd::arithmetic::mul::*;
use vstd::arithmetic::power2::*;
use vstd::prelude::*;

verus! {

/// Smallest value of a `bits`-wide integer.
pub open spec fn min_of(signed: bool, bits: nat) -> int {
    if signed {
        -(pow2((bits - 1) as nat) as int)
    } else {
        0
    }
}

/// Largest value of a `bits`-wide integer.
pub open spec fn max_of(signed: bool, bits: nat) -> int {
    if signed {
        pow2((bits - 1) as nat) - 1
    } else {
        pow2(bits) - 1
    }
}

/// Whether `v` is representable in `bits` bits.
pub open spec fn fits(v: int, signed: bool, bits: nat) -> bool {
    min_of(signed, bits) <= v <= max_of(signed, bits)
}

/// The representable value congruent to `v` modulo `2^bits` (two's complement wrap-around).
pub open spec fn wrap(v: int, signed: bool, bits: nat) -> int {
    let m = v % (pow2(bits) as int);
    if signed && m >= pow2((bits - 1) as nat) {
        m - pow2(bits)
    } else {
        m
    }
}

/// `v` clamped into the representable range.
pub open spec fn saturate(v: int, signed: bool, bits: nat) -> int {
    if v < min_of(signed, bits) {
        min_of(signed, bits)
    } else if v > max_of(signed, bits) {
        max_of(signed, bits)
    } else {
        v
    }
}

/// The value of an `n`-byte pattern whose unsigned reading is `u`.
pub open spec fn decode(u: nat, signed: bool, n: nat) -> int {
    if signed && u >= pow2((8 * n - 1) as nat) {
        u - radix_pow(n)
    } else {
        u as int
    }
}

pub proof fn lemma_pow2_half(bits: nat)
    requires
        bits >= 1,
    ensures
        pow2(bits) == 2 * pow2((bits - 1) as nat),
        pow2((bits - 1) as nat) > 0,
{
    lemma_pow2_unfold(bits);
    lemma_pow2_pos((bits - 1) as nat);
}

/// The range of a `bits`-wide integer is nonempty and `2^bits` long.
pub proof fn lemma_range_facts(signed: bool, bits: nat)
    requires
        bits >= 1,
    ensures
        max_of(signed, bits) - min_of(signed, bits) + 1 == pow2(bits),
        min_of(signed, bits) <= 0 < max_of(signed, bits) + 1,
        signed ==> min_of(signed, bits) < 0,
{
    lemma_pow2_half(bits);
}

/// Wrapping lands in range, is congruent to the input, and leaves representable values alone.
pub proof fn lemma_wrap(v: int, signed: bool, bits: nat)
    requires
        bits >= 1,
    ensures
        fits(wrap(v, signed, bits), signed, bits),
        wrap(v, signed, bits) % (pow2(bits) as int) == v % (pow2(bits) as int),
        fits(v, signed, bits) ==> wrap(v, signed, bits) == v,
{
    lemma_pow2_half(bits);
    let p = pow2(bits) as int;
    let h = pow2((bits - 1) as nat) as int;
    let m = v % p;
    lemma_mod_bound(v, p);
    lemma_mod_twice(v, p);
    if signed && m >= h {
        lemma_mod_sub_multiples_vanish(m, p);
    }
    if fits(v, signed, bits) {
        if v >= 0 {
            lemma_small_mod(v as nat, p as nat);
        } else {
            lemma_mod_add_multiples_vanish(v, p);
            lemma_small_mod((v + p) as nat, p as nat);
        }
    }
}

/// Congruent values wrap to the same value.
pub proof fn lemma_wrap_congruent(a: int, b: int, signed: bool, bits: nat)
    requires
        bits >= 1,
        a % (pow2(bits) as int) == b % (pow2(bits) as int),
    ensures
        wrap(a, signed, bits) == wrap(b, signed, bits),
{
}

/// Wrapping only depends on the value modulo any larger power of two.
pub proof fn lemma_wrap_mod_wider(v: int, signed: bool, bits: nat, wide: nat)
    requires
        1 <= bits <= wide,
    ensures
        wrap(v % (pow2(wide) as int), signed, bits) == wrap(v, signed, bits),
{
    lemma_pow2_adds(bits, (wide - bits) as nat);
    lemma_pow2_pos(bits);
    lemma_pow2_pos((wide - bits) as nat);
    assert((wide - bits) as nat + bits == wide);
    lemma_mod_mod(v, pow2(bits) as int, pow2((wide - bits) as nat) as int);
}

/// Representable values of a narrower type are representable in a wider one.
pub proof fn lemma_fits_wider(v: int, signed: bool, bits: nat, wide: nat)
    requires
        1 <= bits <= wide,
        fits(v, signed, bits),
    ensures
        fits(v, signed, wide),
{
    if bits < wide {
        lemma_pow2_strictly_increases(bits, wide);
        lemma_pow2_strictly_increases((bits - 1) as nat, (wide - 1) as nat);
    }
}

/// Decoding the low `8n` bits of a representable value gives the value back.
pub proof fn lemma_decode_encode(v: int, signed: bool, n: nat)
    requires
        n >= 1,
        fits(v, signed, 8 * n),
    ensures
        decode((v % (radix_pow(n) as int)) as nat, signed, n) == v,
        v % (radix_pow(n) as int) >= 0,
{
    lemma_wrap(v, signed, 8 * n);
    lemma_pow2_half(8 * n);
    let r = radix_pow(n) as int;
    lemma_mod_bound(v, r);
    if v >= 0 {
        lemma_small_mod(v as nat, r as nat);
    } else {
        lemma_mod_add_multiples_vanish(v, r);
        lemma_small_mod((v + r) as nat, r as nat);
    }
}

/// A decoded byte pattern is representable, and its low bytes are the pattern itself.
pub proof fn lemma_decode_fits(u: nat, signed: bool, n: nat)
    requires
        n >= 1,
        u < radix_pow(n),
    ensures
        fits(decode(u, signed, n), signed, 8 * n),
        decode(u, signed, n) % (radix_pow(n) as int) == u,
{
    lemma_pow2_half(8 * n);
    let r = radix_pow(n) as int;
    lemma_small_mod(u, r as nat);
    if signed && u >= pow2((8 * n - 1) as nat) {
        lemma_mod_sub_multiples_vanish(u as int, r);
    }
}


/// Two representable values that agree modulo `2^bits` are equal.
pub proof fn lemma_fits_unique(x: int, y: int, signed: bool, bits: nat)
    requires
        bits >= 1,
        fits(x, signed, bits),
        fits(y, signed, bits),
        x % (pow2(bits) as int) == y % (pow2(bits) as int),
    ensures
        x == y,
{
    lemma_range_facts(signed, bits);
    let p = pow2(bits) as int;
    lemma_mod_equivalence(x, y, p);
    lemma_fundamental_div_mod(x - y, p);
    let q = (x - y) / p;
    assert(q == 0) by (nonlinear_arith)
        requires
            x - y == p * q,
            -p < x - y < p,
            p > 0,
    ;
    lemma_mul_basics(p);
}

/// Wrapping a value at most one range-width outside the range shifts it by one range-width.
pub proof fn lemma_wrap_small(t: int, signed: bool, bits: nat)
    requires
        bits >= 1,
        min_of(signed, bits) - pow2(bits) <= t <= max_of(signed, bits) + pow2(bits),
    ensures
        wrap(t, signed, bits) == (if t < min_of(signed, bits) {
            t + pow2(bits)
        } else if t > max_of(signed, bits) {
            t - pow2(bits)
        } else {
            t
        }),
{
    lemma_range_facts(signed, bits);
    lemma_wrap(t, signed, bits);
    let p = pow2(bits) as int;
    let c = if t < min_of(signed, bits) {
        t + p
    } else if t > max_of(signed, bits) {
        t - p
    } else {
        t
    };
    if t < min_of(signed, bits) {
        lemma_mod_add_multiples_vanish(t, p);
    } else if t > max_of(signed, bits) {
        lemma_mod_sub_multiples_vanish(t, p);
    }
    lemma_fits_unique(wrap(t, signed, bits), c, signed, bits);
}

/// Modular arithmetic on the stored bytes: a carry-out does not change the residue.
pub proof fn lemma_mod_of_carry(out: int, c: int, r: int, t: int)
    requires
        r > 0,
        0 <= out < r,
        out + c * r == t,
    ensures
        out == t % r,
{
    lemma_fundamental_div_mod_converse_mod(t, r, c, out);
}


pub open spec fn abs_of(v: int) -> int {
    if v < 0 {
        -v
    } else {
        v
    }
}

/// Quotient rounded towards zero (Rust's `/` on integers); `b` must be nonzero.
pub open spec fn div_trunc(a: int, b: int) -> int {
    let q = abs_of(a) / abs_of(b);
    if (a < 0) == (b < 0) {
        q
    } else {
        -q
    }
}

/// Remainder of the quotient rounded towards zero (Rust's `%`): has the sign of `a`.
pub open spec fn rem_trunc(a: int, b: int) -> int {
    let r = abs_of(a) % abs_of(b);
    if a < 0 {
        -r
    } else {
        r
    }
}

/// Euclidean quotient (Rust's `div_euclid`): the remainder it leaves is in `[0, |b|)`.
pub open spec fn div_euclid(a: int, b: int) -> int {
    if b < 0 {
        -(a / abs_of(b))
    } else {
        a / b
    }
}

/// Euclidean remainder (Rust's `rem_euclid`): always in `[0, |b|)`.
pub open spec fn rem_euclid(a: int, b: int) -> int {
    a % abs_of(b)
}

/// Truncating division and its remainder reassemble the dividend, and the remainder is
/// smaller than the divisor in magnitude.
pub proof fn lemma_trunc_division(a: int, b: int)
    requires
        b != 0,
    ensures
        a == b * div_trunc(a, b) + rem_trunc(a, b),
        abs_of(rem_trunc(a, b)) < abs_of(b),
        rem_trunc(a, b) == 0 || (rem_trunc(a, b) < 0) == (a < 0),
        abs_of(div_trunc(a, b)) <= abs_of(a),
{
    let q = abs_of(a) / abs_of(b);
    let r = abs_of(a) % abs_of(b);
    lemma_fundamental_div_mod(abs_of(a), abs_of(b));
    lemma_mod_bound(abs_of(a), abs_of(b));
    lemma_div_pos_is_pos(abs_of(a), abs_of(b));
    assert(a == b * div_trunc(a, b) + rem_trunc(a, b)) by (nonlinear_arith)
        requires
            abs_of(a) == abs_of(b) * q + r,
            abs_of(a) == (if a < 0 { -a } else { a }),
            abs_of(b) == (if b < 0 { -b } else { b }),
            div_trunc(a, b) == (if (a < 0) == (b < 0) { q } else { -q }),
            rem_trunc(a, b) == (if a < 0 { -r } else { r }),
    ;
    assert(q <= abs_of(a)) by (nonlinear_arith)
        requires
            abs_of(a) == abs_of(b) * q + r,
            abs_of(b) >= 1,
            q >= 0,
            r >= 0,
    ;
}

/// Euclidean division and its remainder reassemble the dividend.
pub proof fn lemma_euclid_division(a: int, b: int)
    requires
        b != 0,
    ensures
        a == b * div_euclid(a, b) + rem_euclid(a, b),
        0 <= rem_euclid(a, b) < abs_of(b),
{
    lemma_fundamental_div_mod(a, abs_of(b));
    lemma_mod_bound(a, abs_of(b));
    assert(a == b * div_euclid(a, b) + rem_euclid(a, b)) by (nonlinear_arith)
        requires
            a == abs_of(b) * (a / abs_of(b)) + a % abs_of(b),
            abs_of(b) == (if b < 0 { -b } else { b }),
            div_euclid(a, b) == (if b < 0 { -(a / abs_of(b)) } else { a / b }),
            b > 0 ==> abs_of(b) == b,
            rem_euclid(a, b) == a % abs_of(b),
    ;
}


/// Rounding down: `floor(a / d) == -1 - floor((-1 - a) / d)`.
pub proof fn lemma_floor_div_complement(a: int, d: int)
    requires
        d > 0,
    ensures
        a / d == -1 - (-1 - a) / d,
{
    lemma_fundamental_div_mod(a, d);
    lemma_fundamental_div_mod(-1 - a, d);
    lemma_mod_bound(a, d);
    lemma_mod_bound(-1 - a, d);
    let q1 = a / d;
    let q2 = (-1 - a) / d;
    assert(q1 + q2 == -1) by (nonlinear_arith)
        requires
            a == d * q1 + a % d,
            -1 - a == d * q2 + (-1 - a) % d,
            0 <= a % d < d,
            0 <= (-1 - a) % d < d,
    ;
}


/// Quotient rounded down (towards negative infinity); `b` must be nonzero.
pub open spec fn div_floor(a: int, b: int) -> int {
    if b > 0 {
        a / b
    } else {
        (-a) / (-b)
    }
}

/// Quotient rounded up (towards positive infinity); `b` must be nonzero.
pub open spec fn div_ceil(a: int, b: int) -> int {
    -div_floor(-a, b)
}

/// The multiple of `b` nearest to `a` in the direction of `b`'s sign: the least multiple
/// `>= a` when `b > 0`, the greatest multiple `<= a` when `b < 0`.
pub open spec fn next_multiple(a: int, b: int) -> int {
    let r = rem_euclid(a, b);
    if r == 0 {
        a
    } else if b > 0 {
        a + (b - r)
    } else {
        a - r
    }
}

/// The exponent of the least power of two that is at least `v`.
pub open spec fn next_pow2_exp(v: int) -> nat {
    if v <= 1 {
        0
    } else {
        (vstd::arithmetic::logarithm::log(2, v - 1) + 1) as nat
    }
}

/// Rounding down versus rounding towards zero.
pub proof fn lemma_floor_trunc(a: int, b: int)
    requires
        b != 0,
    ensures
        div_floor(a, b) == (if (a < 0) != (b < 0) && rem_trunc(a, b) != 0 {
            div_trunc(a, b) - 1
        } else {
            div_trunc(a, b)
        }),
        div_ceil(a, b) == (if (a < 0) == (b < 0) && rem_trunc(a, b) != 0 {
            div_trunc(a, b) + 1
        } else {
            div_trunc(a, b)
        }),
{
    lemma_trunc_division(a, b);
    lemma_trunc_division(-a, b);
    let q = div_trunc(a, b);
    let r = rem_trunc(a, b);
    // floor: the q' with b*q' + r' == a and r' between 0 and b (sign of b)
    let fq = if (a < 0) != (b < 0) && r != 0 { q - 1 } else { q };
    let fr = a - b * fq;
    if b > 0 {
        assert(0 <= fr < b) by (nonlinear_arith)
            requires
                a == b * q + r,
                abs_of(r) < abs_of(b),
                r == 0 || (r < 0) == (a < 0),
                fq == (if (a < 0) != (b < 0) && r != 0 { q - 1 } else { q }),
                fr == a - b * fq,
                b > 0,
                abs_of(r) == (if r < 0 { -r } else { r }),
                abs_of(b) == b,
        ;
        lemma_mul_is_commutative(b, fq);
        lemma_fundamental_div_mod_converse_div(a, b, fq, fr);
    } else {
        assert(0 <= -fr < -b) by (nonlinear_arith)
            requires
                a == b * q + r,
                abs_of(r) < abs_of(b),
                r == 0 || (r < 0) == (a < 0),
                fq == (if (a < 0) != (b < 0) && r != 0 { q - 1 } else { q }),
                fr == a - b * fq,
                b < 0,
                abs_of(r) == (if r < 0 { -r } else { r }),
                abs_of(b) == -b,
        ;
        assert(-a == (-b) * fq + (-fr)) by (nonlinear_arith)
            requires
                fr == a - b * fq,
        ;
        lemma_mul_is_commutative(-b, fq);
        lemma_fundamental_div_mod_converse_div(-a, -b, fq, -fr);
    }
    // ceiling: -floor(-a / b)
    let q2 = div_trunc(-a, b);
    let r2 = rem_trunc(-a, b);
    assert(q2 == -q && r2 == -r) by {
        assert(abs_of(-a) == abs_of(a));
    }
    let fq2 = if (-a < 0) != (b < 0) && r2 != 0 { q2 - 1 } else { q2 };
    let fr2 = -a - b * fq2;
    if b > 0 {
        assert(0 <= fr2 < b) by (nonlinear_arith)
            requires
                -a == b * q2 + r2,
                abs_of(r2) < abs_of(b),
                r2 == 0 || (r2 < 0) == (-a < 0),
                fq2 == (if (-a < 0) != (b < 0) && r2 != 0 { q2 - 1 } else { q2 }),
                fr2 == -a - b * fq2,
                b > 0,
                abs_of(r2) == (if r2 < 0 { -r2 } else { r2 }),
                abs_of(b) == b,
        ;
        lemma_mul_is_commutative(b, fq2);
        lemma_fundamental_div_mod_converse_div(-a, b, fq2, fr2);
    } else {
        assert(0 <= -fr2 < -b) by (nonlinear_arith)
            requires
                -a == b * q2 + r2,
                abs_of(r2) < abs_of(b),
                r2 == 0 || (r2 < 0) == (-a < 0),
                fq2 == (if (-a < 0) != (b < 0) && r2 != 0 { q2 - 1 } else { q2 }),
                fr2 == -a - b * fq2,
                b < 0,
                abs_of(r2) == (if r2 < 0 { -r2 } else { r2 }),
                abs_of(b) == -b,
        ;
        assert(a == (-b) * fq2 + (-fr2)) by (nonlinear_arith)
            requires
                fr2 == -a - b * fq2,
        ;
        lemma_mul_is_commutative(-b, fq2);
        lemma_fundamental_div_mod_converse_div(a, -b, fq2, -fr2);
    }
}

} // verus!
