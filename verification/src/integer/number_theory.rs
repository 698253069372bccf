//! Greatest common divisors, roots, floored remainders and arithmetic that the caller
//! guarantees not to overflow.
use super::{Integer, Int, Uint};
use super::mul::abs_int;
use crate::model::{div_trunc, rem_trunc, div_floor, lemma_range_facts, lemma_pow2_half, lemma_wrap};
use vstd::arithmetic::div_mod::*;
use vstd::arithmetic::mul::*;
use vstd::arithmetic::power::*;
use vstd::arithmetic::power2::*;
use vstd::prelude::*;

verus! {

/// The greatest common divisor of two natural numbers (Euclid's algorithm); `gcd(0, 0)` is 0.
pub open spec fn gcd_nat(a: nat, b: nat) -> nat
    decreases b,
{
    if b == 0 {
        a
    } else {
        gcd_nat(b, a % b)
    }
}

/// The largest `r` with `r^n <= a`, for `n >= 1`.
pub open spec fn is_nth_root(r: int, a: int, n: nat) -> bool {
    &&& r >= 0
    &&& pow(r, n) <= a
    &&& a < pow(r + 1, n)
}

impl<const N: usize, const B: usize, const OM: u8> Uint<N, B, OM> {
    /// The greatest common divisor of two unsigned values, by Euclid's algorithm.
    fn gcd_unsigned(self, other: Self) -> (r: Self)
        ensures
            r@ == gcd_nat(self@ as nat, other@ as nat),
    {
        proof {
            use_type_invariant(&self);
            use_type_invariant(&other);
        }
        let mut a = self;
        let mut b = other;
        while !b.is_zero()
            invariant
                a@ >= 0,
                b@ >= 0,
                gcd_nat(a@ as nat, b@ as nat) == gcd_nat(self@ as nat, other@ as nat),
            decreases b@,
        {
            proof {
                use_type_invariant(&a);
                use_type_invariant(&b);
            }
            let r = a.wrapping_rem(b);
            proof {
                lemma_mod_bound(a@, b@);
                assert(rem_trunc(a@, b@) == a@ % b@);
            }
            a = b;
            b = r;
        }
        a
    }

    /// The largest `r` with `r^n <= self`, for `n >= 2`, found bit by bit from the top.
    fn nth_root_unsigned(self, n: u32) -> (r: Self)
        requires
            n >= 2,
        ensures
            is_nth_root(r@, self@, n as nat),
    {
        proof {
            use_type_invariant(&self);
            lemma_range_facts(false, Self::spec_bits());
        }
        let bits = Self::bits_u32();
        let top: u32 = bits - 1;
        let mut r = Self::zero();
        let mut k: u32 = top;
        proof {
            // (2^top)^n >= 2^bits > self
            lemma_pow2(top as nat);
            lemma_pow_multiplies(2, top as nat, n as nat);
            lemma_pow2((top * n) as nat);
            assert(top * n >= bits) by (nonlinear_arith)
                requires
                    n >= 2,
                    top + 1 == bits,
                    bits >= 2,
            ;
            if (top * n) as nat > bits as nat {
                lemma_pow2_strictly_increases(bits as nat, (top * n) as nat);
            }
            lemma_pow0(0);
            lemma0_pow(n as nat);
        }
        while k > 0
            invariant
                k <= top,
                top + 1 == bits,
                bits == Self::spec_bits(),
                Self::valid_params(),
                n >= 2,
                0 <= r@,
                r@ + pow2(k as nat) <= pow2(top as nat),
                pow(r@, n as nat) <= self@,
                self@ < pow(r@ + pow2(k as nat), n as nat),
            decreases k,
        {
            k = k - 1;
            proof {
                lemma_pow2_unfold((k + 1) as nat);
                lemma_pow2_pos(k as nat);
                lemma_pow2_strictly_increases(top as nat, bits as nat);
            }
            let p = Self::power_of_two(k);
            let c = r.strict_add(p);
            let take = match c.checked_pow(n) {
                Some(cn) => cn.le(&self),
                None => {
                    proof {
                        use_type_invariant(&self);
                        lemma_pow_nonnegative(c@, n as nat);
                    }
                    false
                },
            };
            if take {
                proof {
                    assert(c@ + pow2(k as nat) == r@ + pow2((k + 1) as nat));
                }
                r = c;
            }
        }
        proof {
            lemma_pow2(0);
            lemma_pow0(2);
        }
        r
    }
}

impl<const S: bool, const N: usize, const B: usize, const OM: u8> Integer<S, N, B, OM> {
    /// The greatest common divisor of the magnitudes, wrapped into the type (for a signed type
    /// `2^(BITS - 1)` becomes the minimum); `0` when both are zero.
    pub fn gcd(&self, other: &Self) -> (r: Self)
        ensures
            r@ == Self::wrap_spec(gcd_nat(abs_int(self@) as nat, abs_int(other@) as nat) as int),
    {
        let g = self.unsigned_abs_internal().gcd_unsigned(other.unsigned_abs_internal());
        g.force_sign::<S>()
    }

    /// `a` divided (rounding towards zero) by the gcd of `a` and `b` as the type holds it, times
    /// `b`: the product that the least common multiple is taken from.
    pub open spec fn lcm_product(a: int, b: int) -> int {
        div_trunc(a, Self::wrap_spec(gcd_nat(abs_int(a) as nat, abs_int(b) as nat) as int)) * b
    }

    /// The least common multiple as the type computes it: `0` when either is zero; otherwise
    /// `lcm_product` under the overflow mode, and for a signed type the magnitude of that, under
    /// the mode again.
    pub open spec fn lcm_spec(a: int, b: int) -> int {
        if a == 0 || b == 0 {
            0
        } else {
            let p = Self::by_mode(Self::lcm_product(a, b));
            if S {
                Self::by_mode(abs_int(p))
            } else {
                p
            }
        }
    }

    /// The least common multiple of `self` and `other`: `0` if either is zero, otherwise
    /// `(self / gcd) * other` under the overflow mode, made nonnegative for a signed type. Under
    /// the panicking mode the product (and, for a signed type, its magnitude) must fit.
    pub fn lcm(&self, other: &Self) -> (r: Self)
        requires
            OM == 1 && self@ != 0 && other@ != 0 ==> Self::fits_spec(Self::lcm_product(self@, other@)),
            OM == 1 && S && self@ != 0 && other@ != 0 ==> Self::fits_spec(
                abs_int(Self::lcm_product(self@, other@)),
            ),
        ensures
            r@ == Self::lcm_spec(self@, other@),
    {
        proof {
            use_type_invariant(self);
            use_type_invariant(other);
        }
        if self.is_zero() || other.is_zero() {
            return Self::zero();
        }
        let g = self.gcd(other);
        proof {
            self.lemma_gcd_divisor(*other);
        }
        let q = self.div(g);
        proof {
            lemma_wrap(div_trunc(self@, g@), S, Self::spec_bits());
            assert(q@ == div_trunc(self@, g@));
        }
        let p = q.mul(*other);
        if S {
            proof {
                use_type_invariant(&p);
                lemma_wrap(p@, true, Self::spec_bits());
            }
            let m = p.force_sign::<true>().abs();
            proof {
                use_type_invariant(&m);
                lemma_wrap(m@, S, Self::spec_bits());
            }
            m.force_sign::<S>()
        } else {
            p
        }
    }

    /// For nonzero `self` and `other`, the gcd as the type holds it is a nonzero divisor that
    /// leaves a representable quotient of `self`.
    proof fn lemma_gcd_divisor(self, other: Self)
        requires
            self.wf(),
            other.wf(),
            self@ != 0,
            other@ != 0,
        ensures
            Self::wrap_spec(gcd_nat(abs_int(self@) as nat, abs_int(other@) as nat) as int) != 0,
            Self::fits_spec(
                div_trunc(self@, Self::wrap_spec(gcd_nat(abs_int(self@) as nat, abs_int(other@) as nat) as int)),
            ),
    {
        let bits = Self::spec_bits();
        let a = self@;
        let ua = abs_int(a) as nat;
        let ub = abs_int(other@) as nat;
        let d = gcd_nat(ua, ub);
        lemma_range_facts(S, bits);
        lemma_pow2_half(bits);
        crate::laws::law_gcd_divides(ua, ub, 1);
        let x0 = ua as int;
        let d0 = d as int;
        lemma_fundamental_div_mod(x0, d0);
        lemma_div_pos_is_pos(x0, d0);
        assert(d0 <= x0) by (nonlinear_arith)
            requires
                x0 == d0 * (x0 / d0) + x0 % d0,
                x0 % d0 == 0,
                x0 > 0,
                d0 > 0,
                x0 / d0 >= 0,
        ;
        let h = pow2((bits - 1) as nat) as int;
        assert(ua <= if S { h } else { pow2(bits) - 1 });
        crate::model::lemma_wrap_small(d as int, S, bits);
        let g = Self::wrap_spec(d as int);
        assert(g != 0);
        crate::model::lemma_trunc_division(a, g);
        let q = div_trunc(a, g);
        lemma_div_pos_is_pos(crate::model::abs_of(a), crate::model::abs_of(g));
        assert(bits >= 2);
        lemma_pow2_strictly_increases(0, (bits - 1) as nat);
        lemma2_to64();
        if g > 0 {
            if a >= 0 {
                assert(0 <= q <= a);
            } else {
                assert(a <= q <= 0);
            }
        }
        if g < 0 {
            // only a signed type whose gcd is 2^(BITS - 1): |a| <= 2^(BITS - 1) = |g|
            let x = crate::model::abs_of(a);
            let y = crate::model::abs_of(g);
            lemma_fundamental_div_mod(x, y);
            lemma_mod_bound(x, y);
            assert(x / y <= 1) by (nonlinear_arith)
                requires
                    x == y * (x / y) + x % y,
                    0 <= x % y,
                    x <= y,
                    y > 0,
            ;
        }
    }

    /// The largest `r` with `r^n <= |self|`, with the sign of `self`. For `n == 2` the value
    /// must not be negative.
    pub fn nth_root(&self, n: u32) -> (r: Self)
        requires
            n >= 1,
            n == 2 ==> self@ >= 0,
        ensures
            is_nth_root(abs_int(r@), abs_int(self@), n as nat),
            self@ < 0 ==> r@ <= 0,
            self@ >= 0 ==> r@ >= 0,
    {
        proof {
            use_type_invariant(self);
            lemma_range_facts(S, Self::spec_bits());
            lemma_range_facts(false, Self::spec_bits());
            lemma_pow1(abs_int(self@));
            lemma_pow1(abs_int(self@) + 1);
        }
        if n == 1 {
            return *self;
        }
        if n == 2 {
            let r = self.isqrt();
            proof {
                reveal(pow);
                lemma_pow1(r@);
                lemma_pow1(r@ + 1);
                assert(pow(r@, 2) == r@ * r@);
                assert(pow(r@ + 1, 2) == (r@ + 1) * (r@ + 1));
            }
            return r;
        }
        let m = self.unsigned_abs_internal();
        let root = m.nth_root_unsigned(n);
        proof {
            use_type_invariant(&root);
            lemma_pow2_half(Self::spec_bits());
            self::lemma_root_small(root@, m@, n as nat, Self::spec_bits());
            lemma_wrap(root@, S, Self::spec_bits());
        }
        let out = root.force_sign::<S>();
        if self.is_negative_internal() {
            proof {
                lemma_wrap(-out@, S, Self::spec_bits());
            }
            out.wrapping_neg()
        } else {
            out
        }
    }

    /// `self` minus `rhs` times the quotient rounded down: the remainder with the sign of `rhs`.
    pub fn mod_floor(&self, rhs: &Self) -> (r: Self)
        requires
            rhs@ != 0,
            OM == 1 ==> Self::fits_spec(div_trunc(self@, rhs@)),
        ensures
            r@ == self@ - rhs@ * div_floor(self@, rhs@),
    {
        proof {
            use_type_invariant(self);
            use_type_invariant(rhs);
            crate::model::lemma_trunc_division(self@, rhs@);
            crate::model::lemma_floor_trunc(self@, rhs@);
            lemma_range_facts(S, Self::spec_bits());
        }
        let rem = self.rem(*rhs);
        proof {
            lemma_wrap(rem_trunc(self@, rhs@), S, Self::spec_bits());
        }
        if rem.is_zero() {
            return rem;
        }
        if rem.is_negative_internal() != rhs.is_negative_internal() {
            proof {
                lemma_wrap(rem@ + rhs@, S, Self::spec_bits());
                let q = div_trunc(self@, rhs@);
                assert(rhs@ * (q - 1) == rhs@ * q - rhs@) by (nonlinear_arith);
            }
            rem.wrapping_add(*rhs)
        } else {
            rem
        }
    }

    /// The truncated quotient and remainder.
    pub fn div_rem(&self, rhs: &Self) -> (r: (Self, Self))
        requires
            rhs@ != 0,
            Self::fits_spec(div_trunc(self@, rhs@)),
        ensures
            r.0@ == div_trunc(self@, rhs@),
            r.1@ == rem_trunc(self@, rhs@),
    {
        (self.strict_div(*rhs), self.strict_rem(*rhs))
    }

    /// Whether `self` is a multiple of `rhs` (only `0` is a multiple of `0`).
    pub fn is_multiple_of(&self, rhs: &Self) -> (r: bool)
        requires
            OM == 1 && rhs@ != 0 ==> Self::fits_spec(div_trunc(self@, rhs@)),
        ensures
            r == (if rhs@ == 0 { self@ == 0 } else { self@ % abs_int(rhs@) == 0 }),
    {
        if rhs.is_zero() {
            return self.is_zero();
        }
        proof {
            crate::model::lemma_trunc_division(self@, rhs@);
            lemma_rem_zero(self@, rhs@);
        }
        self.wrapping_rem(*rhs).is_zero()
    }

    /// `self + rhs`, which the caller guarantees to be in range.
    pub fn unchecked_add(self, rhs: Self) -> (r: Self)
        requires
            Self::fits_spec(self@ + rhs@),
        ensures
            r@ == self@ + rhs@,
    {
        self.strict_add(rhs)
    }

    /// `self - rhs`, which the caller guarantees to be in range.
    pub fn unchecked_sub(self, rhs: Self) -> (r: Self)
        requires
            Self::fits_spec(self@ - rhs@),
        ensures
            r@ == self@ - rhs@,
    {
        self.strict_sub(rhs)
    }

    /// `self * rhs`, which the caller guarantees to be in range.
    pub fn unchecked_mul(self, rhs: Self) -> (r: Self)
        requires
            Self::fits_spec(self@ * rhs@),
        ensures
            r@ == self@ * rhs@,
    {
        self.strict_mul(rhs)
    }

    /// `self << rhs` for a shift below `BITS`, which the caller guarantees.
    pub fn unchecked_shl(self, rhs: u32) -> (r: Self)
        requires
            rhs < Self::spec_bits(),
        ensures
            r@ == Self::wrap_spec(self@ * pow2(rhs as nat)),
    {
        self.strict_shl(rhs)
    }

    /// `self >> rhs` for a shift below `BITS`, which the caller guarantees.
    pub fn unchecked_shr(self, rhs: u32) -> (r: Self)
        requires
            rhs < Self::spec_bits(),
        ensures
            r@ == self@ / (pow2(rhs as nat) as int),
    {
        self.strict_shr(rhs)
    }
}

impl<const N: usize, const B: usize, const OM: u8> Int<N, B, OM> {
    /// `-self`, which the caller guarantees to be in range (`self` is not the minimum).
    pub fn unchecked_neg(self) -> (r: Self)
        requires
            Self::fits_spec(-self@),
        ensures
            r@ == -self@,
    {
        self.strict_neg()
    }

    /// `self - rhs` when `self > rhs`, else zero; the difference is taken under the type's
    /// overflow mode.
    pub fn abs_sub(&self, rhs: &Self) -> (r: Self)
        requires
            OM == 1 && self@ > rhs@ ==> Self::fits_spec(self@ - rhs@),
        ensures
            r@ == (if self@ <= rhs@ { 0 } else { Self::by_mode(self@ - rhs@) }),
    {
        proof {
            use_type_invariant(self);
        }
        if self.le(rhs) {
            Self::zero()
        } else {
            self.sub(*rhs)
        }
    }
}

/// A truncated remainder is zero exactly when the Euclidean one is.
proof fn lemma_rem_zero(a: int, b: int)
    requires
        b != 0,
    ensures
        (rem_trunc(a, b) == 0) == (a % abs_int(b) == 0),
{
    let m = abs_int(b);
    if a < 0 {
        lemma_fundamental_div_mod(-a, m);
        lemma_fundamental_div_mod(a, m);
        lemma_mod_bound(a, m);
        lemma_mod_bound(-a, m);
        if (-a) % m == 0 {
            lemma_mod_multiples_vanish(-((-a) / m), 0, m);
            assert(m * (-((-a) / m)) + 0 == a) by (nonlinear_arith)
                requires
                    -a == m * ((-a) / m) + 0,
            ;
            lemma_small_mod(0, m as nat);
        }
        if a % m == 0 {
            lemma_mod_multiples_vanish(-(a / m), 0, m);
            assert(m * (-(a / m)) + 0 == -a) by (nonlinear_arith)
                requires
                    a == m * (a / m) + 0,
            ;
            lemma_small_mod(0, m as nat);
        }
    }
}

/// The `n`-th root (`n >= 3`) of a representable magnitude is representable as a positive value
/// of the type.
proof fn lemma_root_small(root: int, m: int, n: nat, bits: nat)
    requires
        n >= 3,
        bits >= 2,
        0 <= m <= pow2(bits) - 1,
        is_nth_root(root, m, n),
    ensures
        root < pow2((bits - 1) as nat),
        root <= m,
{
    lemma_pow2_half(bits);
    let h = pow2((bits - 1) as nat) as int;
    lemma2_to64();
    if bits > 2 {
        lemma_pow2_strictly_increases(1, (bits - 1) as nat);
    }
    if root >= 1 {
        lemma_pow_increases(root, (n - 1) as nat, n);
        lemma_pow1(root);
        lemma_pow_increases_base(root, n);
    }
    if root >= h {
        // h^n >= h^2 = h * h >= 2h = 2^bits > m
        lemma_pow_increases(h, 2, n);
        lemma_pow_monotone_base(h, root, n);
        reveal(pow);
        lemma_pow1(h);
        assert(pow(h, 2) == h * h);
        assert(h * h >= 2 * h) by (nonlinear_arith)
            requires
                h >= 2,
        ;
    }
}

/// For a base of at least 1, raising to a higher power does not decrease the value.
proof fn lemma_pow_increases(b: int, e1: nat, e2: nat)
    requires
        b >= 1,
        e1 <= e2,
    ensures
        pow(b, e1) <= pow(b, e2),
    decreases e2 - e1,
{
    if e1 < e2 {
        lemma_pow_increases(b, e1, (e2 - 1) as nat);
        lemma_pow_positive(b, (e2 - 1) as nat);
        reveal(pow);
        assert(pow(b, e2) == b * pow(b, (e2 - 1) as nat));
        assert(b * pow(b, (e2 - 1) as nat) >= pow(b, (e2 - 1) as nat)) by (nonlinear_arith)
            requires
                b >= 1,
                pow(b, (e2 - 1) as nat) > 0,
        ;
    }
}

/// A base of at least 1 raised to a positive power is at least the base.
proof fn lemma_pow_increases_base(b: int, n: nat)
    requires
        b >= 1,
        n >= 1,
    ensures
        pow(b, n) >= b,
{
    lemma_pow_increases(b, 1, n);
    lemma_pow1(b);
}

/// Powers are monotone in a nonnegative base.
proof fn lemma_pow_monotone_base(a: int, b: int, n: nat)
    requires
        0 <= a <= b,
    ensures
        pow(a, n) <= pow(b, n),
    decreases n,
{
    reveal(pow);
    if n > 0 {
        lemma_pow_monotone_base(a, b, (n - 1) as nat);
        lemma_pow_nonnegative(a, (n - 1) as nat);
        assert(a * pow(a, (n - 1) as nat) <= b * pow(b, (n - 1) as nat)) by (nonlinear_arith)
            requires
                0 <= a <= b,
                0 <= pow(a, (n - 1) as nat) <= pow(b, (n - 1) as nat),
        ;
    }
}

/// Nonnegative bases have nonnegative powers.
proof fn lemma_pow_nonnegative(a: int, n: nat)
    requires
        a >= 0,
    ensures
        pow(a, n) >= 0,
    decreases n,
{
    reveal(pow);
    if n > 0 {
        lemma_pow_nonnegative(a, (n - 1) as nat);
        assert(a * pow(a, (n - 1) as nat) >= 0) by (nonlinear_arith)
            requires
                a >= 0,
                pow(a, (n - 1) as nat) >= 0,
        ;
    }
}

} // verus!
