//! Bitwise complement and shifts.
use super::{Integer, Uint};
use crate::digits::{radix_pow, lemma_le_value_bound};
use crate::model::{fits, lemma_range_facts, lemma_pow2_half, lemma_wrap, lemma_mod_of_carry, lemma_floor_div_complement};
use crate::raw::{raw_not, raw_shl, raw_shr, uval};
use vstd::arithmetic::div_mod::*;
use vstd::arithmetic::mul::*;
use vstd::arithmetic::power2::*;
use vstd::prelude::*;

verus! {

impl<const S: bool, const N: usize, const B: usize, const OM: u8> Integer<S, N, B, OM> {
    /// Bitwise complement of the `BITS` bits: `-1 - self` for signed types, `MAX - self` for
    /// unsigned ones.
    pub fn not(self) -> (r: Self)
        ensures
            r@ == Self::wrap_spec(-1 - self@),
            S ==> r@ == -1 - self@,
            !S ==> r@ == Self::max_spec() - self@,
    {
        proof {
            use_type_invariant(&self);
            self.lemma_repr();
        }
        let raw = raw_not(&self.bytes);
        let ghost rr = radix_pow(N as nat) as int;
        proof {
            lemma_le_value_bound(raw@);
            lemma_fundamental_div_mod(self@, rr);
            let c = -(1 + self@ / rr);
            assert(uval(raw) + c * rr == -1 - self@) by (nonlinear_arith)
                requires
                    uval(raw) == rr - 1 - self@ % rr,
                    self@ == rr * (self@ / rr) + self@ % rr,
                    c == -(1 + self@ / rr),
            ;
            lemma_mod_of_carry(uval(raw) as int, c, rr, -1 - self@);
            lemma_range_facts(S, Self::spec_bits());
            lemma_wrap(-1 - self@, S, Self::spec_bits());
            if !S {
                crate::model::lemma_wrap_small(-1 - self@, S, Self::spec_bits());
            }
        }
        Self::from_wrapped(raw, Ghost(-1 - self@))
    }

    /// `self * 2^n` wrapped into range, for `n < BITS`.
    fn shl_in_range(self, n: u32) -> (r: Self)
        requires
            n < Self::spec_bits(),
        ensures
            r@ == Self::wrap_spec(self@ * pow2(n as nat)),
    {
        proof {
            use_type_invariant(&self);
            self.lemma_repr();
        }
        let raw = raw_shl(&self.bytes, n);
        proof {
            let rr = radix_pow(N as nat) as int;
            super::lemma_radix_pow_pos_local(N as nat);
            lemma_mul_mod_noop_left(self@, pow2(n as nat) as int, rr);
        }
        Self::from_wrapped(raw, Ghost(self@ * pow2(n as nat)))
    }

    /// `floor(self / 2^n)` for a nonnegative value and `n < BITS`.
    fn shr_nonneg(self, n: u32) -> (r: Self)
        requires
            n < Self::spec_bits(),
            self@ >= 0,
        ensures
            r@ == self@ / (pow2(n as nat) as int),
    {
        proof {
            use_type_invariant(&self);
            self.lemma_repr();
            lemma_pow2_half((8 * N) as nat);
            lemma_small_mod(self@ as nat, radix_pow(N as nat));
        }
        let raw = raw_shr(&self.bytes, n);
        proof {
            lemma_pow2_pos(n as nat);
            lemma_div_pos_is_pos(self@, pow2(n as nat) as int);
            lemma_div_is_ordered_by_denominator(self@, 1, pow2(n as nat) as int);
            lemma_le_value_bound(raw@);
            lemma_small_mod(uval(raw), radix_pow(N as nat));
            lemma_range_facts(S, Self::spec_bits());
        }
        Self::from_raw(raw, Ghost(self@ / (pow2(n as nat) as int)))
    }

    /// `floor(self / 2^n)` (an arithmetic shift for signed types), for `n < BITS`.
    fn shr_in_range(self, n: u32) -> (r: Self)
        requires
            n < Self::spec_bits(),
        ensures
            r@ == self@ / (pow2(n as nat) as int),
    {
        proof {
            use_type_invariant(&self);
            lemma_pow2_pos(n as nat);
        }
        if self.is_negative_internal() {
            let c = self.not();
            let s = c.shr_nonneg(n);
            proof {
                lemma_floor_div_complement(self@, pow2(n as nat) as int);
            }
            s.not()
        } else {
            self.shr_nonneg(n)
        }
    }

    /// `self << (rhs % BITS)`, wrapping.
    pub fn wrapping_shl(self, rhs: u32) -> (r: Self)
        ensures
            r@ == Self::wrap_spec(self@ * pow2(((rhs as nat) % Self::spec_bits()) as nat)),
    {
        proof {
            use_type_invariant(&self);
        }
        let bits = Self::bits_u32();
        self.shl_in_range(rhs % bits)
    }

    /// `self >> (rhs % BITS)`: division by a power of two rounding down.
    pub fn wrapping_shr(self, rhs: u32) -> (r: Self)
        ensures
            r@ == self@ / (pow2(((rhs as nat) % Self::spec_bits()) as nat) as int),
    {
        proof {
            use_type_invariant(&self);
        }
        let bits = Self::bits_u32();
        self.shr_in_range(rhs % bits)
    }

    /// The wrapping left shift, and whether `rhs` was at least `BITS`.
    pub fn overflowing_shl(self, rhs: u32) -> (r: (Self, bool))
        ensures
            r.0@ == Self::wrap_spec(self@ * pow2(((rhs as nat) % Self::spec_bits()) as nat)),
            r.1 == (rhs >= Self::spec_bits()),
    {
        proof {
            use_type_invariant(&self);
        }
        (self.wrapping_shl(rhs), rhs >= Self::bits_u32())
    }

    /// The wrapping right shift, and whether `rhs` was at least `BITS`.
    pub fn overflowing_shr(self, rhs: u32) -> (r: (Self, bool))
        ensures
            r.0@ == self@ / (pow2(((rhs as nat) % Self::spec_bits()) as nat) as int),
            r.1 == (rhs >= Self::spec_bits()),
    {
        proof {
            use_type_invariant(&self);
        }
        (self.wrapping_shr(rhs), rhs >= Self::bits_u32())
    }

    /// `self << rhs`, or `None` when `rhs >= BITS`.
    pub fn checked_shl(self, rhs: u32) -> (r: Option<Self>)
        ensures
            r.is_some() == (rhs < Self::spec_bits()),
            r.is_some() ==> r.unwrap()@ == Self::wrap_spec(self@ * pow2(rhs as nat)),
    {
        proof {
            use_type_invariant(&self);
        }
        if rhs >= Self::bits_u32() {
            None
        } else {
            Some(self.shl_in_range(rhs))
        }
    }

    /// `self >> rhs`, or `None` when `rhs >= BITS`.
    pub fn checked_shr(self, rhs: u32) -> (r: Option<Self>)
        ensures
            r.is_some() == (rhs < Self::spec_bits()),
            r.is_some() ==> r.unwrap()@ == self@ / (pow2(rhs as nat) as int),
    {
        proof {
            use_type_invariant(&self);
        }
        if rhs >= Self::bits_u32() {
            None
        } else {
            Some(self.shr_in_range(rhs))
        }
    }

    /// `self << rhs`; `rhs` must be less than `BITS`.
    pub fn strict_shl(self, rhs: u32) -> (r: Self)
        requires
            rhs < Self::spec_bits(),
        ensures
            r@ == Self::wrap_spec(self@ * pow2(rhs as nat)),
    {
        self.shl_in_range(rhs)
    }

    /// `self >> rhs`; `rhs` must be less than `BITS`.
    pub fn strict_shr(self, rhs: u32) -> (r: Self)
        requires
            rhs < Self::spec_bits(),
        ensures
            r@ == self@ / (pow2(rhs as nat) as int),
    {
        self.shr_in_range(rhs)
    }

    /// `self << rhs`, giving `0` once every bit has been shifted out.
    pub fn unbounded_shl(self, rhs: u32) -> (r: Self)
        ensures
            rhs >= Self::spec_bits() ==> r@ == 0,
            rhs < Self::spec_bits() ==> r@ == Self::wrap_spec(self@ * pow2(rhs as nat)),
    {
        proof {
            use_type_invariant(&self);
        }
        if rhs >= Self::bits_u32() {
            Self::zero()
        } else {
            self.shl_in_range(rhs)
        }
    }

    /// `floor(self / 2^rhs)` for any `rhs` (so `0` or `-1` once every bit has been shifted out).
    pub fn unbounded_shr(self, rhs: u32) -> (r: Self)
        ensures
            r@ == self@ / (pow2(rhs as nat) as int),
    {
        proof {
            use_type_invariant(&self);
        }
        let bits = Self::bits_u32();
        if rhs >= bits {
            proof {
                lemma_range_facts(S, Self::spec_bits());
                lemma_pow2_half(bits as nat);
                lemma_pow2_pos(rhs as nat);
                if rhs == bits {
                } else {
                    lemma_pow2_strictly_increases(bits as nat, rhs as nat);
                }
            }
            if self.is_negative_internal() {
                let r = Self::zero().not();
                proof {
                    let p = pow2(rhs as nat) as int;
                    lemma_fundamental_div_mod_converse_div(self@, p, -1, self@ + p);
                }
                r
            } else {
                proof {
                    let p = pow2(rhs as nat) as int;
                    lemma_fundamental_div_mod_converse_div(self@, p, 0, self@);
                }
                Self::zero()
            }
        } else {
            self.shr_in_range(rhs)
        }
    }

    /// `self << rhs` under the type's overflow mode: wrapping (shift amount taken modulo
    /// `BITS`), panicking (`rhs` must be less than `BITS`) or saturating (unbounded).
    pub fn shl(self, rhs: u32) -> (r: Self)
        requires
            OM == 1 ==> rhs < Self::spec_bits(),
        ensures
            OM == 0 ==> r@ == Self::wrap_spec(self@ * pow2(((rhs as nat) % Self::spec_bits()) as nat)),
            OM != 0 && rhs < Self::spec_bits() ==> r@ == Self::wrap_spec(self@ * pow2(rhs as nat)),
            OM == 2 && rhs >= Self::spec_bits() ==> r@ == 0,
    {
        if OM == 0 {
            self.wrapping_shl(rhs)
        } else if OM == 1 {
            self.strict_shl(rhs)
        } else {
            self.unbounded_shl(rhs)
        }
    }

    /// `self >> rhs` under the type's overflow mode.
    pub fn shr(self, rhs: u32) -> (r: Self)
        requires
            OM == 1 ==> rhs < Self::spec_bits(),
        ensures
            OM == 0 ==> r@ == self@ / (pow2(((rhs as nat) % Self::spec_bits()) as nat) as int),
            OM != 0 ==> r@ == self@ / (pow2(rhs as nat) as int),
    {
        if OM == 0 {
            self.wrapping_shr(rhs)
        } else if OM == 1 {
            self.strict_shr(rhs)
        } else {
            self.unbounded_shr(rhs)
        }
    }

    /// The `u32` shift amount that a shift by the unsigned amount `rhs` comes to under the
    /// overflow mode: `rhs` itself when it fits in a `u32`; otherwise `rhs` modulo `BITS` when
    /// wrapping, and `u32::MAX` (a shift past the width) when saturating. Under the panicking mode
    /// `rhs` must fit in a `u32`.
    pub fn shift_exponent_u128(rhs: u128) -> (r: u32)
        requires
            Self::valid_params(),
            OM == 1 ==> rhs <= u32::MAX,
        ensures
            r == (if rhs <= u32::MAX {
                rhs as int
            } else if OM == 0 {
                (rhs as int) % (Self::spec_bits() as int)
            } else {
                u32::MAX as int
            }),
    {
        if rhs <= u32::MAX as u128 {
            rhs as u32
        } else if OM == 0 {
            let bits = Self::bits_u32() as u128;
            let m = rhs % bits;
            proof {
                lemma_mod_bound(rhs as int, bits as int);
            }
            m as u32
        } else {
            u32::MAX
        }
    }

    /// The `u32` shift amount that a shift by the signed amount `rhs` comes to under the overflow
    /// mode: `rhs` itself when it is from 0 to `u32::MAX`; otherwise `rhs` modulo `BITS` (taken
    /// nonnegative) when wrapping, and `u32::MAX` (a shift past the width) when saturating. Under
    /// the panicking mode `rhs` must be from 0 to `u32::MAX`.
    pub fn shift_exponent_i128(rhs: i128) -> (r: u32)
        requires
            Self::valid_params(),
            OM == 1 ==> 0 <= rhs <= u32::MAX,
        ensures
            r == (if 0 <= rhs <= u32::MAX {
                rhs as int
            } else if OM == 0 {
                (rhs as int) % (Self::spec_bits() as int)
            } else {
                u32::MAX as int
            }),
    {
        if 0 <= rhs && rhs <= u32::MAX as i128 {
            rhs as u32
        } else if OM == 0 {
            let bits = Self::bits_u32() as u128;
            proof {
                lemma_mod_bound(rhs as int, bits as int);
            }
            if rhs >= 0 {
                let m = (rhs as u128) % bits;
                proof {
                    lemma_mod_bound(rhs as int, bits as int);
                }
                m as u32
            } else {
                // -rhs == a + 1
                let a = (-(rhs + 1)) as u128;
                let m = (a % bits + 1) % bits;
                proof {
                    self::lemma_negative_mod(rhs as int, a as int, m as int, bits as int);
                }
                if m == 0 {
                    0
                } else {
                    (bits - m) as u32
                }
            }
        } else {
            u32::MAX
        }
    }
}

/// For `x = -(a + 1) < 0` and `m = (a % b + 1) % b` (that is, `|x|` modulo `b`), the nonnegative
/// remainder of `x` is `0` when `m` is, and `b - m` otherwise.
proof fn lemma_negative_mod(x: int, a: int, m: int, b: int)
    requires
        b > 0,
        a >= 0,
        x == -(a + 1),
        m == (a % b + 1) % b,
    ensures
        x % b == (if m == 0 { 0 } else { b - m }),
        0 <= m < b,
{
    lemma_mod_bound(a, b);
    lemma_mod_bound(a % b + 1, b);
    lemma_add_mod_noop(a, 1, b);
    // m == (a + 1) % b
    assert(m == (a + 1) % b) by {
        if b == 1 {
            lemma_mod_self_0(1);
            lemma_small_mod(0, 1);
        } else {
            lemma_small_mod(1, b as nat);
        }
    }
    lemma_fundamental_div_mod(a + 1, b);
    let q = (a + 1) / b;
    if m == 0 {
        lemma_mod_multiples_basic(-q, b);
        assert(x == (-q) * b) by (nonlinear_arith)
            requires
                x == -(a + 1),
                a + 1 == b * q,
        ;
    } else {
        assert(x == (-q - 1) * b + (b - m)) by (nonlinear_arith)
            requires
                x == -(a + 1),
                a + 1 == b * q + m,
        ;
        lemma_mod_multiples_vanish(-q - 1, b - m, b);
        lemma_small_mod((b - m) as nat, b as nat);
    }
}

} // verus!
