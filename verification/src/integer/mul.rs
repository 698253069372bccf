//! Multiplication, in every overflow flavour.
use super::{Integer, Uint};
use crate::digits::{le_value, radix_pow, lemma_le_value_bound};
use crate::model::{fits, lemma_range_facts, lemma_pow2_half, lemma_wrap, lemma_mod_of_carry};
use crate::raw::{raw_sub, raw_zero, raw_eq, raw_lt, raw_pow2, raw_widening_mul, uval, bit_value};
use vstd::arithmetic::div_mod::*;
use vstd::arithmetic::mul::*;
use vstd::arithmetic::power2::*;
use vstd::prelude::*;

verus! {

pub open spec fn abs_int(v: int) -> int {
    if v < 0 {
        -v
    } else {
        v
    }
}

impl<const S: bool, const N: usize, const B: usize, const OM: u8> Integer<S, N, B, OM> {
    /// The bytes of `|self|`.
    pub(crate) fn magnitude(&self) -> (r: [u8; N])
        ensures
            uval(r) == abs_int(self@),
            abs_int(self@) <= (if S { pow2((Self::spec_bits() - 1) as nat) as int } else { Self::max_spec() }),
    {
        proof {
            use_type_invariant(self);
            self.lemma_repr();
            lemma_le_value_bound(self.bytes@);
            lemma_range_facts(S, Self::spec_bits());
        }
        if self.is_negative_internal() {
            let z: [u8; N] = raw_zero();
            let (m, borrow) = raw_sub(&z, &self.bytes, false);
            proof {
                let rr = radix_pow(N as nat) as int;
                lemma_le_value_bound(m@);
                lemma_mul_basics(rr);
                // self@ < 0, so its bytes read as self@ + 2^(8N) and the subtraction borrows
                lemma_mod_add_multiples_vanish(self@, rr);
                lemma_small_mod((self@ + rr) as nat, rr as nat);
                lemma_pow2_half((8 * N) as nat);
                crate::model::lemma_fits_wider(self@, S, Self::spec_bits(), (8 * N) as nat);
                if !borrow {
                    assert(false);
                }
            }
            m
        } else {
            proof {
                lemma_small_mod(self@ as nat, radix_pow(N as nat));
            }
            self.bytes
        }
    }

    /// `self * rhs` wrapped into range, and whether the true product was out of range.
    pub fn overflowing_mul(self, rhs: Self) -> (r: (Self, bool))
        ensures
            r.0@ == Self::wrap_spec(self@ * rhs@),
            r.1 == !Self::fits_spec(self@ * rhs@),
    {
        proof {
            use_type_invariant(&self);
            use_type_invariant(&rhs);
            self.lemma_repr();
            lemma_range_facts(S, Self::spec_bits());
            lemma_pow2_half(Self::spec_bits());
        }
        let ma = self.magnitude();
        let mb = rhs.magnitude();
        let (lo, hi) = raw_widening_mul(&ma, &mb);
        let a_neg = self.is_negative_internal();
        let b_neg = rhs.is_negative_internal();
        let neg = a_neg != b_neg;
        let ghost p = self@ * rhs@;
        let ghost rr = radix_pow(N as nat) as int;
        let ghost mp = abs_int(self@) * abs_int(rhs@);
        proof {
            lemma_le_value_bound(lo@);
            lemma_le_value_bound(hi@);
            assert(mp == (if neg { -p } else { p })) by (nonlinear_arith)
                requires
                    mp == abs_int(self@) * abs_int(rhs@),
                    p == self@ * rhs@,
                    neg == ((self@ < 0) != (rhs@ < 0)),
            ;
            assert(mp >= 0) by (nonlinear_arith)
                requires
                    mp == abs_int(self@) * abs_int(rhs@),
            ;
            lemma_mul_is_commutative(rr, uval(hi) as int);
            lemma_mod_of_carry(uval(lo) as int, uval(hi) as int, rr, mp);
        }
        let raw = if neg {
            let z: [u8; N] = raw_zero();
            let (m, borrow) = raw_sub(&z, &lo, false);
            proof {
                lemma_le_value_bound(m@);
                lemma_mul_basics(rr);
                assert(-bit_value(borrow) * rr == -(bit_value(borrow) * rr)) by (nonlinear_arith);
                lemma_mod_of_carry(uval(m) as int, -bit_value(borrow), rr, -(uval(lo) as int));
                lemma_sub_mod_noop(0, mp, rr);
                lemma_small_mod(0, rr as nat);
            }
            m
        } else {
            lo
        };
        let out = Self::from_wrapped(raw, Ghost(p));
        let z2: [u8; N] = raw_zero();
        let hi_zero = raw_eq(&hi, &z2);
        let overflow = if !hi_zero {
            proof {
                assert(mp >= rr) by (nonlinear_arith)
                    requires
                        mp == uval(lo) + rr * uval(hi),
                        uval(hi) >= 1,
                        uval(lo) >= 0,
                        rr > 0,
                ;
                lemma_pow2_strictly_increases((Self::spec_bits() - 1) as nat, (8 * N) as nat);
                if Self::spec_bits() < 8 * N {
                    lemma_pow2_strictly_increases(Self::spec_bits(), (8 * N) as nat);
                }
            }
            true
        } else {
            proof {
                lemma_mul_basics(rr);
                assert(mp == uval(lo));
            }
            if neg && S {
                let bits = Self::bits_u32();
                let lim: [u8; N] = raw_pow2(bits - 1);
                raw_lt(&lim, &lo)
            } else {
                let mx = Self::max_value();
                proof {
                    mx.lemma_repr();
                    lemma_small_mod(mx@ as nat, rr as nat);
                }
                raw_lt(&mx.bytes, &lo)
            }
        };
        (out, overflow)
    }

    /// `self * rhs` wrapping around at the type's bounds.
    pub fn wrapping_mul(self, rhs: Self) -> (r: Self)
        ensures
            r@ == Self::wrap_spec(self@ * rhs@),
    {
        self.overflowing_mul(rhs).0
    }

    /// `self * rhs`, or `None` when it is out of range.
    pub fn checked_mul(self, rhs: Self) -> (r: Option<Self>)
        ensures
            r.is_some() == Self::fits_spec(self@ * rhs@),
            r.is_some() ==> r.unwrap()@ == self@ * rhs@,
    {
        proof {
            use_type_invariant(&self);
        }
        let (v, o) = self.overflowing_mul(rhs);
        proof {
            lemma_wrap(self@ * rhs@, S, Self::spec_bits());
        }
        if o {
            None
        } else {
            Some(v)
        }
    }

    /// `self * rhs`, clamped to the type's bounds.
    pub fn saturating_mul(self, rhs: Self) -> (r: Self)
        ensures
            r@ == Self::saturate_spec(self@ * rhs@),
    {
        proof {
            use_type_invariant(&self);
            use_type_invariant(&rhs);
            lemma_range_facts(S, Self::spec_bits());
        }
        match self.checked_mul(rhs) {
            Some(v) => v,
            None => {
                let neg = self.is_negative_internal() != rhs.is_negative_internal();
                proof {
                    assert(neg ==> self@ * rhs@ < 0) by (nonlinear_arith)
                        requires
                            neg == ((self@ < 0) != (rhs@ < 0)),
                            self@ * rhs@ != 0 || true,
                            !(self@ * rhs@ >= Self::min_spec() && self@ * rhs@ <= Self::max_spec()),
                            Self::min_spec() <= 0,
                            Self::max_spec() >= 0,
                    ;
                    assert(!neg ==> self@ * rhs@ >= 0) by (nonlinear_arith)
                        requires
                            neg == ((self@ < 0) != (rhs@ < 0)),
                    ;
                }
                if neg {
                    Self::min_value()
                } else {
                    Self::max_value()
                }
            },
        }
    }

    /// `self * rhs`; the product must be representable.
    pub fn strict_mul(self, rhs: Self) -> (r: Self)
        requires
            Self::fits_spec(self@ * rhs@),
        ensures
            r@ == self@ * rhs@,
    {
        proof {
            use_type_invariant(&self);
            lemma_wrap(self@ * rhs@, S, Self::spec_bits());
        }
        self.wrapping_mul(rhs)
    }

    /// `self * rhs` under the type's overflow mode.
    pub fn mul(self, rhs: Self) -> (r: Self)
        requires
            OM == 1 ==> Self::fits_spec(self@ * rhs@),
        ensures
            r@ == Self::by_mode(self@ * rhs@),
    {
        if OM == 0 {
            self.wrapping_mul(rhs)
        } else if OM == 1 {
            self.strict_mul(rhs)
        } else {
            self.saturating_mul(rhs)
        }
    }

    /// `|self|` as an unsigned integer of the same width (never overflows).
    pub fn unsigned_abs_internal(self) -> (r: Uint<N, B, OM>)
        ensures
            r@ == abs_int(self@),
    {
        proof {
            use_type_invariant(&self);
            lemma_range_facts(S, Self::spec_bits());
            lemma_pow2_half(Self::spec_bits());
        }
        let m = self.magnitude();
        proof {
            lemma_pow2_strictly_increases((Self::spec_bits() - 1) as nat, (8 * N) as nat);
            if Self::spec_bits() < 8 * N {
                lemma_pow2_strictly_increases(Self::spec_bits(), (8 * N) as nat);
            }
            self.lemma_repr();
            lemma_small_mod(abs_int(self@) as nat, radix_pow(N as nat));
        }
        Uint::<N, B, OM>::from_raw(m, Ghost(abs_int(self@)))
    }
}

} // verus!
