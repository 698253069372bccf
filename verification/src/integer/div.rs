//! Division and remainder (truncating and Euclidean), in every overflow flavour.
use super::Integer;
use super::mul::abs_int;
use crate::digits::{radix_pow, lemma_le_value_bound};
use crate::model::{fits, abs_of, div_trunc, rem_trunc, div_euclid, rem_euclid, lemma_trunc_division, lemma_euclid_division, lemma_range_facts, lemma_pow2_half, lemma_wrap, lemma_mod_of_carry};
use crate::raw::{raw_sub, raw_add, raw_zero, raw_lt, raw_pow2, raw_divrem, uval, bit_value};
use vstd::arithmetic::div_mod::*;
use vstd::arithmetic::mul::*;
use vstd::arithmetic::power2::*;
use vstd::prelude::*;

verus! {

impl<const S: bool, const N: usize, const B: usize, const OM: u8> Integer<S, N, B, OM> {
    /// The integer `v` given by its sign and the bytes of its magnitude, wrapped into range,
    /// and whether `v` was out of range.
    pub(crate) fn from_sign_magnitude(neg: bool, mag: [u8; N], Ghost(v): Ghost<int>) -> (r: (Self, bool))
        requires
            Self::valid_params(),
            uval(mag) == abs_of(v),
            neg ==> v <= 0,
            !neg ==> v >= 0,
        ensures
            r.0@ == Self::wrap_spec(v),
            r.1 == !Self::fits_spec(v),
    {
        let ghost rr = radix_pow(N as nat) as int;
        proof {
            lemma_le_value_bound(mag@);
            lemma_range_facts(S, Self::spec_bits());
            lemma_pow2_half(Self::spec_bits());
            lemma_mul_basics(rr);
        }
        let raw = if neg {
            let z: [u8; N] = raw_zero();
            let (m, borrow) = raw_sub(&z, &mag, false);
            proof {
                lemma_le_value_bound(m@);
                assert(-bit_value(borrow) * rr == -(bit_value(borrow) * rr)) by (nonlinear_arith);
                lemma_mod_of_carry(uval(m) as int, -bit_value(borrow), rr, v);
            }
            m
        } else {
            proof {
                lemma_small_mod(v as nat, rr as nat);
            }
            mag
        };
        let out = Self::from_wrapped(raw, Ghost(v));
        let bits = Self::bits_u32();
        proof {
            lemma_pow2_strictly_increases((bits - 1) as nat, (8 * N) as nat);
            if bits < 8 * N {
                lemma_pow2_strictly_increases(bits as nat, (8 * N) as nat);
            }
        }
        let overflow = if neg {
            if S {
                let lim: [u8; N] = raw_pow2(bits - 1);
                raw_lt(&lim, &mag)
            } else {
                let z: [u8; N] = raw_zero();
                raw_lt(&z, &mag)
            }
        } else {
            let mx = Self::max_value();
            proof {
                mx.lemma_repr();
                lemma_small_mod(mx@ as nat, rr as nat);
            }
            raw_lt(&mx.bytes, &mag)
        };
        (out, overflow)
    }

    /// Truncating quotient (wrapped) with its overflow flag, and the remainder.
    pub(crate) fn div_rem_core(self, rhs: Self) -> (r: (Self, bool, Self))
        requires
            rhs@ != 0,
        ensures
            r.0@ == Self::wrap_spec(div_trunc(self@, rhs@)),
            r.1 == !Self::fits_spec(div_trunc(self@, rhs@)),
            r.2@ == rem_trunc(self@, rhs@),
    {
        proof {
            use_type_invariant(&self);
            use_type_invariant(&rhs);
            lemma_range_facts(S, Self::spec_bits());
        }
        let ma = self.magnitude();
        let mb = rhs.magnitude();
        let (qm, rm) = raw_divrem(&ma, &mb);
        let a_neg = self.is_negative_internal();
        let b_neg = rhs.is_negative_internal();
        let ghost a = self@;
        let ghost b = rhs@;
        proof {
            lemma_trunc_division(a, b);
            assert(abs_int(a) == abs_of(a));
            assert(abs_int(b) == abs_of(b));
            lemma_fundamental_div_mod_converse(abs_of(a), abs_of(b), uval(qm) as int, uval(rm) as int);
            lemma_mul_is_commutative(uval(qm) as int, abs_of(b));
        }
        let (q, o) = Self::from_sign_magnitude(a_neg != b_neg, qm, Ghost(div_trunc(a, b)));
        let (r, _o2) = Self::from_sign_magnitude(a_neg, rm, Ghost(rem_trunc(a, b)));
        proof {
            // the remainder is no larger in magnitude than the dividend, so it is representable
            assert(abs_of(rem_trunc(a, b)) <= abs_of(a));
            lemma_wrap(rem_trunc(a, b), S, Self::spec_bits());
        }
        (q, o, r)
    }

    /// Euclidean quotient (wrapped) with its overflow flag, and the Euclidean remainder.
    pub(crate) fn div_rem_euclid_core(self, rhs: Self) -> (r: (Self, bool, Self))
        requires
            rhs@ != 0,
        ensures
            r.0@ == Self::wrap_spec(div_euclid(self@, rhs@)),
            r.1 == !Self::fits_spec(div_euclid(self@, rhs@)),
            r.2@ == rem_euclid(self@, rhs@),
    {
        proof {
            use_type_invariant(&self);
            use_type_invariant(&rhs);
            lemma_range_facts(S, Self::spec_bits());
        }
        let ma = self.magnitude();
        let mb = rhs.magnitude();
        let (qm, rm) = raw_divrem(&ma, &mb);
        let a_neg = self.is_negative_internal();
        let b_neg = rhs.is_negative_internal();
        let ghost a = self@;
        let ghost b = rhs@;
        let ghost ab = abs_of(b);
        proof {
            lemma_euclid_division(a, b);
            assert(abs_int(a) == abs_of(a));
            assert(abs_int(b) == abs_of(b));
            lemma_le_value_bound(qm@);
            lemma_mul_is_commutative(uval(qm) as int, ab);
        }
        let z: [u8; N] = raw_zero();
        let rm_zero = !raw_lt(&z, &rm);
        if !a_neg || rm_zero {
            proof {
                // a = ±(qm * |b|) + rm with 0 <= rm < |b|
                if a_neg {
                    assert(a == ab * (-(uval(qm) as int)) + 0) by (nonlinear_arith)
                        requires
                            -a == uval(qm) * ab + uval(rm),
                            uval(rm) == 0,
                    ;
                    lemma_fundamental_div_mod_converse(a, ab, -(uval(qm) as int), 0);
                } else {
                    lemma_fundamental_div_mod_converse(a, ab, uval(qm) as int, uval(rm) as int);
                }
            }
            let (q, o) = Self::from_sign_magnitude(a_neg != b_neg, qm, Ghost(div_euclid(a, b)));
            let (r, _o2) = Self::from_sign_magnitude(false, rm, Ghost(rem_euclid(a, b)));
            proof {
                lemma_wrap(rem_euclid(a, b), S, Self::spec_bits());
            }
            (q, o, r)
        } else {
            let one: [u8; N] = raw_pow2(0);
            let (qm1, _c) = raw_add(&qm, &one, false);
            let (rr_bytes, _bw) = raw_sub(&mb, &rm, false);
            proof {
                lemma2_to64();
                lemma_le_value_bound(qm1@);
                lemma_le_value_bound(rr_bytes@);
                lemma_mul_basics(radix_pow(N as nat) as int);
                // qm + 1 <= |a| < 2^(8N), so no carry
                assert(uval(qm) + 1 <= abs_of(a)) by (nonlinear_arith)
                    requires
                        abs_of(a) == uval(qm) * ab + uval(rm),
                        uval(rm) > 0,
                        ab >= 1,
                ;
                crate::model::lemma_fits_wider(a, S, Self::spec_bits(), (8 * N) as nat);
                lemma_pow2_half((8 * N) as nat);
                if _c {
                    assert(false);
                }
                if _bw {
                    assert(false);
                }
                assert(uval(qm1) == uval(qm) + 1);
                assert(uval(rr_bytes) == ab - uval(rm));
                assert(a == ab * (-(uval(qm1) as int)) + (ab - uval(rm))) by (nonlinear_arith)
                    requires
                        -a == uval(qm) * ab + uval(rm),
                        uval(qm1) == uval(qm) + 1,
                ;
                lemma_fundamental_div_mod_converse(a, ab, -(uval(qm1) as int), ab - uval(rm));
            }
            let (q, o) = Self::from_sign_magnitude(!b_neg, qm1, Ghost(div_euclid(a, b)));
            let (r, _o2) = Self::from_sign_magnitude(false, rr_bytes, Ghost(rem_euclid(a, b)));
            proof {
                lemma_wrap(rem_euclid(a, b), S, Self::spec_bits());
            }
            (q, o, r)
        }
    }
}


impl<const S: bool, const N: usize, const B: usize, const OM: u8> Integer<S, N, B, OM> {

    /// The quotient rounded towards zero of `self` by `rhs` (wrapped into range), and whether the quotient
    /// overflowed (only `MIN` by `-1` for signed types). `rhs` must be nonzero.
    pub fn overflowing_div(self, rhs: Self) -> (r: (Self, bool))
        requires
            rhs@ != 0,
        ensures
            r.0@ == Self::wrap_spec(div_trunc(self@, rhs@)),
            r.1 == !Self::fits_spec(div_trunc(self@, rhs@)),
    {
        let r = self.div_rem_core(rhs);
        (r.0, r.1)
    }

    /// The quotient rounded towards zero of `self` by `rhs`, wrapping on overflow. `rhs` must be nonzero.
    pub fn wrapping_div(self, rhs: Self) -> (r: Self)
        requires
            rhs@ != 0,
        ensures
            r@ == Self::wrap_spec(div_trunc(self@, rhs@)),
    {
        self.overflowing_div(rhs).0
    }

    /// The quotient rounded towards zero of `self` by `rhs`, or `None` when `rhs` is zero or the quotient overflows.
    pub fn checked_div(self, rhs: Self) -> (r: Option<Self>)
        ensures
            r.is_some() == (rhs@ != 0 && Self::fits_spec(div_trunc(self@, rhs@))),
            r.is_some() ==> r.unwrap()@ == div_trunc(self@, rhs@),
    {
        proof {
            use_type_invariant(&self);
        }
        if rhs.is_zero() {
            return None;
        }
        let (v, o) = self.overflowing_div(rhs);
        proof {
            lemma_wrap(div_trunc(self@, rhs@), S, Self::spec_bits());
        }
        if o {
            None
        } else {
            Some(v)
        }
    }

    /// The quotient rounded towards zero of `self` by `rhs`; `rhs` must be nonzero and the quotient representable.
    pub fn strict_div(self, rhs: Self) -> (r: Self)
        requires
            rhs@ != 0,
            Self::fits_spec(div_trunc(self@, rhs@)),
        ensures
            r@ == div_trunc(self@, rhs@),
    {
        proof {
            use_type_invariant(&self);
            lemma_wrap(div_trunc(self@, rhs@), S, Self::spec_bits());
        }
        self.overflowing_div(rhs).0
    }

    /// The Euclidean quotient of `self` by `rhs` (wrapped into range), and whether the quotient
    /// overflowed (only `MIN` by `-1` for signed types). `rhs` must be nonzero.
    pub fn overflowing_div_euclid(self, rhs: Self) -> (r: (Self, bool))
        requires
            rhs@ != 0,
        ensures
            r.0@ == Self::wrap_spec(div_euclid(self@, rhs@)),
            r.1 == !Self::fits_spec(div_euclid(self@, rhs@)),
    {
        let r = self.div_rem_euclid_core(rhs);
        (r.0, r.1)
    }

    /// The Euclidean quotient of `self` by `rhs`, wrapping on overflow. `rhs` must be nonzero.
    pub fn wrapping_div_euclid(self, rhs: Self) -> (r: Self)
        requires
            rhs@ != 0,
        ensures
            r@ == Self::wrap_spec(div_euclid(self@, rhs@)),
    {
        self.overflowing_div_euclid(rhs).0
    }

    /// The Euclidean quotient of `self` by `rhs`, or `None` when `rhs` is zero or the quotient overflows.
    pub fn checked_div_euclid(self, rhs: Self) -> (r: Option<Self>)
        ensures
            r.is_some() == (rhs@ != 0 && Self::fits_spec(div_euclid(self@, rhs@))),
            r.is_some() ==> r.unwrap()@ == div_euclid(self@, rhs@),
    {
        proof {
            use_type_invariant(&self);
        }
        if rhs.is_zero() {
            return None;
        }
        let (v, o) = self.overflowing_div_euclid(rhs);
        proof {
            lemma_wrap(div_euclid(self@, rhs@), S, Self::spec_bits());
        }
        if o {
            None
        } else {
            Some(v)
        }
    }

    /// The Euclidean quotient of `self` by `rhs`; `rhs` must be nonzero and the quotient representable.
    pub fn strict_div_euclid(self, rhs: Self) -> (r: Self)
        requires
            rhs@ != 0,
            Self::fits_spec(div_euclid(self@, rhs@)),
        ensures
            r@ == div_euclid(self@, rhs@),
    {
        proof {
            use_type_invariant(&self);
            lemma_wrap(div_euclid(self@, rhs@), S, Self::spec_bits());
        }
        self.overflowing_div_euclid(rhs).0
    }

    /// The remainder of the quotient rounded towards zero of `self` by `rhs` (wrapped into range), and whether the quotient
    /// overflowed (only `MIN` by `-1` for signed types). `rhs` must be nonzero.
    pub fn overflowing_rem(self, rhs: Self) -> (r: (Self, bool))
        requires
            rhs@ != 0,
        ensures
            r.0@ == rem_trunc(self@, rhs@),
            r.1 == !Self::fits_spec(div_trunc(self@, rhs@)),
    {
        let r = self.div_rem_core(rhs);
        (r.2, r.1)
    }

    /// The remainder of the quotient rounded towards zero of `self` by `rhs`, wrapping on overflow. `rhs` must be nonzero.
    pub fn wrapping_rem(self, rhs: Self) -> (r: Self)
        requires
            rhs@ != 0,
        ensures
            r@ == rem_trunc(self@, rhs@),
    {
        self.overflowing_rem(rhs).0
    }

    /// The remainder of the quotient rounded towards zero of `self` by `rhs`, or `None` when `rhs` is zero or the quotient overflows.
    pub fn checked_rem(self, rhs: Self) -> (r: Option<Self>)
        ensures
            r.is_some() == (rhs@ != 0 && Self::fits_spec(div_trunc(self@, rhs@))),
            r.is_some() ==> r.unwrap()@ == rem_trunc(self@, rhs@),
    {
        proof {
            use_type_invariant(&self);
        }
        if rhs.is_zero() {
            return None;
        }
        let (v, o) = self.overflowing_rem(rhs);
        proof {
            lemma_wrap(rem_trunc(self@, rhs@), S, Self::spec_bits());
        }
        if o {
            None
        } else {
            Some(v)
        }
    }

    /// The remainder of the quotient rounded towards zero of `self` by `rhs`; `rhs` must be nonzero and the quotient representable.
    pub fn strict_rem(self, rhs: Self) -> (r: Self)
        requires
            rhs@ != 0,
            Self::fits_spec(div_trunc(self@, rhs@)),
        ensures
            r@ == rem_trunc(self@, rhs@),
    {
        proof {
            use_type_invariant(&self);
            lemma_wrap(rem_trunc(self@, rhs@), S, Self::spec_bits());
        }
        self.overflowing_rem(rhs).0
    }

    /// The Euclidean remainder of `self` by `rhs` (wrapped into range), and whether the quotient
    /// overflowed (only `MIN` by `-1` for signed types). `rhs` must be nonzero.
    pub fn overflowing_rem_euclid(self, rhs: Self) -> (r: (Self, bool))
        requires
            rhs@ != 0,
        ensures
            r.0@ == rem_euclid(self@, rhs@),
            r.1 == !Self::fits_spec(div_euclid(self@, rhs@)),
    {
        let r = self.div_rem_euclid_core(rhs);
        (r.2, r.1)
    }

    /// The Euclidean remainder of `self` by `rhs`, wrapping on overflow. `rhs` must be nonzero.
    pub fn wrapping_rem_euclid(self, rhs: Self) -> (r: Self)
        requires
            rhs@ != 0,
        ensures
            r@ == rem_euclid(self@, rhs@),
    {
        self.overflowing_rem_euclid(rhs).0
    }

    /// The Euclidean remainder of `self` by `rhs`, or `None` when `rhs` is zero or the quotient overflows.
    pub fn checked_rem_euclid(self, rhs: Self) -> (r: Option<Self>)
        ensures
            r.is_some() == (rhs@ != 0 && Self::fits_spec(div_euclid(self@, rhs@))),
            r.is_some() ==> r.unwrap()@ == rem_euclid(self@, rhs@),
    {
        proof {
            use_type_invariant(&self);
        }
        if rhs.is_zero() {
            return None;
        }
        let (v, o) = self.overflowing_rem_euclid(rhs);
        proof {
            lemma_wrap(rem_euclid(self@, rhs@), S, Self::spec_bits());
        }
        if o {
            None
        } else {
            Some(v)
        }
    }

    /// The Euclidean remainder of `self` by `rhs`; `rhs` must be nonzero and the quotient representable.
    pub fn strict_rem_euclid(self, rhs: Self) -> (r: Self)
        requires
            rhs@ != 0,
            Self::fits_spec(div_euclid(self@, rhs@)),
        ensures
            r@ == rem_euclid(self@, rhs@),
    {
        proof {
            use_type_invariant(&self);
            lemma_wrap(rem_euclid(self@, rhs@), S, Self::spec_bits());
        }
        self.overflowing_rem_euclid(rhs).0
    }

    /// The quotient rounded towards zero, clamped to the type's bounds (`MIN / -1` gives `MAX`).
    /// `rhs` must be nonzero.
    pub fn saturating_div(self, rhs: Self) -> (r: Self)
        requires
            rhs@ != 0,
        ensures
            r@ == Self::saturate_spec(div_trunc(self@, rhs@)),
    {
        proof {
            use_type_invariant(&self);
            use_type_invariant(&rhs);
            lemma_range_facts(S, Self::spec_bits());
            lemma_wrap(div_trunc(self@, rhs@), S, Self::spec_bits());
            self.lemma_quotient_bounds(rhs);
        }
        let (v, o) = self.overflowing_div(rhs);
        if o {
            Self::max_value()
        } else {
            v
        }
    }

    /// The Euclidean quotient, clamped to the type's bounds. `rhs` must be nonzero.
    pub fn saturating_div_euclid(self, rhs: Self) -> (r: Self)
        requires
            rhs@ != 0,
        ensures
            r@ == Self::saturate_spec(div_euclid(self@, rhs@)),
    {
        proof {
            use_type_invariant(&self);
            use_type_invariant(&rhs);
            lemma_range_facts(S, Self::spec_bits());
            lemma_wrap(div_euclid(self@, rhs@), S, Self::spec_bits());
            self.lemma_quotient_bounds(rhs);
        }
        let (v, o) = self.overflowing_div_euclid(rhs);
        if o {
            Self::max_value()
        } else {
            v
        }
    }

    /// The remainder of truncating division; it never overflows. `rhs` must be nonzero.
    pub fn saturating_rem(self, rhs: Self) -> (r: Self)
        requires
            rhs@ != 0,
        ensures
            r@ == rem_trunc(self@, rhs@),
    {
        self.overflowing_rem(rhs).0
    }

    /// The Euclidean remainder; it never overflows. `rhs` must be nonzero.
    pub fn saturating_rem_euclid(self, rhs: Self) -> (r: Self)
        requires
            rhs@ != 0,
        ensures
            r@ == rem_euclid(self@, rhs@),
    {
        self.overflowing_rem_euclid(rhs).0
    }

    /// Quotients of representable values overflow only upwards.
    proof fn lemma_quotient_bounds(self, rhs: Self)
        requires
            self.wf(),
            rhs.wf(),
            rhs@ != 0,
        ensures
            div_trunc(self@, rhs@) >= Self::min_spec(),
            div_euclid(self@, rhs@) >= Self::min_spec(),
    {
        lemma_range_facts(S, Self::spec_bits());
        lemma_trunc_division(self@, rhs@);
        lemma_euclid_division(self@, rhs@);
        let a = self@;
        let b = rhs@;
        let q = div_euclid(a, b);
        let r = rem_euclid(a, b);
        let m = Self::min_spec();
        // |q| <= |a| + 1 would suffice except at the edge; argue directly
        if !S {
            lemma_div_pos_is_pos(a, b);
        } else {
            if b > 0 {
                assert(q >= m) by (nonlinear_arith)
                    requires
                        a == b * q + r,
                        0 <= r < b,
                        m <= a,
                        m < 0,
                        b > 0,
                ;
            } else {
                assert(q >= m) by (nonlinear_arith)
                    requires
                        a == b * q + r,
                        0 <= r,
                        a <= -m - 1,
                        m < 0,
                        b < 0,
                ;
            }
        }
    }

    /// `self / rhs` under the type's overflow mode (rounded towards zero). `rhs` must be
    /// nonzero.
    pub fn div(self, rhs: Self) -> (r: Self)
        requires
            rhs@ != 0,
            OM == 1 ==> Self::fits_spec(div_trunc(self@, rhs@)),
        ensures
            r@ == Self::by_mode(div_trunc(self@, rhs@)),
    {
        if OM == 0 {
            self.wrapping_div(rhs)
        } else if OM == 1 {
            self.strict_div(rhs)
        } else {
            self.saturating_div(rhs)
        }
    }

    /// `self % rhs` (sign of `self`). Under the panicking mode the quotient must not overflow.
    pub fn rem(self, rhs: Self) -> (r: Self)
        requires
            rhs@ != 0,
            OM == 1 ==> Self::fits_spec(div_trunc(self@, rhs@)),
        ensures
            r@ == rem_trunc(self@, rhs@),
    {
        if OM == 1 {
            self.strict_rem(rhs)
        } else {
            self.wrapping_rem(rhs)
        }
    }

    /// Euclidean quotient under the type's overflow mode. `rhs` must be nonzero.
    pub fn div_euclid(self, rhs: Self) -> (r: Self)
        requires
            rhs@ != 0,
            OM == 1 ==> Self::fits_spec(div_euclid(self@, rhs@)),
        ensures
            r@ == Self::by_mode(div_euclid(self@, rhs@)),
    {
        if OM == 0 {
            self.wrapping_div_euclid(rhs)
        } else if OM == 1 {
            self.strict_div_euclid(rhs)
        } else {
            self.saturating_div_euclid(rhs)
        }
    }

    /// Euclidean remainder (in `[0, |rhs|)`), as `strict_rem_euclid` whatever the overflow mode:
    /// the Euclidean quotient must not overflow (a signed minimum by `-1`).
    pub fn rem_euclid(self, rhs: Self) -> (r: Self)
        requires
            rhs@ != 0,
            Self::fits_spec(div_euclid(self@, rhs@)),
        ensures
            r@ == rem_euclid(self@, rhs@),
    {
        self.strict_rem_euclid(rhs)
    }

    /// Whether the value is zero.
    pub fn is_zero(&self) -> (r: bool)
        ensures
            r == (self@ == 0),
    {
        proof {
            use_type_invariant(self);
        }
        let z = Self::zero();
        self.eq(&z)
    }

    /// Whether the value is one.
    pub fn is_one(&self) -> (r: bool)
        ensures
            r == (self@ == 1),
    {
        proof {
            use_type_invariant(self);
        }
        let o = Self::one();
        self.eq(&o)
    }
}

} // verus!
