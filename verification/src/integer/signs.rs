//! Conversions between the signed and unsigned type of a width, absolute values, and
//! arithmetic mixing signed and unsigned operands.
use super::{Integer, Int, Uint};
use super::mul::abs_int;
use crate::model::{fits, lemma_range_facts, lemma_pow2_half, lemma_wrap, lemma_wrap_small, lemma_wrap_congruent};
use vstd::arithmetic::power2::*;
use vstd::prelude::*;

verus! {

impl<const S: bool, const N: usize, const B: usize, const OM: u8> Integer<S, N, B, OM> {
    /// The same bits read as an integer of the other signedness (value wrapped into the
    /// target's range).
    pub(crate) fn force_sign<const R: bool>(self) -> (r: Integer<R, N, B, OM>)
        ensures
            r@ == Integer::<R, N, B, OM>::wrap_spec(self@),
    {
        proof {
            use_type_invariant(&self);
            self.lemma_repr();
        }
        Integer::<R, N, B, OM>::from_wrapped(self.bytes, Ghost(self@))
    }

    /// `|self - other|`, as an unsigned integer (it always fits).
    pub fn abs_diff(self, other: Self) -> (r: Uint<N, B, OM>)
        ensures
            r@ == abs_int(self@ - other@),
    {
        proof {
            use_type_invariant(&self);
            use_type_invariant(&other);
            lemma_range_facts(S, Self::spec_bits());
            lemma_range_facts(false, Self::spec_bits());
        }
        let d = if self.lt(&other) {
            other.wrapping_sub(self)
        } else {
            self.wrapping_sub(other)
        };
        let r = d.force_sign::<false>();
        proof {
            let t = abs_int(self@ - other@);
            lemma_wrap(t, S, Self::spec_bits());
            lemma_wrap_congruent(d@, t, false, Self::spec_bits());
            lemma_wrap(t, false, Self::spec_bits());
        }
        r
    }
}

impl<const N: usize, const B: usize, const OM: u8> Uint<N, B, OM> {
    /// The same bits as a signed integer: `self` when it is below `2^(BITS-1)`, otherwise
    /// `self - 2^BITS`.
    pub fn cast_signed(self) -> (r: Int<N, B, OM>)
        ensures
            r@ == Int::<N, B, OM>::wrap_spec(self@),
    {
        self.force_sign::<true>()
    }

    /// `self + rhs` wrapped into range, and whether the true sum was out of range.
    pub fn overflowing_add_signed(self, rhs: Int<N, B, OM>) -> (r: (Self, bool))
        ensures
            r.0@ == Self::wrap_spec(self@ + rhs@),
            r.1 == !Self::fits_spec(self@ + rhs@),
    {
        proof {
            use_type_invariant(&self);
            use_type_invariant(&rhs);
            lemma_range_facts(false, Self::spec_bits());
            lemma_range_facts(true, Self::spec_bits());
            lemma_pow2_half(Self::spec_bits());
        }
        let u = rhs.force_sign::<false>();
        let out = self.wrapping_add(u);
        proof {
            lemma_wrap(rhs@, false, Self::spec_bits());
            vstd::arithmetic::div_mod::lemma_add_mod_noop(self@, u@, pow2(Self::spec_bits()) as int);
            vstd::arithmetic::div_mod::lemma_add_mod_noop(self@, rhs@, pow2(Self::spec_bits()) as int);
            lemma_wrap_congruent(self@ + u@, self@ + rhs@, false, Self::spec_bits());
            lemma_wrap_small(self@ + rhs@, false, Self::spec_bits());
        }
        let overflow = if rhs.is_negative_internal() {
            out.gt(&self)
        } else {
            out.lt(&self)
        };
        (out, overflow)
    }

    /// `self - rhs` wrapped into range, and whether the true difference was out of range.
    pub fn overflowing_sub_signed(self, rhs: Int<N, B, OM>) -> (r: (Self, bool))
        ensures
            r.0@ == Self::wrap_spec(self@ - rhs@),
            r.1 == !Self::fits_spec(self@ - rhs@),
    {
        proof {
            use_type_invariant(&self);
            use_type_invariant(&rhs);
            lemma_range_facts(false, Self::spec_bits());
            lemma_range_facts(true, Self::spec_bits());
            lemma_pow2_half(Self::spec_bits());
        }
        let u = rhs.force_sign::<false>();
        let out = self.wrapping_sub(u);
        proof {
            lemma_wrap(rhs@, false, Self::spec_bits());
            vstd::arithmetic::div_mod::lemma_sub_mod_noop(self@, u@, pow2(Self::spec_bits()) as int);
            vstd::arithmetic::div_mod::lemma_sub_mod_noop(self@, rhs@, pow2(Self::spec_bits()) as int);
            lemma_wrap_congruent(self@ - u@, self@ - rhs@, false, Self::spec_bits());
            lemma_wrap_small(self@ - rhs@, false, Self::spec_bits());
        }
        let overflow = if rhs.is_negative_internal() {
            out.lt(&self)
        } else {
            out.gt(&self)
        };
        (out, overflow)
    }
}

impl<const N: usize, const B: usize, const OM: u8> Int<N, B, OM> {
    /// The same bits as an unsigned integer: `self` modulo `2^BITS`.
    pub fn cast_unsigned(self) -> (r: Uint<N, B, OM>)
        ensures
            r@ == Uint::<N, B, OM>::wrap_spec(self@),
    {
        self.force_sign::<false>()
    }

    /// `|self|` as an unsigned integer (it always fits).
    pub fn unsigned_abs(self) -> (r: Uint<N, B, OM>)
        ensures
            r@ == abs_int(self@),
    {
        self.unsigned_abs_internal()
    }

    /// `|self|` wrapped into range, and whether it was out of range (only for the minimum).
    pub fn overflowing_abs(self) -> (r: (Self, bool))
        ensures
            r.0@ == Self::wrap_spec(abs_int(self@)),
            r.1 == !Self::fits_spec(abs_int(self@)),
    {
        if self.is_negative_internal() {
            self.overflowing_neg()
        } else {
            proof {
                use_type_invariant(&self);
                lemma_wrap(self@, true, Self::spec_bits());
            }
            (self, false)
        }
    }

    /// `|self|`, wrapping (the minimum maps to itself).
    pub fn wrapping_abs(self) -> (r: Self)
        ensures
            r@ == Self::wrap_spec(abs_int(self@)),
    {
        self.overflowing_abs().0
    }

    /// `|self|`, or `None` for the minimum.
    pub fn checked_abs(self) -> (r: Option<Self>)
        ensures
            r.is_some() == Self::fits_spec(abs_int(self@)),
            r.is_some() ==> r.unwrap()@ == abs_int(self@),
    {
        proof {
            use_type_invariant(&self);
            lemma_wrap(abs_int(self@), true, Self::spec_bits());
        }
        let (v, o) = self.overflowing_abs();
        if o {
            None
        } else {
            Some(v)
        }
    }

    /// `|self|`, clamped (the minimum maps to the maximum).
    pub fn saturating_abs(self) -> (r: Self)
        ensures
            r@ == Self::saturate_spec(abs_int(self@)),
    {
        proof {
            use_type_invariant(&self);
            lemma_range_facts(true, Self::spec_bits());
        }
        match self.checked_abs() {
            Some(v) => v,
            None => Self::max_value(),
        }
    }

    /// `|self|`; `self` must not be the minimum.
    pub fn strict_abs(self) -> (r: Self)
        requires
            Self::fits_spec(abs_int(self@)),
        ensures
            r@ == abs_int(self@),
    {
        proof {
            use_type_invariant(&self);
            lemma_wrap(abs_int(self@), true, Self::spec_bits());
        }
        self.wrapping_abs()
    }

    /// `|self|` under the type's overflow mode.
    pub fn abs(self) -> (r: Self)
        requires
            OM == 1 ==> Self::fits_spec(abs_int(self@)),
        ensures
            r@ == Self::by_mode(abs_int(self@)),
    {
        if OM == 0 {
            self.wrapping_abs()
        } else if OM == 1 {
            self.strict_abs()
        } else {
            self.saturating_abs()
        }
    }

    /// `-1`, `0` or `1` according to the sign of `self`.
    pub fn signum(self) -> (r: Self)
        ensures
            r@ == (if self@ < 0 {
                -1
            } else if self@ == 0 {
                0
            } else {
                1
            }),
    {
        proof {
            use_type_invariant(&self);
        }
        if self.is_negative_internal() {
            Self::zero().not()
        } else if self.is_zero() {
            Self::zero()
        } else {
            Self::one()
        }
    }

    /// Whether `self > 0`.
    pub fn is_positive(self) -> (r: bool)
        ensures
            r == (self@ > 0),
    {
        !self.is_negative_internal() && !self.is_zero()
    }

    /// Whether `self < 0`.
    pub fn is_negative(self) -> (r: bool)
        ensures
            r == (self@ < 0),
    {
        self.is_negative_internal()
    }

    /// `self + rhs` wrapped into range, and whether the true sum was out of range.
    pub fn overflowing_add_unsigned(self, rhs: Uint<N, B, OM>) -> (r: (Self, bool))
        ensures
            r.0@ == Self::wrap_spec(self@ + rhs@),
            r.1 == !Self::fits_spec(self@ + rhs@),
    {
        proof {
            use_type_invariant(&self);
            use_type_invariant(&rhs);
            lemma_range_facts(false, Self::spec_bits());
            lemma_range_facts(true, Self::spec_bits());
            lemma_pow2_half(Self::spec_bits());
        }
        let s = rhs.force_sign::<true>();
        let out = self.wrapping_add(s);
        proof {
            lemma_wrap(rhs@, true, Self::spec_bits());
            vstd::arithmetic::div_mod::lemma_add_mod_noop(self@, s@, pow2(Self::spec_bits()) as int);
            vstd::arithmetic::div_mod::lemma_add_mod_noop(self@, rhs@, pow2(Self::spec_bits()) as int);
            lemma_wrap_congruent(self@ + s@, self@ + rhs@, true, Self::spec_bits());
            lemma_wrap_small(self@ + rhs@, true, Self::spec_bits());
        }
        let overflow = out.lt(&self);
        (out, overflow)
    }

    /// `self - rhs` wrapped into range, and whether the true difference was out of range.
    pub fn overflowing_sub_unsigned(self, rhs: Uint<N, B, OM>) -> (r: (Self, bool))
        ensures
            r.0@ == Self::wrap_spec(self@ - rhs@),
            r.1 == !Self::fits_spec(self@ - rhs@),
    {
        proof {
            use_type_invariant(&self);
            use_type_invariant(&rhs);
            lemma_range_facts(false, Self::spec_bits());
            lemma_range_facts(true, Self::spec_bits());
            lemma_pow2_half(Self::spec_bits());
        }
        let s = rhs.force_sign::<true>();
        let out = self.wrapping_sub(s);
        proof {
            lemma_wrap(rhs@, true, Self::spec_bits());
            vstd::arithmetic::div_mod::lemma_sub_mod_noop(self@, s@, pow2(Self::spec_bits()) as int);
            vstd::arithmetic::div_mod::lemma_sub_mod_noop(self@, rhs@, pow2(Self::spec_bits()) as int);
            lemma_wrap_congruent(self@ - s@, self@ - rhs@, true, Self::spec_bits());
            lemma_wrap_small(self@ - rhs@, true, Self::spec_bits());
        }
        let overflow = out.gt(&self);
        (out, overflow)
    }
}


impl<const N: usize, const B: usize, const OM: u8> Uint<N, B, OM> {
    /// `self + rhs`, wrapping around at the type's bounds.
    pub fn wrapping_add_signed(self, rhs: Int<N, B, OM>) -> (r: Self)
        ensures
            r@ == Self::wrap_spec(self@ + rhs@),
    {
        self.overflowing_add_signed(rhs).0
    }

    /// `self + rhs`, or `None` when it is out of range.
    pub fn checked_add_signed(self, rhs: Int<N, B, OM>) -> (r: Option<Self>)
        ensures
            r.is_some() == Self::fits_spec(self@ + rhs@),
            r.is_some() ==> r.unwrap()@ == self@ + rhs@,
    {
        proof {
            use_type_invariant(&self);
            lemma_wrap(self@ + rhs@, false, Self::spec_bits());
        }
        let (v, o) = self.overflowing_add_signed(rhs);
        if o {
            None
        } else {
            Some(v)
        }
    }

    /// `self + rhs`, clamped to the type's bounds.
    pub fn saturating_add_signed(self, rhs: Int<N, B, OM>) -> (r: Self)
        ensures
            r@ == Self::saturate_spec(self@ + rhs@),
    {
        proof {
            use_type_invariant(&self);
            use_type_invariant(&rhs);
            lemma_range_facts(false, Self::spec_bits());
            lemma_range_facts(!false, Self::spec_bits());
            lemma_pow2_half(Self::spec_bits());
        }
        match self.checked_add_signed(rhs) {
            Some(v) => v,
            None => {
                if !rhs.is_negative_internal() {
                    Self::max_value()
                } else {
                    Self::min_value()
                }
            },
        }
    }

    /// `self + rhs`; the result must be representable.
    pub fn strict_add_signed(self, rhs: Int<N, B, OM>) -> (r: Self)
        requires
            Self::fits_spec(self@ + rhs@),
        ensures
            r@ == self@ + rhs@,
    {
        proof {
            use_type_invariant(&self);
            lemma_wrap(self@ + rhs@, false, Self::spec_bits());
        }
        self.wrapping_add_signed(rhs)
    }

    /// `self - rhs`, wrapping around at the type's bounds.
    pub fn wrapping_sub_signed(self, rhs: Int<N, B, OM>) -> (r: Self)
        ensures
            r@ == Self::wrap_spec(self@ - rhs@),
    {
        self.overflowing_sub_signed(rhs).0
    }

    /// `self - rhs`, or `None` when it is out of range.
    pub fn checked_sub_signed(self, rhs: Int<N, B, OM>) -> (r: Option<Self>)
        ensures
            r.is_some() == Self::fits_spec(self@ - rhs@),
            r.is_some() ==> r.unwrap()@ == self@ - rhs@,
    {
        proof {
            use_type_invariant(&self);
            lemma_wrap(self@ - rhs@, false, Self::spec_bits());
        }
        let (v, o) = self.overflowing_sub_signed(rhs);
        if o {
            None
        } else {
            Some(v)
        }
    }

    /// `self - rhs`, clamped to the type's bounds.
    pub fn saturating_sub_signed(self, rhs: Int<N, B, OM>) -> (r: Self)
        ensures
            r@ == Self::saturate_spec(self@ - rhs@),
    {
        proof {
            use_type_invariant(&self);
            use_type_invariant(&rhs);
            lemma_range_facts(false, Self::spec_bits());
            lemma_range_facts(!false, Self::spec_bits());
            lemma_pow2_half(Self::spec_bits());
        }
        match self.checked_sub_signed(rhs) {
            Some(v) => v,
            None => {
                if rhs.is_negative_internal() {
                    Self::max_value()
                } else {
                    Self::min_value()
                }
            },
        }
    }

    /// `self - rhs`; the result must be representable.
    pub fn strict_sub_signed(self, rhs: Int<N, B, OM>) -> (r: Self)
        requires
            Self::fits_spec(self@ - rhs@),
        ensures
            r@ == self@ - rhs@,
    {
        proof {
            use_type_invariant(&self);
            lemma_wrap(self@ - rhs@, false, Self::spec_bits());
        }
        self.wrapping_sub_signed(rhs)
    }

    /// `self - rhs` as a signed integer, or `None` when it does not fit.
    pub fn checked_signed_diff(self, rhs: Self) -> (r: Option<Int<N, B, OM>>)
        ensures
            r.is_some() == Int::<N, B, OM>::fits_spec(self@ - rhs@),
            r.is_some() ==> r.unwrap()@ == self@ - rhs@,
    {
        proof {
            use_type_invariant(&self);
            use_type_invariant(&rhs);
            lemma_range_facts(false, Self::spec_bits());
            lemma_range_facts(true, Self::spec_bits());
            lemma_pow2_half(Self::spec_bits());
        }
        if self.ge(&rhs) {
            let d = self.wrapping_sub(rhs);
            let lim = Int::<N, B, OM>::max_value().cast_unsigned();
            proof {
                lemma_wrap(self@ - rhs@, false, Self::spec_bits());
                lemma_wrap(Int::<N, B, OM>::max_spec(), false, Self::spec_bits());
            }
            if d.gt(&lim) {
                None
            } else {
                let r = d.cast_signed();
                proof {
                    lemma_wrap(d@, true, Self::spec_bits());
                }
                Some(r)
            }
        } else {
            let d = rhs.wrapping_sub(self);
            let lim = Int::<N, B, OM>::min_value().unsigned_abs();
            proof {
                lemma_wrap(rhs@ - self@, false, Self::spec_bits());
            }
            if d.gt(&lim) {
                None
            } else {
                let c = d.cast_signed();
                let r = c.wrapping_neg();
                proof {
                    lemma_wrap_small(d@, true, Self::spec_bits());
                    lemma_wrap_small(-c@, true, Self::spec_bits());
                }
                Some(r)
            }
        }
    }
}

impl<const N: usize, const B: usize, const OM: u8> Int<N, B, OM> {
    /// `self + rhs`, wrapping around at the type's bounds.
    pub fn wrapping_add_unsigned(self, rhs: Uint<N, B, OM>) -> (r: Self)
        ensures
            r@ == Self::wrap_spec(self@ + rhs@),
    {
        self.overflowing_add_unsigned(rhs).0
    }

    /// `self + rhs`, or `None` when it is out of range.
    pub fn checked_add_unsigned(self, rhs: Uint<N, B, OM>) -> (r: Option<Self>)
        ensures
            r.is_some() == Self::fits_spec(self@ + rhs@),
            r.is_some() ==> r.unwrap()@ == self@ + rhs@,
    {
        proof {
            use_type_invariant(&self);
            lemma_wrap(self@ + rhs@, true, Self::spec_bits());
        }
        let (v, o) = self.overflowing_add_unsigned(rhs);
        if o {
            None
        } else {
            Some(v)
        }
    }

    /// `self + rhs`, clamped to the type's bounds.
    pub fn saturating_add_unsigned(self, rhs: Uint<N, B, OM>) -> (r: Self)
        ensures
            r@ == Self::saturate_spec(self@ + rhs@),
    {
        proof {
            use_type_invariant(&self);
            use_type_invariant(&rhs);
            lemma_range_facts(true, Self::spec_bits());
            lemma_range_facts(!true, Self::spec_bits());
            lemma_pow2_half(Self::spec_bits());
        }
        match self.checked_add_unsigned(rhs) {
            Some(v) => v,
            None => {
                if true {
                    Self::max_value()
                } else {
                    Self::min_value()
                }
            },
        }
    }

    /// `self + rhs`; the result must be representable.
    pub fn strict_add_unsigned(self, rhs: Uint<N, B, OM>) -> (r: Self)
        requires
            Self::fits_spec(self@ + rhs@),
        ensures
            r@ == self@ + rhs@,
    {
        proof {
            use_type_invariant(&self);
            lemma_wrap(self@ + rhs@, true, Self::spec_bits());
        }
        self.wrapping_add_unsigned(rhs)
    }

    /// `self - rhs`, wrapping around at the type's bounds.
    pub fn wrapping_sub_unsigned(self, rhs: Uint<N, B, OM>) -> (r: Self)
        ensures
            r@ == Self::wrap_spec(self@ - rhs@),
    {
        self.overflowing_sub_unsigned(rhs).0
    }

    /// `self - rhs`, or `None` when it is out of range.
    pub fn checked_sub_unsigned(self, rhs: Uint<N, B, OM>) -> (r: Option<Self>)
        ensures
            r.is_some() == Self::fits_spec(self@ - rhs@),
            r.is_some() ==> r.unwrap()@ == self@ - rhs@,
    {
        proof {
            use_type_invariant(&self);
            lemma_wrap(self@ - rhs@, true, Self::spec_bits());
        }
        let (v, o) = self.overflowing_sub_unsigned(rhs);
        if o {
            None
        } else {
            Some(v)
        }
    }

    /// `self - rhs`, clamped to the type's bounds.
    pub fn saturating_sub_unsigned(self, rhs: Uint<N, B, OM>) -> (r: Self)
        ensures
            r@ == Self::saturate_spec(self@ - rhs@),
    {
        proof {
            use_type_invariant(&self);
            use_type_invariant(&rhs);
            lemma_range_facts(true, Self::spec_bits());
            lemma_range_facts(!true, Self::spec_bits());
            lemma_pow2_half(Self::spec_bits());
        }
        match self.checked_sub_unsigned(rhs) {
            Some(v) => v,
            None => {
                if false {
                    Self::max_value()
                } else {
                    Self::min_value()
                }
            },
        }
    }

    /// `self - rhs`; the result must be representable.
    pub fn strict_sub_unsigned(self, rhs: Uint<N, B, OM>) -> (r: Self)
        requires
            Self::fits_spec(self@ - rhs@),
        ensures
            r@ == self@ - rhs@,
    {
        proof {
            use_type_invariant(&self);
            lemma_wrap(self@ - rhs@, true, Self::spec_bits());
        }
        self.wrapping_sub_unsigned(rhs)
    }
}

} // verus!
