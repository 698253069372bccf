//! Addition, subtraction and negation, in every overflow flavour.
use super::{Integer, Int};
use crate::digits::{le_value, radix_pow, lemma_le_value_bound};
use crate::model::{fits, lemma_wrap_small, lemma_mod_of_carry, lemma_range_facts, lemma_pow2_half};
use crate::raw::{raw_add, raw_sub, uval, bit_value};
use vstd::arithmetic::div_mod::*;
use vstd::arithmetic::mul::*;
use vstd::prelude::*;

verus! {

impl<const S: bool, const N: usize, const B: usize, const OM: u8> Integer<S, N, B, OM> {
    /// `self + rhs` wrapped into range, and whether the true sum was out of range.
    pub fn overflowing_add(self, rhs: Self) -> (r: (Self, bool))
        ensures
            r.0@ == Self::wrap_spec(self@ + rhs@),
            r.1 == !Self::fits_spec(self@ + rhs@),
    {
        proof {
            use_type_invariant(&self);
            use_type_invariant(&rhs);
            self.lemma_repr();
            rhs.lemma_repr();
        }
        let (raw, carry) = raw_add(&self.bytes, &rhs.bytes, false);
        let ghost rr = radix_pow(N as nat) as int;
        proof {
            lemma_le_value_bound(raw@);
            lemma_mul_basics(rr);
            lemma_mod_of_carry(uval(raw) as int, bit_value(carry) as int, rr, (uval(self.bytes) + uval(rhs.bytes)) as int);
            lemma_add_mod_noop(self@, rhs@, rr);
        }
        let out = Self::from_wrapped(raw, Ghost(self@ + rhs@));
        proof {
            lemma_range_facts(S, Self::spec_bits());
            lemma_pow2_half(Self::spec_bits());
            lemma_wrap_small(self@ + rhs@, S, Self::spec_bits());
        }
        let overflow = if S {
            let a = self.is_negative_internal();
            let b = rhs.is_negative_internal();
            let o = out.is_negative_internal();
            a == b && o != a
        } else {
            out.lt(&self)
        };
        (out, overflow)
    }

    /// `self - rhs` wrapped into range, and whether the true difference was out of range.
    pub fn overflowing_sub(self, rhs: Self) -> (r: (Self, bool))
        ensures
            r.0@ == Self::wrap_spec(self@ - rhs@),
            r.1 == !Self::fits_spec(self@ - rhs@),
    {
        proof {
            use_type_invariant(&self);
            use_type_invariant(&rhs);
            self.lemma_repr();
            rhs.lemma_repr();
        }
        let (raw, borrow) = raw_sub(&self.bytes, &rhs.bytes, false);
        let ghost rr = radix_pow(N as nat) as int;
        proof {
            lemma_le_value_bound(raw@);
            lemma_mul_basics(rr);
            assert(-bit_value(borrow) * rr == -(bit_value(borrow) * rr)) by (nonlinear_arith);
            lemma_mod_of_carry(uval(raw) as int, -bit_value(borrow), rr, uval(self.bytes) - uval(rhs.bytes));
            lemma_sub_mod_noop(self@, rhs@, rr);
        }
        let out = Self::from_wrapped(raw, Ghost(self@ - rhs@));
        proof {
            lemma_range_facts(S, Self::spec_bits());
            lemma_pow2_half(Self::spec_bits());
            lemma_wrap_small(self@ - rhs@, S, Self::spec_bits());
        }
        let overflow = if S {
            let a = self.is_negative_internal();
            let b = rhs.is_negative_internal();
            let o = out.is_negative_internal();
            a != b && o != a
        } else {
            self.lt(&rhs)
        };
        (out, overflow)
    }

    /// `-self` wrapped into range, and whether `-self` was out of range (for unsigned types,
    /// whether `self` is nonzero; for signed types, whether `self` is the minimum).
    pub fn overflowing_neg(self) -> (r: (Self, bool))
        ensures
            r.0@ == Self::wrap_spec(-self@),
            r.1 == !Self::fits_spec(-self@),
    {
        proof {
            use_type_invariant(&self);
        }
        Self::zero().overflowing_sub(self)
    }

    /// `self + rhs` wrapping around at the type's bounds.
    pub fn wrapping_add(self, rhs: Self) -> (r: Self)
        ensures
            r@ == Self::wrap_spec(self@ + rhs@),
    {
        self.overflowing_add(rhs).0
    }

    /// `self - rhs` wrapping around at the type's bounds.
    pub fn wrapping_sub(self, rhs: Self) -> (r: Self)
        ensures
            r@ == Self::wrap_spec(self@ - rhs@),
    {
        self.overflowing_sub(rhs).0
    }

    /// `-self` wrapping around at the type's bounds.
    pub fn wrapping_neg(self) -> (r: Self)
        ensures
            r@ == Self::wrap_spec(-self@),
    {
        self.overflowing_neg().0
    }

    /// `self + rhs`, or `None` when it is out of range.
    pub fn checked_add(self, rhs: Self) -> (r: Option<Self>)
        ensures
            r.is_some() == Self::fits_spec(self@ + rhs@),
            r.is_some() ==> r.unwrap()@ == self@ + rhs@,
    {
        let (v, o) = self.overflowing_add(rhs);
        proof {
            use_type_invariant(&self);
            crate::model::lemma_wrap(self@ + rhs@, S, Self::spec_bits());
        }
        if o {
            None
        } else {
            Some(v)
        }
    }

    /// `self - rhs`, or `None` when it is out of range.
    pub fn checked_sub(self, rhs: Self) -> (r: Option<Self>)
        ensures
            r.is_some() == Self::fits_spec(self@ - rhs@),
            r.is_some() ==> r.unwrap()@ == self@ - rhs@,
    {
        let (v, o) = self.overflowing_sub(rhs);
        proof {
            use_type_invariant(&self);
            crate::model::lemma_wrap(self@ - rhs@, S, Self::spec_bits());
        }
        if o {
            None
        } else {
            Some(v)
        }
    }

    /// `-self`, or `None` when it is out of range.
    pub fn checked_neg(self) -> (r: Option<Self>)
        ensures
            r.is_some() == Self::fits_spec(-self@),
            r.is_some() ==> r.unwrap()@ == -self@,
    {
        let (v, o) = self.overflowing_neg();
        proof {
            use_type_invariant(&self);
            crate::model::lemma_wrap(-self@, S, Self::spec_bits());
        }
        if o {
            None
        } else {
            Some(v)
        }
    }

    /// `self + rhs`, clamped to the type's bounds.
    pub fn saturating_add(self, rhs: Self) -> (r: Self)
        ensures
            r@ == Self::saturate_spec(self@ + rhs@),
    {
        proof {
            use_type_invariant(&self);
            use_type_invariant(&rhs);
            lemma_range_facts(S, Self::spec_bits());
        }
        match self.checked_add(rhs) {
            Some(v) => v,
            None => {
                if self.is_negative_internal() {
                    Self::min_value()
                } else {
                    Self::max_value()
                }
            },
        }
    }

    /// `self - rhs`, clamped to the type's bounds.
    pub fn saturating_sub(self, rhs: Self) -> (r: Self)
        ensures
            r@ == Self::saturate_spec(self@ - rhs@),
    {
        proof {
            use_type_invariant(&self);
            use_type_invariant(&rhs);
            lemma_range_facts(S, Self::spec_bits());
        }
        match self.checked_sub(rhs) {
            Some(v) => v,
            None => {
                if S && !self.is_negative_internal() {
                    Self::max_value()
                } else {
                    Self::min_value()
                }
            },
        }
    }

    /// `self + rhs`; the sum must be representable.
    pub fn strict_add(self, rhs: Self) -> (r: Self)
        requires
            Self::fits_spec(self@ + rhs@),
        ensures
            r@ == self@ + rhs@,
    {
        proof {
            use_type_invariant(&self);
            crate::model::lemma_wrap(self@ + rhs@, S, Self::spec_bits());
        }
        self.wrapping_add(rhs)
    }

    /// `self - rhs`; the difference must be representable.
    pub fn strict_sub(self, rhs: Self) -> (r: Self)
        requires
            Self::fits_spec(self@ - rhs@),
        ensures
            r@ == self@ - rhs@,
    {
        proof {
            use_type_invariant(&self);
            crate::model::lemma_wrap(self@ - rhs@, S, Self::spec_bits());
        }
        self.wrapping_sub(rhs)
    }

    /// `-self`; the negation must be representable.
    pub fn strict_neg(self) -> (r: Self)
        requires
            Self::fits_spec(-self@),
        ensures
            r@ == -self@,
    {
        proof {
            use_type_invariant(&self);
            crate::model::lemma_wrap(-self@, S, Self::spec_bits());
        }
        self.wrapping_neg()
    }

    /// `self + rhs` under the type's overflow mode: wrapping, panicking (so the sum must be
    /// representable) or saturating.
    pub fn add(self, rhs: Self) -> (r: Self)
        requires
            OM == 1 ==> Self::fits_spec(self@ + rhs@),
        ensures
            r@ == Self::by_mode(self@ + rhs@),
    {
        if OM == 0 {
            self.wrapping_add(rhs)
        } else if OM == 1 {
            self.strict_add(rhs)
        } else {
            self.saturating_add(rhs)
        }
    }

    /// `self - rhs` under the type's overflow mode.
    pub fn sub(self, rhs: Self) -> (r: Self)
        requires
            OM == 1 ==> Self::fits_spec(self@ - rhs@),
        ensures
            r@ == Self::by_mode(self@ - rhs@),
    {
        if OM == 0 {
            self.wrapping_sub(rhs)
        } else if OM == 1 {
            self.strict_sub(rhs)
        } else {
            self.saturating_sub(rhs)
        }
    }
}

impl<const N: usize, const B: usize, const OM: u8> Int<N, B, OM> {
    /// `-self`, clamped to the type's bounds (the minimum maps to the maximum).
    pub fn saturating_neg(self) -> (r: Self)
        ensures
            r@ == Self::saturate_spec(-self@),
    {
        proof {
            use_type_invariant(&self);
            lemma_range_facts(true, Self::spec_bits());
        }
        match self.checked_neg() {
            Some(v) => v,
            None => Self::max_value(),
        }
    }

    /// `-self` under the type's overflow mode.
    pub fn neg(self) -> (r: Self)
        requires
            OM == 1 ==> Self::fits_spec(-self@),
        ensures
            r@ == Self::by_mode(-self@),
    {
        if OM == 0 {
            self.wrapping_neg()
        } else if OM == 1 {
            self.strict_neg()
        } else {
            self.saturating_neg()
        }
    }
}

} // verus!
