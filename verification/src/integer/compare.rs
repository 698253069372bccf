//! Equality and ordering.
use super::Integer;
use crate::digits::{le_value, radix_pow};
use crate::raw::{raw_eq, raw_lt};
use core::cmp::Ordering;
use vstd::prelude::*;
use vstd::std_specs::cmp::PartialEqSpecImpl;

verus! {

impl<const S: bool, const N: usize, const B: usize, const OM: u8> Integer<S, N, B, OM> {
    /// Two integers of a type are equal exactly when their bytes are.
    pub(crate) proof fn lemma_eq_bytes(self, other: Self)
        requires
            self.wf(),
            other.wf(),
        ensures
            (self@ == other@) == (self.bytes@ == other.bytes@),
            (self@ == other@) == (le_value(self.bytes@) == le_value(other.bytes@)),
    {
        self.lemma_repr();
        other.lemma_repr();
    }

    /// `self == other`.
    pub fn eq(&self, other: &Self) -> (r: bool)
        ensures
            r == (self@ == other@),
    {
        proof {
            use_type_invariant(self);
            use_type_invariant(other);
            self.lemma_eq_bytes(*other);
        }
        raw_eq(&self.bytes, &other.bytes)
    }

    /// `self != other`.
    pub fn ne(&self, other: &Self) -> (r: bool)
        ensures
            r == (self@ != other@),
    {
        !self.eq(other)
    }

    /// `self < other`.
    pub fn lt(&self, other: &Self) -> (r: bool)
        ensures
            r == (self@ < other@),
    {
        proof {
            use_type_invariant(self);
            use_type_invariant(other);
            self.lemma_repr();
            other.lemma_repr();
            crate::digits::lemma_le_value_bound(self.bytes@);
            crate::digits::lemma_le_value_bound(other.bytes@);
        }
        let a_neg = self.is_negative_internal();
        let b_neg = other.is_negative_internal();
        if a_neg != b_neg {
            a_neg
        } else {
            raw_lt(&self.bytes, &other.bytes)
        }
    }

    /// `self <= other`.
    pub fn le(&self, other: &Self) -> (r: bool)
        ensures
            r == (self@ <= other@),
    {
        !other.lt(self)
    }

    /// `self > other`.
    pub fn gt(&self, other: &Self) -> (r: bool)
        ensures
            r == (self@ > other@),
    {
        other.lt(self)
    }

    /// `self >= other`.
    pub fn ge(&self, other: &Self) -> (r: bool)
        ensures
            r == (self@ >= other@),
    {
        !self.lt(other)
    }

    /// The larger of the two values (`other` when they are equal).
    pub fn max(self, other: Self) -> (r: Self)
        ensures
            r@ == (if self@ <= other@ {
                other@
            } else {
                self@
            }),
    {
        if self.le(&other) {
            other
        } else {
            self
        }
    }

    /// The smaller of the two values (`self` when they are equal).
    pub fn min(self, other: Self) -> (r: Self)
        ensures
            r@ == (if self@ <= other@ {
                self@
            } else {
                other@
            }),
    {
        if self.le(&other) {
            self
        } else {
            other
        }
    }

    /// `self` restricted to the interval `[min, max]`; `min` must not exceed `max`.
    pub fn clamp(self, min: Self, max: Self) -> (r: Self)
        requires
            min@ <= max@,
        ensures
            r@ == (if self@ < min@ {
                min@
            } else if self@ > max@ {
                max@
            } else {
                self@
            }),
    {
        if self.lt(&min) {
            min
        } else if self.gt(&max) {
            max
        } else {
            self
        }
    }

    /// Three-way comparison.
    pub fn cmp(&self, other: &Self) -> (r: Ordering)
        ensures
            (r == Ordering::Less) == (self@ < other@),
            (r == Ordering::Equal) == (self@ == other@),
            (r == Ordering::Greater) == (self@ > other@),
    {
        if self.lt(other) {
            Ordering::Less
        } else if self.eq(other) {
            Ordering::Equal
        } else {
            Ordering::Greater
        }
    }
}

impl<const S: bool, const N: usize, const B: usize, const OM: u8> PartialEq for Integer<S, N, B, OM> {
    fn eq(&self, other: &Self) -> (r: bool) {
        Integer::eq(self, other)
    }
}

impl<const S: bool, const N: usize, const B: usize, const OM: u8> PartialEqSpecImpl for Integer<S, N, B, OM> {
    open spec fn obeys_eq_spec() -> bool {
        true
    }

    open spec fn eq_spec(&self, other: &Self) -> bool {
        self@ == other@
    }
}

} // verus!
