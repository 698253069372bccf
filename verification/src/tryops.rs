//! Fallible arithmetic, for types that report overflow and other failures as errors.
use vstd::prelude::*;

verus! {

/// Arithmetic operations that return an error in place of overflowing, dividing by zero or
/// shifting too far.
pub trait TryOps where Self: Sized {
    /// What a failed operation reports.
    type Error;

    fn try_add(self, rhs: Self) -> Result<Self, Self::Error>;

    fn try_div(self, rhs: Self) -> Result<Self, Self::Error>;

    fn try_mul(self, rhs: Self) -> Result<Self, Self::Error>;

    fn try_pow(self, exp: u32) -> Result<Self, Self::Error>;

    fn try_rem(self, rhs: Self) -> Result<Self, Self::Error>;

    fn try_shl(self, rhs: u32) -> Result<Self, Self::Error>;

    fn try_shr(self, rhs: u32) -> Result<Self, Self::Error>;

    fn try_sub(self, rhs: Self) -> Result<Self, Self::Error>;
}

} // verus!
