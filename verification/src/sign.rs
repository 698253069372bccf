//! The sign of a number: negative, zero or positive.
use vstd::prelude::*;

verus! {

/// The sign of a number.
#[derive(Clone, Copy, Debug, PartialEq, Eq, Structural, PartialOrd, Ord)]
pub enum Sign {
    Minus,
    Zero,
    Plus,
}

/// The sign as `-1`, `0` or `1`.
pub open spec fn sign_value(s: Sign) -> int {
    match s {
        Sign::Minus => -1,
        Sign::Zero => 0,
        Sign::Plus => 1,
    }
}

impl Default for Sign {
    /// `Zero`.
    fn default() -> (r: Self)
        ensures
            r == Sign::Zero,
    {
        Sign::Zero
    }
}

impl Sign {
    /// The opposite sign: the sign of `-x` for `x` of sign `self`.
    pub fn negate(&self) -> (r: Self)
        ensures
            sign_value(r) == -sign_value(*self),
    {
        match self {
            Sign::Minus => Sign::Plus,
            Sign::Zero => Sign::Zero,
            Sign::Plus => Sign::Minus,
        }
    }

    /// The sign of a product: the sign of `x * y` for `x` of sign `self` and `y` of sign
    /// `other`.
    pub fn combine(&self, other: Self) -> (r: Self)
        ensures
            sign_value(r) == sign_value(*self) * sign_value(other),
    {
        match self {
            Sign::Minus => other.negate(),
            Sign::Zero => Sign::Zero,
            Sign::Plus => other,
        }
    }

    /// The sign of the bitwise complement: the sign of `-1 - x` for `x` of sign `self`.
    pub fn not(&self) -> (r: Self)
        ensures
            r == (if sign_value(*self) >= 0 { Sign::Minus } else { Sign::Plus }),
    {
        match self {
            Sign::Minus => Sign::Plus,
            Sign::Zero => Sign::Minus,
            Sign::Plus => Sign::Minus,
        }
    }

    /// The sign of a bitwise AND of two's complement numbers: zero when either is zero,
    /// negative when both are negative, positive otherwise.
    pub fn bit_and(&self, other: Self) -> (r: Self)
        ensures
            r == (if *self == Sign::Zero || other == Sign::Zero {
                Sign::Zero
            } else if *self == Sign::Minus && other == Sign::Minus {
                Sign::Minus
            } else {
                Sign::Plus
            }),
    {
        match (self, other) {
            (Sign::Zero, _) => Sign::Zero,
            (_, Sign::Zero) => Sign::Zero,
            (Sign::Minus, Sign::Minus) => Sign::Minus,
            _ => Sign::Plus,
        }
    }
}

} // verus!
