//! The errors returned by parsing and by fallible conversions.
use vstd::prelude::*;

verus! {

/// Why a string or slice could not be parsed as an integer.
#[derive(Clone, Copy, Debug, PartialEq, Eq, Structural)]
pub enum IntErrorKind {
    /// The input was empty.
    Empty,
    /// The input held a character that is not a digit of the radix (or a lone sign).
    InvalidDigit,
    /// The value is too large for the type.
    PosOverflow,
    /// The value is too small for the type.
    NegOverflow,
    /// The value was zero where zero is not allowed.
    Zero,
}

/// The error returned when parsing an integer fails.
#[derive(Clone, Copy, Debug, PartialEq, Eq, Structural)]
pub struct ParseIntError {
    pub kind: IntErrorKind,
}

impl ParseIntError {
    /// The cause of the error.
    pub fn kind(&self) -> (r: &IntErrorKind)
        ensures
            *r == self.kind,
    {
        &self.kind
    }

    /// A description of the error.
    pub fn to_string(&self) -> (r: String)
        ensures
            r@ == parse_error_message(self.kind)@,
    {
        match self.kind {
            IntErrorKind::Empty => "cannot parse integer from empty string".to_owned(),
            IntErrorKind::InvalidDigit => "invalid digit found in string".to_owned(),
            IntErrorKind::PosOverflow => "number too large to fit in target type".to_owned(),
            IntErrorKind::NegOverflow => "number too small to fit in target type".to_owned(),
            IntErrorKind::Zero => "number would be zero for non-zero type".to_owned(),
        }
    }
}

/// The message that describes a parse error of the given kind.
pub open spec fn parse_error_message(kind: IntErrorKind) -> &'static str {
    match kind {
        IntErrorKind::Empty => "cannot parse integer from empty string",
        IntErrorKind::InvalidDigit => "invalid digit found in string",
        IntErrorKind::PosOverflow => "number too large to fit in target type",
        IntErrorKind::NegOverflow => "number too small to fit in target type",
        IntErrorKind::Zero => "number would be zero for non-zero type",
    }
}

/// The error returned when a conversion between integer types fails because the value is out
/// of the target's range.
#[derive(Clone, Copy, Debug, PartialEq, Eq, Structural)]
pub struct TryFromIntError;

impl TryFromIntError {
    /// A description of the error.
    pub fn to_string(&self) -> (r: String)
        ensures
            r@ == "out of range integral type conversion attempted"@,
    {
        "out of range integral type conversion attempted".to_owned()
    }
}

/// The error returned when a `char` does not fit in the target integer type.
#[derive(Clone, Copy, Debug, PartialEq, Eq, Structural)]
pub struct TryFromCharError;

impl TryFromCharError {
    /// A description of the error.
    pub fn to_string(&self) -> (r: String)
        ensures
            r@ == "unicode code point out of range"@,
    {
        "unicode code point out of range".to_owned()
    }
}

} // verus!
