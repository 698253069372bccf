//! The three overflow behaviours an integer type can have.
use vstd::prelude::*;
use vstd::string::StringSliceAdditionalSpecFns;

verus! {

/// Byte-wise equality of two string slices.
pub fn str_eq(a: &str, b: &str) -> (r: bool)
    ensures
        r == (a.spec_bytes() == b.spec_bytes()),
{
    let ab = a.as_bytes();
    let bb = b.as_bytes();
    if ab.len() != bb.len() {
        return false;
    }
    let mut i: usize = 0;
    while i < ab.len()
        invariant
            ab.len() == bb.len(),
            ab@ == a.spec_bytes(),
            bb@ == b.spec_bytes(),
            0 <= i <= ab.len(),
            forall|j: int| 0 <= j < i ==> ab@[j] == bb@[j],
        decreases ab.len() - i,
    {
        if ab[i] != bb[i] {
            assert(ab@[i as int] != bb@[i as int]);
            return false;
        }
        i += 1;
    }
    proof {
        assert(ab@ =~= bb@);
    }
    true
}

/// What an arithmetic operation does when its true result is not representable.
/// * `Wrap`: the result wraps around modulo `2^BITS`.
/// * `Panic`: the operation panics.
/// * `Saturate`: the result is clamped to the type's minimum or maximum.
#[derive(Clone, Copy, Debug, Hash, PartialEq, Eq, Structural)]
pub enum OverflowMode {
    Wrap,
    Panic,
    Saturate,
}

impl OverflowMode {
    /// The number that selects this mode in an integer type's `OM` parameter.
    pub open spec fn spec_to_u8(self) -> u8 {
        match self {
            OverflowMode::Wrap => 0,
            OverflowMode::Panic => 1,
            OverflowMode::Saturate => 2,
        }
    }

    /// The number that selects this mode in an integer type's `OM` parameter.
    pub fn to_u8(self) -> (r: u8)
        ensures
            r == self.spec_to_u8(),
    {
        match self {
            OverflowMode::Wrap => 0,
            OverflowMode::Panic => 1,
            OverflowMode::Saturate => 2,
        }
    }

    /// The mode selected by `om`, which must be 0, 1 or 2.
    pub open spec fn spec_from_u8(om: u8) -> OverflowMode {
        if om == 0 {
            OverflowMode::Wrap
        } else if om == 1 {
            OverflowMode::Panic
        } else {
            OverflowMode::Saturate
        }
    }

    /// The mode selected by `om`.
    pub fn from_u8(om: u8) -> (r: OverflowMode)
        requires
            om <= 2,
        ensures
            r == Self::spec_from_u8(om),
            r.spec_to_u8() == om,
    {
        if om == 0 {
            OverflowMode::Wrap
        } else if om == 1 {
            OverflowMode::Panic
        } else {
            OverflowMode::Saturate
        }
    }

    /// The mode of types whose `OM` parameter is left at its default: like Rust's primitive
    /// integers built with overflow checks, arithmetic overflow panics.
    pub fn default_mode() -> (r: OverflowMode)
        ensures
            r == OverflowMode::Panic,
    {
        OverflowMode::Panic
    }
}

} // verus!
