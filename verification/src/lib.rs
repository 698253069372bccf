//! Fixed-width integers, generic over signedness, bit width and overflow behaviour,
//! stored as little-endian byte arrays, with every operation specified against
//! mathematical integers.
pub mod overflow;
pub mod digits;
pub mod model;
pub mod raw;
pub mod errors;
pub mod integer;
pub mod literal_parse;
pub mod random;
pub mod sign;
pub mod types;
pub mod laws;
pub mod tryops;
pub mod matrix;

use vstd::prelude::*;

verus! {

} // verus!
