//! Type aliases for common widths of unsigned and signed integers, with the default
//! (panicking) overflow behaviour.
use crate::integer::{Int, Uint};
use vstd::prelude::*;

verus! {

/// 128-bit unsigned integer type.
pub type U128 = Uint<16, 0, 1>;

/// 128-bit signed integer type.
pub type I128 = Int<16, 0, 1>;

/// 256-bit unsigned integer type.
pub type U256 = Uint<32, 0, 1>;

/// 256-bit signed integer type.
pub type I256 = Int<32, 0, 1>;

/// 512-bit unsigned integer type.
pub type U512 = Uint<64, 0, 1>;

/// 512-bit signed integer type.
pub type I512 = Int<64, 0, 1>;

/// 1024-bit unsigned integer type.
pub type U1024 = Uint<128, 0, 1>;

/// 1024-bit signed integer type.
pub type I1024 = Int<128, 0, 1>;

/// 2048-bit unsigned integer type.
pub type U2048 = Uint<256, 0, 1>;

/// 2048-bit signed integer type.
pub type I2048 = Int<256, 0, 1>;

/// 4096-bit unsigned integer type.
pub type U4096 = Uint<512, 0, 1>;

/// 4096-bit signed integer type.
pub type I4096 = Int<512, 0, 1>;

/// 8192-bit unsigned integer type.
pub type U8192 = Uint<1024, 0, 1>;

/// 8192-bit signed integer type.
pub type I8192 = Int<1024, 0, 1>;

} // verus!
