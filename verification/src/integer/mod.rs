//! The generic fixed-width integer type and the facts that tie its bytes to its value.
use crate::digits::{le_value, radix_pow, le_bytes_of, lemma_le_bytes_of_value, lemma_le_value_bound, lemma_le_value_top};
use crate::model::{decode, fits, wrap, saturate, min_of, max_of, lemma_wrap, lemma_wrap_mod_wider, lemma_fits_wider, lemma_decode_encode, lemma_decode_fits, lemma_pow2_half, lemma_range_facts};
use crate::overflow::OverflowMode;
use crate::raw::{uval, fix_pad, raw_zero, raw_ones, raw_pow2, raw_sub, bit_value};
use vstd::arithmetic::div_mod::*;
use vstd::arithmetic::power2::*;
use vstd::prelude::*;

pub mod arith;
pub mod compare;
pub mod mul;
pub mod div;
pub mod bits;
pub mod pow;
pub mod signs;
pub mod logs;
pub mod math;
pub mod bytes;
pub mod bigint_helpers;
pub mod bitwise;
pub mod radix;
pub mod convert;
pub mod number_theory;

verus! {

/// A fixed-size integer type, generic over signedness (`S`), storage size in bytes (`N`),
/// bit width (`B`, where `0` means `8 * N`) and overflow behaviour (`OM`: 0 wraps, 1 panics,
/// 2 saturates).
///
/// The bytes are stored in little-endian order. When the bit width is not a multiple of 8, the
/// unused high bits of the last byte hold copies of the sign bit (signed) or zeros (unsigned).
#[derive(Clone, Copy, Debug, Eq, Hash)]
pub struct Integer<const S: bool, const N: usize, const B: usize, const OM: u8> {
    pub(crate) bytes: [u8; N],
}

/// Unsigned integer type with const-generic size, bit width and overflow behaviour.
pub type Uint<const N: usize, const B: usize, const OM: u8> = Integer<false, N, B, OM>;

/// Signed integer type with const-generic size, bit width and overflow behaviour.
pub type Int<const N: usize, const B: usize, const OM: u8> = Integer<true, N, B, OM>;

impl<const S: bool, const N: usize, const B: usize, const OM: u8> View for Integer<S, N, B, OM> {
    type V = int;

    /// The mathematical value of the integer.
    open spec fn view(&self) -> int {
        self.value()
    }
}

impl<const S: bool, const N: usize, const B: usize, const OM: u8> Integer<S, N, B, OM> {
    /// The bit width of the type.
    pub open spec fn spec_bits() -> nat {
        if B == 0 {
            (8 * N) as nat
        } else {
            B as nat
        }
    }

    /// The const-generic parameters describe a valid integer type: at least one byte, a bit
    /// width between 2 and `u32::MAX` that needs exactly `N` bytes, and an overflow mode of 0,
    /// 1 or 2.
    pub open spec fn valid_params() -> bool {
        &&& N >= 1
        &&& 8 * N <= u32::MAX
        &&& (B == 0 || (8 * (N - 1) < B && B <= 8 * N))
        &&& Self::spec_bits() >= 2
        &&& OM <= 2
    }

    pub open(crate) spec fn value(self) -> int {
        decode(le_value(self.bytes@), S, N as nat)
    }

    pub(crate) open spec fn wf(self) -> bool {
        Self::valid_params() && fits(self.value(), S, Self::spec_bits())
    }

    #[verifier::type_invariant]
    pub(crate) open spec fn inv(self) -> bool {
        self.wf()
    }

    /// The smallest value of the type.
    pub open spec fn min_spec() -> int {
        min_of(S, Self::spec_bits())
    }

    /// The largest value of the type.
    pub open spec fn max_spec() -> int {
        max_of(S, Self::spec_bits())
    }

    /// Whether `v` is a value of the type.
    pub open spec fn fits_spec(v: int) -> bool {
        fits(v, S, Self::spec_bits())
    }

    /// `v` wrapped around into the type's range.
    pub open spec fn wrap_spec(v: int) -> int {
        wrap(v, S, Self::spec_bits())
    }

    /// `v` clamped into the type's range.
    pub open spec fn saturate_spec(v: int) -> int {
        saturate(v, S, Self::spec_bits())
    }

    /// The little-endian bytes that store a value of the type.
    pub open spec fn bytes_of(v: int) -> Seq<u8> {
        le_bytes_of((v % (radix_pow(N as nat) as int)) as nat, N as nat)
    }

    /// The result of an operation under the type's overflow mode: wrapped, exact (the
    /// panicking mode admits only representable results) or saturated.
    pub open spec fn by_mode(v: int) -> int {
        if OM == 0 {
            Self::wrap_spec(v)
        } else if OM == 1 {
            v
        } else {
            Self::saturate_spec(v)
        }
    }

    /// The stored bytes encode the value.
    pub(crate) proof fn lemma_repr(self)
        requires
            self.wf(),
        ensures
            le_value(self.bytes@) == self@ % (radix_pow(N as nat) as int),
            self.bytes@ == Self::bytes_of(self@),
            self@ % (radix_pow(N as nat) as int) >= 0,
            Self::fits_spec(self@),
            fits(self@, S, (8 * N) as nat),
            Self::valid_params(),
            pow2((8 * N) as nat) == radix_pow(N as nat),
            Self::spec_bits() <= 8 * N,
            Self::spec_bits() >= 2,
    {
        lemma_le_value_bound(self.bytes@);
        lemma_decode_fits(le_value(self.bytes@), S, N as nat);
        lemma_le_bytes_of_value(self.bytes@);
    }

    /// Builds the integer whose bytes encode the representable value `v`.
    pub(crate) fn from_raw(bytes: [u8; N], Ghost(v): Ghost<int>) -> (r: Self)
        requires
            Self::valid_params(),
            Self::fits_spec(v),
            le_value(bytes@) == v % (radix_pow(N as nat) as int),
        ensures
            r@ == v,
            r.bytes == bytes,
    {
        proof {
            lemma_fits_wider(v, S, Self::spec_bits(), (8 * N) as nat);
            lemma_decode_encode(v, S, N as nat);
        }
        Self { bytes }
    }

    /// Builds the integer holding `t` wrapped into range, from bytes holding `t` modulo `2^(8N)`.
    pub(crate) fn from_wrapped(raw: [u8; N], Ghost(t): Ghost<int>) -> (r: Self)
        requires
            Self::valid_params(),
            uval(raw) == t % (radix_pow(N as nat) as int),
        ensures
            r@ == Self::wrap_spec(t),
    {
        let bits = Self::bits_u32();
        let fixed = fix_pad(raw, S, bits);
        proof {
            lemma_wrap_mod_wider(t, S, bits as nat, (8 * N) as nat);
            lemma_wrap(t, S, bits as nat);
        }
        Self::from_raw(fixed, Ghost(wrap(t, S, bits as nat)))
    }

    /// The bit width, for use in code.
    pub(crate) fn bits_u32() -> (r: u32)
        requires
            Self::valid_params(),
        ensures
            r == Self::spec_bits(),
    {
        if B == 0 {
            (8 * N) as u32
        } else {
            B as u32
        }
    }

    /// The total number of bits that this type contains.
    #[allow(non_snake_case)]
    pub fn BITS() -> (r: u32)
        requires
            Self::valid_params(),
        ensures
            r == Self::spec_bits(),
    {
        Self::bits_u32()
    }

    /// The number of bytes needed to store a value of this type.
    #[allow(non_snake_case)]
    pub fn BYTES() -> (r: u32)
        requires
            Self::valid_params(),
        ensures
            r == N,
            8 * (r - 1) < Self::spec_bits() <= 8 * r,
    {
        N as u32
    }

    /// The overflow behaviour selected by `OM`.
    #[allow(non_snake_case)]
    pub fn OVERFLOW_MODE() -> (r: OverflowMode)
        requires
            Self::valid_params(),
        ensures
            r.spec_to_u8() == OM,
    {
        OverflowMode::from_u8(OM)
    }

    /// The value `0`.
    pub fn zero() -> (r: Self)
        requires
            Self::valid_params(),
        ensures
            r@ == 0,
    {
        let z: [u8; N] = raw_zero();
        proof {
            lemma_range_facts(S, Self::spec_bits());
            lemma_radix_pow_pos_local(N as nat);
        }
        Self::from_raw(z, Ghost(0))
    }

    /// The value `1`.
    pub fn one() -> (r: Self)
        requires
            Self::valid_params(),
        ensures
            r@ == 1,
    {
        let z: [u8; N] = raw_pow2(0);
        proof {
            lemma2_to64();
            lemma_pow2_half(Self::spec_bits());
            if Self::spec_bits() > 2 {
                lemma_pow2_strictly_increases(1, (Self::spec_bits() - 1) as nat);
            }
            lemma_pow2_strictly_increases(0, 8 * N as nat);
            lemma_small_mod(1, radix_pow(N as nat));
        }
        Self::from_raw(z, Ghost(1))
    }

    /// The smallest value of the type: `0` when unsigned, `-2^(BITS - 1)` when signed.
    pub fn min_value() -> (r: Self)
        requires
            Self::valid_params(),
        ensures
            r@ == Self::min_spec(),
    {
        proof {
            lemma_range_facts(S, Self::spec_bits());
        }
        if S {
            let bits = Self::bits_u32();
            let p: [u8; N] = raw_pow2(bits - 1);
            proof {
                lemma_pow2_half(bits as nat);
                lemma_pow2_strictly_increases((bits - 1) as nat, 8 * N as nat);
                lemma_small_mod(pow2((bits - 1) as nat), radix_pow(N as nat));
            }
            let r = Self::from_wrapped(p, Ghost(pow2((bits - 1) as nat) as int));
            proof {
                lemma_wrap(pow2((bits - 1) as nat) as int - pow2(bits as nat), S, bits as nat);
                lemma_mod_sub_multiples_vanish(pow2((bits - 1) as nat) as int, pow2(bits as nat) as int);
            }
            r
        } else {
            Self::zero()
        }
    }

    /// The largest value of the type: `2^BITS - 1` when unsigned, `2^(BITS - 1) - 1` when signed.
    pub fn max_value() -> (r: Self)
        requires
            Self::valid_params(),
        ensures
            r@ == Self::max_spec(),
    {
        let bits = Self::bits_u32();
        proof {
            lemma_range_facts(S, Self::spec_bits());
            lemma_pow2_half(bits as nat);
        }
        if S {
            let p: [u8; N] = raw_pow2(bits - 1);
            let one: [u8; N] = raw_pow2(0);
            let (m, borrow) = raw_sub(&p, &one, false);
            proof {
                lemma2_to64();
                lemma_pow2_strictly_increases((bits - 1) as nat, 8 * N as nat);
                lemma_pow2_pos((bits - 1) as nat);
                lemma_radix_pow_pos_local(N as nat);
                assert(uval(m) < radix_pow(N as nat)) by {
                    lemma_le_value_bound(m@);
                }
                assert(uval(*&p) == pow2((bits - 1) as nat));
                assert(uval(*&one) == 1);
                assert(bit_value(false) == 0);
                vstd::arithmetic::mul::lemma_mul_basics(radix_pow(N as nat) as int);
                if borrow {
                    assert(bit_value(borrow) == 1);
                    assert(uval(m) - radix_pow(N as nat) == pow2((bits - 1) as nat) - 1);
                    assert(false);
                }
                vstd::arithmetic::mul::lemma_mul_basics(radix_pow(N as nat) as int);
                assert(uval(m) == pow2((bits - 1) as nat) - 1);
                lemma_small_mod((pow2((bits - 1) as nat) - 1) as nat, radix_pow(N as nat));
            }
            Self::from_raw(m, Ghost(pow2((bits - 1) as nat) - 1))
        } else {
            let ones: [u8; N] = raw_ones();
            proof {
                lemma_radix_pow_pos_local(N as nat);
                lemma_small_mod((radix_pow(N as nat) - 1) as nat, radix_pow(N as nat));
            }
            let r = Self::from_wrapped(ones, Ghost(radix_pow(N as nat) - 1));
            proof {
                lemma_wrap(-1, S, bits as nat);
                lemma_wrap(pow2(bits as nat) - 1, S, bits as nat);
                lemma_wrap_mod_wider(-1, S, bits as nat, (8 * N) as nat);
                lemma_mod_add_multiples_vanish(-1, radix_pow(N as nat) as int);
                lemma_mod_add_multiples_vanish(-1, pow2(bits as nat) as int);
            }
            r
        }
    }

    /// Whether the value is negative (always false for unsigned types).
    pub fn is_negative_internal(&self) -> (r: bool)
        ensures
            r == (self@ < 0),
    {
        proof {
            use_type_invariant(self);
            self.lemma_repr();
            lemma_le_value_top(self.bytes@);
            lemma_pow2_half((8 * N) as nat);
            lemma_radix_pow_succ_local((N - 1) as nat);
        }
        if S {
            let top = self.bytes[N - 1];
            proof {
                let p = radix_pow((N - 1) as nat) as int;
                let low = le_value(self.bytes@.take(N - 1)) as int;
                assert(pow2((8 * N - 1) as nat) == 128 * p);
                assert(le_value(self.bytes@) >= 128 * p <==> top >= 128) by (nonlinear_arith)
                    requires
                        le_value(self.bytes@) == low + p * top,
                        0 <= low < p,
                ;
            }
            top >= 128
        } else {
            false
        }
    }
}

pub(crate) proof fn lemma_radix_pow_pos_local(n: nat)
    ensures
        radix_pow(n) > 0,
{
    crate::digits::lemma_radix_pow_pos(n);
}

pub(crate) proof fn lemma_radix_pow_succ_local(n: nat)
    ensures
        radix_pow(n + 1) == 256 * radix_pow(n),
        pow2((8 * n + 7) as nat) == 128 * radix_pow(n),
{
    crate::digits::lemma_radix_pow_succ(n);
    lemma_pow2_adds(8 * n, 7);
    lemma2_to64();
}

} // verus!
