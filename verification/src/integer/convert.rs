//! Conversions between integer types of any sizes and signedness, and with primitive integers,
//! `bool` and `char`: wrapping casts and checked conversions.
use super::{Integer, Uint};
use super::mul::abs_int;
use crate::digits::{le_value, radix_pow, lemma_le_value_bound, lemma_radix_pow_pos, lemma_radix_pow_adds, lemma_radix_pow_mono};
use crate::errors::{TryFromCharError, TryFromIntError};
use crate::model::{fits, wrap, lemma_range_facts, lemma_pow2_half, lemma_wrap};
use crate::raw::uval;
use vstd::arithmetic::div_mod::*;
use vstd::arithmetic::mul::*;
use vstd::arithmetic::power2::*;
use vstd::prelude::*;

verus! {

/// Copies the low bytes of a two's complement number into `N` bytes, extending with copies of
/// the sign when widening.
fn resize_bytes<const M: usize, const N: usize>(from: &[u8; M], neg: bool) -> (r: [u8; N])
    requires
        neg ==> uval(*from) >= radix_pow(M as nat) / 2,
    ensures
        uval(r) == (if neg { uval(*from) - radix_pow(M as nat) } else { uval(*from) as int }) % (radix_pow(N as nat) as int),
{
    let pad: u8 = if neg { 255 } else { 0 };
    let mut out = [pad; N];
    let mut i: usize = 0;
    while i < N && i < M
        invariant
            0 <= i <= N,
            i <= M,
            forall|j: int| 0 <= j < i ==> out@[j] == from@[j],
            forall|j: int| i <= j < N ==> out@[j] == pad,
        decreases N - i,
    {
        out[i] = from[i];
        i = i + 1;
    }
    proof {
        let rn = radix_pow(N as nat) as int;
        let rm = radix_pow(M as nat) as int;
        let v = if neg { uval(*from) - rm } else { uval(*from) as int };
        lemma_radix_pow_pos(N as nat);
        lemma_radix_pow_pos(M as nat);
        lemma_le_value_bound(from@);
        lemma_le_value_bound(out@);
        if N <= M {
            // the low N bytes of the source
            crate::digits::lemma_le_value_take_eq(out@, from@, N as int);
            assert(out@.take(N as int) =~= out@);
            crate::digits::lemma_le_value_shift(from@, N as int);
            lemma_radix_pow_adds(N as nat, (M - N) as nat);
            assert((M - N) as nat + N as nat == M as nat);
            lemma_radix_pow_pos((M - N) as nat);
            if neg {
                lemma_mul_is_commutative(rn, radix_pow((M - N) as nat) as int);
                lemma_mod_sub_multiples_vanish_general(uval(*from) as int, rn, radix_pow((M - N) as nat) as int);
            }
        } else {
            // the source followed by sign bytes
            crate::digits::lemma_le_value_split(out@, M as int);
            crate::digits::lemma_le_value_take_eq(out@, from@, M as int);
            assert(from@.take(M as int) =~= from@);
            let hi = out@.skip(M as int);
            lemma_radix_pow_adds(M as nat, (N - M) as nat);
            assert(M as nat + (N - M) as nat == N as nat);
            if neg {
                crate::digits::lemma_le_value_ones(hi);
                assert(uval(out) == uval(*from) + rm * (radix_pow((N - M) as nat) - 1));
                assert(rm * (radix_pow((N - M) as nat) - 1) == rn - rm) by (nonlinear_arith)
                    requires
                        rn == rm * radix_pow((N - M) as nat),
                ;
                lemma_small_mod(uval(out), rn as nat);
                lemma_mod_add_multiples_vanish(v, rn);
            } else {
                crate::digits::lemma_le_value_zeros(hi);
                lemma_mul_basics(rm);
                lemma_small_mod(uval(out), rn as nat);
            }
        }
    }
    out
}

/// Congruent numbers have congruent negations.
proof fn lemma_mod_neg_congruent(a: int, b: int, m: int)
    requires
        m > 0,
        a % m == b % m,
    ensures
        (-a) % m == (-b) % m,
{
    lemma_fundamental_div_mod(a, m);
    lemma_fundamental_div_mod(b, m);
    lemma_mod_multiples_vanish(b / m - a / m, -b, m);
    assert(m * (b / m - a / m) + -b == -a) by (nonlinear_arith)
        requires
            a == m * (a / m) + a % m,
            b == m * (b / m) + b % m,
            a % m == b % m,
    ;
}

/// `a - m * k` has the same remainder as `a` modulo `m`.
proof fn lemma_mod_sub_multiples_vanish_general(a: int, m: int, k: int)
    requires
        m > 0,
    ensures
        (a - m * k) % m == a % m,
{
    lemma_mod_multiples_vanish(-k, a, m);
    assert(m * (-k) + a == a - m * k) by (nonlinear_arith);
}

/// The `n` little-endian bytes of `u` (taken modulo `2^(8n)`) read back as `u` modulo `2^(8n)`.
proof fn lemma_le_bytes_of_value(u: nat, n: nat)
    ensures
        le_value(crate::digits::le_bytes_of(u, n)) == u % radix_pow(n),
    decreases n,
{
    let s = crate::digits::le_bytes_of(u, n);
    crate::digits::lemma_radix_pow_succ(0);
    if n == 0 {
        lemma_mod_bound(u as int, 1);
    } else {
        let k = (n - 1) as nat;
        lemma_le_bytes_of_value(u, k);
        assert(s.drop_last() =~= crate::digits::le_bytes_of(u, k));
        crate::digits::lemma_radix_pow_succ(k);
        lemma_radix_pow_pos(k);
        lemma_mod_breakdown(u as int, radix_pow(k) as int, 256);
        lemma_mul_is_commutative(radix_pow(k) as int, 256);
        lemma_mod_bound((u / radix_pow(k)) as int, 256);
        lemma_mul_is_commutative(((u / radix_pow(k)) % 256) as int, radix_pow(k) as int);
    }
}

/// The `N` little-endian bytes of a `u128`, taken modulo `2^(8N)`.
fn bytes_of_u128<const N: usize>(v: u128) -> (r: [u8; N])
    ensures
        uval(r) == (v as nat) % radix_pow(N as nat),
{
    let mut out = [0u8; N];
    let mut x: u128 = v;
    let mut i: usize = 0;
    proof {
        crate::digits::lemma_radix_pow_succ(0);
    }
    while i < N
        invariant
            0 <= i <= N,
            x == (v as nat) / radix_pow(i as nat),
            forall|j: int| 0 <= j < i ==> out@[j] == crate::digits::le_bytes_of(v as nat, N as nat)[j],
        decreases N - i,
    {
        out[i] = (x % 256) as u8;
        proof {
            crate::digits::lemma_radix_pow_succ(i as nat);
            lemma_radix_pow_pos(i as nat);
            lemma_div_denominator(v as int, radix_pow(i as nat) as int, 256);
            lemma_mul_is_commutative(radix_pow(i as nat) as int, 256);
        }
        x = x / 256;
        i = i + 1;
    }
    proof {
        assert(out@ =~= crate::digits::le_bytes_of(v as nat, N as nat));
        lemma_le_bytes_of_value(v as nat, N as nat);
    }
    out
}

impl<const S: bool, const N: usize, const B: usize, const OM: u8> Integer<S, N, B, OM> {
    /// The value of an integer of any other type, wrapped into this type (two's complement
    /// truncation or sign extension).
    pub fn cast_from_integer<const R: bool, const M: usize, const A: usize, const OM2: u8>(value: Integer<R, M, A, OM2>) -> (r: Self)
        requires
            Self::valid_params(),
        ensures
            r@ == Self::wrap_spec(value@),
    {
        proof {
            use_type_invariant(&value);
            value.lemma_repr();
            lemma_radix_pow_pos(M as nat);
            crate::model::lemma_decode_fits(uval(value.bytes), R, M as nat);
            lemma_pow2_half((8 * M) as nat);
        }
        let neg = value.is_negative_internal();
        proof {
            let rm = radix_pow(M as nat) as int;
            lemma_fundamental_div_mod(value@, rm);
            lemma_mod_bound(value@, rm);
            if neg {
                lemma_mod_add_multiples_vanish(value@, rm);
                lemma_small_mod((value@ + rm) as nat, rm as nat);
            } else {
                lemma_small_mod(value@ as nat, rm as nat);
            }
        }
        let bytes: [u8; N] = resize_bytes(&value.bytes, neg);
        Self::from_wrapped(bytes, Ghost(value@))
    }

    /// The value of a `u128`, wrapped into this type.
    pub fn cast_from_u128(v: u128) -> (r: Self)
        requires
            Self::valid_params(),
        ensures
            r@ == Self::wrap_spec(v as int),
    {
        let bytes: [u8; N] = bytes_of_u128(v);
        Self::from_wrapped(bytes, Ghost(v as int))
    }

    /// The value of an `i128`, wrapped into this type.
    pub fn cast_from_i128(v: i128) -> (r: Self)
        requires
            Self::valid_params(),
        ensures
            r@ == Self::wrap_spec(v as int),
    {
        if v >= 0 {
            Self::cast_from_u128(v as u128)
        } else {
            let m: u128 = if v == i128::MIN { 0x8000_0000_0000_0000_0000_0000_0000_0000 } else { (-v) as u128 };
            let p = Self::cast_from_u128(m);
            proof {
                let bits = Self::spec_bits();
                lemma_pow2_pos(bits);
                crate::model::lemma_wrap(m as int, S, bits);
                crate::model::lemma_wrap(-p@, S, bits);
                crate::model::lemma_wrap(v as int, S, bits);
                lemma_mod_neg_congruent(p@, m as int, pow2(bits) as int);
                crate::model::lemma_wrap_congruent(-p@, v as int, S, bits);
            }
            p.wrapping_neg()
        }
    }

    /// `0` or `1`.
    pub fn from_bool(b: bool) -> (r: Self)
        requires
            Self::valid_params(),
        ensures
            r@ == (if b { 1int } else { 0int }),
    {
        if b {
            Self::one()
        } else {
            Self::zero()
        }
    }

    /// The value of an integer of any other type when it is in range for this one.
    pub fn try_from_integer<const R: bool, const M: usize, const A: usize, const OM2: u8>(value: Integer<R, M, A, OM2>) -> (r: Result<Self, TryFromIntError>)
        requires
            Self::valid_params(),
        ensures
            r.is_ok() == Self::fits_spec(value@),
            r.is_ok() ==> r.unwrap()@ == value@,
    {
        proof {
            use_type_invariant(&value);
            lemma_range_facts(S, Self::spec_bits());
            lemma_pow2_half(Self::spec_bits());
        }
        let bits = Self::bits_u32();
        let ok = if value.is_negative_internal() {
            if !S {
                false
            } else {
                // value >= -2^(bits - 1) exactly when |value| - 1 < 2^(bits - 1)
                let m = value.unsigned_abs_internal();
                let m1 = m.wrapping_sub(Uint::<M, A, OM2>::one());
                proof {
                    use_type_invariant(&m);
                    crate::model::lemma_wrap(m@ - 1, false, Uint::<M, A, OM2>::spec_bits());
                }
                let l = m1.bit_length();
                proof {
                    self::lemma_bit_length_below(m1@, l as nat, (bits - 1) as nat);
                }
                l <= bits - 1
            }
        } else {
            let m = value.unsigned_abs_internal();
            let l = m.bit_length();
            let k: u32 = if S { bits - 1 } else { bits };
            proof {
                self::lemma_bit_length_below(m@, l as nat, k as nat);
            }
            l <= k
        };
        if ok {
            let r = Self::cast_from_integer(value);
            proof {
                lemma_wrap(value@, S, Self::spec_bits());
            }
            Ok(r)
        } else {
            Err(TryFromIntError)
        }
    }

    /// The value of a `u128` when it is in range for this type.
    pub fn try_from_u128(v: u128) -> (r: Result<Self, TryFromIntError>)
        requires
            Self::valid_params(),
        ensures
            r.is_ok() == Self::fits_spec(v as int),
            r.is_ok() ==> r.unwrap()@ == v,
    {
        let w = Uint::<16, 0, OM>::cast_from_u128(v);
        proof {
            lemma_wrap(v as int, false, 128);
            assert(pow2(128) == 0x1_0000_0000_0000_0000_0000_0000_0000_0000) by {
                lemma2_to64();
                lemma_pow2_adds(64, 64);
            }
        }
        Self::try_from_integer(w)
    }

    /// The value of an `i128` when it is in range for this type.
    pub fn try_from_i128(v: i128) -> (r: Result<Self, TryFromIntError>)
        requires
            Self::valid_params(),
        ensures
            r.is_ok() == Self::fits_spec(v as int),
            r.is_ok() ==> r.unwrap()@ == v,
    {
        let w = Integer::<true, 16, 0, OM>::cast_from_i128(v);
        proof {
            lemma_wrap(v as int, true, 128);
            assert(pow2(127) == 0x8000_0000_0000_0000_0000_0000_0000_0000) by {
                lemma2_to64();
                lemma_pow2_adds(64, 64);
                lemma_pow2_unfold(128);
            }
        }
        Self::try_from_integer(w)
    }

    /// The value as a `u128` when it is in range for `u128`.
    pub fn try_to_u128(self) -> (r: Result<u128, TryFromIntError>)
        ensures
            r.is_ok() == (0 <= self@ <= u128::MAX),
            r.is_ok() ==> r.unwrap() == self@,
    {
        proof {
            use_type_invariant(&self);
            assert(pow2(128) == 0x1_0000_0000_0000_0000_0000_0000_0000_0000) by {
                lemma2_to64();
                lemma_pow2_adds(64, 64);
            }
        }
        match Uint::<16, 0, OM>::try_from_integer(self) {
            Ok(w) => Ok(w.to_u128()),
            Err(e) => Err(e),
        }
    }

    /// The value as an `i128` when it is in range for `i128`.
    pub fn try_to_i128(self) -> (r: Result<i128, TryFromIntError>)
        ensures
            r.is_ok() == (i128::MIN <= self@ <= i128::MAX),
            r.is_ok() ==> r.unwrap() == self@,
    {
        proof {
            use_type_invariant(&self);
            assert(pow2(127) == 0x8000_0000_0000_0000_0000_0000_0000_0000) by {
                lemma2_to64();
                lemma_pow2_adds(64, 64);
                lemma_pow2_unfold(128);
            }
        }
        match Integer::<true, 16, 0, OM>::try_from_integer(self) {
            Ok(w) => Ok(w.to_i128()),
            Err(e) => Err(e),
        }
    }

    /// The value wrapped into `u128` (two's complement truncation or sign extension).
    pub fn cast_to_u128(self) -> (r: u128)
        ensures
            r as int == wrap(self@, false, 128),
    {
        proof {
            use_type_invariant(&self);
        }
        Uint::<16, 0, OM>::cast_from_integer(self).to_u128()
    }

    /// The value wrapped into `i128` (two's complement truncation or sign extension).
    pub fn cast_to_i128(self) -> (r: i128)
        ensures
            r as int == wrap(self@, true, 128),
    {
        proof {
            use_type_invariant(&self);
        }
        Integer::<true, 16, 0, OM>::cast_from_integer(self).to_i128()
    }
}

impl<const OM: u8> Integer<false, 16, 0, OM> {
    /// The value, which always fits a `u128`.
    fn to_u128(self) -> (r: u128)
        ensures
            r == self@,
    {
        proof {
            use_type_invariant(&self);
            self.lemma_repr();
            crate::digits::lemma_radix_pow_succ(0);
        }
        let mut acc: u128 = 0;
        let mut i: usize = 16;
        proof {
            assert(self.bytes@.skip(16) =~= Seq::<u8>::empty());
        }
        while i > 0
            invariant
                0 <= i <= 16,
                self.bytes@.len() == 16,
                acc == le_value(self.bytes@.skip(i as int)),
                le_value(self.bytes@.skip(i as int)) < radix_pow((16 - i) as nat),
            decreases i,
        {
            i = i - 1;
            proof {
                crate::digits::lemma_le_value_skip_step_pub(self.bytes@, i as int);
                lemma_le_value_bound(self.bytes@.skip(i as int));
                assert(self.bytes@.skip(i as int).len() == 16 - i);
                assert(radix_pow(16) == 0x1_0000_0000_0000_0000_0000_0000_0000_0000) by {
                    lemma2_to64();
                    lemma_pow2_adds(64, 64);
                }
                lemma_radix_pow_mono((16 - i) as nat, 16);
            }
            acc = acc * 256 + self.bytes[i] as u128;
        }
        proof {
            assert(self.bytes@.skip(0) =~= self.bytes@);
            lemma_le_value_bound(self.bytes@);
            lemma_small_mod(le_value(self.bytes@), radix_pow(16));
        }
        acc
    }
}

impl<const OM: u8> Integer<true, 16, 0, OM> {
    /// The value, which always fits an `i128`.
    fn to_i128(self) -> (r: i128)
        ensures
            r == self@,
    {
        proof {
            use_type_invariant(&self);
            assert(pow2(127) == 0x8000_0000_0000_0000_0000_0000_0000_0000) by {
                lemma2_to64();
                lemma_pow2_adds(64, 64);
                lemma_pow2_unfold(128);
            }
            assert(pow2(128) == 0x1_0000_0000_0000_0000_0000_0000_0000_0000) by {
                lemma2_to64();
                lemma_pow2_adds(64, 64);
            }
        }
        let m = self.unsigned_abs_internal().to_u128();
        if self.is_negative_internal() {
            if m == 0x8000_0000_0000_0000_0000_0000_0000_0000 {
                i128::MIN
            } else {
                -(m as i128)
            }
        } else {
            m as i128
        }
    }
}

impl<const N: usize, const B: usize, const OM: u8> Uint<N, B, OM> {
    /// The code point of a `char` when it is in range for this type.
    pub fn try_from_char(c: char) -> (r: Result<Self, TryFromCharError>)
        requires
            Self::valid_params(),
        ensures
            r.is_ok() == Self::fits_spec(c as int),
            r.is_ok() ==> r.unwrap()@ == c as int,
    {
        match Self::try_from_u128(c as u32 as u128) {
            Ok(v) => Ok(v),
            Err(_) => Err(TryFromCharError),
        }
    }
}

/// A number whose bit length is `l` is below `2^k` exactly when `l <= k`.
proof fn lemma_bit_length_below(v: int, l: nat, k: nat)
    requires
        0 <= v < pow2(l),
        l > 0 ==> v >= pow2((l - 1) as nat),
    ensures
        (l <= k) == (v < pow2(k)),
{
    if l <= k {
        if l < k {
            lemma_pow2_strictly_increases(l, k);
        }
    } else {
        if (l - 1) as nat > k {
            lemma_pow2_strictly_increases(k, (l - 1) as nat);
        }
    }
}

} // verus!
