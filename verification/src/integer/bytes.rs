//! Conversions between integers and byte arrays or slices.
use super::Integer;
use crate::digits::{le_value, radix_pow, lemma_le_value_bound, lemma_le_value_skip_step_pub, lemma_le_value_complement};
use crate::model::{fits, decode, lemma_range_facts, lemma_pow2_half, lemma_wrap, lemma_decode_fits, lemma_mod_of_carry};
use crate::raw::{raw_mul_digit, raw_lt, uval};
use vstd::arithmetic::div_mod::*;
use vstd::arithmetic::mul::*;
use vstd::arithmetic::power2::*;
use vstd::prelude::*;

verus! {

/// The value of a little-endian byte slice read as a two's complement number (signed) or an
/// unsigned one; the empty slice reads as zero.
pub open spec fn slice_value(s: Seq<u8>, signed: bool) -> int {
    if s.len() == 0 {
        0
    } else {
        decode(le_value(s), signed, s.len())
    }
}

impl<const S: bool, const N: usize, const B: usize, const OM: u8> Integer<S, N, B, OM> {
    /// `self * m + d` for a nonnegative `self`, or `None` when it is out of range.
    pub(crate) fn mul_small_add(self, m: u32, d: u32) -> (r: Option<Self>)
        requires
            self@ >= 0,
        ensures
            r.is_some() == Self::fits_spec(self@ * m + d),
            r.is_some() ==> r.unwrap()@ == self@ * m + d,
    {
        proof {
            use_type_invariant(&self);
            self.lemma_repr();
            lemma_pow2_half((8 * N) as nat);
            lemma_small_mod(self@ as nat, radix_pow(N as nat));
            lemma_range_facts(S, Self::spec_bits());
        }
        let (raw, carry) = raw_mul_digit(&self.bytes, m, d);
        let ghost t = self@ * m + d;
        let ghost rr = radix_pow(N as nat) as int;
        proof {
            lemma_le_value_bound(raw@);
            assert(t >= 0) by (nonlinear_arith)
                requires
                    self@ >= 0,
                    t == self@ * m + d,
            ;
        }
        if carry != 0 {
            proof {
                assert(t >= rr) by (nonlinear_arith)
                    requires
                        uval(raw) + carry * rr == t,
                        carry >= 1,
                        rr > 0,
                ;
                lemma_pow2_strictly_increases((Self::spec_bits() - 1) as nat, (8 * N) as nat);
                if Self::spec_bits() < 8 * N {
                    lemma_pow2_strictly_increases(Self::spec_bits(), (8 * N) as nat);
                }
            }
            return None;
        }
        let mx = Self::max_value();
        proof {
            mx.lemma_repr();
            lemma_small_mod(mx@ as nat, rr as nat);
            lemma_mul_basics(rr);
        }
        if raw_lt(&mx.bytes, &raw) {
            None
        } else {
            proof {
                lemma_small_mod(t as nat, rr as nat);
            }
            Some(Self::from_raw(raw, Ghost(t)))
        }
    }

    /// The stored little-endian bytes.
    pub fn to_bytes(self) -> (r: [u8; N])
        ensures
            r@ == Self::bytes_of(self@),
    {
        proof {
            use_type_invariant(&self);
            self.lemma_repr();
        }
        self.bytes
    }

    /// A reference to the stored little-endian bytes.
    pub fn as_bytes(&self) -> (r: &[u8; N])
        ensures
            r@ == Self::bytes_of(self@),
    {
        proof {
            use_type_invariant(self);
            self.lemma_repr();
        }
        &self.bytes
    }

    /// The integer whose low `BITS` bits are those of the little-endian `digits` (the bits
    /// above the width are ignored).
    pub fn from_bytes(digits: [u8; N]) -> (r: Self)
        requires
            Self::valid_params(),
        ensures
            r@ == Self::wrap_spec(le_value(digits@) as int),
    {
        proof {
            lemma_le_value_bound(digits@);
            lemma_small_mod(le_value(digits@), radix_pow(N as nat));
        }
        Self::from_wrapped(digits, Ghost(le_value(digits@) as int))
    }

    /// Reads a little-endian slice (two's complement for signed types); `None` when the value
    /// is out of range. The empty slice reads as zero.
    pub fn from_le_slice(slice: &[u8]) -> (r: Option<Self>)
        requires
            Self::valid_params(),
        ensures
            r.is_some() == Self::fits_spec(slice_value(slice@, S)),
            r.is_some() ==> r.unwrap()@ == slice_value(slice@, S),
    {
        let len = slice.len();
        proof {
            lemma_range_facts(S, Self::spec_bits());
        }
        if len == 0 {
            return Some(Self::zero());
        }
        let neg = S && slice[len - 1] >= 128;
        let ghost s = slice@;
        let ghost comp = Seq::new(s.len(), |j: int| (255 - s[j]) as u8);
        let mut acc = Self::zero();
        let mut i: usize = len;
        while i > 0
            invariant
                0 <= i <= len,
                len == s.len(),
                s == slice@,
                Self::valid_params(),
                comp == Seq::new(s.len(), |j: int| (255 - s[j]) as u8),
                acc@ >= 0,
                neg == (S && s[len - 1] >= 128),
                !neg ==> acc@ == le_value(s.skip(i as int)),
                neg ==> acc@ == le_value(comp.skip(i as int)),
            decreases i,
        {
            i = i - 1;
            let b: u8 = if neg {
                255 - slice[i]
            } else {
                slice[i]
            };
            proof {
                lemma_le_value_skip_step_pub(s, i as int);
                lemma_le_value_skip_step_pub(comp, i as int);
                lemma_le_value_bound(s.skip(i as int));
                lemma_le_value_bound(comp.skip(i as int));
            }
            match acc.mul_small_add(256, b as u32) {
                Some(v) => {
                    acc = v;
                },
                None => {
                    proof {
                        self::lemma_slice_overflow(s, comp, i as int, neg, acc@ * 256 + b, S, Self::spec_bits());
                    }
                    return None;
                },
            }
        }
        proof {
            assert(s.skip(0) =~= s);
            assert(comp.skip(0) =~= comp);
            lemma_le_value_complement(comp, s);
            crate::digits::lemma_le_value_top(s);
            crate::digits::lemma_radix_pow_succ((len - 1) as nat);
            lemma_pow2_adds(8 * ((len - 1) as nat), 7);
            lemma2_to64();
            lemma_pow2_half(Self::spec_bits());
            if neg {
                assert(le_value(s) >= pow2((8 * len - 1) as nat)) by (nonlinear_arith)
                    requires
                        le_value(s) == le_value(s.take(len - 1)) + radix_pow((len - 1) as nat) * s[len - 1],
                        s[len - 1] >= 128,
                        pow2((8 * len - 1) as nat) == 128 * radix_pow((len - 1) as nat),
                ;
            } else if S {
                assert(le_value(s) < pow2((8 * len - 1) as nat)) by (nonlinear_arith)
                    requires
                        le_value(s) == le_value(s.take(len - 1)) + radix_pow((len - 1) as nat) * s[len - 1],
                        le_value(s.take(len - 1)) < radix_pow((len - 1) as nat),
                        s[len - 1] < 128,
                        pow2((8 * len - 1) as nat) == 128 * radix_pow((len - 1) as nat),
                ;
            }
        }
        proof {
            use_type_invariant(&acc);
            if neg {
                assert(acc@ == radix_pow(len as nat) - 1 - le_value(s));
                assert(slice_value(s, S) == le_value(s) - radix_pow(len as nat));
            } else {
                assert(slice_value(s, S) == le_value(s));
            }
        }
        if neg {
            Some(acc.not())
        } else {
            Some(acc)
        }
    }
}

/// When the Horner accumulation overflows, the whole slice's value is out of range.
proof fn lemma_slice_overflow(s: Seq<u8>, comp: Seq<u8>, i: int, neg: bool, t: int, signed: bool, bits: nat)
    requires
        0 <= i < s.len(),
        comp.len() == s.len(),
        forall|j: int| 0 <= j < s.len() ==> comp[j] == 255 - s[j],
        bits >= 2,
        !neg ==> t == le_value(s.skip(i)),
        neg ==> t == le_value(comp.skip(i)),
        !fits(t, signed, bits),
        t >= 0,
        neg ==> signed && s[s.len() - 1] >= 128,
        !neg ==> !(signed && s[s.len() - 1] >= 128),
    ensures
        !fits(slice_value(s, signed), signed, bits),
{
    crate::model::lemma_range_facts(signed, bits);
    // the value read from index i upwards is at most the whole value's magnitude
    crate::digits::lemma_le_value_split(s, i);
    crate::digits::lemma_le_value_split(comp, i);
    lemma_le_value_bound(s.take(i));
    crate::digits::lemma_radix_pow_pos(i as nat);
    lemma_le_value_complement(comp, s);
    crate::digits::lemma_le_value_top(s);
    crate::digits::lemma_radix_pow_succ((s.len() - 1) as nat);
    lemma_pow2_adds(8 * ((s.len() - 1) as nat), 7);
    lemma2_to64();
    let len = s.len();
    let p = radix_pow(i as nat) as int;
    assert(t <= p * t) by (nonlinear_arith)
        requires
            p >= 1,
            t >= 0,
    ;
    if neg {
        assert(le_value(s) >= pow2((8 * len - 1) as nat)) by (nonlinear_arith)
            requires
                le_value(s) == le_value(s.take(len - 1)) + radix_pow((len - 1) as nat) * s[len - 1],
                s[len - 1] >= 128,
                pow2((8 * len - 1) as nat) == 128 * radix_pow((len - 1) as nat),
        ;
        assert(le_value(comp) >= p * t);
    } else if signed {
        assert(le_value(s) < pow2((8 * len - 1) as nat)) by (nonlinear_arith)
            requires
                le_value(s) == le_value(s.take(len - 1)) + radix_pow((len - 1) as nat) * s[len - 1],
                le_value(s.take(len - 1)) < radix_pow((len - 1) as nat),
                s[len - 1] < 128,
                pow2((8 * len - 1) as nat) == 128 * radix_pow((len - 1) as nat),
        ;
    }
}


/// The bytes of an array in reverse order.
fn reverse_array<const N: usize>(a: &[u8; N]) -> (r: [u8; N])
    ensures
        r@ == a@.reverse(),
{
    let mut out = [0u8; N];
    let mut i: usize = 0;
    while i < N
        invariant
            0 <= i <= N,
            forall|j: int| 0 <= j < i ==> out@[j] == a@[N - 1 - j],
        decreases N - i,
    {
        out[i] = a[N - 1 - i];
        i = i + 1;
    }
    proof {
        assert(out@ =~= a@.reverse());
    }
    out
}

impl<const S: bool, const N: usize, const B: usize, const OM: u8> Integer<S, N, B, OM> {
    /// Reads a big-endian slice (two's complement for signed types); `None` when the value is
    /// out of range. The empty slice reads as zero.
    pub fn from_be_slice(slice: &[u8]) -> (r: Option<Self>)
        requires
            Self::valid_params(),
        ensures
            r.is_some() == Self::fits_spec(slice_value(slice@.reverse(), S)),
            r.is_some() ==> r.unwrap()@ == slice_value(slice@.reverse(), S),
    {
        let mut rev: Vec<u8> = Vec::new();
        let len = slice.len();
        let mut i: usize = len;
        while i > 0
            invariant
                0 <= i <= len,
                len == slice@.len(),
                rev@.len() == len - i,
                forall|j: int| 0 <= j < rev@.len() ==> rev@[j] == slice@[len - 1 - j],
            decreases i,
        {
            i = i - 1;
            rev.push(slice[i]);
        }
        proof {
            assert(rev@ =~= slice@.reverse());
        }
        Self::from_le_slice(rev.as_slice())
    }
}

impl<const S: bool, const N: usize, const OM: u8> Integer<S, N, 0, OM> {
    /// The little-endian bytes of the value.
    pub fn to_le_bytes(self) -> (r: [u8; N])
        ensures
            r@ == Self::bytes_of(self@),
    {
        self.to_bytes()
    }

    /// The big-endian bytes of the value.
    pub fn to_be_bytes(self) -> (r: [u8; N])
        ensures
            r@ == Self::bytes_of(self@).reverse(),
    {
        let b = self.to_bytes();
        reverse_array(&b)
    }

    /// The integer whose bytes are those of `self` in reverse order.
    pub fn swap_bytes(self) -> (r: Self)
        ensures
            r@ == decode(le_value(Self::bytes_of(self@).reverse()), S, N as nat),
    {
        proof {
            use_type_invariant(&self);
        }
        Self::from_be_bytes(self.to_le_bytes())
    }

    /// The integer stored in the little-endian `bytes`.
    pub fn from_le_bytes(bytes: [u8; N]) -> (r: Self)
        requires
            Self::valid_params(),
        ensures
            r@ == decode(le_value(bytes@), S, N as nat),
    {
        let r = Self::from_bytes(bytes);
        proof {
            let u = le_value(bytes@);
            let d = decode(u, S, N as nat);
            lemma_le_value_bound(bytes@);
            lemma_decode_fits(u, S, N as nat);
            lemma_small_mod(u, radix_pow(N as nat));
            assert(Self::spec_bits() == 8 * N);
            assert(d % (pow2(Self::spec_bits()) as int) == (u as int) % (pow2(Self::spec_bits()) as int));
            crate::model::lemma_wrap_congruent(d, u as int, S, Self::spec_bits());
            lemma_wrap(d, S, Self::spec_bits());
        }
        r
    }

    /// The integer stored in the big-endian `bytes`.
    pub fn from_be_bytes(bytes: [u8; N]) -> (r: Self)
        requires
            Self::valid_params(),
        ensures
            r@ == decode(le_value(bytes@.reverse()), S, N as nat),
    {
        let le = reverse_array(&bytes);
        Self::from_le_bytes(le)
    }
}

} // verus!
