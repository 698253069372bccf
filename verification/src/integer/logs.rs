//! Integer logarithms and square roots.
use super::{Integer, Uint};
use super::mul::abs_int;
use crate::digits::{radix_pow, lemma_le_value_bound};
use crate::model::{fits, lemma_range_facts, lemma_pow2_half, lemma_wrap};
use crate::raw::{raw_bit, raw_divrem_digit, uval};
use vstd::arithmetic::div_mod::*;
use vstd::arithmetic::logarithm::*;
use vstd::arithmetic::mul::*;
use vstd::arithmetic::power::*;
use vstd::arithmetic::power2::*;
use vstd::prelude::*;

verus! {

/// `base^log(base, x) <= x < base^(log(base, x) + 1)`.
pub proof fn lemma_log_bounds(base: int, x: int)
    requires
        base > 1,
        x >= 1,
    ensures
        log(base, x) >= 0,
        pow(base, log(base, x) as nat) <= x < pow(base, (log(base, x) + 1) as nat),
    decreases x,
{
    lemma_log_nonnegative(base, x);
    reveal(pow);
    if x < base {
        lemma_log0(base, x);
        lemma_pow0(base);
        lemma_pow1(base);
    } else {
        lemma_log_s(base, x);
        let y = x / base;
        lemma_fundamental_div_mod(x, base);
        lemma_mod_bound(x, base);
        assert(y >= 1) by (nonlinear_arith)
            requires
                x == base * y + x % base,
                0 <= x % base < base,
                x >= base,
        ;
        lemma_log_bounds(base, y);
        let k = log(base, y);
        lemma_log_nonnegative(base, y);
        assert(pow(base, (k + 1) as nat) == base * pow(base, k as nat));
        assert(pow(base, (k + 2) as nat) == base * pow(base, (k + 1) as nat));
        assert(base * pow(base, k as nat) <= x < base * pow(base, (k + 1) as nat)) by (nonlinear_arith)
            requires
                pow(base, k as nat) <= y < pow(base, (k + 1) as nat),
                x == base * y + x % base,
                0 <= x % base < base,
                base > 1,
        ;
    }
}

/// A value between consecutive powers determines its logarithm.
pub proof fn lemma_log_between(base: int, x: int, k: nat)
    requires
        base > 1,
        pow(base, k) <= x < pow(base, k + 1),
    ensures
        log(base, x) == k,
{
    lemma_pow_positive(base, k);
    lemma_log_bounds(base, x);
    let l = log(base, x) as nat;
    if l < k {
        lemma_pow_increases(base as nat, l + 1, k);
    } else if l > k {
        lemma_pow_increases(base as nat, k + 1, l);
    }
}

/// Powers of two are powers of `2`.
pub proof fn lemma_pow2_is_pow(k: nat)
    ensures
        pow2(k) == pow(2, k),
{
    lemma_pow2(k);
}

impl<const N: usize, const B: usize, const OM: u8> Uint<N, B, OM> {
    /// The number of bits needed to write the value: the least `L` with `self < 2^L`.
    pub(crate) fn bit_length(&self) -> (r: u32)
        ensures
            r <= Self::spec_bits(),
            self@ < pow2(r as nat),
            r > 0 ==> self@ >= pow2((r - 1) as nat),
    {
        proof {
            use_type_invariant(self);
            self.lemma_repr();
            lemma_small_mod(self@ as nat, radix_pow(N as nat));
        }
        let mut i: u32 = Self::bits_u32();
        while i > 0
            invariant
                i <= Self::spec_bits(),
                Self::valid_params(),
                self@ < pow2(i as nat),
                uval(self.bytes) == self@,
            decreases i,
        {
            let b = raw_bit(&self.bytes, i - 1);
            proof {
                lemma_pow2_unfold(i as nat);
                lemma_pow2_pos((i - 1) as nat);
                let p = pow2((i - 1) as nat) as int;
                lemma_fundamental_div_mod(self@, p);
                lemma_mod_bound(self@, p);
                lemma_div_pos_is_pos(self@, p);
                let q = self@ / p;
                assert(q < 2) by (nonlinear_arith)
                    requires
                        self@ == p * q + self@ % p,
                        self@ % p >= 0,
                        self@ < 2 * p,
                        p > 0,
                ;
                lemma_small_mod(q as nat, 2);
                if q == 0 {
                    lemma_mul_basics(p);
                    assert(self@ < p);
                } else {
                    assert(self@ >= p) by (nonlinear_arith)
                        requires
                            self@ == p * q + self@ % p,
                            self@ % p >= 0,
                            q >= 1,
                            p > 0,
                    ;
                }
            }
            if b == 1 {
                return i;
            }
            i = i - 1;
        }
        i
    }

    /// Quotient and remainder by a small nonzero divisor.
    pub(crate) fn div_rem_small(self, d: u32) -> (r: (Self, u32))
        requires
            0 < d <= 0x0100_0000,
        ensures
            r.0@ == self@ / (d as int),
            r.1 == self@ % (d as int),
    {
        proof {
            use_type_invariant(&self);
            self.lemma_repr();
            lemma_small_mod(self@ as nat, radix_pow(N as nat));
        }
        let (q, rem) = raw_divrem_digit(&self.bytes, d);
        proof {
            lemma_fundamental_div_mod_converse(self@, d as int, uval(q) as int, rem as int);
            lemma_div_pos_is_pos(self@, d as int);
            lemma_div_is_ordered_by_denominator(self@, 1, d as int);
            lemma_le_value_bound(q@);
            lemma_small_mod(uval(q), radix_pow(N as nat));
        }
        (Self::from_raw(q, Ghost(self@ / (d as int))), rem)
    }

    /// `log(base, self)` for `self >= 1` and a small base.
    fn ilog_small(self, base: u32) -> (r: u32)
        requires
            self@ >= 1,
            2 <= base <= 0x0100_0000,
        ensures
            r == log(base as int, self@),
    {
        proof {
            use_type_invariant(&self);
            lemma_range_facts(false, Self::spec_bits());
        }
        let ghost x0 = self@;
        let mut x = self;
        let mut count: u32 = 0;
        let bl = self.bit_length();
        proof {
            lemma_log_bounds(base as int, x0);
            // 2^log <= base^log <= x0 < 2^bit_length, so the count fits in a u32
            lemma_pow_base_increases(base as nat, log(base as int, x0) as nat);
            lemma_pow2_is_pow(bl as nat);
            lemma_pow2_is_pow(log(base as int, x0) as nat);
            if log(base as int, x0) >= bl {
                lemma_pow2_increases_local(bl as nat, log(base as int, x0) as nat);
            }
            assert(log(base as int, x0) < bl);
        }
        while x.ge_u32(base)
            invariant
                2 <= base <= 0x0100_0000,
                x@ >= 1,
                count + log(base as int, x@) == log(base as int, x0),
                log(base as int, x0) < bl,
                bl <= u32::MAX,
            decreases x@,
        {
            proof {
                lemma_log_s(base as int, x@);
                lemma_log_nonnegative(base as int, x@ / (base as int));
                lemma_div_is_strictly_smaller_local(x@, base as int);
                lemma_div_is_ordered(base as int, x@, base as int);
                lemma_div_by_self(base as int);
            }
            let (q, _r) = x.div_rem_small(base);
            x = q;
            count = count + 1;
        }
        proof {
            lemma_log0(base as int, x@);
        }
        count
    }

    /// `self >= v` for a small `v`.
    fn ge_u32(&self, v: u32) -> (r: bool)
        requires
            0 < v <= 0x0100_0000,
        ensures
            r == (self@ >= v),
    {
        proof {
            use_type_invariant(self);
        }
        let (q, _rem) = self.div_rem_small(v);
        proof {
            lemma_fundamental_div_mod(self@, v as int);
            lemma_mod_bound(self@, v as int);
            lemma_div_pos_is_pos(self@, v as int);
            assert((q@ == 0) == (self@ < v)) by (nonlinear_arith)
                requires
                    self@ == v * q@ + self@ % (v as int),
                    0 <= self@ % (v as int) < v,
                    q@ >= 0,
            ;
        }
        !q.is_zero()
    }
}

proof fn lemma_pow_base_increases(b: nat, k: nat)
    requires
        b >= 2,
    ensures
        pow(2, k) <= pow(b as int, k),
    decreases k,
{
    reveal(pow);
    if k > 0 {
        lemma_pow_base_increases(b, (k - 1) as nat);
        lemma_pow_positive(2, (k - 1) as nat);
        assert(2 * pow(2, (k - 1) as nat) <= b * pow(b as int, (k - 1) as nat)) by (nonlinear_arith)
            requires
                pow(2, (k - 1) as nat) <= pow(b as int, (k - 1) as nat),
                b >= 2,
                pow(2, (k - 1) as nat) > 0,
        ;
    }
}

proof fn lemma_pow2_increases_local(a: nat, b: nat)
    requires
        a <= b,
    ensures
        pow2(a) <= pow2(b),
{
    if a < b {
        lemma_pow2_strictly_increases(a, b);
    }
}

proof fn lemma_div_is_strictly_smaller_local(x: int, d: int)
    requires
        x >= 1,
        d >= 2,
    ensures
        0 <= x / d < x,
{
    lemma_div_pos_is_pos(x, d);
    lemma_fundamental_div_mod(x, d);
    lemma_mod_bound(x, d);
    assert(x / d < x) by (nonlinear_arith)
        requires
            x == d * (x / d) + x % d,
            0 <= x % d,
            x / d >= 0,
            d >= 2,
            x >= 1,
    ;
}


impl<const N: usize, const B: usize, const OM: u8> Uint<N, B, OM> {
    /// `log(base, self)` for `self >= 1` and any base of at least 2.
    fn ilog_big(self, base: Self) -> (r: u32)
        requires
            self@ >= 1,
            base@ >= 2,
        ensures
            r == log(base@, self@),
    {
        proof {
            use_type_invariant(&self);
        }
        let ghost x0 = self@;
        let ghost b = base@;
        let mut x = self;
        let mut count: u32 = 0;
        let bl = self.bit_length();
        proof {
            lemma_log_bounds(b, x0);
            lemma_pow_base_increases(b as nat, log(b, x0) as nat);
            lemma_pow2_is_pow(bl as nat);
            lemma_pow2_is_pow(log(b, x0) as nat);
            if log(b, x0) >= bl {
                lemma_pow2_increases_local(bl as nat, log(b, x0) as nat);
            }
        }
        while x.ge(&base)
            invariant
                b == base@,
                b >= 2,
                x@ >= 1,
                count + log(b, x@) == log(b, x0),
                log(b, x0) < bl,
            decreases x@,
        {
            proof {
                lemma_log_s(b, x@);
                lemma_log_nonnegative(b, x@ / b);
                lemma_div_is_strictly_smaller_local(x@, b);
                lemma_div_is_ordered(b, x@, b);
                lemma_div_by_self(b);
            }
            let q = x.wrapping_div(base);
            proof {
                use_type_invariant(&x);
                lemma_div_pos_is_pos(x@, b);
                lemma_div_is_ordered_by_denominator(x@, 1, b);
                assert(crate::model::div_trunc(x@, b) == x@ / b);
                lemma_wrap(x@ / b, false, Self::spec_bits());
            }
            x = q;
            count = count + 1;
        }
        proof {
            lemma_log0(b, x@);
        }
        count
    }
}

impl<const S: bool, const N: usize, const B: usize, const OM: u8> Integer<S, N, B, OM> {
    /// `floor(log2(self))`, or `None` when `self <= 0`.
    pub fn checked_ilog2(self) -> (r: Option<u32>)
        ensures
            r.is_some() == (self@ > 0),
            r.is_some() ==> r.unwrap() == log(2, self@),
    {
        if self.is_negative_internal() || self.is_zero() {
            return None;
        }
        let m = self.unsigned_abs_internal();
        let l = m.bit_length();
        proof {
            lemma2_to64();
            assert(l >= 1);
            lemma_pow2_is_pow((l - 1) as nat);
            lemma_pow2_is_pow(l as nat);
            lemma_log_between(2, self@, (l - 1) as nat);
        }
        Some(l - 1)
    }

    /// `floor(log10(self))`, or `None` when `self <= 0`.
    pub fn checked_ilog10(self) -> (r: Option<u32>)
        ensures
            r.is_some() == (self@ > 0),
            r.is_some() ==> r.unwrap() == log(10, self@),
    {
        if self.is_negative_internal() || self.is_zero() {
            return None;
        }
        let m = self.unsigned_abs_internal();
        Some(m.ilog_small(10))
    }

    /// `floor(log_base(self))`, or `None` when `self <= 0` or `base < 2`.
    pub fn checked_ilog(self, base: Self) -> (r: Option<u32>)
        ensures
            r.is_some() == (self@ > 0 && base@ >= 2),
            r.is_some() ==> r.unwrap() == log(base@, self@),
    {
        proof {
            use_type_invariant(&self);
        }
        if self.is_negative_internal() || self.is_zero() || base.is_negative_internal() {
            return None;
        }
        let mb = base.unsigned_abs_internal();
        let two = Uint::<N, B, OM>::one().wrapping_add(Uint::<N, B, OM>::one());
        proof {
            use_type_invariant(&mb);
            lemma_range_facts(false, Self::spec_bits());
            lemma_pow2_half(Self::spec_bits());
            lemma_pow2_strictly_increases(1, Self::spec_bits());
            lemma2_to64();
            lemma_wrap(2, false, Self::spec_bits());
        }
        if mb.lt(&two) {
            return None;
        }
        let m = self.unsigned_abs_internal();
        Some(m.ilog_big(mb))
    }

    /// `floor(log2(self))`; `self` must be positive.
    pub fn ilog2(self) -> (r: u32)
        requires
            self@ > 0,
        ensures
            r == log(2, self@),
    {
        self.checked_ilog2().unwrap()
    }

    /// `floor(log10(self))`; `self` must be positive.
    pub fn ilog10(self) -> (r: u32)
        requires
            self@ > 0,
        ensures
            r == log(10, self@),
    {
        self.checked_ilog10().unwrap()
    }

    /// `floor(log_base(self))`; `self` must be positive and `base` at least 2.
    pub fn ilog(self, base: Self) -> (r: u32)
        requires
            self@ > 0,
            base@ >= 2,
        ensures
            r == log(base@, self@),
    {
        self.checked_ilog(base).unwrap()
    }
}

} // verus!
