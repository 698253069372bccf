//! Rounding division, multiples, midpoints, square roots and powers of two.
use super::{Integer, Uint};
use super::mul::abs_int;
use crate::digits::{radix_pow, lemma_le_value_low_byte};
use crate::model::{fits, div_trunc, rem_trunc, rem_euclid, div_floor, div_ceil, next_multiple, next_pow2_exp, lemma_range_facts, lemma_pow2_half, lemma_wrap, lemma_floor_trunc, lemma_trunc_division, lemma_euclid_division, abs_of};
use crate::raw::raw_pow2;
use vstd::arithmetic::div_mod::*;
use vstd::arithmetic::logarithm::log;
use vstd::arithmetic::mul::*;
use vstd::arithmetic::power2::*;
use vstd::prelude::*;

verus! {

impl<const S: bool, const N: usize, const B: usize, const OM: u8> Integer<S, N, B, OM> {
    /// Whether the value is odd.
    pub(crate) fn is_odd(&self) -> (r: bool)
        ensures
            r == (self@ % 2 == 1),
    {
        proof {
            use_type_invariant(self);
            self.lemma_repr();
            lemma_le_value_low_byte(self.bytes@);
            let rr = radix_pow(N as nat) as int;
            crate::digits::lemma_radix_pow_succ((N - 1) as nat);
            crate::digits::lemma_radix_pow_pos((N - 1) as nat);
            assert(rr == 256 * radix_pow((N - 1) as nat));
            lemma_mod_mod(self@, 2, 128 * radix_pow((N - 1) as nat) as int);
            lemma_mod_mod(crate::digits::le_value(self.bytes@) as int, 2, 128);
        }
        self.bytes[0] % 2 == 1
    }

    /// The quotient rounded down; `rhs` must be nonzero and the quotient representable.
    pub fn div_floor(self, rhs: Self) -> (r: Self)
        requires
            rhs@ != 0,
            Self::fits_spec(div_floor(self@, rhs@)),
        ensures
            r@ == div_floor(self@, rhs@),
    {
        proof {
            use_type_invariant(&self);
            lemma_floor_trunc(self@, rhs@);
            lemma_trunc_division(self@, rhs@);
        }
        let (q, _o, r) = self.div_rem_core(rhs);
        if self.is_negative_internal() != rhs.is_negative_internal() && !r.is_zero() {
            proof {
                lemma_range_facts(S, Self::spec_bits());
                lemma_pow2_half(Self::spec_bits());
                let t = div_trunc(self@, rhs@);
                assert(t <= 0);
                assert(t >= -abs_of(self@));
                assert(Self::fits_spec(t));
                lemma_wrap(t, S, Self::spec_bits());
                assert(q@ == t);
                lemma_wrap(t - 1, S, Self::spec_bits());
            }
            q.wrapping_sub(Self::one())
        } else {
            proof {
                lemma_wrap(div_trunc(self@, rhs@), S, Self::spec_bits());
            }
            q
        }
    }

    /// The quotient rounded up. `rhs` must be nonzero and, whatever the overflow mode, the
    /// quotient must not overflow (a signed minimum by `-1`).
    pub fn div_ceil(self, rhs: Self) -> (r: Self)
        requires
            rhs@ != 0,
            Self::fits_spec(div_trunc(self@, rhs@)),
        ensures
            r@ == div_ceil(self@, rhs@),
    {
        proof {
            use_type_invariant(&self);
            use_type_invariant(&rhs);
            lemma_floor_trunc(self@, rhs@);
            lemma_trunc_division(self@, rhs@);
            lemma_range_facts(S, Self::spec_bits());
        }
        let (q, _o, r) = self.div_rem_core(rhs);
        if self.is_negative_internal() == rhs.is_negative_internal() && !r.is_zero() {
            proof {
                // the rounded-up quotient is at most |self| / 2 + 1 here, so it is representable
                let a = self@;
                let b = rhs@;
                let t = div_trunc(a, b);
                assert(abs_of(b) >= 2);
                assert(t >= 0);
                assert(2 * t + 1 <= abs_of(a)) by (nonlinear_arith)
                    requires
                        a == b * t + rem_trunc(a, b),
                        abs_of(rem_trunc(a, b)) < abs_of(b),
                        rem_trunc(a, b) != 0,
                        (rem_trunc(a, b) < 0) == (a < 0),
                        (a < 0) == (b < 0),
                        abs_of(b) >= 2,
                        t >= 0,
                        abs_of(a) == (if a < 0 { -a } else { a }),
                        abs_of(b) == (if b < 0 { -b } else { b }),
                ;
                lemma_pow2_half(Self::spec_bits());
                assert(Self::fits_spec(t + 1));
                lemma_wrap(t, S, Self::spec_bits());
                lemma_wrap(t + 1, S, Self::spec_bits());
            }
            q.wrapping_add(Self::one())
        } else {
            proof {
                lemma_wrap(div_trunc(self@, rhs@), S, Self::spec_bits());
                assert(q@ == div_trunc(self@, rhs@));
            }
            q
        }
    }

    /// The multiple of `rhs` nearest to `self` in the direction of `rhs`'s sign (the least
    /// multiple not below `self` for positive `rhs`), under the type's overflow mode.
    pub fn next_multiple_of(self, rhs: Self) -> (r: Self)
        requires
            rhs@ != 0,
            OM == 1 ==> Self::fits_spec(next_multiple(self@, rhs@)),
        ensures
            r@ == Self::by_mode(next_multiple(self@, rhs@)),
    {
        proof {
            use_type_invariant(&self);
            use_type_invariant(&rhs);
            lemma_euclid_division(self@, rhs@);
            lemma_range_facts(S, Self::spec_bits());
        }
        let (_q, _o, rem) = self.div_rem_euclid_core(rhs);
        if rem.is_zero() {
            proof {
                lemma_wrap(self@, S, Self::spec_bits());
            }
            self
        } else if !rhs.is_negative_internal() {
            let d = rhs.strict_sub(rem);
            self.add(d)
        } else {
            self.sub(rem)
        }
    }

    /// The multiple of `rhs` nearest to `self` in the direction of `rhs`'s sign, or `None`
    /// when `rhs` is zero or the result is out of range.
    pub fn checked_next_multiple_of(self, rhs: Self) -> (r: Option<Self>)
        ensures
            r.is_some() == (rhs@ != 0 && Self::fits_spec(next_multiple(self@, rhs@))),
            r.is_some() ==> r.unwrap()@ == next_multiple(self@, rhs@),
    {
        proof {
            use_type_invariant(&self);
            use_type_invariant(&rhs);
            lemma_range_facts(S, Self::spec_bits());
        }
        if rhs.is_zero() {
            return None;
        }
        proof {
            lemma_euclid_division(self@, rhs@);
        }
        let (_q, _o, rem) = self.div_rem_euclid_core(rhs);
        if rem.is_zero() {
            Some(self)
        } else if !rhs.is_negative_internal() {
            let d = rhs.strict_sub(rem);
            self.checked_add(d)
        } else {
            self.checked_sub(rem)
        }
    }

    /// The average of `self` and `rhs`, rounded towards zero (never overflows).
    pub fn midpoint(self, rhs: Self) -> (r: Self)
        ensures
            r@ == div_trunc(self@ + rhs@, 2),
    {
        proof {
            use_type_invariant(&self);
            use_type_invariant(&rhs);
            lemma_range_facts(S, Self::spec_bits());
            lemma_pow2_half(Self::spec_bits());
            lemma2_to64();
        }
        let qa = self.wrapping_shr(1);
        let qb = rhs.wrapping_shr(1);
        let oa = self.is_odd();
        let ob = rhs.is_odd();
        proof {
            lemma_small_mod(1, Self::spec_bits());
            lemma_fundamental_div_mod(self@, 2);
            lemma_fundamental_div_mod(rhs@, 2);
            lemma_mod_bound(self@, 2);
            lemma_mod_bound(rhs@, 2);
        }
        proof {
            assert(qa@ == self@ / 2);
            assert(qb@ == rhs@ / 2);
            assert(self@ == 2 * qa@ + self@ % 2);
            assert(rhs@ == 2 * qb@ + rhs@ % 2);
            lemma_pow2_half((Self::spec_bits() - 1) as nat);
            assert(Self::fits_spec(qa@ + qb@));
        }
        let s = qa.strict_add(qb);
        let t = if oa && ob {
            proof {
                assert(s@ <= Self::max_spec() - 1);
            }
            s.strict_add(Self::one())
        } else {
            s
        };
        proof {
            let a = self@;
            let b = rhs@;
            let f = (a + b) / 2;
            lemma_fundamental_div_mod_converse_div(a + b, 2, t@, (a % 2 + b % 2) % 2);
            lemma_trunc_division(a + b, 2);
        }
        if t.is_negative_internal() && oa != ob {
            proof {
                assert(t@ < Self::max_spec());
            }
            t.strict_add(Self::one())
        } else {
            t
        }
    }
}

impl<const N: usize, const B: usize, const OM: u8> Uint<N, B, OM> {
    /// `2^power`; `power` must be less than `BITS`.
    pub fn power_of_two(power: u32) -> (r: Self)
        requires
            Self::valid_params(),
            power < Self::spec_bits(),
        ensures
            r@ == pow2(power as nat),
    {
        let p: [u8; N] = raw_pow2(power);
        proof {
            lemma_pow2_strictly_increases(power as nat, Self::spec_bits());
            if Self::spec_bits() < 8 * N {
                lemma_pow2_strictly_increases(Self::spec_bits(), (8 * N) as nat);
            }
            lemma_small_mod(pow2(power as nat), radix_pow(N as nat));
        }
        Self::from_raw(p, Ghost(pow2(power as nat) as int))
    }

    /// Whether the value is `2^k` for some `k`.
    pub fn is_power_of_two(self) -> (r: bool)
        ensures
            r == exists|k: nat| pow2(k) == self@,
    {
        proof {
            use_type_invariant(&self);
        }
        if self.is_zero() {
            proof {
                assert forall|k: nat| pow2(k) != self@ by {
                    lemma_pow2_pos(k);
                }
            }
            return false;
        }
        let k = self.ilog2();
        proof {
            crate::integer::logs::lemma_log_bounds(2, self@);
            crate::integer::logs::lemma_pow2_is_pow(k as nat);
            crate::integer::logs::lemma_pow2_is_pow((k + 1) as nat);
            if k >= Self::spec_bits() {
                lemma_pow2_strictly_increases(Self::spec_bits(), k as nat);
            }
            lemma_range_facts(false, Self::spec_bits());
        }
        let p = Self::power_of_two(k);
        let r = p.eq(&self);
        proof {
            if !r {
                assert forall|j: nat| pow2(j) != self@ by {
                    if pow2(j) == self@ {
                        if j < k {
                            lemma_pow2_strictly_increases(j, k as nat);
                        } else if j > k {
                            lemma_pow2_increases_any((k + 1) as nat, j);
                        }
                    }
                }
            }
        }
        r
    }
}

proof fn lemma_pow2_increases_any(a: nat, b: nat)
    requires
        a <= b,
    ensures
        pow2(a) <= pow2(b),
{
    if a < b {
        lemma_pow2_strictly_increases(a, b);
    }
}


impl<const S: bool, const N: usize, const B: usize, const OM: u8> Integer<S, N, B, OM> {
    /// The integer square root: the largest `r` with `r * r <= self`; `self` must not be
    /// negative.
    pub fn isqrt(self) -> (r: Self)
        requires
            self@ >= 0,
        ensures
            r@ >= 0,
            r@ * r@ <= self@ < (r@ + 1) * (r@ + 1),
    {
        proof {
            use_type_invariant(&self);
            lemma_range_facts(S, Self::spec_bits());
            lemma_range_facts(false, Self::spec_bits());
        }
        let m = self.unsigned_abs_internal();
        let bits = Self::bits_u32();
        let big_k: u32 = (bits + 1) / 2;
        let mut r = Uint::<N, B, OM>::zero();
        let mut k: u32 = big_k;
        proof {
            lemma_pow2_adds(big_k as nat, big_k as nat);
            lemma_pow2_increases_any(bits as nat, (big_k + big_k) as nat);
            lemma_pow2_strictly_increases(big_k as nat, bits as nat);
            assert(m@ < pow2(big_k as nat) * pow2(big_k as nat));
        }
        while k > 0
            invariant
                k <= big_k < bits,
                bits == Self::spec_bits(),
                Uint::<N, B, OM>::valid_params(),
                m@ == self@,
                0 <= r@,
                r@ + pow2(k as nat) <= pow2(big_k as nat),
                pow2(big_k as nat) < pow2(bits as nat),
                r@ * r@ <= m@,
                m@ < (r@ + pow2(k as nat)) * (r@ + pow2(k as nat)),
            decreases k,
        {
            k = k - 1;
            proof {
                lemma_pow2_unfold((k + 1) as nat);
                lemma_pow2_pos(k as nat);
            }
            let p = Uint::<N, B, OM>::power_of_two(k);
            let c = r.strict_add(p);
            let take = match c.checked_mul(c) {
                Some(c2) => c2.le(&m),
                None => {
                    proof {
                        use_type_invariant(&m);
                    }
                    false
                },
            };
            if take {
                proof {
                    assert((c@ + pow2(k as nat)) == r@ + pow2((k + 1) as nat));
                }
                r = c;
            }
        }
        proof {
            lemma2_to64();
            lemma_pow2_strictly_increases_any_local(big_k as nat, bits as nat);
        }
        let out = r.force_sign::<S>();
        proof {
            assert(r@ <= m@) by (nonlinear_arith)
                requires
                    r@ * r@ <= m@,
                    r@ >= 0,
            ;
            lemma_wrap(r@, S, Self::spec_bits());
        }
        out
    }
}

impl<const N: usize, const B: usize, const OM: u8> Uint<N, B, OM> {
    /// The least power of two not below `self`, or `None` when it is out of range.
    pub fn checked_next_power_of_two(self) -> (r: Option<Self>)
        ensures
            r.is_some() == (next_pow2_exp(self@) < Self::spec_bits()),
            r.is_some() ==> r.unwrap()@ == pow2(next_pow2_exp(self@)),
    {
        proof {
            use_type_invariant(&self);
            lemma_range_facts(false, Self::spec_bits());
            lemma2_to64();
        }
        let one = Self::one();
        if self.le(&one) {
            return Some(one);
        }
        let d = self.strict_sub(one);
        let k = d.ilog2();
        let bits = Self::bits_u32();
        proof {
            crate::integer::logs::lemma_log_bounds(2, d@);
            crate::integer::logs::lemma_pow2_is_pow(k as nat);
            if k >= bits {
                lemma_pow2_increases_any(bits as nat, k as nat);
            }
        }
        if k + 1 >= bits {
            None
        } else {
            Some(Self::power_of_two(k + 1))
        }
    }

    /// The least power of two not below `self`, or `0` when it is out of range.
    pub fn wrapping_next_power_of_two(self) -> (r: Self)
        ensures
            next_pow2_exp(self@) < Self::spec_bits() ==> r@ == pow2(next_pow2_exp(self@)),
            next_pow2_exp(self@) >= Self::spec_bits() ==> r@ == 0,
    {
        proof {
            use_type_invariant(&self);
        }
        match self.checked_next_power_of_two() {
            Some(v) => v,
            None => Self::zero(),
        }
    }

    /// The least power of two not below `self`, or the maximum when it is out of range.
    pub fn saturating_next_power_of_two(self) -> (r: Self)
        ensures
            next_pow2_exp(self@) < Self::spec_bits() ==> r@ == pow2(next_pow2_exp(self@)),
            next_pow2_exp(self@) >= Self::spec_bits() ==> r@ == Self::max_spec(),
    {
        proof {
            use_type_invariant(&self);
        }
        match self.checked_next_power_of_two() {
            Some(v) => v,
            None => Self::max_value(),
        }
    }

    /// The least power of two not below `self`; it must be representable.
    pub fn strict_next_power_of_two(self) -> (r: Self)
        requires
            next_pow2_exp(self@) < Self::spec_bits(),
        ensures
            r@ == pow2(next_pow2_exp(self@)),
    {
        self.checked_next_power_of_two().unwrap()
    }

    /// The least power of two not below `self`, under the type's overflow mode.
    pub fn next_power_of_two(self) -> (r: Self)
        requires
            OM == 1 ==> next_pow2_exp(self@) < Self::spec_bits(),
        ensures
            next_pow2_exp(self@) < Self::spec_bits() ==> r@ == pow2(next_pow2_exp(self@)),
            next_pow2_exp(self@) >= Self::spec_bits() && OM == 0 ==> r@ == 0,
            next_pow2_exp(self@) >= Self::spec_bits() && OM == 2 ==> r@ == Self::max_spec(),
    {
        if OM == 0 {
            self.wrapping_next_power_of_two()
        } else if OM == 1 {
            self.strict_next_power_of_two()
        } else {
            self.saturating_next_power_of_two()
        }
    }
}

/// The exponent chosen by `next_pow2_exp` gives the least power of two not below `v`.
pub proof fn lemma_next_pow2_exp(v: int)
    ensures
        pow2(next_pow2_exp(v)) >= v,
        next_pow2_exp(v) > 0 ==> pow2((next_pow2_exp(v) - 1) as nat) < v,
{
    lemma2_to64();
    if v > 1 {
        crate::integer::logs::lemma_log_bounds(2, v - 1);
        let k = log(2, v - 1) as nat;
        crate::integer::logs::lemma_pow2_is_pow(k);
        crate::integer::logs::lemma_pow2_is_pow(k + 1);
    }
}

proof fn lemma_pow2_strictly_increases_any_local(a: nat, b: nat)
    requires
        a < b,
    ensures
        pow2(a) < pow2(b),
{
    lemma_pow2_strictly_increases(a, b);
}

} // verus!
