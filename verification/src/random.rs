//! Uniform sampling of integers from a range, by widening multiplication and rejection.
//!
//! The random numbers are drawn by the caller and handed in: each step here decides, for one
//! draw, whether a value has been found and which.
use crate::integer::{Integer, Uint};
use crate::integer::bigint_helpers::{low_half, high_half, lemma_halves};
use crate::model::{lemma_range_facts, lemma_pow2_half, lemma_wrap, lemma_wrap_small};
use vstd::arithmetic::div_mod::*;
use vstd::arithmetic::mul::*;
use vstd::arithmetic::power2::*;
use vstd::prelude::*;

verus! {

/// A sampler for the integers `low, low + 1, ..., low + count - 1`, where `count` is held in
/// `range` as an unsigned pattern (`0` for the whole type), with the rejection threshold
/// `thresh`.
#[derive(Clone, Copy, Debug)]
pub struct UniformInt<X> {
    pub(crate) low: X,
    pub(crate) range: X,
    pub(crate) thresh: X,
}

/// Why a sampler could not be made: the range holds no value.
#[derive(Clone, Copy, Debug, PartialEq, Eq, Structural)]
pub enum UniformError {
    EmptyRange,
}

/// The width, in bits, of the random draws for a type of `bits` bits: 32 bits for types of at
/// most 32 bits, the type's own width otherwise.
pub open spec fn draw_bits(bits: nat) -> nat {
    if bits <= 32 {
        32
    } else {
        bits
    }
}

/// The rejection threshold for `count` values from draws of `zb` bits: `2^zb - count` modulo
/// `count` (`2^zb` modulo `count`).
pub open spec fn threshold(count: int, zb: nat) -> int {
    (pow2(zb) - count) % count
}

/// The high half of `v * range` for a draw `v` below `2^bits` is below `range`.
proof fn lemma_hi_below(v: int, range: int, bits: nat)
    requires
        0 <= v < pow2(bits),
        range > 0,
    ensures
        0 <= high_half(v * range, bits) < range,
{
    let m = pow2(bits) as int;
    lemma_pow2_pos(bits);
    lemma_halves(v * range, bits);
    let l = low_half(v * range, bits);
    let h = high_half(v * range, bits);
    assert(0 <= h < range) by (nonlinear_arith)
        requires
            l + h * m == v * range,
            0 <= l < m,
            0 <= v < m,
            range > 0,
            m > 0,
    ;
}

/// One step of widening-multiplication sampling with a draw `v`: `v * range` splits into a low
/// and a high half, and the high half is the sample unless the low half is below `thresh`.
pub fn lemire_step<const M: usize, const A: usize, const OM: u8>(
    range: Uint<M, A, OM>,
    thresh: Uint<M, A, OM>,
    v: Uint<M, A, OM>,
) -> (r: Option<Uint<M, A, OM>>)
    ensures
        r is Some == (low_half(v@ * range@, Uint::<M, A, OM>::spec_bits()) >= thresh@),
        r is Some ==> r->0@ == high_half(v@ * range@, Uint::<M, A, OM>::spec_bits()),
        r is Some && range@ > 0 ==> r->0@ < range@,
{
    proof {
        use_type_invariant(&v);
        use_type_invariant(&range);
        lemma_range_facts(false, Uint::<M, A, OM>::spec_bits());
    }
    let (lo, hi) = v.widening_mul(range);
    proof {
        if range@ > 0 {
            lemma_hi_below(v@, range@, Uint::<M, A, OM>::spec_bits());
        }
    }
    if thresh.le(&lo) {
        Some(hi)
    } else {
        None
    }
}

/// The state of a draw-by-draw computation of a sample below `range`: the sample so far, and
/// the low part that decides whether another draw is needed.
#[derive(Clone, Copy, Debug)]
pub struct CanonState<U> {
    pub lo: U,
    pub result: U,
    pub done: bool,
}

/// The first step of sampling below `range` (a nonzero count below `2^BITS`) with a draw `v`:
/// the high half of `v * range` is the sample, and it is final unless the low half exceeds
/// `2^BITS - range`.
pub fn canon_begin<const M: usize, const A: usize, const OM: u8>(range: Uint<M, A, OM>, v: Uint<M, A, OM>) -> (r: CanonState<Uint<M, A, OM>>)
    requires
        range@ > 0,
    ensures
        r.lo@ == low_half(v@ * range@, Uint::<M, A, OM>::spec_bits()),
        r.result@ == high_half(v@ * range@, Uint::<M, A, OM>::spec_bits()),
        r.done == (r.lo@ <= pow2(Uint::<M, A, OM>::spec_bits()) - range@),
        r.result@ < range@,
        !r.done ==> r.result@ + 1 < range@,
{
    proof {
        use_type_invariant(&v);
        use_type_invariant(&range);
        lemma_range_facts(false, Uint::<M, A, OM>::spec_bits());
        lemma_hi_below(v@, range@, Uint::<M, A, OM>::spec_bits());
    }
    let (lo, hi) = v.widening_mul(range);
    let neg = range.wrapping_neg();
    proof {
        let bits = Uint::<M, A, OM>::spec_bits();
        lemma_wrap_small(-range@, false, bits);
        lemma_halves(v@ * range@, bits);
        lemma_result_not_last(v@, range@, lo@, hi@, bits);
    }
    CanonState { lo, result: hi, done: !neg.lt(&lo) }
}

/// A low part above `2^bits - range` comes with a high part below `range - 1`.
proof fn lemma_result_not_last(v: int, range: int, lo: int, hi: int, bits: nat)
    requires
        0 <= v < pow2(bits),
        0 < range <= pow2(bits),
        lo + hi * pow2(bits) == v * range,
        0 <= lo < pow2(bits),
    ensures
        lo > pow2(bits) - range ==> hi + 1 < range,
{
    let m = pow2(bits) as int;
    if lo > m - range && hi + 1 >= range {
        assert(v * range <= (m - 1) * range) by (nonlinear_arith)
            requires
                v <= m - 1,
                range > 0,
        ;
        assert(hi * m >= (range - 1) * m) by (nonlinear_arith)
            requires
                hi >= range - 1,
                m > 0,
        ;
        assert((range - 1) * m == range * m - m) by (nonlinear_arith);
        assert((m - 1) * range == range * m - range) by (nonlinear_arith);
    }
}

/// A further step of sampling below `range` with a draw `v`, while the low part `lo` exceeds
/// `2^BITS - range`: when `lo` plus the high half of `v * range` carries past `2^BITS`, the
/// sample goes up by one; when it reaches exactly `2^BITS - 1`, the low half of `v * range`
/// becomes the new low part; otherwise the sample is final.
pub fn canon_continue<const M: usize, const A: usize, const OM: u8>(
    range: Uint<M, A, OM>,
    state: CanonState<Uint<M, A, OM>>,
    v: Uint<M, A, OM>,
) -> (r: CanonState<Uint<M, A, OM>>)
    requires
        range@ > 0,
        !state.done,
        state.result@ + 1 < range@,
        state.lo@ > pow2(Uint::<M, A, OM>::spec_bits()) - range@,
    ensures
        ({
            let bits = Uint::<M, A, OM>::spec_bits();
            let m = pow2(bits) as int;
            let x = state.lo@ + high_half(v@ * range@, bits);
            if x >= m {
                r.done && r.result@ == state.result@ + 1
            } else if x == m - 1 {
                r.lo@ == low_half(v@ * range@, bits) && r.result@ == state.result@ && r.done == (r.lo@ <= m - range@)
            } else {
                r.done && r.result@ == state.result@
            }
        }),
        r.result@ < range@,
        !r.done ==> r.result@ + 1 < range@ && r.lo@ > pow2(Uint::<M, A, OM>::spec_bits()) - range@,
{
    proof {
        use_type_invariant(&v);
        use_type_invariant(&range);
        use_type_invariant(&state.lo);
        lemma_range_facts(false, Uint::<M, A, OM>::spec_bits());
        lemma_hi_below(v@, range@, Uint::<M, A, OM>::spec_bits());
    }
    let (new_lo, new_hi) = v.widening_mul(range);
    let (x, carry) = state.lo.overflowing_add(new_hi);
    let mx = Uint::<M, A, OM>::max_value();
    let neg = range.wrapping_neg();
    proof {
        let bits = Uint::<M, A, OM>::spec_bits();
        use_type_invariant(&state.result);
        lemma_wrap_small(state.lo@ + new_hi@, false, bits);
        lemma_wrap_small(-range@, false, bits);
        lemma_wrap(state.result@ + 1, false, bits);
    }
    if carry {
        CanonState { lo: state.lo, result: state.result.wrapping_add(Uint::<M, A, OM>::one()), done: true }
    } else if x.eq(&mx) {
        CanonState { lo: new_lo, result: state.result, done: !neg.lt(&new_lo) }
    } else {
        CanonState { lo: state.lo, result: state.result, done: true }
    }
}

impl<const S: bool, const N: usize, const B: usize, const OM: u8> UniformInt<Integer<S, N, B, OM>> {
    /// The number of values sampled: `1` to `2^BITS - 1`, or `0` for the whole type.
    pub open(crate) spec fn count(self) -> int {
        self.range@ % (pow2(Integer::<S, N, B, OM>::spec_bits()) as int)
    }

    /// The smallest value sampled.
    pub open(crate) spec fn spec_low(self) -> int {
        self.low@
    }

    /// The sampler's fields agree: the sampled values are in range, and the threshold is
    /// `2^zb` modulo the count, for draws of `zb` bits.
    pub open(crate) spec fn wf(self) -> bool {
        &&& self.count() == 0 ==> self.thresh@ == 0
        &&& self.count() > 0 ==> Integer::<S, N, B, OM>::fits_spec(self.low@ + self.count() - 1)
        &&& self.count() > 0 ==> self.thresh@ % (pow2(Integer::<S, N, B, OM>::spec_bits()) as int) == threshold(self.count(), draw_bits(Integer::<S, N, B, OM>::spec_bits()))
    }

    /// A sampler for the values from `low` to `high` inclusive; an error when `high < low`.
    pub fn new_inclusive(low: Integer<S, N, B, OM>, high: Integer<S, N, B, OM>) -> (r: Result<Self, UniformError>)
        ensures
            r is Err == (high@ < low@),
            r is Ok ==> r->Ok_0.wf() && r->Ok_0.spec_low() == low@,
            r is Ok ==> r->Ok_0.count() == (high@ - low@ + 1) % (pow2(Integer::<S, N, B, OM>::spec_bits()) as int),
    {
        proof {
            use_type_invariant(&low);
            use_type_invariant(&high);
        }
        if high.lt(&low) {
            return Err(UniformError::EmptyRange);
        }
        let bits = Integer::<S, N, B, OM>::bits_u32();
        let ghost m = pow2(bits as nat) as int;
        let range_u = Self::count_of(low, high);
        proof {
            use_type_invariant(&range_u);
        }
        proof {
            lemma_pow2_pos(bits as nat);
            lemma_range_facts(S, bits as nat);
            lemma_small_mod(range_u@ as nat, m as nat);
        }
        let thresh: Integer<S, N, B, OM> = if range_u.is_zero() {
            Integer::<S, N, B, OM>::zero()
        } else if bits <= 32 {
            let r32 = Uint::<4, 0, OM>::cast_from_integer(range_u);
            proof {
                lemma2_to64();
                if bits < 32 {
                    lemma_pow2_strictly_increases(bits as nat, 32);
                }
                lemma_wrap(range_u@, false, 32);
            }
            let t = threshold_of(r32);
            let th = Integer::<S, N, B, OM>::cast_from_integer(t);
            proof {
                use_type_invariant(&t);
                lemma_wrap(t@, S, bits as nat);
                lemma_small_mod(t@ as nat, m as nat);
                assert(th@ % m == threshold(range_u@, draw_bits(bits as nat)));
            }
            th
        } else {
            let t = threshold_of(range_u);
            let th = t.force_sign::<S>();
            proof {
                use_type_invariant(&t);
                lemma_wrap(t@, S, bits as nat);
                lemma_small_mod(t@ as nat, m as nat);
                assert(th@ % m == threshold(range_u@, draw_bits(bits as nat)));
            }
            th
        };
        let range = range_u.force_sign::<S>();
        proof {
            lemma_wrap(range_u@, S, bits as nat);
            // the count is the number of values from low to high, or zero for all of them
            if high@ - low@ + 1 < m {
                lemma_small_mod((high@ - low@ + 1) as nat, m as nat);
            } else {
                lemma_mod_self_0(m);
            }
        }
        let r = UniformInt { low, range, thresh };
        proof {
            assert(r.count() == range_u@);
        }
        Ok(r)
    }

    /// A sampler for the values from `low` to `high - 1`; an error when `high <= low`.
    pub fn new(low: Integer<S, N, B, OM>, high: Integer<S, N, B, OM>) -> (r: Result<Self, UniformError>)
        ensures
            r is Err == (high@ <= low@),
            r is Ok ==> r->Ok_0.wf() && r->Ok_0.spec_low() == low@,
            r is Ok ==> r->Ok_0.count() == (high@ - low@) % (pow2(Integer::<S, N, B, OM>::spec_bits()) as int),
    {
        proof {
            use_type_invariant(&low);
            use_type_invariant(&high);
        }
        if high.le(&low) {
            return Err(UniformError::EmptyRange);
        }
        let h = high.strict_sub(Integer::<S, N, B, OM>::one());
        Self::new_inclusive(low, h)
    }

    /// The number of values from `low` to `high` inclusive, modulo `2^BITS`.
    fn count_of(low: Integer<S, N, B, OM>, high: Integer<S, N, B, OM>) -> (r: Uint<N, B, OM>)
        requires
            low@ <= high@,
        ensures
            r@ == (high@ - low@ + 1) % (pow2(Integer::<S, N, B, OM>::spec_bits()) as int),
    {
        proof {
            use_type_invariant(&low);
            use_type_invariant(&high);
        }
        let d = high.wrapping_sub(low).force_sign::<false>();
        proof {
            let bits = Integer::<S, N, B, OM>::spec_bits();
            lemma_pow2_pos(bits);
            lemma_wrap(high@ - low@, S, bits);
            lemma_wrap(Integer::<S, N, B, OM>::wrap_spec(high@ - low@), false, bits);
            crate::model::lemma_wrap_congruent(Integer::<S, N, B, OM>::wrap_spec(high@ - low@), high@ - low@, false, bits);
            lemma_wrap(d@ + 1, false, bits);
            lemma_wrap(high@ - low@ + 1, false, bits);
            lemma_add_mod_noop(d@, 1, pow2(bits) as int);
            lemma_add_mod_noop(high@ - low@, 1, pow2(bits) as int);
            lemma_mod_twice(high@ - low@, pow2(bits) as int);
        }
        d.wrapping_add(Uint::<N, B, OM>::one())
    }

    /// The number of values sampled as an unsigned integer of the same width (`0` for the whole
    /// type).
    pub fn range_unsigned(&self) -> (r: Uint<N, B, OM>)
        ensures
            r@ == self.count(),
    {
        proof {
            use_type_invariant(&self.range);
            crate::model::lemma_wrap(self.range@, false, Integer::<S, N, B, OM>::spec_bits());
        }
        self.range.force_sign::<false>()
    }

    /// Whether the sampler covers the whole type (every value is sampled directly).
    pub fn is_full_range(&self) -> (r: bool)
        ensures
            r == (self.count() == 0),
    {
        proof {
            use_type_invariant(&self.range);
            crate::model::lemma_wrap(self.range@, false, Integer::<S, N, B, OM>::spec_bits());
        }
        self.range.force_sign::<false>().is_zero()
    }

    /// One sampling step for a type wider than 32 bits, with a draw `v` of the type's width:
    /// the value `low + h`, where `h` is the high half of `v * count`, unless the low half is
    /// below the threshold.
    pub fn sample_step(&self, v: Uint<N, B, OM>) -> (r: Option<Integer<S, N, B, OM>>)
        requires
            self.wf(),
            self.count() > 0,
            Integer::<S, N, B, OM>::spec_bits() > 32,
        ensures
            r is Some == (low_half(v@ * self.count(), Integer::<S, N, B, OM>::spec_bits()) >= threshold(self.count(), Integer::<S, N, B, OM>::spec_bits())),
            r is Some ==> r->0@ == self.spec_low() + high_half(v@ * self.count(), Integer::<S, N, B, OM>::spec_bits()),
            r is Some ==> self.spec_low() <= r->0@ < self.spec_low() + self.count(),
    {
        proof {
            use_type_invariant(&self.low);
            use_type_invariant(&self.range);
            use_type_invariant(&self.thresh);
        }
        let range = self.range.force_sign::<false>();
        let thresh = self.thresh.force_sign::<false>();
        proof {
            let bits = Integer::<S, N, B, OM>::spec_bits();
            lemma_wrap(self.range@, false, bits);
            lemma_wrap(self.thresh@, false, bits);
        }
        match lemire_step(range, thresh, v) {
            Some(h) => {
                proof {
                    use_type_invariant(&h);
                }
                Some(self.offset(h))
            },
            None => None,
        }
    }

    /// One sampling step for a type of at most 32 bits, with a 32-bit draw `v`: the value
    /// `low + h`, where `h` is the high half of `v * count` split at bit 32, unless the low half
    /// is below the threshold.
    pub fn sample_step_u32(&self, v: u32) -> (r: Option<Integer<S, N, B, OM>>)
        requires
            self.wf(),
            self.count() > 0,
            Integer::<S, N, B, OM>::spec_bits() <= 32,
        ensures
            r is Some == (low_half(v * self.count(), 32) >= threshold(self.count(), 32)),
            r is Some ==> r->0@ == self.spec_low() + high_half(v * self.count(), 32),
            r is Some ==> self.spec_low() <= r->0@ < self.spec_low() + self.count(),
    {
        proof {
            use_type_invariant(&self.low);
            use_type_invariant(&self.range);
            use_type_invariant(&self.thresh);
            lemma2_to64();
        }
        let bits = Integer::<S, N, B, OM>::bits_u32();
        let range = Uint::<4, 0, OM>::cast_from_integer(self.range.force_sign::<false>());
        let thresh = Uint::<4, 0, OM>::cast_from_integer(self.thresh.force_sign::<false>());
        let w = Uint::<4, 0, OM>::cast_from_u128(v as u128);
        proof {
            lemma_wrap(self.range@, false, bits as nat);
            lemma_wrap(self.thresh@, false, bits as nat);
            if bits < 32 {
                lemma_pow2_strictly_increases(bits as nat, 32);
            }
            lemma_wrap(Integer::<S, N, B, OM>::wrap_spec(self.range@) % (pow2(bits as nat) as int), false, 32);
            lemma_wrap(self.count(), false, 32);
            lemma_wrap(self.thresh@ % (pow2(bits as nat) as int), false, 32);
            lemma_wrap(v as int, false, 32);
        }
        match lemire_step(range, thresh, w) {
            Some(h) => {
                proof {
                    use_type_invariant(&h);
                }
                let hh = Uint::<N, B, OM>::cast_from_integer(h);
                proof {
                    lemma_wrap(h@, false, bits as nat);
                }
                Some(self.offset(hh))
            },
            None => None,
        }
    }

    /// `low + h` for an offset `h` below the count.
    pub fn offset(&self, h: Uint<N, B, OM>) -> (r: Integer<S, N, B, OM>)
        requires
            self.wf(),
            self.count() > 0,
            h@ < self.count(),
        ensures
            r@ == self.spec_low() + h@,
    {
        proof {
            use_type_invariant(&self.low);
            use_type_invariant(&h);
            lemma_range_facts(S, Integer::<S, N, B, OM>::spec_bits());
            lemma_range_facts(false, Integer::<S, N, B, OM>::spec_bits());
        }
        let hs = h.force_sign::<S>();
        proof {
            let bits = Integer::<S, N, B, OM>::spec_bits();
            lemma_pow2_pos(bits);
            lemma_wrap(h@, S, bits);
            lemma_wrap(self.low@ + hs@, S, bits);
            lemma_wrap(self.low@ + h@, S, bits);
            lemma_add_mod_noop(self.low@, hs@, pow2(bits) as int);
            lemma_add_mod_noop(self.low@, h@, pow2(bits) as int);
            crate::model::lemma_wrap_congruent(self.low@ + hs@, self.low@ + h@, S, bits);
        }
        self.low.wrapping_add(hs)
    }
}

/// The rejection threshold for a nonzero count `range`: `2^BITS` modulo `range`.
fn threshold_of<const M: usize, const A: usize, const OM: u8>(range: Uint<M, A, OM>) -> (r: Uint<M, A, OM>)
    requires
        range@ > 0,
    ensures
        r@ == threshold(range@, Uint::<M, A, OM>::spec_bits()),
        r@ < range@,
{
    proof {
        use_type_invariant(&range);
        lemma_range_facts(false, Uint::<M, A, OM>::spec_bits());
        lemma_wrap_small(-range@, false, Uint::<M, A, OM>::spec_bits());
        lemma_mod_bound(pow2(Uint::<M, A, OM>::spec_bits()) - range@, range@);
    }
    let neg = range.wrapping_neg();
    neg.wrapping_rem(range)
}

} // verus!
