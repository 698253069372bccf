//! Double-width arithmetic: additions with a carry in and out, and products split into a low
//! (unsigned) and a high half.
use super::{Integer, Uint};
use super::mul::abs_int;
use crate::digits::{radix_pow, lemma_le_value_bound};
use crate::model::{lemma_range_facts, lemma_pow2_half};
use crate::raw::{uval, raw_widening_mul, raw_shl, raw_shr, raw_add, bit_value};
use vstd::arithmetic::div_mod::*;
use vstd::arithmetic::mul::*;
use vstd::arithmetic::power2::*;
use vstd::prelude::*;

verus! {

/// The low half of `v` split at bit `bits`: `v` modulo `2^bits`.
pub open spec fn low_half(v: int, bits: nat) -> int {
    v % (pow2(bits) as int)
}

/// The high half of `v` split at bit `bits`: `v` divided by `2^bits`, rounded down.
pub open spec fn high_half(v: int, bits: nat) -> int {
    v / (pow2(bits) as int)
}

/// The halves of `v` put back together give `v`.
pub proof fn lemma_halves(v: int, bits: nat)
    ensures
        low_half(v, bits) + high_half(v, bits) * pow2(bits) == v,
        0 <= low_half(v, bits) < pow2(bits),
{
    lemma_pow2_pos(bits);
    lemma_fundamental_div_mod(v, pow2(bits) as int);
    lemma_mod_bound(v, pow2(bits) as int);
    lemma_mul_is_commutative(pow2(bits) as int, v / (pow2(bits) as int));
}

/// Splitting is unique: a low part in range and a high part that rebuild `v` are its halves.
proof fn lemma_halves_unique(v: int, lo: int, hi: int, bits: nat)
    requires
        0 <= lo < pow2(bits),
        lo + hi * pow2(bits) == v,
    ensures
        low_half(v, bits) == lo,
        high_half(v, bits) == hi,
{
    lemma_pow2_pos(bits);
    lemma_mul_is_commutative(pow2(bits) as int, hi);
    lemma_fundamental_div_mod_converse(v, pow2(bits) as int, hi, lo);
}

/// The halves of the negation of a nonnegative number.
proof fn lemma_halves_neg(p: int, bits: nat)
    requires
        p >= 0,
    ensures
        low_half(-p, bits) == (if low_half(p, bits) == 0 { 0 } else { pow2(bits) - low_half(p, bits) }),
        high_half(-p, bits) == (if low_half(p, bits) == 0 {
            -high_half(p, bits)
        } else {
            -high_half(p, bits) - 1
        }),
{
    lemma_halves(p, bits);
    let l = low_half(p, bits);
    let h = high_half(p, bits);
    let m = pow2(bits) as int;
    if l == 0 {
        assert((-h) * m == -(h * m)) by (nonlinear_arith);
        lemma_halves_unique(-p, 0, -h, bits);
    } else {
        assert((-h - 1) * m == -(h * m) - m) by (nonlinear_arith);
        lemma_halves_unique(-p, m - l, -h - 1, bits);
    }
}

/// The product of the magnitudes is the magnitude of the product.
proof fn lemma_abs_product(a: int, b: int)
    ensures
        abs_int(a) * abs_int(b) == (if (a < 0) == (b < 0) { a * b } else { -(a * b) }),
        abs_int(a) * abs_int(b) >= 0,
{
    if a < 0 {
        if b < 0 {
            assert((-a) * (-b) == a * b) by (nonlinear_arith);
        } else {
            assert((-a) * b == -(a * b)) by (nonlinear_arith);
        }
    } else if b < 0 {
        assert(a * (-b) == -(a * b)) by (nonlinear_arith);
    }
    assert(abs_int(a) * abs_int(b) >= 0) by (nonlinear_arith)
        requires
            abs_int(a) >= 0,
            abs_int(b) >= 0,
    ;
}

impl<const S: bool, const N: usize, const B: usize, const OM: u8> Integer<S, N, B, OM> {
    /// `self + rhs + carry` wrapped into range, and whether the true sum was out of range.
    pub fn carrying_add(self, rhs: Self, carry: bool) -> (r: (Self, bool))
        ensures
            r.0@ == Self::wrap_spec(self@ + rhs@ + bit_value(carry)),
            r.1 == !Self::fits_spec(self@ + rhs@ + bit_value(carry)),
    {
        proof {
            use_type_invariant(&self);
            use_type_invariant(&rhs);
            lemma_range_facts(S, Self::spec_bits());
        }
        let (s1, o1) = self.overflowing_add(rhs);
        if carry {
            let (s2, o2) = s1.overflowing_add(Self::one());
            proof {
                crate::model::lemma_wrap_small(self@ + rhs@, S, Self::spec_bits());
                crate::model::lemma_wrap_small(s1@ + 1, S, Self::spec_bits());
                crate::model::lemma_wrap_small(self@ + rhs@ + 1, S, Self::spec_bits());
            }
            (s2, o1 != o2)
        } else {
            (s1, o1)
        }
    }

    /// `self - rhs - borrow` wrapped into range, and whether the true difference was out of
    /// range.
    pub fn borrowing_sub(self, rhs: Self, borrow: bool) -> (r: (Self, bool))
        ensures
            r.0@ == Self::wrap_spec(self@ - rhs@ - bit_value(borrow)),
            r.1 == !Self::fits_spec(self@ - rhs@ - bit_value(borrow)),
    {
        proof {
            use_type_invariant(&self);
            use_type_invariant(&rhs);
            lemma_range_facts(S, Self::spec_bits());
        }
        let (s1, o1) = self.overflowing_sub(rhs);
        if borrow {
            let (s2, o2) = s1.overflowing_sub(Self::one());
            proof {
                crate::model::lemma_wrap_small(self@ - rhs@, S, Self::spec_bits());
                crate::model::lemma_wrap_small(s1@ - 1, S, Self::spec_bits());
                crate::model::lemma_wrap_small(self@ - rhs@ - 1, S, Self::spec_bits());
            }
            (s2, o1 != o2)
        } else {
            (s1, o1)
        }
    }

    /// The halves of `|self| * |rhs|`, both unsigned.
    fn magnitude_product(self, rhs: Self) -> (r: (Uint<N, B, OM>, Uint<N, B, OM>))
        ensures
            r.0@ == low_half(abs_int(self@) * abs_int(rhs@), Self::spec_bits()),
            r.1@ == high_half(abs_int(self@) * abs_int(rhs@), Self::spec_bits()),
            S ==> r.1@ <= pow2((Self::spec_bits() - 2) as nat),
    {
        proof {
            use_type_invariant(&self);
            self.lemma_repr();
        }
        let ma = self.magnitude();
        let mb = rhs.magnitude();
        let (l, h) = raw_widening_mul(&ma, &mb);
        let bits = Self::bits_u32();
        let ghost n8 = (8 * N) as nat;
        let ghost r = radix_pow(N as nat) as int;
        let ghost p = abs_int(self@) * abs_int(rhs@);
        let ghost m = pow2(bits as nat) as int;
        proof {
            lemma_le_value_bound(l@);
            lemma_le_value_bound(h@);
            lemma_abs_product(self@, rhs@);
            lemma_halves(p, bits as nat);
            lemma_pow2_pos(bits as nat);
            lemma_range_facts(S, bits as nat);
            lemma_pow2_half(bits as nat);
            // the product is below 2^(2 bits), and below 2^(2 bits - 2) for signed magnitudes
            let ua = abs_int(self@);
            let ub = abs_int(rhs@);
            lemma_pow2_adds(bits as nat, bits as nat);
            if S {
                lemma_pow2_half((bits - 1) as nat);
                lemma_pow2_adds((bits - 2) as nat, bits as nat);
                lemma_pow2_adds((bits - 1) as nat, (bits - 1) as nat);
                let hb = pow2((bits - 1) as nat) as int;
                assert(ua * ub <= hb * hb) by (nonlinear_arith)
                    requires
                        0 <= ua <= hb,
                        0 <= ub <= hb,
                ;
                assert(hb * hb == pow2((bits - 2) as nat) * m);
                lemma_div_is_ordered(p, pow2((bits - 2) as nat) * m, m);
                lemma_div_by_multiple(pow2((bits - 2) as nat) as int, m);
                lemma_pow2_strictly_increases((bits - 2) as nat, bits as nat);
                assert(pow2((bits - 2) as nat) * m < m * m) by (nonlinear_arith)
                    requires
                        pow2((bits - 2) as nat) < m,
                        m > 0,
                ;
            } else {
                assert(ua * ub < m * m) by (nonlinear_arith)
                    requires
                        0 <= ua < m,
                        0 <= ub < m,
                ;
            }
            assert(p < m * m);
            lemma_mod_of_halves(uval(l) as int, uval(h) as int, r);
            lemma_mul_is_commutative(r, uval(h) as int);
            if bits < n8 {
                lemma_pow2_strictly_increases(bits as nat, n8);
            }
        }
        let lo = Uint::<N, B, OM>::from_wrapped(l, Ghost(p));
        proof {
            crate::model::lemma_wrap(p, false, bits as nat);
            lemma_mod_bound(p, m);
        }
        if bits as usize == 8 * N {
            proof {
                lemma_halves_unique(p, uval(l) as int, uval(h) as int, bits as nat);
                lemma_small_mod(uval(h), r as nat);
                self::lemma_hi_bound(p, bits as nat);
            }
            let hi = Uint::<N, B, OM>::from_raw(h, Ghost(uval(h) as int));
            (lo, hi)
        } else {
            let k: u32 = 8 * (N as u32) - bits;
            let hs = raw_shl(&h, k);
            let ls = raw_shr(&l, bits);
            let (sum, c) = raw_add(&hs, &ls, false);
            proof {
                let hh = uval(h) as int;
                let ll = uval(l) as int;
                lemma_pow2_adds(k as nat, bits as nat);
                lemma_pow2_pos(k as nat);
                lemma_halves(ll, bits as nat);
                // p = (l mod 2^bits) + (h * 2^k + l / 2^bits) * 2^bits
                let top = hh * pow2(k as nat) + ll / m;
                assert(hh * r == (hh * pow2(k as nat)) * m) by {
                    lemma_mul_is_associative(hh, pow2(k as nat) as int, m);
                }
                assert(top * m == (hh * pow2(k as nat)) * m + (ll / m) * m) by {
                    lemma_mul_is_distributive_add_other_way(m, hh * pow2(k as nat), ll / m);
                }
                assert(p == ll % m + top * m);
                lemma_mod_bound(ll, m);
                lemma_halves_unique(p, ll % m, top, bits as nat);
                self::lemma_hi_bound(p, bits as nat);
                // no term overflows the N bytes
                assert(hh * pow2(k as nat) <= top);
                assert(hh * pow2(k as nat) < r);
                lemma_small_mod((hh * pow2(k as nat)) as nat, r as nat);
                lemma_mul_basics(r);
                if c {
                    assert(bit_value(c) * r == r);
                    assert(false);
                }
                assert(uval(sum) == top);
                lemma_small_mod(uval(sum), r as nat);
            }
            let hi = Uint::<N, B, OM>::from_raw(sum, Ghost(uval(sum) as int));
            (lo, hi)
        }
    }

    /// The full product `self * rhs` as a low half (unsigned, `self * rhs` modulo `2^BITS`) and
    /// a high half (`self * rhs` divided by `2^BITS`, rounded down).
    pub fn widening_mul(self, rhs: Self) -> (r: (Uint<N, B, OM>, Self))
        ensures
            r.0@ == low_half(self@ * rhs@, Self::spec_bits()),
            r.1@ == high_half(self@ * rhs@, Self::spec_bits()),
    {
        proof {
            use_type_invariant(&self);
            lemma_abs_product(self@, rhs@);
            lemma_range_facts(S, Self::spec_bits());
            lemma_pow2_half(Self::spec_bits());
        }
        let (ulo, uhi) = self.magnitude_product(rhs);
        let ghost p = abs_int(self@) * abs_int(rhs@);
        let ghost bits = Self::spec_bits();
        proof {
            lemma_halves(p, bits);
            if S {
                lemma_pow2_half((bits - 1) as nat);
            }
        }
        let hi = uhi.force_sign::<S>();
        proof {
            crate::model::lemma_wrap(uhi@, S, bits);
        }
        proof {
            use_type_invariant(&uhi);
        }
        if self.is_negative_internal() == rhs.is_negative_internal() {
            (ulo, hi)
        } else {
            proof {
                lemma_halves_neg(p, bits);
                crate::model::lemma_wrap(-ulo@, false, bits);
                crate::model::lemma_wrap_small(-ulo@, false, bits);
            }
            let lo = ulo.wrapping_neg();
            if ulo.is_zero() {
                let h = hi.wrapping_neg();
                proof {
                    crate::model::lemma_wrap(-hi@, S, bits);
                }
                (lo, h)
            } else {
                (lo, hi.not())
            }
        }
    }

    /// Adds `c` to the number whose halves are `lo` and `hi`, given that the high half of the
    /// sum is representable.
    fn add_to_halves(lo: Uint<N, B, OM>, hi: Self, c: Self, Ghost(v0): Ghost<int>) -> (r: (Uint<N, B, OM>, Self))
        requires
            lo@ + hi@ * pow2(Self::spec_bits()) == v0,
            Self::fits_spec(high_half(v0 + c@, Self::spec_bits())),
        ensures
            r.0@ == low_half(v0 + c@, Self::spec_bits()),
            r.1@ == high_half(v0 + c@, Self::spec_bits()),
    {
        proof {
            use_type_invariant(&lo);
            use_type_invariant(&c);
            lemma_range_facts(S, Self::spec_bits());
            lemma_range_facts(false, Self::spec_bits());
            lemma_pow2_half(Self::spec_bits());
        }
        let ghost bits = Self::spec_bits();
        let ghost m = pow2(bits) as int;
        let cu = c.force_sign::<false>();
        proof {
            crate::model::lemma_wrap_small(c@, false, bits);
        }
        let (l, ov) = lo.overflowing_add(cu);
        proof {
            crate::model::lemma_wrap_small(lo@ + cu@, false, bits);
        }
        let neg = c.is_negative_internal();
        let ghost top = hi@ + (if ov { 1int } else { 0int }) - (if neg { 1int } else { 0int });
        proof {
            assert(v0 + c@ == l@ + top * m) by (nonlinear_arith)
                requires
                    lo@ + hi@ * m == v0,
                    cu@ == c@ + (if neg { m } else { 0 }),
                    l@ == lo@ + cu@ - (if ov { m } else { 0 }),
                    top == hi@ + (if ov { 1int } else { 0int }) - (if neg { 1int } else { 0int }),
            ;
            lemma_halves_unique(v0 + c@, l@, top, bits);
            crate::model::lemma_wrap(top, S, bits);
        }
        if neg {
            if ov {
                (l, hi)
            } else {
                (l, hi.wrapping_sub(Self::one()))
            }
        } else {
            if ov {
                (l, hi.wrapping_add(Self::one()))
            } else {
                (l, hi)
            }
        }
    }

    /// The full value `self * rhs + carry` as a low half (unsigned, modulo `2^BITS`) and a high
    /// half (divided by `2^BITS`, rounded down).
    pub fn carrying_mul(self, rhs: Self, carry: Self) -> (r: (Uint<N, B, OM>, Self))
        ensures
            r.0@ == low_half(self@ * rhs@ + carry@, Self::spec_bits()),
            r.1@ == high_half(self@ * rhs@ + carry@, Self::spec_bits()),
    {
        proof {
            use_type_invariant(&self);
            use_type_invariant(&rhs);
            use_type_invariant(&carry);
            lemma_range_facts(S, Self::spec_bits());
            self::lemma_mul_add_range(self@, rhs@, carry@, 0, S, Self::spec_bits());
        }
        let (lo, hi) = self.widening_mul(rhs);
        proof {
            lemma_halves(self@ * rhs@, Self::spec_bits());
        }
        Self::add_to_halves(lo, hi, carry, Ghost(self@ * rhs@))
    }

    /// The full value `self * rhs + carry + add` as a low half (unsigned, modulo `2^BITS`) and a
    /// high half (divided by `2^BITS`, rounded down).
    pub fn carrying_mul_add(self, rhs: Self, carry: Self, add: Self) -> (r: (Uint<N, B, OM>, Self))
        ensures
            r.0@ == low_half(self@ * rhs@ + carry@ + add@, Self::spec_bits()),
            r.1@ == high_half(self@ * rhs@ + carry@ + add@, Self::spec_bits()),
    {
        proof {
            use_type_invariant(&self);
            use_type_invariant(&rhs);
            use_type_invariant(&carry);
            use_type_invariant(&add);
            lemma_range_facts(S, Self::spec_bits());
            self::lemma_mul_add_range(self@, rhs@, carry@, add@, S, Self::spec_bits());
        }
        let (lo, hi) = self.carrying_mul(rhs, carry);
        proof {
            lemma_halves(self@ * rhs@ + carry@, Self::spec_bits());
        }
        Self::add_to_halves(lo, hi, add, Ghost(self@ * rhs@ + carry@))
    }
}

/// A value held in two `N`-byte halves is the low half modulo `2^(8N)`.
proof fn lemma_mod_of_halves(l: int, h: int, r: int)
    requires
        0 <= l < r,
        h >= 0,
    ensures
        (l + r * h) % r == l,
{
    lemma_mul_is_commutative(r, h);
    lemma_fundamental_div_mod_converse(l + r * h, r, h, l);
}

/// `a * b + c + d` for representable `a`, `b`, `c`, `d` has a representable high half, and so
/// has `a * b + c`.
proof fn lemma_mul_add_range(a: int, b: int, c: int, d: int, signed: bool, bits: nat)
    requires
        bits >= 2,
        crate::model::fits(a, signed, bits),
        crate::model::fits(b, signed, bits),
        crate::model::fits(c, signed, bits),
        crate::model::fits(d, signed, bits),
    ensures
        crate::model::fits(high_half(a * b + c + d, bits), signed, bits),
        crate::model::fits(high_half(a * b + c, bits), signed, bits),
{
    lemma_pow2_half(bits);
    lemma_pow2_half((bits - 1) as nat);
    let m = pow2(bits) as int;
    let h = pow2((bits - 1) as nat) as int;
    lemma_halves(a * b + c + d, bits);
    lemma_halves(a * b + c, bits);
    let q1 = high_half(a * b + c + d, bits);
    let q2 = high_half(a * b + c, bits);
    let r1 = low_half(a * b + c + d, bits);
    let r2 = low_half(a * b + c, bits);
    lemma_range_facts(signed, bits);
    if signed {
        assert(-h * h <= a * b <= h * h) by (nonlinear_arith)
            requires
                -h <= a <= h - 1,
                -h <= b <= h - 1,
                h >= 2,
        ;
        assert(-h <= q1 <= h - 1 && -h <= q2 <= h - 1) by (nonlinear_arith)
            requires
                -h * h <= a * b <= h * h,
                -h <= c <= h - 1,
                -h <= d <= h - 1,
                h >= 2,
                m == 2 * h,
                r1 + q1 * m == a * b + c + d,
                r2 + q2 * m == a * b + c,
                0 <= r1 < m,
                0 <= r2 < m,
        ;
    } else {
        assert(a * b <= (m - 1) * (m - 1)) by (nonlinear_arith)
            requires
                0 <= a <= m - 1,
                0 <= b <= m - 1,
        ;
        assert(0 <= q1 <= m - 1 && 0 <= q2 <= m - 1) by (nonlinear_arith)
            requires
                0 <= a * b <= (m - 1) * (m - 1),
                0 <= c <= m - 1,
                0 <= d <= m - 1,
                m >= 4,
                r1 + q1 * m == a * b + c + d,
                r2 + q2 * m == a * b + c,
                0 <= r1 < m,
                0 <= r2 < m,
        ;
    }
}

/// The high half of a product of two in-range magnitudes is representable.
proof fn lemma_hi_bound(p: int, bits: nat)
    requires
        bits >= 2,
        0 <= p < pow2(bits) * pow2(bits),
    ensures
        0 <= high_half(p, bits) < pow2(bits),
{
    lemma_pow2_pos(bits);
    let m = pow2(bits) as int;
    lemma_div_pos_is_pos(p, m);
    lemma_multiply_divide_lt(p, m, m);
}

} // verus!
