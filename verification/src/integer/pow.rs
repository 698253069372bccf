//! Exponentiation, in every overflow flavour.
use super::{Integer, Uint};
use super::mul::abs_int;
use crate::model::{fits, wrap, lemma_range_facts, lemma_pow2_half, lemma_wrap, lemma_fits_unique};
use vstd::arithmetic::div_mod::*;
use vstd::arithmetic::mul::*;
use vstd::arithmetic::power::*;
use vstd::arithmetic::power2::*;
use vstd::prelude::*;

verus! {

/// `x^e` has magnitude `|x|^e` and is negative exactly when `x` is negative and `e` odd.
pub proof fn lemma_pow_sign(x: int, e: nat)
    ensures
        abs_int(pow(x, e)) == pow(abs_int(x), e),
        pow(abs_int(x), e) >= 0,
        pow(x, e) == (if x < 0 && e % 2 == 1 {
            -pow(abs_int(x), e)
        } else {
            pow(abs_int(x), e)
        }),
    decreases e,
{
    reveal(pow);
    if e > 0 {
        lemma_pow_sign(x, (e - 1) as nat);
        let p = pow(abs_int(x), (e - 1) as nat);
        assert(pow(x, e) == x * pow(x, (e - 1) as nat));
        assert(pow(abs_int(x), e) == abs_int(x) * p);
        assert(pow(x, e) == (if x < 0 && e % 2 == 1 { -pow(abs_int(x), e) } else { pow(abs_int(x), e) })) by (nonlinear_arith)
            requires
                pow(x, e) == x * pow(x, (e - 1) as nat),
                pow(abs_int(x), e) == abs_int(x) * p,
                pow(x, (e - 1) as nat) == (if x < 0 && (e - 1) % 2 == 1 { -p } else { p }),
                abs_int(x) == (if x < 0 { -x } else { x }),
                e >= 1,
        ;
        assert(pow(abs_int(x), e) >= 0) by (nonlinear_arith)
            requires
                pow(abs_int(x), e) == abs_int(x) * p,
                p >= 0,
                abs_int(x) >= 0,
        ;
    } else {
        lemma_pow0(x);
        lemma_pow0(abs_int(x));
    }
}

proof fn lemma_congruent_mul(x: int, x2: int, y: int, y2: int, m: int)
    requires
        m > 0,
        x % m == x2 % m,
        y % m == y2 % m,
    ensures
        (x * y) % m == (x2 * y2) % m,
{
    lemma_mul_mod_noop(x, y, m);
    lemma_mul_mod_noop(x2, y2, m);
}

proof fn lemma_congruent_pow(y: int, y2: int, k: nat, m: int)
    requires
        m > 0,
        y % m == y2 % m,
    ensures
        pow(y, k) % m == pow(y2, k) % m,
{
    lemma_pow_mod_noop(y, k, m);
    lemma_pow_mod_noop(y2, k, m);
}

impl<const S: bool, const N: usize, const B: usize, const OM: u8> Integer<S, N, B, OM> {
    /// `self^exp` wrapped into range (square-and-multiply).
    fn pow_wrapped(self, exp: u32) -> (r: Self)
        ensures
            r@ == Self::wrap_spec(pow(self@, exp as nat)),
    {
        proof {
            use_type_invariant(&self);
            lemma_range_facts(S, Self::spec_bits());
        }
        let ghost m = pow2(Self::spec_bits()) as int;
        let ghost a = self@;
        let mut acc = Self::one();
        let mut base = self;
        let mut e: u32 = exp;
        proof {
            lemma_mul_basics(pow(a, exp as nat));
        }
        while e > 0
            invariant
                m == pow2(Self::spec_bits()),
                m > 0,
                Self::valid_params(),
                (acc@ * pow(base@, e as nat)) % m == pow(a, exp as nat) % m,
            decreases e,
        {
            let ghost k = (e / 2) as nat;
            let ghost b0 = base@;
            let ghost acc0 = acc@;
            let ghost odd = e % 2 == 1;
            let ghost c = if odd {
                acc0 * b0
            } else {
                acc0
            };
            proof {
                lemma_pow_multiplies(b0, 2, k);
                lemma_pow1(b0);
                lemma_pow_adds(b0, 1, 1);
                lemma_pow_adds(b0, 1, 2 * k);
                assert(pow(b0, 2) == b0 * b0);
                if odd {
                    assert(e as nat == 1 + 2 * k);
                    assert(acc0 * pow(b0, e as nat) == c * pow(b0 * b0, k)) by (nonlinear_arith)
                        requires
                            pow(b0, e as nat) == pow(b0, 1) * pow(b0, 2 * k),
                            pow(b0, 1) == b0,
                            pow(pow(b0, 2), k) == pow(b0, 2 * k),
                            pow(b0, 2) == b0 * b0,
                            c == acc0 * b0,
                    ;
                } else {
                    assert(e as nat == 2 * k);
                }
            }
            if e % 2 == 1 {
                acc = acc.wrapping_mul(base);
                proof {
                    lemma_wrap(acc0 * b0, S, Self::spec_bits());
                }
            }
            e = e / 2;
            base = base.wrapping_mul(base);
            proof {
                lemma_wrap(b0 * b0, S, Self::spec_bits());
                lemma_congruent_pow(base@, b0 * b0, k, m);
                lemma_congruent_mul(acc@, c, pow(base@, k), pow(b0 * b0, k), m);
            }
        }
        proof {
            use_type_invariant(&acc);
            lemma_pow0(base@);
            lemma_mul_basics(acc@);
            lemma_wrap(pow(a, exp as nat), S, Self::spec_bits());
            lemma_fits_unique(acc@, wrap(pow(a, exp as nat), S, Self::spec_bits()), S, Self::spec_bits());
        }
        acc
    }
}


impl<const S: bool, const N: usize, const B: usize, const OM: u8> Integer<S, N, B, OM> {
    /// Whether `self^exp` is out of range.
    fn pow_overflows(self, exp: u32) -> (r: bool)
        ensures
            r == !Self::fits_spec(pow(self@, exp as nat)),
    {
        proof {
            use_type_invariant(&self);
            lemma_range_facts(S, Self::spec_bits());
            lemma_pow_sign(self@, exp as nat);
        }
        let mag = self.unsigned_abs_internal();
        let neg_result = self.is_negative_internal() && exp % 2 == 1;
        let ghost a = self@;
        let ghost ma = abs_int(a);
        let ghost pm = pow(ma, exp as nat);
        let limit: Uint<N, B, OM> = if neg_result {
            Self::min_value().unsigned_abs_internal()
        } else {
            Self::max_value().unsigned_abs_internal()
        };
        proof {
            assert(Self::fits_spec(pow(a, exp as nat)) == (pm <= limit@));
            use_type_invariant(&limit);
            assert(limit@ <= Uint::<N, B, OM>::max_spec());
        }
        let one = Uint::<N, B, OM>::one();
        if mag.le(&one) {
            proof {
                // |a| is 0 or 1, so |a|^exp is 0 or 1
                if ma == 0 {
                    if exp == 0 {
                        lemma_pow0(ma);
                    } else {
                        lemma_pow_adds(ma, 1, (exp - 1) as nat);
                        lemma_pow1(ma);
                    }
                } else {
                    lemma1_pow(exp as nat);
                }
                lemma_pow2_half(Self::spec_bits());
                lemma_pow2_strictly_increases(0, (Self::spec_bits() - 1) as nat);
                lemma2_to64();
            }
            return false;
        }
        let mut p = one;
        let mut i: u32 = 0;
        proof {
            lemma_pow0(ma);
            lemma_pow2_half(Self::spec_bits());
            lemma_pow2_strictly_increases(0, (Self::spec_bits() - 1) as nat);
            lemma2_to64();
        }
        while i < exp
            invariant
                i <= exp,
                ma >= 2,
                mag@ == ma,
                p@ == pow(ma, i as nat),
                p@ <= limit@,
                pm == pow(ma, exp as nat),
                Self::fits_spec(pow(a, exp as nat)) == (pm <= limit@),
                limit@ <= Uint::<N, B, OM>::max_spec(),
                a == self@,
            decreases exp - i,
        {
            proof {
                lemma_pow_adds(ma, i as nat, 1);
                lemma_pow1(ma);
                lemma_pow_increases(ma as nat, (i + 1) as nat, exp as nat);
                assert(p@ * mag@ == pow(ma, (i + 1) as nat));
            }
            match p.checked_mul(mag) {
                None => {
                    return true;
                },
                Some(q) => {
                    if q.gt(&limit) {
                        return true;
                    }
                    p = q;
                },
            }
            i = i + 1;
        }
        false
    }

    /// `self^exp` wrapped into range, and whether the true power was out of range.
    pub fn overflowing_pow(self, exp: u32) -> (r: (Self, bool))
        ensures
            r.0@ == Self::wrap_spec(pow(self@, exp as nat)),
            r.1 == !Self::fits_spec(pow(self@, exp as nat)),
    {
        (self.pow_wrapped(exp), self.pow_overflows(exp))
    }

    /// `self^exp`, wrapping around at the type's bounds.
    pub fn wrapping_pow(self, exp: u32) -> (r: Self)
        ensures
            r@ == Self::wrap_spec(pow(self@, exp as nat)),
    {
        self.pow_wrapped(exp)
    }

    /// `self^exp`, or `None` when it is out of range.
    pub fn checked_pow(self, exp: u32) -> (r: Option<Self>)
        ensures
            r.is_some() == Self::fits_spec(pow(self@, exp as nat)),
            r.is_some() ==> r.unwrap()@ == pow(self@, exp as nat),
    {
        proof {
            use_type_invariant(&self);
            lemma_wrap(pow(self@, exp as nat), S, Self::spec_bits());
        }
        if self.pow_overflows(exp) {
            None
        } else {
            Some(self.pow_wrapped(exp))
        }
    }

    /// `self^exp`, clamped to the type's bounds.
    pub fn saturating_pow(self, exp: u32) -> (r: Self)
        ensures
            r@ == Self::saturate_spec(pow(self@, exp as nat)),
    {
        proof {
            use_type_invariant(&self);
            lemma_range_facts(S, Self::spec_bits());
            lemma_pow_sign(self@, exp as nat);
        }
        match self.checked_pow(exp) {
            Some(v) => v,
            None => {
                if self.is_negative_internal() && exp % 2 == 1 {
                    Self::min_value()
                } else {
                    Self::max_value()
                }
            },
        }
    }

    /// `self^exp`; the power must be representable.
    pub fn strict_pow(self, exp: u32) -> (r: Self)
        requires
            Self::fits_spec(pow(self@, exp as nat)),
        ensures
            r@ == pow(self@, exp as nat),
    {
        proof {
            use_type_invariant(&self);
            lemma_wrap(pow(self@, exp as nat), S, Self::spec_bits());
        }
        self.pow_wrapped(exp)
    }

    /// `self^exp` under the type's overflow mode.
    pub fn pow(self, exp: u32) -> (r: Self)
        requires
            OM == 1 ==> Self::fits_spec(pow(self@, exp as nat)),
        ensures
            r@ == Self::by_mode(pow(self@, exp as nat)),
    {
        if OM == 0 {
            self.wrapping_pow(exp)
        } else if OM == 1 {
            self.strict_pow(exp)
        } else {
            self.saturating_pow(exp)
        }
    }
}

} // verus!
