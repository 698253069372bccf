//! Arithmetic on little-endian byte arrays of a fixed length, each operation
//! specified by the unsigned values of its operands.
use crate::digits::{le_value, radix_pow, lemma_le_value_take_succ, lemma_radix_pow_succ, lemma_le_value_bound, lemma_le_value_top, lemma_le_value_take_eq};
use vstd::arithmetic::div_mod::*;
use vstd::arithmetic::mul::*;
use vstd::prelude::*;

verus! {

/// Unsigned value of a byte array.
pub open spec fn uval<const N: usize>(a: [u8; N]) -> nat {
    le_value(a@)
}

pub open spec fn bit_value(b: bool) -> nat {
    if b {
        1
    } else {
        0
    }
}

proof fn lemma_digit_step(lo: int, lo2: int, d: int, c2: int, s: int, p: int)
    requires
        s == d + 256 * c2,
        lo2 == lo + d * p,
    ensures
        lo2 + c2 * (256 * p) == lo + s * p,
{
    assert(lo2 + c2 * (256 * p) == lo + s * p) by (nonlinear_arith)
        requires
            s == d + 256 * c2,
            lo2 == lo + d * p,
    ;
}

/// Sum of two byte arrays and an incoming carry; the outgoing carry is the bit that did not fit.
pub fn raw_add<const N: usize>(a: &[u8; N], b: &[u8; N], carry_in: bool) -> (res: ([u8; N], bool))
    ensures
        uval(res.0) + bit_value(res.1) * radix_pow(N as nat) == uval(*a) + uval(*b) + bit_value(
            carry_in,
        ),
{
    let mut out = [0u8; N];
    let mut carry: u16 = if carry_in {
        1
    } else {
        0
    };
    let mut i: usize = 0;
    proof {
        lemma_radix_pow_succ(0);
        assert(out@.take(0).len() == 0);
        assert(a@.take(0).len() == 0);
        assert(b@.take(0).len() == 0);
    }
    while i < N
        invariant
            0 <= i <= N,
            carry <= 1,
            out@.len() == N,
            le_value(out@.take(i as int)) + carry * radix_pow(i as nat) == le_value(a@.take(i as int))
                + le_value(b@.take(i as int)) + bit_value(carry_in),
        decreases N - i,
    {
        let s: u16 = a[i] as u16 + b[i] as u16 + carry;
        let d: u8 = (s % 256) as u8;
        let ghost old_out = out@;
        out[i] = d;
        proof {
            assert(out@.take(i as int) =~= old_out.take(i as int));
            lemma_le_value_take_succ(out@, i as int);
            lemma_le_value_take_succ(a@, i as int);
            lemma_le_value_take_succ(b@, i as int);
            lemma_radix_pow_succ(i as nat);
            lemma_digit_step(
                le_value(out@.take(i as int)) as int,
                le_value(out@.take(i + 1)) as int,
                d as int,
                (s / 256) as int,
                s as int,
                radix_pow(i as nat) as int,
            );
            assert(s * radix_pow(i as nat) == a[i as int] * radix_pow(i as nat) + b[i as int] * radix_pow(i as nat) + carry * radix_pow(i as nat)) by (nonlinear_arith)
                requires s == a[i as int] + b[i as int] + carry;
        }
        carry = s / 256;
        i = i + 1;
    }
    proof {
        assert(out@.take(N as int) =~= out@);
        assert(a@.take(N as int) =~= a@);
        assert(b@.take(N as int) =~= b@);
    }
    (out, carry == 1)
}


/// Difference of two byte arrays and an incoming borrow; the outgoing borrow is set when the
/// true difference is negative.
pub fn raw_sub<const N: usize>(a: &[u8; N], b: &[u8; N], borrow_in: bool) -> (res: ([u8; N], bool))
    ensures
        uval(res.0) - bit_value(res.1) * radix_pow(N as nat) == uval(*a) - uval(*b) - bit_value(
            borrow_in,
        ),
{
    let mut out = [0u8; N];
    let mut borrow: u16 = if borrow_in {
        1
    } else {
        0
    };
    let mut i: usize = 0;
    proof {
        lemma_radix_pow_succ(0);
        assert(out@.take(0).len() == 0);
        assert(a@.take(0).len() == 0);
        assert(b@.take(0).len() == 0);
    }
    while i < N
        invariant
            0 <= i <= N,
            borrow <= 1,
            out@.len() == N,
            le_value(out@.take(i as int)) - borrow * radix_pow(i as nat) == le_value(a@.take(i as int))
                - le_value(b@.take(i as int)) - bit_value(borrow_in),
        decreases N - i,
    {
        // s = 256 + a_i - b_i - borrow, in 0..=511
        let s: u16 = 256 + a[i] as u16 - b[i] as u16 - borrow;
        let d: u8 = (s % 256) as u8;
        let ghost old_out = out@;
        out[i] = d;
        proof {
            assert(out@.take(i as int) =~= old_out.take(i as int));
            lemma_le_value_take_succ(out@, i as int);
            lemma_le_value_take_succ(a@, i as int);
            lemma_le_value_take_succ(b@, i as int);
            lemma_radix_pow_succ(i as nat);
            let p = radix_pow(i as nat) as int;
            let nb = 1 - s / 256;
            assert(d * p - nb * (256 * p) == (a[i as int] - b[i as int] - borrow) * p) by (nonlinear_arith)
                requires
                    s == 256 + a[i as int] - b[i as int] - borrow,
                    d == s % 256,
                    nb == 1 - s / 256,
                    0 <= s < 512,
            ;
            assert((a[i as int] - b[i as int] - borrow) * p == a[i as int] * p - b[i as int] * p - borrow * p) by (nonlinear_arith);
        }
        borrow = 1 - s / 256;
        i = i + 1;
    }
    proof {
        assert(out@.take(N as int) =~= out@);
        assert(a@.take(N as int) =~= a@);
        assert(b@.take(N as int) =~= b@);
    }
    (out, borrow == 1)
}

/// `2^k` for small `k`.
pub fn pow2_u64(k: u32) -> (r: u64)
    requires
        k < 64,
    ensures
        r == vstd::arithmetic::power2::pow2(k as nat),
{
    let mut r: u64 = 1;
    let mut i: u32 = 0;
    proof {
        vstd::arithmetic::power2::lemma2_to64();
    }
    while i < k
        invariant
            i <= k < 64,
            r == vstd::arithmetic::power2::pow2(i as nat),
        decreases k - i,
    {
        proof {
            vstd::arithmetic::power2::lemma_pow2_unfold((i + 1) as nat);
            vstd::arithmetic::power2::lemma_pow2_strictly_increases((i + 1) as nat, 64);
            vstd::arithmetic::power2::lemma2_to64_rest();
        }
        r = r * 2;
        i = i + 1;
    }
    r
}


/// Makes the bits above `bits` a copy of the value's sign (for signed) or zero (for unsigned),
/// turning any byte pattern into the encoding of its wrapped value.
pub fn fix_pad<const N: usize>(a: [u8; N], signed: bool, bits: u32) -> (r: [u8; N])
    requires
        N >= 1,
        8 * (N - 1) < bits <= 8 * N,
    ensures
        uval(r) == crate::model::wrap(uval(a) as int, signed, bits as nat) % (radix_pow(
            N as nat,
        ) as int),
{
    let k: u32 = bits - 8 * ((N - 1) as u32);
    let ghost u = uval(a) as int;
    let ghost rr = radix_pow(N as nat) as int;
    proof {
        lemma_le_value_bound(a@);
        lemma_le_value_top(a@);
        crate::model::lemma_wrap(u, signed, bits as nat);
        vstd::arithmetic::power2::lemma_pow2_pos(bits as nat);
    }
    if k == 8 {
        proof {
            assert(bits == 8 * N);
            vstd::arithmetic::div_mod::lemma_small_mod(u as nat, rr as nat);
        }
        return a;
    }
    let pk: u64 = pow2_u64(k);
    proof {
        vstd::arithmetic::power2::lemma2_to64();
        vstd::arithmetic::power2::lemma_pow2_pos(k as nat);
        vstd::arithmetic::power2::lemma_pow2_strictly_increases(k as nat, 8);
    }
    let last: u8 = a[N - 1];
    let m: u8 = (last as u64 % pk) as u8;
    let neg: bool = signed && (m as u64) >= pk / 2;
    let new_last: u8 = if neg {
        (m as u64 + 256 - pk) as u8
    } else {
        m
    };
    let mut out = a;
    out[N - 1] = new_last;
    proof {
        let n1 = (N - 1) as nat;
        let p = radix_pow(n1) as int;
        let low = le_value(a@.take(N - 1)) as int;
        lemma_le_value_top(out@);
        lemma_le_value_take_eq(out@, a@, N - 1);
        vstd::arithmetic::power2::lemma_pow2_adds(8 * n1, k as nat);
        assert(8 * n1 + k == bits);
        vstd::arithmetic::power2::lemma2_to64();
        assert(pk <= 128) by {
            vstd::arithmetic::power2::lemma_pow2_strictly_increases(k as nat, 8);
        }
        crate::model::lemma_pow2_half(k as nat);
        crate::model::lemma_pow2_half(bits as nat);
        vstd::arithmetic::power2::lemma_pow2_adds(8 * n1, (k - 1) as nat);
        assert(8 * n1 + (k - 1) == bits - 1);
        let pb = pk * p;
        lemma_mul_is_commutative(p, pk as int);
        assert(vstd::arithmetic::power2::pow2(bits as nat) == pb);
        assert(pk / 2 == vstd::arithmetic::power2::pow2((k - 1) as nat));
        lemma_mul_is_commutative(p, (pk / 2) as int);
        assert(vstd::arithmetic::power2::pow2((bits - 1) as nat) == (pk / 2) * p);
        lemma_fundamental_div_mod(last as int, pk as int);
        let q = (last as int) / (pk as int);
        let up = low + m * p;
        assert(p * last == q * pb + m * p) by {
            lemma_mul_is_distributive_add(p, pk * q, m as int);
            lemma_mul_is_associative(p, pk as int, q);
            lemma_mul_is_commutative(p * pk, q);
            lemma_mul_is_commutative(p, pk as int);
            lemma_mul_is_commutative(p, m as int);
        }
        assert(u == q * pb + up);
        assert(0 <= up < pb) by (nonlinear_arith)
            requires
                up == low + m * p,
                0 <= low < p,
                0 <= m < pk,
                pb == pk * p,
        ;
        lemma_fundamental_div_mod_converse_mod(u, pb, q, up);
        assert(up >= (pk / 2) * p <==> m >= pk / 2) by (nonlinear_arith)
            requires
                up == low + m * p,
                0 <= low < p,
                0 <= m,
                pk >= 2,
        ;
        lemma_radix_pow_succ(n1);
        assert(rr == 256 * p) by {
            assert(n1 + 1 == N);
        }
        if neg {
            assert(uval(out) == up - pb + rr) by (nonlinear_arith)
                requires
                    uval(out) == low + p * new_last,
                    new_last == m + 256 - pk,
                    up == low + m * p,
                    pb == pk * p,
                    rr == 256 * p,
            ;
            let w = up - pb;
            assert(-pb <= w < 0);
            assert(pb <= rr) by (nonlinear_arith)
                requires
                    pb == pk * p,
                    rr == 256 * p,
                    pk <= 128,
                    p > 0,
            ;
            lemma_mod_add_multiples_vanish(w, rr);
            lemma_small_mod((w + rr) as nat, rr as nat);
        } else {
            assert(uval(out) == up) by {
                lemma_mul_is_commutative(p, new_last as int);
            }
            assert(pb <= rr) by (nonlinear_arith)
                requires
                    pb == pk * p,
                    rr == 256 * p,
                    pk <= 128,
                    p > 0,
            ;
            lemma_small_mod(up as nat, rr as nat);
        }
    }
    out
}


/// Whether two byte arrays hold the same bytes.
pub fn raw_eq<const N: usize>(a: &[u8; N], b: &[u8; N]) -> (r: bool)
    ensures
        r == (a@ == b@),
        r == (uval(*a) == uval(*b)),
{
    let mut i: usize = 0;
    while i < N
        invariant
            0 <= i <= N,
            forall|j: int| 0 <= j < i ==> a@[j] == b@[j],
        decreases N - i,
    {
        if a[i] != b[i] {
            proof {
                if uval(*a) == uval(*b) {
                    crate::digits::lemma_le_value_injective(a@, b@);
                }
            }
            return false;
        }
        i = i + 1;
    }
    proof {
        assert(a@ =~= b@);
    }
    true
}

/// The all-zero array.
pub fn raw_zero<const N: usize>() -> (r: [u8; N])
    ensures
        uval(r) == 0,
        forall|i: int| 0 <= i < N ==> r@[i] == 0,
{
    let r = [0u8; N];
    proof {
        crate::digits::lemma_le_value_zeros(r@);
    }
    r
}

/// The all-ones array.
pub fn raw_ones<const N: usize>() -> (r: [u8; N])
    ensures
        uval(r) == radix_pow(N as nat) - 1,
        forall|i: int| 0 <= i < N ==> r@[i] == 255,
{
    let r = [255u8; N];
    proof {
        crate::digits::lemma_le_value_ones(r@);
    }
    r
}

/// Every byte complemented.
pub fn raw_not<const N: usize>(a: &[u8; N]) -> (r: [u8; N])
    ensures
        uval(r) + uval(*a) == radix_pow(N as nat) - 1,
        forall|i: int| 0 <= i < N ==> r@[i] == !a@[i],
{
    let mut out = [0u8; N];
    let mut i: usize = 0;
    while i < N
        invariant
            0 <= i <= N,
            forall|j: int| 0 <= j < i ==> out@[j] == !a@[j],
        decreases N - i,
    {
        out[i] = !a[i];
        i = i + 1;
    }
    proof {
        assert forall|j: int| 0 <= j < N implies out@[j] + a@[j] == 255 by {
            let x = a@[j];
            assert(!x + x == 255) by (bit_vector);
        }
        crate::digits::lemma_le_value_complement(out@, a@);
    }
    out
}

/// The array holding `2^k`.
pub fn raw_pow2<const N: usize>(k: u32) -> (r: [u8; N])
    requires
        k < 8 * N,
    ensures
        uval(r) == vstd::arithmetic::power2::pow2(k as nat),
{
    let mut out = [0u8; N];
    let idx: usize = (k / 8) as usize;
    let sh: u32 = k % 8;
    let v: u8 = pow2_u64(sh) as u8;
    proof {
        crate::digits::lemma_le_value_zeros(out@);
        vstd::arithmetic::power2::lemma2_to64();
        vstd::arithmetic::power2::lemma_pow2_strictly_increases(sh as nat, 8);
    }
    let ghost before = out@;
    out[idx] = v;
    proof {
        assert(out@ == before.update(idx as int, v));
        crate::digits::lemma_le_value_update(before, idx as int, v);
        vstd::arithmetic::power2::lemma_pow2_adds(sh as nat, 8 * (idx as nat));
        assert(sh + 8 * idx == k);
        lemma_mul_is_commutative(v as int, radix_pow(idx as nat) as int);
    }
    out
}


/// The byte at index `i` and everything above it.
pub proof fn lemma_le_value_skip_step(s: Seq<u8>, i: int)
    requires
        0 <= i < s.len(),
    ensures
        le_value(s.skip(i)) == s[i] + 256 * le_value(s.skip(i + 1)),
{
    crate::digits::lemma_le_value_low_byte(s.skip(i));
    assert(s.skip(i).skip(1) =~= s.skip(i + 1));
    lemma_fundamental_div_mod(le_value(s.skip(i)) as int, 256);
}

/// Unsigned comparison of two byte arrays.
pub fn raw_lt<const N: usize>(a: &[u8; N], b: &[u8; N]) -> (r: bool)
    ensures
        r == (uval(*a) < uval(*b)),
{
    let mut i: usize = N;
    proof {
        assert(a@.skip(N as int) =~= b@.skip(N as int));
    }
    while i > 0
        invariant
            0 <= i <= N,
            a@.skip(i as int) == b@.skip(i as int),
        decreases i,
    {
        i = i - 1;
        if a[i] != b[i] {
            proof {
                let ii = i as int;
                crate::digits::lemma_le_value_split(a@, ii);
                crate::digits::lemma_le_value_split(b@, ii);
                lemma_le_value_bound(a@.take(ii));
                lemma_le_value_bound(b@.take(ii));
                lemma_le_value_skip_step(a@, ii);
                lemma_le_value_skip_step(b@, ii);
                let p = radix_pow(i as nat) as int;
                let h = le_value(a@.skip(ii + 1)) as int;
                assert(le_value(b@.skip(ii + 1)) == h);
                let ua = uval(*a) as int;
                let ub = uval(*b) as int;
                let la = le_value(a@.take(ii)) as int;
                let lb = le_value(b@.take(ii)) as int;
                assert(a[ii] < b[ii] ==> ua < ub) by (nonlinear_arith)
                    requires
                        ua == la + p * (a[ii] + 256 * h),
                        ub == lb + p * (b[ii] + 256 * h),
                        0 <= la < p,
                        0 <= lb < p,
                ;
                assert(b[ii] < a[ii] ==> ub < ua) by (nonlinear_arith)
                    requires
                        ua == la + p * (a[ii] + 256 * h),
                        ub == lb + p * (b[ii] + 256 * h),
                        0 <= la < p,
                        0 <= lb < p,
                ;
            }
            return a[i] < b[i];
        }
        proof {
            assert(a@.skip(i as int) =~= seq![a@[i as int]] + a@.skip(i + 1));
            assert(b@.skip(i as int) =~= seq![b@[i as int]] + b@.skip(i + 1));
        }
    }
    proof {
        assert(a@.skip(0) =~= a@);
        assert(b@.skip(0) =~= b@);
    }
    false
}


/// `a * m + carry_in`, with the part that does not fit in `N` bytes returned as the carry.
pub fn raw_mul_digit<const N: usize>(a: &[u8; N], m: u32, carry_in: u32) -> (res: ([u8; N], u32))
    ensures
        uval(res.0) + res.1 * radix_pow(N as nat) == uval(*a) * m + carry_in,
        res.1 <= (if m >= carry_in {
            m
        } else {
            carry_in
        }),
{
    let bound: u32 = if m >= carry_in {
        m
    } else {
        carry_in
    };
    let mut out = [0u8; N];
    let mut carry: u32 = carry_in;
    let mut i: usize = 0;
    proof {
        lemma_radix_pow_succ(0);
        assert(out@.take(0).len() == 0);
        assert(a@.take(0).len() == 0);
        assert(le_value(a@.take(0)) == 0);
        assert(le_value(a@.take(0)) * m == 0) by (nonlinear_arith)
            requires
                le_value(a@.take(0)) == 0,
        ;
        assert(carry * radix_pow(0) == carry) by (nonlinear_arith)
            requires
                radix_pow(0) == 1,
        ;
    }
    while i < N
        invariant
            0 <= i <= N,
            carry <= bound,
            m <= bound,
            out@.len() == N,
            le_value(out@.take(i as int)) + carry * radix_pow(i as nat) == le_value(a@.take(i as int))
                * m + carry_in,
        decreases N - i,
    {
        proof {
            assert(a[i as int] * m <= 255 * bound) by (nonlinear_arith)
                requires
                    a[i as int] <= 255,
                    m <= bound,
            ;
        }
        let t: u64 = a[i] as u64 * m as u64 + carry as u64;
        proof {
            assert(t / 256 <= bound) by (nonlinear_arith)
                requires
                    t <= 256 * bound,
            ;
        }
        let d: u8 = (t % 256) as u8;
        let ghost old_out = out@;
        out[i] = d;
        let new_carry: u32 = (t / 256) as u32;
        proof {
            assert(out@.take(i as int) =~= old_out.take(i as int));
            lemma_le_value_take_succ(out@, i as int);
            lemma_le_value_take_succ(a@, i as int);
            lemma_radix_pow_succ(i as nat);
            let p = radix_pow(i as nat) as int;
            let la = le_value(a@.take(i as int)) as int;
            let lo = le_value(out@.take(i as int)) as int;
            assert(lo + d * p + new_carry * (256 * p) == lo + t * p) by (nonlinear_arith)
                requires
                    t == d + 256 * new_carry,
            ;
            assert(t * p == a[i as int] * m * p + carry * p) by (nonlinear_arith)
                requires
                    t == a[i as int] * m + carry,
            ;
            assert((la + a[i as int] * p) * m == la * m + a[i as int] * m * p) by (nonlinear_arith);
        }
        carry = new_carry;
        i = i + 1;
    }
    proof {
        assert(out@.take(N as int) =~= out@);
        assert(a@.take(N as int) =~= a@);
    }
    (out, carry)
}

/// Division of a byte array by a small nonzero divisor: quotient and remainder.
pub fn raw_divrem_digit<const N: usize>(a: &[u8; N], d: u32) -> (res: ([u8; N], u32))
    requires
        0 < d <= 0x0100_0000,
    ensures
        uval(*a) == uval(res.0) * d + res.1,
        res.1 < d,
{
    let mut q = [0u8; N];
    let mut rem: u32 = 0;
    let mut i: usize = N;
    proof {
        assert(a@.skip(N as int).len() == 0);
        assert(q@.skip(N as int).len() == 0);
        assert(le_value(q@.skip(N as int)) == 0);
        assert(le_value(q@.skip(N as int)) * d == 0) by (nonlinear_arith)
            requires
                le_value(q@.skip(N as int)) == 0,
        ;
    }
    while i > 0
        invariant
            0 <= i <= N,
            0 < d <= 0x0100_0000,
            rem < d,
            q@.len() == N,
            le_value(a@.skip(i as int)) == le_value(q@.skip(i as int)) * d + rem,
        decreases i,
    {
        i = i - 1;
        let t: u64 = rem as u64 * 256 + a[i] as u64;
        let qd: u64 = t / d as u64;
        let new_rem: u32 = (t % d as u64) as u32;
        proof {
            assert(qd < 256) by (nonlinear_arith)
                requires
                    t == rem * 256 + a[i as int],
                    rem < d,
                    a[i as int] < 256,
                    qd == (t as int) / (d as int),
                    d > 0,
            ;
        }
        let ghost old_q = q@;
        q[i] = qd as u8;
        proof {
            let ii = i as int;
            assert(q@.skip(ii + 1) =~= old_q.skip(ii + 1));
            lemma_le_value_skip_step(q@, ii);
            lemma_le_value_skip_step(a@, ii);
            let h = le_value(q@.skip(ii + 1)) as int;
            lemma_fundamental_div_mod(t as int, d as int);
            assert(a[ii] + 256 * (h * d + rem) == (qd + 256 * h) * d + new_rem) by (nonlinear_arith)
                requires
                    t == rem * 256 + a[ii],
                    t == d * qd + new_rem,
            ;
        }
        rem = new_rem;
    }
    proof {
        assert(a@.skip(0) =~= a@);
        assert(q@.skip(0) =~= q@);
    }
    (q, rem)
}


proof fn lemma_mul_mod_scaled(x: int, c: int, d: int)
    requires
        x >= 0,
        c > 0,
        d > 0,
    ensures
        (x * c) % (c * d) == c * (x % d),
{
    lemma_fundamental_div_mod(x, d);
    lemma_mod_bound(x, d);
    let q = x / d;
    let r = x % d;
    assert(x * c == q * (c * d) + c * r) by (nonlinear_arith)
        requires
            x == d * q + r,
    ;
    assert(0 <= c * r < c * d) by (nonlinear_arith)
        requires
            0 <= r < d,
            c > 0,
    ;
    lemma_mul_strictly_positive(c, d);
    lemma_fundamental_div_mod_converse_mod(x * c, c * d, q, c * r);
}

/// `a` shifted up by `q` whole bytes, dropping what falls off the top.
pub fn raw_shl_bytes<const N: usize>(a: &[u8; N], q: usize) -> (r: [u8; N])
    requires
        q <= N,
    ensures
        uval(r) == ((uval(*a) * radix_pow(q as nat)) as int) % (radix_pow(N as nat) as int),
{
    let mut out = [0u8; N];
    let mut i: usize = q;
    while i < N
        invariant
            q <= i <= N,
            forall|j: int| 0 <= j < q ==> out@[j] == 0,
            forall|j: int| q <= j < i ==> out@[j] == a@[j - q],
        decreases N - i,
    {
        out[i] = a[i - q];
        i = i + 1;
    }
    proof {
        let qq = q as int;
        crate::digits::lemma_le_value_split(out@, qq);
        crate::digits::lemma_le_value_zeros(out@.take(qq));
        assert(out@.skip(qq) =~= a@.take(N - qq));
        crate::digits::lemma_le_value_shift(a@, N - qq);
        crate::digits::lemma_radix_pow_adds(q as nat, (N - q) as nat);
        crate::digits::lemma_radix_pow_pos(q as nat);
        crate::digits::lemma_radix_pow_pos((N - q) as nat);
        lemma_mul_mod_scaled(uval(*a) as int, radix_pow(q as nat) as int, radix_pow((N - q) as nat) as int);
    }
    out
}

/// `a` shifted down by `q` whole bytes.
pub fn raw_shr_bytes<const N: usize>(a: &[u8; N], q: usize) -> (r: [u8; N])
    requires
        q <= N,
    ensures
        uval(r) == uval(*a) / radix_pow(q as nat),
{
    let mut out = [0u8; N];
    let mut i: usize = 0;
    while i + q < N
        invariant
            q <= N,
            0 <= i <= N - q,
            forall|j: int| 0 <= j < i ==> out@[j] == a@[j + q],
            forall|j: int| i <= j < N ==> out@[j] == 0,
        decreases N - i,
    {
        out[i] = a[i + q];
        i = i + 1;
    }
    proof {
        let k = N - q as int;
        crate::digits::lemma_le_value_split(out@, k);
        crate::digits::lemma_le_value_zeros(out@.skip(k));
        assert(out@.take(k) =~= a@.skip(q as int));
        crate::digits::lemma_le_value_shift(a@, q as int);
        lemma_mul_basics(radix_pow(k as nat) as int);
    }
    out
}

/// `a * 2^n` modulo `2^(8N)`.
pub fn raw_shl<const N: usize>(a: &[u8; N], n: u32) -> (r: [u8; N])
    requires
        n < 8 * N,
    ensures
        uval(r) == ((uval(*a) * vstd::arithmetic::power2::pow2(n as nat)) as int) % (radix_pow(N as nat) as int),
{
    let q: usize = (n / 8) as usize;
    let s: u32 = n % 8;
    let t = raw_shl_bytes(a, q);
    let m: u64 = pow2_u64(s);
    proof {
        vstd::arithmetic::power2::lemma2_to64();
        vstd::arithmetic::power2::lemma_pow2_strictly_increases(s as nat, 8);
    }
    let (r, c) = raw_mul_digit(&t, m as u32, 0);
    proof {
        let rr = radix_pow(N as nat) as int;
        let u = uval(*a) as int;
        let p = vstd::arithmetic::power2::pow2(n as nat) as int;
        crate::digits::lemma_radix_pow_pos(N as nat);
        lemma_le_value_bound(r@);
        lemma_fundamental_div_mod_converse_mod(uval(t) * m, rr, c as int, uval(r) as int);
        lemma_mul_mod_noop_left(u * radix_pow(q as nat), m as int, rr);
        vstd::arithmetic::power2::lemma_pow2_adds(8 * (q as nat), s as nat);
        assert(8 * q + s == n);
        lemma_mul_is_associative(u, radix_pow(q as nat) as int, m as int);
        lemma_mul_is_commutative(c as int, rr);
    }
    r
}

/// `a / 2^n`, rounded down.
pub fn raw_shr<const N: usize>(a: &[u8; N], n: u32) -> (r: [u8; N])
    requires
        n < 8 * N,
    ensures
        uval(r) == uval(*a) / vstd::arithmetic::power2::pow2(n as nat),
{
    let q: usize = (n / 8) as usize;
    let s: u32 = n % 8;
    let t = raw_shr_bytes(a, q);
    let m: u64 = pow2_u64(s);
    proof {
        vstd::arithmetic::power2::lemma2_to64();
        vstd::arithmetic::power2::lemma_pow2_strictly_increases(s as nat, 8);
        vstd::arithmetic::power2::lemma_pow2_pos(s as nat);
    }
    let (r, rem) = raw_divrem_digit(&t, m as u32);
    proof {
        let u = uval(*a) as int;
        crate::digits::lemma_radix_pow_pos(q as nat);
        lemma_fundamental_div_mod_converse_div(uval(t) as int, m as int, uval(r) as int, rem as int);
        lemma_div_denominator(u, radix_pow(q as nat) as int, m as int);
        vstd::arithmetic::power2::lemma_pow2_adds(8 * (q as nat), s as nat);
        assert(8 * q + s == n);
        lemma_mul_is_commutative(uval(r) as int, m as int);
    }
    r
}


/// The full `2N`-byte product of two byte arrays, as its low and high halves.
pub fn raw_widening_mul<const N: usize>(a: &[u8; N], b: &[u8; N]) -> (res: ([u8; N], [u8; N]))
    requires
        N <= usize::MAX / 2,
    ensures
        uval(res.0) + radix_pow(N as nat) * uval(res.1) == uval(*a) * uval(*b),
{
    let mut acc: Vec<u8> = Vec::new();
    let mut k: usize = 0;
    while k < 2 * N
        invariant
            k <= 2 * N,
            N <= usize::MAX / 2,
            acc@.len() == k,
            forall|x: int| 0 <= x < k ==> acc@[x] == 0,
        decreases 2 * N - k,
    {
        acc.push(0);
        k = k + 1;
    }
    let ghost ub = uval(*b) as int;
    proof {
        crate::digits::lemma_le_value_zeros(acc@);
        assert(a@.take(0).len() == 0);
        assert(le_value(a@.take(0)) == 0);
        lemma_mul_basics(ub);
    }
    let mut i: usize = 0;
    while i < N
        invariant
            0 <= i <= N,
            N <= usize::MAX / 2,
            ub == uval(*b),
            acc@.len() == 2 * N,
            le_value(acc@) == le_value(a@.take(i as int)) * ub,
            forall|x: int| i + N <= x < 2 * N ==> acc@[x] == 0,
        decreases N - i,
    {
        let ai: u32 = a[i] as u32;
        let mut carry: u32 = 0;
        assert(ai <= 255);
        let mut j: usize = 0;
        let ghost base = le_value(a@.take(i as int)) * ub;
        proof {
            assert(b@.take(0).len() == 0);
            assert(le_value(b@.take(0)) == 0);
            lemma_mul_basics(ai as int);
            lemma_mul_basics(radix_pow(i as nat) as int);
            assert(ai * le_value(b@.take(0)) * radix_pow(i as nat) == 0) by (nonlinear_arith)
                requires
                    le_value(b@.take(0)) == 0,
            ;
            assert(carry * radix_pow((i + 0) as nat) == 0) by (nonlinear_arith)
                requires
                    carry == 0,
            ;
        }
        while j < N
            invariant
                0 <= i < N,
                0 <= j <= N,
                N <= usize::MAX / 2,
                ai == a@[i as int],
                ai <= 255,
                carry <= 255,
                acc@.len() == 2 * N,
                le_value(acc@) + carry * radix_pow((i + j) as nat) == base + ai * le_value(
                    b@.take(j as int),
                ) * radix_pow(i as nat),
                forall|x: int| i + N <= x < 2 * N ==> acc@[x] == 0,
            decreases N - j,
        {
            let k: usize = i + j;
            proof {
                assert(ai * b[j as int] <= 255 * 255) by (nonlinear_arith)
                    requires
                        ai <= 255,
                        b[j as int] <= 255,
                ;
            }
            let t: u32 = acc[k] as u32 + ai * b[j] as u32 + carry;
            let d: u8 = (t % 256) as u8;
            let ghost before = acc@;
            acc.set(k, d);
            proof {
                crate::digits::lemma_le_value_update(before, k as int, d);
                lemma_le_value_take_succ(b@, j as int);
                lemma_radix_pow_succ(k as nat);
                crate::digits::lemma_radix_pow_adds(i as nat, j as nat);
                let p = radix_pow(k as nat) as int;
                let pi = radix_pow(i as nat) as int;
                let pj = radix_pow(j as nat) as int;
                let lb = le_value(b@.take(j as int)) as int;
                let c2 = t / 256;
                assert(d * p + c2 * (256 * p) == t * p) by (nonlinear_arith)
                    requires
                        t == d + 256 * c2,
                ;
                assert(t * p == before[k as int] * p + ai * b[j as int] * p + carry * p) by (nonlinear_arith)
                    requires
                        t == before[k as int] + ai * b[j as int] + carry,
                ;
                assert(ai * lb * pi + ai * b[j as int] * p == ai * (lb + b[j as int] * pj) * pi) by (nonlinear_arith)
                    requires
                        p == pi * pj,
                ;
            }
            carry = t / 256;
            j = j + 1;
        }
        let ghost before2 = acc@;
        acc.set(i + N, carry as u8);
        proof {
            crate::digits::lemma_le_value_update(before2, (i + N) as int, carry as u8);
            lemma_le_value_take_succ(a@, i as int);
            assert(b@.take(N as int) =~= b@);
            let pi = radix_pow(i as nat) as int;
            let la = le_value(a@.take(i as int)) as int;
            assert(la * ub + ai * ub * pi == (la + ai * pi) * ub) by (nonlinear_arith);
            assert(before2[(i + N) as int] == 0);
            lemma_mul_basics(radix_pow((i + N) as nat) as int);
        }
        i = i + 1;
    }
    let mut lo = [0u8; N];
    let mut hi = [0u8; N];
    let mut m: usize = 0;
    while m < N
        invariant
            0 <= m <= N,
            N <= usize::MAX / 2,
            acc@.len() == 2 * N,
            forall|x: int| 0 <= x < m ==> lo@[x] == acc@[x],
            forall|x: int| 0 <= x < m ==> hi@[x] == acc@[x + N],
        decreases N - m,
    {
        lo[m] = acc[m];
        hi[m] = acc[m + N];
        m = m + 1;
    }
    proof {
        assert(a@.take(N as int) =~= a@);
        crate::digits::lemma_le_value_split(acc@, N as int);
        assert(acc@.take(N as int) =~= lo@);
        assert(acc@.skip(N as int) =~= hi@);
    }
    (lo, hi)
}


/// Bit `j` of a byte sequence's value is bit `j % 8` of byte `j / 8`.
pub proof fn lemma_bit_of_bytes(s: Seq<u8>, j: nat)
    requires
        j < 8 * s.len(),
    ensures
        (le_value(s) / vstd::arithmetic::power2::pow2(j)) % 2 == ((s[(j / 8) as int] as nat)
            / vstd::arithmetic::power2::pow2(j % 8)) % 2,
{
    let q = j / 8;
    let r = j % 8;
    let pr = vstd::arithmetic::power2::pow2(r) as int;
    let x = s[q as int] as int;
    let h = le_value(s.skip(q as int + 1)) as int;
    crate::digits::lemma_le_value_shift(s, q as int);
    lemma_le_value_skip_step(s, q as int);
    vstd::arithmetic::power2::lemma_pow2_adds(8 * q, r);
    vstd::arithmetic::power2::lemma_pow2_pos(r);
    crate::digits::lemma_radix_pow_pos(q);
    lemma_div_denominator(le_value(s) as int, radix_pow(q) as int, pr);
    // 256 = 2^r * 2^(8 - r)
    vstd::arithmetic::power2::lemma_pow2_adds(r, (8 - r) as nat);
    vstd::arithmetic::power2::lemma2_to64();
    let m = vstd::arithmetic::power2::pow2((8 - r) as nat) as int;
    assert(x + 256 * h == (m * h) * pr + x) by (nonlinear_arith)
        requires
            256 == pr * m,
    ;
    lemma_fundamental_div_mod(x, pr);
    lemma_mod_bound(x, pr);
    assert(x + 256 * h == (m * h + x / pr) * pr + x % pr) by (nonlinear_arith)
        requires
            x + 256 * h == (m * h) * pr + x,
            x == pr * (x / pr) + x % pr,
    ;
    lemma_fundamental_div_mod_converse_div(x + 256 * h, pr, m * h + x / pr, x % pr);
    // m is even, so it does not change the parity
    vstd::arithmetic::power2::lemma_pow2_unfold((8 - r) as nat);
    let m2 = vstd::arithmetic::power2::pow2((7 - r) as nat) as int;
    assert(m * h + x / pr == (m2 * h) * 2 + x / pr) by (nonlinear_arith)
        requires
            m == 2 * m2,
    ;
    lemma_div_pos_is_pos(x, pr);
    lemma_mod_multiples_vanish(m2 * h, x / pr, 2);
    lemma_mul_is_commutative(m2 * h, 2);
}

/// Bit `j` of a byte array's value.
pub fn raw_bit<const N: usize>(a: &[u8; N], j: u32) -> (r: u8)
    requires
        j < 8 * N,
    ensures
        r == (uval(*a) / vstd::arithmetic::power2::pow2(j as nat)) % 2,
        r <= 1,
{
    let byte: u8 = a[(j / 8) as usize];
    let p: u64 = pow2_u64(j % 8);
    proof {
        lemma_bit_of_bytes(a@, j as nat);
        vstd::arithmetic::power2::lemma_pow2_pos((j % 8) as nat);
    }
    ((byte as u64 / p) % 2) as u8
}

/// Unsigned division of byte arrays: quotient and remainder.
pub fn raw_divrem<const N: usize>(a: &[u8; N], b: &[u8; N]) -> (res: ([u8; N], [u8; N]))
    requires
        uval(*b) > 0,
        8 * N <= u32::MAX,
    ensures
        uval(*a) == uval(res.0) * uval(*b) + uval(res.1),
        uval(res.1) < uval(*b),
{
    let ghost ua = uval(*a) as int;
    let ghost ub = uval(*b) as int;
    let ghost rr = radix_pow(N as nat) as int;
    let mut q: [u8; N] = raw_zero();
    let mut r: [u8; N] = raw_zero();
    let mut i: u32 = (8 * N) as u32;
    proof {
        lemma_le_value_bound(a@);
        lemma_le_value_bound(b@);
        crate::digits::lemma_radix_pow_pos(N as nat);
        vstd::arithmetic::power2::lemma_pow2_pos(i as nat);
        lemma_basic_div(ua, rr);
        lemma_mul_basics(ub);
    }
    while i > 0
        invariant
            i <= 8 * N,
            8 * N <= u32::MAX,
            ua == uval(*a),
            ub == uval(*b),
            ub > 0,
            rr == radix_pow(N as nat),
            ub < rr,
            ua < rr,
            uval(q) * ub + uval(r) == ua / (vstd::arithmetic::power2::pow2(i as nat) as int),
            uval(r) < ub,
        decreases i,
    {
        let ghost pi = ua / (vstd::arithmetic::power2::pow2(i as nat) as int);
        i = i - 1;
        let bit: u8 = raw_bit(a, i);
        let ghost pn = ua / (vstd::arithmetic::power2::pow2(i as nat) as int);
        proof {
            vstd::arithmetic::power2::lemma_pow2_unfold((i + 1) as nat);
            vstd::arithmetic::power2::lemma_pow2_pos(i as nat);
            lemma_div_denominator(ua, vstd::arithmetic::power2::pow2(i as nat) as int, 2);
            lemma_mul_is_commutative(vstd::arithmetic::power2::pow2(i as nat) as int, 2);
            lemma_fundamental_div_mod(pn, 2);
            assert(pn == 2 * pi + bit);
            // pi < 2^(8N - i - 1), so the doubled quotient still fits
            let hi_e = (8 * N - i - 1) as nat;
            let lo_e = (i + 1) as nat;
            vstd::arithmetic::power2::lemma_pow2_adds(lo_e, hi_e);
            assert(lo_e + hi_e == 8 * N);
            let ph = vstd::arithmetic::power2::pow2(hi_e) as int;
            let pl = vstd::arithmetic::power2::pow2(lo_e) as int;
            lemma_mul_is_commutative(ph, pl);
            vstd::arithmetic::power2::lemma_pow2_pos(lo_e);
            assert(rr == ph * pl);
            lemma_div_by_multiple_is_strongly_ordered(ua, rr, ph, pl);
            lemma_div_by_multiple(ph, pl);
            assert(pi < ph);
            vstd::arithmetic::power2::lemma_pow2_adds(1, hi_e);
            vstd::arithmetic::power2::lemma2_to64();
            assert(1 + hi_e == 8 * N - i);
            if i > 0 {
                vstd::arithmetic::power2::lemma_pow2_strictly_increases(1 + hi_e, 8 * N as nat);
            }
            assert(2 * ph <= rr);
            assert(uval(q) <= pi) by (nonlinear_arith)
                requires
                    uval(q) * ub + uval(r) == pi,
                    ub >= 1,
                    uval(r) >= 0,
            ;
        }
        let ghost r_old = uval(r) as int;
        let (r2, c) = raw_add(&r, &r, bit == 1);
        let ghost rp = 2 * uval(r) + bit;
        proof {
            lemma_mul_basics(rr);
        }
        let take: bool = c || !raw_lt(&r2, b);
        if take {
            let (r3, _bw) = raw_sub(&r2, b, false);
            proof {
                lemma_le_value_bound(r3@);
                lemma_le_value_bound(r2@);
                assert(rp >= ub);
                assert((bit_value(c) as int - bit_value(_bw) as int) * rr == bit_value(c) * rr - bit_value(_bw) * rr) by (nonlinear_arith);
                crate::model::lemma_mod_of_carry(uval(r3) as int, bit_value(c) as int - bit_value(_bw) as int, rr, rp - ub);
                lemma_small_mod((rp - ub) as nat, rr as nat);
            }
            r = r3;
        } else {
            proof {
                lemma_mul_basics(rr);
            }
            r = r2;
        }
        let (q2, _c2) = raw_add(&q, &q, take);
        proof {
            lemma_le_value_bound(q2@);
            assert(2 * uval(q) + bit_value(take) < rr);
            if _c2 {
                assert(false);
            }
            assert(uval(q2) == 2 * uval(q) + bit_value(take));
            assert(uval(q2) * ub + uval(r) == pn) by (nonlinear_arith)
                requires
                    uval(q2) == 2 * uval(q) + bit_value(take),
                    take ==> uval(r) == rp - ub,
                    !take ==> uval(r) == rp,
                    rp == 2 * r_old + bit,
                    uval(q) * ub + r_old == pi,
                    pn == 2 * pi + bit,
            ;
        }
        q = q2;
    }
    proof {
        assert(vstd::arithmetic::power2::pow2(0) == 1) by {
            vstd::arithmetic::power2::lemma2_to64();
        }
        assert(ua / 1 == ua);
    }
    (q, r)
}

} // verus!
