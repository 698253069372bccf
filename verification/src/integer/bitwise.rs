//! Reading and combining the individual bits of an integer's two's complement pattern.
use super::{Integer, Uint};
use crate::digits::{le_value, radix_pow, lemma_le_value_bound};
use crate::model::{fits, lemma_range_facts, lemma_pow2_half, lemma_wrap};
use crate::raw::{uval, raw_bit, lemma_bit_of_bytes, bit_value};
use vstd::arithmetic::div_mod::*;
use vstd::arithmetic::mul::*;
use vstd::arithmetic::power2::*;
use vstd::prelude::*;

verus! {

/// Bit `i` of the (infinite, two's complement) binary expansion of `v`: negative numbers have
/// all high bits set.
pub open spec fn bit_of(v: int, i: nat) -> bool {
    (v / (pow2(i) as int)) % 2 == 1
}

/// The number of set bits among bits `0..k` of `v`.
pub open spec fn ones_below(v: int, k: nat) -> nat
    decreases k,
{
    if k == 0 {
        0
    } else {
        ones_below(v, (k - 1) as nat) + (if bit_of(v, (k - 1) as nat) { 1nat } else { 0nat })
    }
}

/// The pattern `u` (below `2^bits`) rotated left by `k < bits` places.
pub open spec fn rotl_pattern(u: int, k: nat, bits: nat) -> int {
    (u * pow2(k)) % (pow2(bits) as int) + u / (pow2((bits - k) as nat) as int)
}

/// Bits `0..k` of `v` read in reverse order: bit `i` is worth `2^(k - 1 - i)`.
pub open spec fn reversed_bits(v: int, k: nat) -> int
    decreases k,
{
    if k == 0 {
        0
    } else {
        2 * reversed_bits(v, (k - 1) as nat) + (if bit_of(v, (k - 1) as nat) { 1int } else { 0int })
    }
}

/// The two parts of a rotation do not overlap: the shifted part is a multiple of `2^k` and the
/// wrapped-around part is below `2^k`.
proof fn lemma_rotl_parts(u: int, k: nat, bits: nat)
    requires
        0 < k < bits,
        0 <= u < pow2(bits),
    ensures
        (u * pow2(k)) % (pow2(bits) as int) + u / (pow2((bits - k) as nat) as int) < pow2(bits),
        0 <= u / (pow2((bits - k) as nat) as int),
{
    let e = (bits - k) as nat;
    let pk = pow2(k) as int;
    let pe = pow2(e) as int;
    let m = pow2(bits) as int;
    lemma_pow2_adds(e, k);
    lemma_pow2_pos(k);
    lemma_pow2_pos(e);
    lemma_fundamental_div_mod(u, pe);
    lemma_mod_bound(u, pe);
    let q = u / pe;
    let rem = u % pe;
    lemma_div_pos_is_pos(u, pe);
    assert(u * pk == q * m + rem * pk) by (nonlinear_arith)
        requires
            u == pe * q + rem,
            m == pe * pk,
    ;
    assert(0 <= rem * pk < m) by (nonlinear_arith)
        requires
            0 <= rem < pe,
            pk > 0,
            m == pe * pk,
    ;
    lemma_fundamental_div_mod_converse_mod(u * pk, m, q, rem * pk);
    assert(q < pk) by (nonlinear_arith)
        requires
            u == pe * q + rem,
            u < m,
            rem >= 0,
            m == pe * pk,
            pe > 0,
    ;
    assert(rem * pk <= (pe - 1) * pk) by (nonlinear_arith)
        requires
            rem <= pe - 1,
            pk > 0,
    ;
    assert((pe - 1) * pk == m - pk) by (nonlinear_arith)
        requires
            m == pe * pk,
    ;
}

/// Bits below `w` only depend on the value modulo `2^w`.
pub proof fn lemma_bit_mod(v: int, i: nat, w: nat)
    requires
        i < w,
    ensures
        bit_of(v % (pow2(w) as int), i) == bit_of(v, i),
{
    let p = pow2(i) as int;
    let e = (w - i) as nat;
    let c = pow2(e) as int;
    let m = pow2(w) as int;
    lemma_pow2_adds(i, e);
    lemma_pow2_pos(i);
    lemma_pow2_pos(e);
    lemma_pow2_pos(w);
    lemma_pow2_unfold(e);
    let c2 = pow2((e - 1) as nat) as int;
    lemma_fundamental_div_mod(v, m);
    lemma_mod_bound(v, m);
    let q = v / m;
    let t = v % m;
    lemma_fundamental_div_mod(t, p);
    lemma_mod_bound(t, p);
    // v = (q * c + t / p) * p + t % p
    assert(v == (q * c + t / p) * p + t % p) by (nonlinear_arith)
        requires
            v == m * q + t,
            m == p * c,
            t == p * (t / p) + t % p,
    ;
    lemma_fundamental_div_mod_converse_div(v, p, q * c + t / p, t % p);
    assert(q * c + t / p == (q * c2) * 2 + t / p) by (nonlinear_arith)
        requires
            c == 2 * c2,
    ;
    lemma_mod_multiples_vanish(q * c2, t / p, 2);
    lemma_mul_is_commutative(q * c2, 2);
}

/// Values congruent modulo `2^w` agree on their bits below `w`.
pub proof fn lemma_bit_congruent(a: int, b: int, i: nat, w: nat)
    requires
        i < w,
        a % (pow2(w) as int) == b % (pow2(w) as int),
    ensures
        bit_of(a, i) == bit_of(b, i),
{
    lemma_bit_mod(a, i, w);
    lemma_bit_mod(b, i, w);
}

/// Bit `k` of a byte, as a shift and a remainder.
proof fn lemma_byte_bit(x: u8, k: nat)
    requires
        k < 8,
    ensures
        bit_of(x as int, k) == ((x >> (k as u8)) % 2 == 1),
{
    vstd::bits::lemma_u8_shr_is_div(x, k as u8);
}

/// The bitwise operations act bit by bit on bytes.
proof fn lemma_byte_ops(x: u8, y: u8, k: u8)
    by (bit_vector)
    requires
        k < 8,
    ensures
        ((x & y) >> k) % 2 == 1 <==> ((x >> k) % 2 == 1 && (y >> k) % 2 == 1),
        ((x | y) >> k) % 2 == 1 <==> ((x >> k) % 2 == 1 || (y >> k) % 2 == 1),
        ((x ^ y) >> k) % 2 == 1 <==> ((x >> k) % 2 == 1) != ((y >> k) % 2 == 1),
{
}

/// Writing bit `k` of a byte changes it by the difference of the bits times `2^k`.
proof fn lemma_set_byte_bit(x: u8, k: u8, v: u8)
    by (bit_vector)
    requires
        k < 8,
        v <= 1,
    ensures
        ((x & !(1u8 << k)) | (v << k)) - x == (v - (x >> k) % 2) * (1u8 << k),
{
}

/// Bit `j` of a byte array's value is bit `j % 8` of byte `j / 8`.
proof fn lemma_array_bit<const N: usize>(a: [u8; N], j: nat)
    requires
        j < 8 * N,
    ensures
        bit_of(uval(a) as int, j) == bit_of(a@[(j / 8) as int] as int, j % 8),
{
    lemma_bit_of_bytes(a@, j);
}

/// Which bitwise operation to apply.
enum BitOp {
    And,
    Or,
    Xor,
}

spec fn apply_op(op: BitOp, x: bool, y: bool) -> bool {
    match op {
        BitOp::And => x && y,
        BitOp::Or => x || y,
        BitOp::Xor => x != y,
    }
}

impl<const S: bool, const N: usize, const B: usize, const OM: u8> Integer<S, N, B, OM> {
    /// Bit `j` of the stored bytes is bit `j` of the value.
    proof fn lemma_stored_bit(self, j: nat)
        requires
            self.wf(),
            j < 8 * N,
        ensures
            bit_of(uval(self.bytes) as int, j) == bit_of(self@, j),
    {
        self.lemma_repr();
        lemma_bit_mod(self@, j, (8 * N) as nat);
    }

    /// The bit at `index`: `true` when it is set. Index `0` is the least significant bit;
    /// indices at or above `BITS` (within the storage) read copies of the sign bit.
    pub fn bit(&self, index: u32) -> (r: bool)
        requires
            index < 8 * N,
        ensures
            r == bit_of(self@, index as nat),
    {
        proof {
            use_type_invariant(self);
            self.lemma_stored_bit(index as nat);
        }
        raw_bit(&self.bytes, index) == 1
    }

    /// Applies a bitwise operation to each pair of bits.
    fn bitwise(self, rhs: Self, op: BitOp) -> (r: Self)
        ensures
            forall|i: nat| i < Self::spec_bits() ==> #[trigger] bit_of(r@, i) == apply_op(op, bit_of(self@, i), bit_of(rhs@, i)),
    {
        proof {
            use_type_invariant(&self);
            use_type_invariant(&rhs);
            self.lemma_repr();
        }
        let mut out = [0u8; N];
        let mut k: usize = 0;
        while k < N
            invariant
                0 <= k <= N,
                forall|j: int| 0 <= j < k ==> #[trigger] out@[j] == (match op {
                    BitOp::And => self.bytes@[j] & rhs.bytes@[j],
                    BitOp::Or => self.bytes@[j] | rhs.bytes@[j],
                    BitOp::Xor => self.bytes@[j] ^ rhs.bytes@[j],
                }),
            decreases N - k,
        {
            let x = self.bytes[k];
            let y = rhs.bytes[k];
            out[k] = match op {
                BitOp::And => x & y,
                BitOp::Or => x | y,
                BitOp::Xor => x ^ y,
            };
            k = k + 1;
        }
        proof {
            lemma_le_value_bound(out@);
            lemma_small_mod(uval(out), radix_pow(N as nat));
        }
        let r = Self::from_wrapped(out, Ghost(uval(out) as int));
        proof {
            let bits = Self::spec_bits();
            lemma_wrap(uval(out) as int, S, bits);
            assert forall|i: nat| i < bits implies #[trigger] bit_of(r@, i) == apply_op(op, bit_of(self@, i), bit_of(rhs@, i)) by {
                lemma_bit_congruent(r@, uval(out) as int, i, bits);
                lemma_array_bit(out, i);
                lemma_array_bit(self.bytes, i);
                lemma_array_bit(rhs.bytes, i);
                self.lemma_stored_bit(i);
                rhs.lemma_stored_bit(i);
                let q = (i / 8) as int;
                let k = i % 8;
                lemma_byte_bit(out@[q], k);
                lemma_byte_bit(self.bytes@[q], k);
                lemma_byte_bit(rhs.bytes@[q], k);
                lemma_byte_ops(self.bytes@[q], rhs.bytes@[q], k as u8);
            }
        }
        r
    }

    /// Bitwise AND of the two's complement patterns.
    pub fn bitand(self, rhs: Self) -> (r: Self)
        ensures
            forall|i: nat| i < Self::spec_bits() ==> #[trigger] bit_of(r@, i) == (bit_of(self@, i) && bit_of(rhs@, i)),
    {
        self.bitwise(rhs, BitOp::And)
    }

    /// Bitwise OR of the two's complement patterns.
    pub fn bitor(self, rhs: Self) -> (r: Self)
        ensures
            forall|i: nat| i < Self::spec_bits() ==> #[trigger] bit_of(r@, i) == (bit_of(self@, i) || bit_of(rhs@, i)),
    {
        self.bitwise(rhs, BitOp::Or)
    }

    /// Bitwise XOR of the two's complement patterns.
    pub fn bitxor(self, rhs: Self) -> (r: Self)
        ensures
            forall|i: nat| i < Self::spec_bits() ==> #[trigger] bit_of(r@, i) == (bit_of(self@, i) != bit_of(rhs@, i)),
    {
        self.bitwise(rhs, BitOp::Xor)
    }

    /// The number of set bits among the `BITS` bits.
    pub fn count_ones(self) -> (r: u32)
        ensures
            r == ones_below(self@, Self::spec_bits()),
    {
        proof {
            use_type_invariant(&self);
            self.lemma_repr();
        }
        let bits = Self::bits_u32();
        let mut count: u32 = 0;
        let mut j: u32 = 0;
        while j < bits
            invariant
                j <= bits,
                bits == Self::spec_bits(),
                bits <= 8 * N,
                self.wf(),
                count == ones_below(self@, j as nat),
                count <= j,
            decreases bits - j,
        {
            let b = raw_bit(&self.bytes, j);
            proof {
                self.lemma_stored_bit(j as nat);
            }
            if b == 1 {
                count = count + 1;
            }
            j = j + 1;
        }
        count
    }

    /// The number of clear bits among the `BITS` bits.
    pub fn count_zeros(self) -> (r: u32)
        ensures
            r == Self::spec_bits() - ones_below(self@, Self::spec_bits()),
    {
        proof {
            use_type_invariant(&self);
            lemma_ones_below_bound(self@, Self::spec_bits());
        }
        Self::bits_u32() - self.count_ones()
    }

    /// The number of consecutive bits equal to `want`, counting down from bit `BITS - 1`.
    fn count_from_top(self, want: bool) -> (r: u32)
        ensures
            r <= Self::spec_bits(),
            forall|i: nat| Self::spec_bits() - r <= i < Self::spec_bits() ==> #[trigger] bit_of(self@, i) == want,
            r < Self::spec_bits() ==> bit_of(self@, (Self::spec_bits() - 1 - r) as nat) != want,
    {
        proof {
            use_type_invariant(&self);
        }
        let bits = Self::bits_u32();
        let mut n: u32 = 0;
        let mut done = false;
        while !done && n < bits
            invariant
                n <= bits,
                bits == Self::spec_bits(),
                bits <= 8 * N,
                forall|i: nat| bits - n <= i < bits ==> #[trigger] bit_of(self@, i) == want,
                done ==> n < bits && bit_of(self@, (bits - 1 - n) as nat) != want,
            decreases bits - n + (if done { 0int } else { 1int }),
        {
            if self.bit(bits - 1 - n) != want {
                done = true;
            } else {
                n = n + 1;
            }
        }
        n
    }

    /// The number of consecutive bits equal to `want`, counting up from bit `0`.
    fn count_from_bottom(self, want: bool) -> (r: u32)
        ensures
            r <= Self::spec_bits(),
            forall|i: nat| i < r ==> #[trigger] bit_of(self@, i) == want,
            r < Self::spec_bits() ==> bit_of(self@, r as nat) != want,
    {
        proof {
            use_type_invariant(&self);
        }
        let bits = Self::bits_u32();
        let mut n: u32 = 0;
        let mut done = false;
        while !done && n < bits
            invariant
                n <= bits,
                bits == Self::spec_bits(),
                bits <= 8 * N,
                forall|i: nat| i < n ==> #[trigger] bit_of(self@, i) == want,
                done ==> n < bits && bit_of(self@, n as nat) != want,
            decreases bits - n + (if done { 0int } else { 1int }),
        {
            if self.bit(n) != want {
                done = true;
            } else {
                n = n + 1;
            }
        }
        n
    }

    /// The number of leading (most significant) zero bits among the `BITS` bits.
    pub fn leading_zeros(self) -> (r: u32)
        ensures
            r <= Self::spec_bits(),
            forall|i: nat| Self::spec_bits() - r <= i < Self::spec_bits() ==> !#[trigger] bit_of(self@, i),
            r < Self::spec_bits() ==> bit_of(self@, (Self::spec_bits() - 1 - r) as nat),
    {
        self.count_from_top(false)
    }

    /// The number of leading (most significant) one bits among the `BITS` bits.
    pub fn leading_ones(self) -> (r: u32)
        ensures
            r <= Self::spec_bits(),
            forall|i: nat| Self::spec_bits() - r <= i < Self::spec_bits() ==> #[trigger] bit_of(self@, i),
            r < Self::spec_bits() ==> !bit_of(self@, (Self::spec_bits() - 1 - r) as nat),
    {
        self.count_from_top(true)
    }

    /// The number of trailing (least significant) zero bits; `BITS` for zero.
    pub fn trailing_zeros(self) -> (r: u32)
        ensures
            r <= Self::spec_bits(),
            forall|i: nat| i < r ==> !#[trigger] bit_of(self@, i),
            r < Self::spec_bits() ==> bit_of(self@, r as nat),
    {
        self.count_from_bottom(false)
    }

    /// The number of trailing (least significant) one bits.
    pub fn trailing_ones(self) -> (r: u32)
        ensures
            r <= Self::spec_bits(),
            forall|i: nat| i < r ==> #[trigger] bit_of(self@, i),
            r < Self::spec_bits() ==> !bit_of(self@, r as nat),
    {
        self.count_from_bottom(true)
    }

    /// Sets the bit at `index` to `value`: the value changes by `2^index` (up or down) when the
    /// bit changes, wrapping into range when the sign bit of a signed type is written.
    pub fn set_bit(&mut self, index: u32, value: bool)
        requires
            index < Self::spec_bits(),
        ensures
            final(self)@ == Self::wrap_spec(
                old(self)@ + (bit_value(value) - bit_value(bit_of(old(self)@, index as nat))) * pow2(index as nat),
            ),
    {
        proof {
            use_type_invariant(&*self);
            self.lemma_repr();
            self.lemma_stored_bit(index as nat);
            lemma_array_bit(self.bytes, index as nat);
        }
        let ghost old_v = self@;
        let idx: usize = (index / 8) as usize;
        let sh: u8 = (index % 8) as u8;
        let byte: u8 = self.bytes[idx];
        let v: u8 = if value { 1 } else { 0 };
        let new_byte: u8 = (byte & !(1u8 << sh)) | (v << sh);
        let mut raw = self.bytes;
        raw[idx] = new_byte;
        let ghost ob: int = bit_value(bit_of(old_v, index as nat)) as int;
        let ghost delta: int = (bit_value(value) - ob) * pow2(index as nat);
        proof {
            let rr = radix_pow(N as nat) as int;
            lemma_set_byte_bit(byte, sh, v);
            lemma_byte_bit(byte, sh as nat);
            lemma_pow2_strictly_increases(sh as nat, 8);
            lemma2_to64();
            vstd::bits::lemma_u8_shl_is_mul(1, sh);
            assert(raw@ == self.bytes@.update(idx as int, new_byte));
            crate::digits::lemma_le_value_update(self.bytes@, idx as int, new_byte);
            lemma_pow2_adds(8 * idx as nat, sh as nat);
            assert(8 * (idx as nat) + sh as nat == index as nat);
            assert(new_byte - byte == (bit_value(value) - ob) * pow2(sh as nat));
            assert(uval(raw) == uval(self.bytes) + delta) by (nonlinear_arith)
                requires
                    uval(raw) == uval(self.bytes) - byte * radix_pow(idx as nat) + new_byte * radix_pow(idx as nat),
                    new_byte - byte == (bit_value(value) - ob) * pow2(sh as nat),
                    pow2(index as nat) == pow2(8 * idx as nat) * pow2(sh as nat),
                    radix_pow(idx as nat) == pow2(8 * idx as nat),
                    delta == (bit_value(value) - ob) * pow2(index as nat),
            ;
            lemma_le_value_bound(raw@);
            super::lemma_radix_pow_pos_local(N as nat);
            lemma_add_mod_noop(old_v, delta, rr);
            lemma_mod_twice(old_v, rr);
            lemma_small_mod(uval(raw), rr as nat);
            lemma_mod_bound(old_v, rr);
            lemma_add_mod_noop(old_v % rr, delta, rr);
        }
        *self = Self::from_wrapped(raw, Ghost(old_v + delta));
    }

    /// The bits rotated left by `n % BITS` places: bits shifted out at the top come back in at
    /// the bottom.
    pub fn rotate_left(self, n: u32) -> (r: Self)
        ensures
            r@ == Self::wrap_spec(
                rotl_pattern(self@ % (pow2(Self::spec_bits()) as int), (n as nat) % Self::spec_bits(), Self::spec_bits()),
            ),
    {
        proof {
            use_type_invariant(&self);
            lemma_range_facts(false, Self::spec_bits());
        }
        let bits = Self::bits_u32();
        let k = n % bits;
        let u = self.force_sign::<false>();
        let ghost m = pow2(bits as nat) as int;
        proof {
            lemma_pow2_pos(bits as nat);
            lemma_mod_bound(self@, m);
            assert(u@ == self@ % m);
            lemma_small_mod(k as nat, bits as nat);
        }
        let pattern = if k == 0 {
            proof {
                lemma_small_mod(u@ as nat, m as nat);
                assert(pow2(0) == 1) by {
                    lemma2_to64();
                }
                lemma_mul_basics(u@);
                lemma_basic_div(u@, m);
                assert(rotl_pattern(u@, 0, bits as nat) == u@);
            }
            u
        } else {
            let a = u.wrapping_shl(k);
            let b = u.wrapping_shr(bits - k);
            proof {
                lemma_small_mod((bits - k) as nat, bits as nat);
                lemma_rotl_parts(u@, k as nat, bits as nat);
                crate::model::lemma_wrap(u@ * pow2(k as nat), false, bits as nat);
                crate::model::lemma_wrap(a@ + b@, false, bits as nat);
                assert(a@ + b@ == rotl_pattern(u@, k as nat, bits as nat));
            }
            a.wrapping_add(b)
        };
        proof {
            assert(k as nat == (n as nat) % Self::spec_bits());
            assert(pattern@ == rotl_pattern(self@ % m, k as nat, bits as nat));
        }
        pattern.force_sign::<S>()
    }

    /// The bits rotated right by `n % BITS` places: bits shifted out at the bottom come back in
    /// at the top.
    pub fn rotate_right(self, n: u32) -> (r: Self)
        ensures
            r@ == Self::wrap_spec(
                rotl_pattern(
                    self@ % (pow2(Self::spec_bits()) as int),
                    ((Self::spec_bits() - (n as nat) % Self::spec_bits()) as nat) % Self::spec_bits(),
                    Self::spec_bits(),
                ),
            ),
    {
        proof {
            use_type_invariant(&self);
        }
        let bits = Self::bits_u32();
        self.rotate_left(bits - n % bits)
    }

    /// The bits in reverse order: bit `i` moves to bit `BITS - 1 - i`.
    pub fn reverse_bits(self) -> (r: Self)
        ensures
            r@ == Self::wrap_spec(reversed_bits(self@, Self::spec_bits())),
    {
        proof {
            use_type_invariant(&self);
        }
        let bits = Self::bits_u32();
        let mut acc = Uint::<N, B, OM>::zero();
        let mut j: u32 = 0;
        proof {
            lemma2_to64();
        }
        while j < bits
            invariant
                j <= bits,
                bits == Self::spec_bits(),
                bits <= 8 * N,
                Self::valid_params(),
                acc@ == reversed_bits(self@, j as nat),
                0 <= acc@ < pow2(j as nat),
            decreases bits - j,
        {
            let b: u32 = if self.bit(j) { 1 } else { 0 };
            proof {
                lemma_pow2_unfold((j + 1) as nat);
                if j + 1 < bits {
                    lemma_pow2_strictly_increases((j + 1) as nat, bits as nat);
                }
            }
            acc = acc.mul_small_add(2, b).unwrap();
            j = j + 1;
        }
        acc.force_sign::<S>()
    }
}

impl<const N: usize, const B: usize, const OM: u8> Uint<N, B, OM> {
    /// The number of bits needed to write the value: the least `L` with `self < 2^L`
    /// (`BITS` minus the leading zeros).
    pub fn bits(&self) -> (r: u32)
        ensures
            r <= Self::spec_bits(),
            self@ < pow2(r as nat),
            r > 0 ==> self@ >= pow2((r - 1) as nat),
    {
        self.bit_length()
    }
}

/// At most `k` of the bits below `k` are set.
pub proof fn lemma_ones_below_bound(v: int, k: nat)
    ensures
        ones_below(v, k) <= k,
    decreases k,
{
    if k > 0 {
        lemma_ones_below_bound(v, (k - 1) as nat);
    }
}

} // verus!
