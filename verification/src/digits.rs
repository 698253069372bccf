//! The value of a little-endian byte sequence, and the facts about it that the
//! arithmetic on byte arrays relies on.
use vstd::arithmetic::div_mod::*;
use vstd::arithmetic::mul::*;
use vstd::arithmetic::power2::*;
use vstd::prelude::*;

verus! {

/// `2^(8n)`: the number of values `n` bytes can hold.
pub open spec fn radix_pow(n: nat) -> nat {
    pow2(8 * n)
}

/// The unsigned value of a little-endian byte sequence.
pub open spec fn le_value(s: Seq<u8>) -> nat
    decreases s.len(),
{
    if s.len() == 0 {
        0
    } else {
        le_value(s.drop_last()) + (s.last() as nat) * radix_pow((s.len() - 1) as nat)
    }
}

pub proof fn lemma_radix_pow_succ(n: nat)
    ensures
        radix_pow(n + 1) == 256 * radix_pow(n),
        radix_pow(0) == 1,
        radix_pow(1) == 256,
{
    lemma_pow2_adds(8 * n, 8);
    lemma2_to64();
}

pub proof fn lemma_radix_pow_adds(a: nat, b: nat)
    ensures
        radix_pow(a + b) == radix_pow(a) * radix_pow(b),
{
    lemma_pow2_adds(8 * a, 8 * b);
    assert(8 * (a + b) == 8 * a + 8 * b) by (nonlinear_arith);
}

pub proof fn lemma_radix_pow_pos(n: nat)
    ensures
        radix_pow(n) > 0,
{
    lemma_pow2_pos(8 * n);
}

pub proof fn lemma_radix_pow_mono(a: nat, b: nat)
    requires
        a <= b,
    ensures
        radix_pow(a) <= radix_pow(b),
{
    lemma_radix_pow_adds(a, (b - a) as nat);
    lemma_radix_pow_pos(a);
    lemma_radix_pow_pos((b - a) as nat);
    lemma_mul_increases(radix_pow((b - a) as nat) as int, radix_pow(a) as int);
}

/// A sequence of `n` bytes holds a value below `2^(8n)`.
pub proof fn lemma_le_value_bound(s: Seq<u8>)
    ensures
        le_value(s) < radix_pow(s.len()),
    decreases s.len(),
{
    lemma_radix_pow_succ(0);
    if s.len() > 0 {
        let n = (s.len() - 1) as nat;
        lemma_le_value_bound(s.drop_last());
        lemma_radix_pow_succ(n);
        assert(le_value(s) <= radix_pow(n) - 1 + 255 * radix_pow(n)) by {
            lemma_mul_inequality(s.last() as int, 255, radix_pow(n) as int);
        }
    }
}

/// Extending a prefix by one byte.
pub proof fn lemma_le_value_take_succ(s: Seq<u8>, i: int)
    requires
        0 <= i < s.len(),
    ensures
        le_value(s.take(i + 1)) == le_value(s.take(i)) + s[i] * radix_pow(i as nat),
{
    assert(s.take(i + 1).drop_last() =~= s.take(i));
}

/// Splitting a sequence into a low part and a high part.
pub proof fn lemma_le_value_split(s: Seq<u8>, i: int)
    requires
        0 <= i <= s.len(),
    ensures
        le_value(s) == le_value(s.take(i)) + radix_pow(i as nat) * le_value(s.skip(i)),
    decreases s.len(),
{
    lemma_radix_pow_succ(0);
    if i == s.len() {
        assert(s.take(i) =~= s);
        assert(s.skip(i).len() == 0);
        assert(le_value(s.skip(i)) == 0);
        lemma_mul_basics(radix_pow(i as nat) as int);
    } else {
        let n = (s.len() - 1) as nat;
        lemma_le_value_split(s.drop_last(), i);
        assert(s.drop_last().take(i) =~= s.take(i));
        assert(s.drop_last().skip(i) =~= s.skip(i).drop_last());
        let h = s.skip(i);
        assert(h.last() == s.last());
        lemma_radix_pow_adds(i as nat, (h.len() - 1) as nat);
        assert(radix_pow(i as nat) * le_value(h) == radix_pow(i as nat) * le_value(h.drop_last())
            + s.last() * radix_pow(n)) by {
            lemma_mul_is_distributive_add(
                radix_pow(i as nat) as int,
                le_value(h.drop_last()) as int,
                h.last() * radix_pow((h.len() - 1) as nat),
            );
            lemma_mul_is_associative(
                radix_pow(i as nat) as int,
                h.last() as int,
                radix_pow((h.len() - 1) as nat) as int,
            );
            lemma_mul_is_commutative(radix_pow(i as nat) as int, h.last() as int);
            lemma_mul_is_associative(
                h.last() as int,
                radix_pow(i as nat) as int,
                radix_pow((h.len() - 1) as nat) as int,
            );
        }
    }
}


/// The top byte of a nonempty sequence carries weight `2^(8(n-1))`.
pub proof fn lemma_le_value_top(s: Seq<u8>)
    requires
        s.len() >= 1,
    ensures
        le_value(s) == le_value(s.take(s.len() - 1)) + radix_pow((s.len() - 1) as nat) * s[s.len() - 1],
        le_value(s.take(s.len() - 1)) < radix_pow((s.len() - 1) as nat),
{
    assert(s.drop_last() =~= s.take(s.len() - 1));
    lemma_le_value_bound(s.take(s.len() - 1));
    lemma_mul_is_commutative(s.last() as int, radix_pow((s.len() - 1) as nat) as int);
}

/// Sequences that agree below index `i` have the same low value.
pub proof fn lemma_le_value_take_eq(s: Seq<u8>, t: Seq<u8>, i: int)
    requires
        0 <= i <= s.len(),
        0 <= i <= t.len(),
        forall|j: int| 0 <= j < i ==> s[j] == t[j],
    ensures
        le_value(s.take(i)) == le_value(t.take(i)),
{
    assert(s.take(i) =~= t.take(i));
}


/// The `n` little-endian bytes of `u` (taken modulo `2^(8n)`).
pub open spec fn le_bytes_of(u: nat, n: nat) -> Seq<u8> {
    Seq::new(n, |i: int| ((u / radix_pow(i as nat)) % 256) as u8)
}

/// Dividing by the weight of byte `i` leaves the value of the bytes from `i` upwards.
pub proof fn lemma_le_value_shift(s: Seq<u8>, i: int)
    requires
        0 <= i <= s.len(),
    ensures
        le_value(s) / radix_pow(i as nat) == le_value(s.skip(i)),
        le_value(s) % radix_pow(i as nat) == le_value(s.take(i)),
{
    lemma_le_value_split(s, i);
    lemma_le_value_bound(s.take(i));
    lemma_radix_pow_pos(i as nat);
    lemma_mul_is_commutative(radix_pow(i as nat) as int, le_value(s.skip(i)) as int);
    lemma_fundamental_div_mod_converse(
        le_value(s) as int,
        radix_pow(i as nat) as int,
        le_value(s.skip(i)) as int,
        le_value(s.take(i)) as int,
    );
}

/// The lowest byte of a sequence is its value modulo 256.
pub proof fn lemma_le_value_low_byte(s: Seq<u8>)
    requires
        s.len() >= 1,
    ensures
        le_value(s) % 256 == s[0],
        le_value(s) / 256 == le_value(s.skip(1)),
{
    lemma_le_value_shift(s, 1);
    lemma_radix_pow_succ(0);
    assert(s.take(1).drop_last() =~= Seq::<u8>::empty());
    assert(le_value(Seq::<u8>::empty()) == 0);
    let t = s.take(1);
    assert(t.len() == 1);
    assert(t.last() == s[0]);
    assert(le_value(t) == le_value(t.drop_last()) + (t.last() as nat) * radix_pow(0));
    assert(le_value(t.drop_last()) == 0);
    assert(radix_pow(0) == 1);
    assert((t.last() as nat) * radix_pow(0) == t.last()) by (nonlinear_arith)
        requires
            radix_pow(0) == 1,
    ;
    assert(le_value(t) == s[0]);
}

/// The bytes of a sequence's value are the sequence itself.
pub proof fn lemma_le_bytes_of_value(s: Seq<u8>)
    ensures
        le_bytes_of(le_value(s), s.len()) == s,
{
    assert forall|i: int| 0 <= i < s.len() implies #[trigger] le_bytes_of(le_value(s), s.len())[i]
        == s[i] by {
        lemma_le_value_shift(s, i);
        lemma_le_value_low_byte(s.skip(i));
    }
    assert(le_bytes_of(le_value(s), s.len()) =~= s);
}

/// Byte sequences of the same length with the same value are equal.
pub proof fn lemma_le_value_injective(s: Seq<u8>, t: Seq<u8>)
    requires
        s.len() == t.len(),
        le_value(s) == le_value(t),
    ensures
        s == t,
{
    lemma_le_bytes_of_value(s);
    lemma_le_bytes_of_value(t);
}

/// Replacing one byte changes the value by the difference times that byte's weight.
pub proof fn lemma_le_value_update(s: Seq<u8>, i: int, v: u8)
    requires
        0 <= i < s.len(),
    ensures
        le_value(s.update(i, v)) == le_value(s) - s[i] * radix_pow(i as nat) + v * radix_pow(
            i as nat,
        ),
    decreases s.len(),
{
    let t = s.update(i, v);
    if i == s.len() - 1 {
        assert(t.drop_last() =~= s.drop_last());
    } else {
        lemma_le_value_update(s.drop_last(), i, v);
        assert(t.drop_last() =~= s.drop_last().update(i, v));
    }
}

/// All-zero bytes have value zero.
pub proof fn lemma_le_value_zeros(s: Seq<u8>)
    requires
        forall|i: int| 0 <= i < s.len() ==> s[i] == 0,
    ensures
        le_value(s) == 0,
    decreases s.len(),
{
    if s.len() > 0 {
        lemma_le_value_zeros(s.drop_last());
    }
}

/// All-ones bytes have the largest value.
pub proof fn lemma_le_value_ones(s: Seq<u8>)
    requires
        forall|i: int| 0 <= i < s.len() ==> s[i] == 255,
    ensures
        le_value(s) == radix_pow(s.len()) - 1,
    decreases s.len(),
{
    lemma_radix_pow_succ(0);
    if s.len() > 0 {
        lemma_le_value_ones(s.drop_last());
        lemma_radix_pow_succ((s.len() - 1) as nat);
    }
}

/// Complementing every byte complements the value.
pub proof fn lemma_le_value_complement(s: Seq<u8>, t: Seq<u8>)
    requires
        s.len() == t.len(),
        forall|i: int| 0 <= i < s.len() ==> s[i] + t[i] == 255,
    ensures
        le_value(s) + le_value(t) == radix_pow(s.len()) - 1,
    decreases s.len(),
{
    lemma_radix_pow_succ(0);
    if s.len() > 0 {
        let n = (s.len() - 1) as nat;
        lemma_le_value_complement(s.drop_last(), t.drop_last());
        lemma_radix_pow_succ(n);
        lemma_mul_is_distributive_add(radix_pow(n) as int, s.last() as int, t.last() as int);
        lemma_mul_is_commutative(radix_pow(n) as int, s.last() as int);
        lemma_mul_is_commutative(radix_pow(n) as int, t.last() as int);
    }
}


/// The value from byte `i` upwards is that byte plus 256 times the value from `i + 1`.
pub proof fn lemma_le_value_skip_step_pub(s: Seq<u8>, i: int)
    requires
        0 <= i < s.len(),
    ensures
        le_value(s.skip(i)) == s[i] + 256 * le_value(s.skip(i + 1)),
{
    lemma_le_value_low_byte(s.skip(i));
    assert(s.skip(i).skip(1) =~= s.skip(i + 1));
    lemma_fundamental_div_mod(le_value(s.skip(i)) as int, 256);
}

} // verus!
