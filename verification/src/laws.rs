//! Properties that hold across the operations of the library: round trips between integers and
//! their digits, bytes and strings, inverse operations, and the defining properties of the
//! greatest common divisor.
use crate::digits::{le_value, radix_pow, le_bytes_of, lemma_le_value_bound, lemma_le_bytes_of_value};
use crate::integer::bitwise::{rotl_pattern, reversed_bits, bit_of};
use crate::integer::number_theory::gcd_nat;
use crate::integer::mul::abs_int;
use crate::integer::Integer;
use crate::errors::IntErrorKind;
use crate::literal_parse::{literal_result, ParseIntLiteralError};
use crate::integer::radix::{canonical_digits, digits_below, digits_value, lemma_canonical_digits, ascii_digit, digit_char, scan_digits, parse_ascii, radix_string};
use crate::model::{max_of, lemma_range_facts};
use vstd::arithmetic::power::*;
use vstd::utf8::{encode_utf8, is_ascii_chars, is_ascii_chars_encode_utf8};
use crate::model::{decode, fits, wrap, lemma_decode_encode, lemma_wrap, lemma_pow2_half};
use vstd::arithmetic::div_mod::*;
use vstd::arithmetic::mul::*;
use vstd::arithmetic::power2::*;
use vstd::prelude::*;

verus! {

/// Writing a value in a radix and reading the digits back gives the value: the digits that
/// `to_radix_le` returns are all below the radix and `from_radix_le` reads them as the value.
pub proof fn law_radix_round_trip(v: nat, radix: nat)
    requires
        2 <= radix <= 256,
    ensures
        digits_below(canonical_digits(v, radix), radix),
        digits_value(canonical_digits(v, radix), radix) == v,
{
    lemma_canonical_digits(v, radix);
}

/// Reading digits without leading zeros and writing the value back gives the same digits.
pub proof fn law_radix_digits_canonical(ds: Seq<u8>, radix: nat)
    requires
        2 <= radix <= 256,
        ds.len() >= 1,
        digits_below(ds, radix),
        ds.len() > 1 ==> ds.last() != 0,
    ensures
        canonical_digits(digits_value(ds, radix), radix) == ds,
    decreases ds.len(),
{
    let v = digits_value(ds, radix);
    let rest = ds.skip(1);
    let w = digits_value(rest, radix);
    assert(v == ds[0] + radix * w);
    if ds.len() == 1 {
        assert(rest =~= Seq::<u8>::empty());
        assert(w == 0);
        lemma_mul_basics(radix as int);
        assert(v == ds[0]);
        assert(canonical_digits(v, radix) == seq![v as u8]);
        assert(canonical_digits(v, radix) =~= ds);
    } else {
        assert(rest.last() == ds.last());
        assert forall|i: int| 0 <= i < rest.len() implies #[trigger] rest[i] < radix by {
            assert(rest[i] == ds[i + 1]);
        }
        law_radix_digits_canonical(rest, radix);
        // the higher digits are not all zero, so the value is at least the radix
        lemma_value_positive(rest, radix);
        assert(radix * w >= radix) by (nonlinear_arith)
            requires
                w >= 1,
                radix >= 2,
        ;
        assert(v >= radix);
        assert(ds[0] < radix);
        lemma_mul_is_commutative(radix as int, w as int);
        lemma_fundamental_div_mod_converse(v as int, radix as int, w as int, ds[0] as int);
        assert(canonical_digits(v, radix) == seq![(v % radix) as u8] + canonical_digits(v / radix, radix));
        assert(canonical_digits(v, radix) =~= ds);
    }
}

/// Digits whose last digit is not zero have a positive value.
proof fn lemma_value_positive(ds: Seq<u8>, radix: nat)
    requires
        radix >= 2,
        ds.len() >= 1,
        ds.last() != 0,
    ensures
        digits_value(ds, radix) >= 1,
    decreases ds.len(),
{
    let rest = ds.skip(1);
    if ds.len() > 1 {
        assert(rest.last() == ds.last());
        lemma_value_positive(rest, radix);
        let w = digits_value(rest, radix);
        assert(radix * w >= 1) by (nonlinear_arith)
            requires
                w >= 1,
                radix >= 2,
        ;
    }
}

/// Storing a value of an `8n`-bit type in its `n` little-endian bytes and reading them back
/// gives the value (`from_le_bytes` undoes `to_le_bytes`).
pub proof fn law_bytes_round_trip(v: int, signed: bool, n: nat)
    requires
        n >= 1,
        fits(v, signed, 8 * n),
    ensures
        decode(le_value(le_bytes_of((v % (radix_pow(n) as int)) as nat, n)), signed, n) == v,
{
    lemma_decode_encode(v, signed, n);
    let u = (v % (radix_pow(n) as int)) as nat;
    crate::digits::lemma_radix_pow_pos(n);
    lemma_le_bytes_value(u, n);
    lemma_small_mod(u, radix_pow(n));
}

/// The bytes of `u` read back as `u` modulo `2^(8n)`.
proof fn lemma_le_bytes_value(u: nat, n: nat)
    ensures
        le_value(le_bytes_of(u, n)) == u % radix_pow(n),
    decreases n,
{
    let s = le_bytes_of(u, n);
    crate::digits::lemma_radix_pow_succ(0);
    if n == 0 {
        lemma_mod_bound(u as int, 1);
    } else {
        let k = (n - 1) as nat;
        lemma_le_bytes_value(u, k);
        assert(s.drop_last() =~= le_bytes_of(u, k));
        crate::digits::lemma_radix_pow_succ(k);
        crate::digits::lemma_radix_pow_pos(k);
        lemma_mod_breakdown(u as int, radix_pow(k) as int, 256);
        lemma_mul_is_commutative(radix_pow(k) as int, 256);
        lemma_mod_bound((u / radix_pow(k)) as int, 256);
        lemma_mul_is_commutative(((u / radix_pow(k)) % 256) as int, radix_pow(k) as int);
    }
}

/// Complementing twice gives the value back (`not` is its own inverse).
pub proof fn law_not_involution(v: int, signed: bool, bits: nat)
    requires
        bits >= 1,
        fits(v, signed, bits),
    ensures
        wrap(-1 - wrap(-1 - v, signed, bits), signed, bits) == v,
{
    lemma_wrap(-1 - v, signed, bits);
    lemma_wrap(-1 - wrap(-1 - v, signed, bits), signed, bits);
    lemma_pow2_pos(bits);
    let m = pow2(bits) as int;
    let w = wrap(-1 - v, signed, bits);
    // -1 - w is congruent to v, and both are in range
    lemma_fundamental_div_mod(-1 - v, m);
    lemma_fundamental_div_mod(w, m);
    lemma_mod_multiples_vanish((-1 - v) / m - w / m, v, m);
    assert(m * ((-1 - v) / m - w / m) + v == -1 - w) by (nonlinear_arith)
        requires
            -1 - v == m * ((-1 - v) / m) + (-1 - v) % m,
            w == m * (w / m) + w % m,
            w % m == (-1 - v) % m,
    ;
    crate::model::lemma_wrap_congruent(-1 - w, v, signed, bits);
    lemma_wrap(v, signed, bits);
}

/// `gcd(a, b)` divides `a` and `b`, and every common divisor of `a` and `b` divides it.
pub proof fn law_gcd_divides(a: nat, b: nat, d: nat)
    requires
        a > 0 || b > 0,
    ensures
        gcd_nat(a, b) > 0,
        a % gcd_nat(a, b) == 0,
        b % gcd_nat(a, b) == 0,
        d > 0 && a % d == 0 && b % d == 0 ==> gcd_nat(a, b) % d == 0,
    decreases b,
{
    if b == 0 {
        lemma_mod_self_0(a as int);
        lemma_small_mod(0, a);
    } else {
        lemma_mod_bound(a as int, b as int);
        law_gcd_divides(b, a % b, d);
        let g = gcd_nat(b, a % b);
        // a = b * (a / b) + a % b, so g divides a
        lemma_fundamental_div_mod(a as int, b as int);
        lemma_div_pos_is_pos(a as int, b as int);
        lemma_multiple_sum(b as int, (a / b) as int, (a % b) as int, g as int);
        if d > 0 && a % d == 0 && b % d == 0 {
            // a % b = a - b * (a / b), so d divides a % b
            let q = (a / b) as int;
            let r = (a % b) as int;
            lemma_multiple_sum(b as int, -q, a as int, d as int);
            assert(b * (-q) + a == r) by (nonlinear_arith)
                requires
                    a == b * q + r,
            ;
        }
    }
}

/// If `d` divides `x` and `y`, it divides `x * k + y`.
proof fn lemma_multiple_sum(x: int, k: int, y: int, d: int)
    requires
        d > 0,
        x % d == 0,
        y % d == 0,
    ensures
        (x * k + y) % d == 0,
{
    lemma_fundamental_div_mod(x, d);
    lemma_fundamental_div_mod(y, d);
    assert(x * k + y == d * ((x / d) * k + y / d)) by (nonlinear_arith)
        requires
            x == d * (x / d),
            y == d * (y / d),
    ;
    lemma_mod_multiples_vanish((x / d) * k + y / d, 0, d);
    lemma_small_mod(0, d as nat);
}

/// A left rotation by `0 < k < bits` moves the low `bits - k` bits up by `k` places and the top
/// `k` bits down to the bottom.
proof fn lemma_rotl_value(u: int, k: nat, bits: nat)
    requires
        0 < k < bits,
        0 <= u < pow2(bits),
    ensures
        rotl_pattern(u, k, bits) == (u % (pow2((bits - k) as nat) as int)) * pow2(k) + u / (pow2((bits - k) as nat) as int),
        u / (pow2((bits - k) as nat) as int) < pow2(k),
        0 <= u % (pow2((bits - k) as nat) as int),
        0 <= u / (pow2((bits - k) as nat) as int),
{
    let e = (bits - k) as nat;
    let pk = pow2(k) as int;
    let pe = pow2(e) as int;
    let m = pow2(bits) as int;
    lemma_pow2_adds(e, k);
    lemma_pow2_pos(k);
    lemma_pow2_pos(e);
    lemma_fundamental_div_mod(u, pe);
    lemma_mod_bound(u, pe);
    lemma_div_pos_is_pos(u, pe);
    let q = u / pe;
    let rem = u % pe;
    assert(u * pk == q * m + rem * pk) by (nonlinear_arith)
        requires
            u == pe * q + rem,
            m == pe * pk,
    ;
    assert(0 <= rem * pk < m) by (nonlinear_arith)
        requires
            0 <= rem < pe,
            pk > 0,
            m == pe * pk,
    ;
    lemma_fundamental_div_mod_converse_mod(u * pk, m, q, rem * pk);
    assert(q < pk) by (nonlinear_arith)
        requires
            u == pe * q + rem,
            u < m,
            rem >= 0,
            m == pe * pk,
            pe > 0,
    ;
}

/// Rotating a `bits`-bit pattern left by `k` and then by `bits - k` (a right rotation by `k`)
/// gives the pattern back.
pub proof fn law_rotate_inverse(u: int, k: nat, bits: nat)
    requires
        k < bits,
        0 <= u < pow2(bits),
    ensures
        rotl_pattern(rotl_pattern(u, k, bits), ((bits - k) as nat) % bits, bits) == u,
{
    let m = pow2(bits) as int;
    lemma_pow2_pos(bits);
    if k == 0 {
        lemma_mod_self_0(bits as int);
        assert(pow2(0) == 1) by {
            lemma2_to64();
        }
        lemma_mul_basics(u);
        lemma_small_mod(u as nat, m as nat);
        lemma_basic_div(u, m);
        assert(rotl_pattern(u, 0, bits) == u);
    } else {
        let e = (bits - k) as nat;
        lemma_small_mod(e, bits);
        let pk = pow2(k) as int;
        let pe = pow2(e) as int;
        lemma_rotl_value(u, k, bits);
        let lo = u % pe;
        let hi = u / pe;
        let v = lo * pk + hi;
        lemma_pow2_adds(e, k);
        assert(0 <= lo * pk <= (pe - 1) * pk) by (nonlinear_arith)
            requires
                0 <= lo <= pe - 1,
                pk > 0,
        ;
        assert((pe - 1) * pk == m - pk) by (nonlinear_arith)
            requires
                m == pe * pk,
        ;
        lemma_rotl_value(v, e, bits);
        assert((bits - e) as nat == k);
        // v splits at bit k into lo (above) and hi (below)
        lemma_fundamental_div_mod_converse(v, pk, lo, hi);
        lemma_fundamental_div_mod(u, pe);
        lemma_mul_is_commutative(pe, hi);
    }
}

/// Rotating a value of a `bits`-bit type right by `k` places undoes a rotation left by `k`
/// places (`rotate_right(rotate_left(x, n), n) == x`).
pub proof fn law_rotate_right_undoes_left(x: int, signed: bool, bits: nat, k: nat)
    requires
        bits >= 1,
        k < bits,
        fits(x, signed, bits),
    ensures
        ({
            let m = pow2(bits) as int;
            let left = wrap(rotl_pattern(x % m, k, bits), signed, bits);
            wrap(rotl_pattern(left % m, ((bits - k) as nat) % bits, bits), signed, bits) == x
        }),
{
    let m = pow2(bits) as int;
    lemma_pow2_pos(bits);
    lemma_mod_bound(x, m);
    let u = x % m;
    let t = rotl_pattern(u, k, bits);
    if k == 0 {
        assert(pow2(0) == 1) by {
            lemma2_to64();
        }
        lemma_mul_basics(u);
        lemma_small_mod(u as nat, m as nat);
        lemma_basic_div(u, m);
    } else {
        lemma_rotl_value(u, k, bits);
        let e = (bits - k) as nat;
        let pk = pow2(k) as int;
        let pe = pow2(e) as int;
        lemma_pow2_adds(e, k);
        let lo = u % pe;
        let hi = u / pe;
        assert(0 <= lo * pk <= (pe - 1) * pk) by (nonlinear_arith)
            requires
                0 <= lo <= pe - 1,
                pk > 0,
        ;
        assert((pe - 1) * pk == m - pk) by (nonlinear_arith)
            requires
                m == pe * pk,
        ;
    }
    assert(0 <= t < m);
    lemma_wrap(t, signed, bits);
    lemma_small_mod(t as nat, m as nat);
    law_rotate_inverse(u, k, bits);
    lemma_wrap(x, signed, bits);
    lemma_mod_twice(x, m);
    crate::model::lemma_wrap_congruent(u, x, signed, bits);
}

/// The most significant digit of a little-endian digit string is worth `radix^(len - 1)`.
proof fn lemma_digits_value_last(s: Seq<u8>, radix: nat)
    requires
        s.len() >= 1,
    ensures
        digits_value(s, radix) == digits_value(s.drop_last(), radix) + s.last() * pow(radix as int, (s.len() - 1) as nat),
    decreases s.len(),
{
    reveal(pow);
    if s.len() == 1 {
        assert(s.skip(1) =~= Seq::<u8>::empty());
        assert(s.drop_last() =~= Seq::<u8>::empty());
        lemma_mul_basics(radix as int);
        assert(pow(radix as int, 0) == 1);
        lemma_mul_basics(s.last() as int);
    } else {
        let t = s.skip(1);
        lemma_digits_value_last(t, radix);
        assert(t.drop_last() =~= s.drop_last().skip(1));
        assert(t.last() == s.last());
        assert(s.drop_last()[0] == s[0]);
        let p = pow(radix as int, (t.len() - 1) as nat);
        assert(pow(radix as int, (s.len() - 1) as nat) == radix * p);
        assert(radix * (digits_value(t.drop_last(), radix) + s.last() * p) == radix * digits_value(t.drop_last(), radix) + s.last() * (radix * p)) by (nonlinear_arith);
    }
}

/// Reading the digit characters of little-endian digits `s`, most significant first, after a
/// prefix worth `acc`, gives `acc * radix^len + value`, as long as that stays within `limit`.
proof fn lemma_scan_digits(b: Seq<u8>, s: Seq<u8>, radix: nat, limit: nat, acc: nat)
    requires
        radix >= 2,
        b.len() == s.len(),
        forall|i: int| 0 <= i < b.len() ==> ascii_digit(#[trigger] b[i]) == s[s.len() - 1 - i],
        digits_below(s, radix),
        acc * pow(radix as int, s.len()) + digits_value(s, radix) <= limit,
    ensures
        scan_digits(b, radix, limit, acc) == Ok::<nat, crate::errors::IntErrorKind>(
            (acc * pow(radix as int, s.len()) + digits_value(s, radix)) as nat,
        ),
    decreases s.len(),
{
    reveal(pow);
    if s.len() == 0 {
        assert(pow(radix as int, 0) == 1);
        lemma_mul_basics(acc as int);
    } else {
        let n = s.len();
        let d = s.last();
        let t = s.drop_last();
        let acc2 = acc * radix + d;
        let p = pow(radix as int, (n - 1) as nat);
        lemma_digits_value_last(s, radix);
        lemma_pow_positive(radix as int, (n - 1) as nat);
        assert(ascii_digit(b[0]) == d);
        assert(d < radix);
        // the value read so far is within the limit
        assert(acc * pow(radix as int, n) == (acc * radix) * p) by (nonlinear_arith)
            requires
                pow(radix as int, n) == radix * p,
        ;
        assert(acc2 * p + digits_value(t, radix) == acc * pow(radix as int, n) + digits_value(s, radix)) by (nonlinear_arith)
            requires
                acc * pow(radix as int, n) == (acc * radix) * p,
                digits_value(s, radix) == digits_value(t, radix) + d * p,
                acc2 == acc * radix + d,
        ;
        assert(acc2 <= acc2 * p) by (nonlinear_arith)
            requires
                p >= 1,
                acc2 >= 0,
        ;
        assert(b.skip(1).len() == t.len());
        assert forall|i: int| 0 <= i < b.skip(1).len() implies ascii_digit(#[trigger] b.skip(1)[i]) == t[t.len() - 1 - i] by {
            assert(b.skip(1)[i] == b[i + 1]);
        }
        assert forall|i: int| 0 <= i < t.len() implies #[trigger] t[i] < radix by {
            assert(t[i] == s[i]);
        }
        lemma_scan_digits(b.skip(1), t, radix, limit, acc2 as nat);
    }
}

/// The character of a digit below 36 reads back as that digit.
proof fn lemma_digit_char_round_trip(d: u8)
    requires
        d < 36,
    ensures
        ascii_digit(digit_char(d) as u8) == d,
        digit_char(d) <= '\u{7f}',
        digit_char(d) as u8 != 43,
        digit_char(d) as u8 != 45,
{
}

/// Writing a value in a radix with `to_str_radix` and parsing the string with
/// `from_str_radix` gives the value back.
pub proof fn law_string_round_trip(v: int, signed: bool, bits: nat, radix: nat)
    requires
        bits >= 2,
        2 <= radix <= 36,
        fits(v, signed, bits),
    ensures
        parse_ascii(encode_utf8(radix_string(v, radix)), radix, signed, bits) == Ok::<int, crate::errors::IntErrorKind>(v),
{
    let a = abs_int(v) as nat;
    let ds = canonical_digits(a, radix);
    lemma_canonical_digits(a, radix);
    let digs = ds.reverse().map_values(|d: u8| digit_char(d));
    let prefix = if v < 0 { seq!['-'] } else { Seq::<char>::empty() };
    let cs = radix_string(v, radix);
    assert(cs == prefix + digs);
    let off: int = if v < 0 { 1 } else { 0 };
    assert forall|i: int| 0 <= i < digs.len() implies #[trigger] digs[i] == digit_char(ds[ds.len() - 1 - i]) by {}
    assert forall|i: int| 0 <= i < cs.len() implies '\0' <= #[trigger] cs[i] <= '\u{7f}' by {
        if i >= off {
            assert(cs[i] == digs[i - off]);
            lemma_digit_char_round_trip(ds[ds.len() - 1 - (i - off)]);
        }
    }
    assert(is_ascii_chars(cs));
    is_ascii_chars_encode_utf8(cs);
    let bytes = encode_utf8(cs);
    let b = if v < 0 { bytes.skip(1) } else { bytes };
    assert forall|i: int| 0 <= i < b.len() implies ascii_digit(#[trigger] b[i]) == ds[ds.len() - 1 - i] by {
        assert(b[i] == bytes[i + off]);
        assert(cs[i + off] == digs[i]);
        lemma_digit_char_round_trip(ds[ds.len() - 1 - i]);
    }
    assert(bytes.len() == cs.len());
    assert(bytes.len() >= 1);
    lemma_digit_char_round_trip(ds[ds.len() - 1]);
    assert(cs[off] == digs[0]);
    lemma_range_facts(signed, bits);
    lemma_pow2_half(bits);
    lemma_mul_basics(0);
    if v < 0 {
        assert(bytes[0] == 45);
        assert(signed);
        lemma_scan_digits(b, ds, radix, pow2((bits - 1) as nat), 0);
    } else {
        assert(bytes[0] == digs[0] as u8);
        assert(b == bytes);
        lemma_scan_digits(b, ds, radix, max_of(signed, bits) as nat, 0);
    }
}

/// With no carry in, `carrying_add` is `overflowing_add`; with no borrow in, `borrowing_sub` is
/// `overflowing_sub`: the wrapped results and the overflow flags agree.
pub proof fn law_carry_free_is_overflowing(a: int, b: int, signed: bool, bits: nat)
    ensures
        wrap(a + b + crate::raw::bit_value(false), signed, bits) == wrap(a + b, signed, bits),
        fits(a + b + crate::raw::bit_value(false), signed, bits) == fits(a + b, signed, bits),
        wrap(a - b - crate::raw::bit_value(false), signed, bits) == wrap(a - b, signed, bits),
        fits(a - b - crate::raw::bit_value(false), signed, bits) == fits(a - b, signed, bits),
{
}

/// The low (unsigned) and high halves of a full product put back together give the product:
/// `lo + hi * 2^BITS == a * b` for the results of `widening_mul`.
pub proof fn law_widening_mul_reassembles(a: int, b: int, bits: nat)
    ensures
        crate::integer::bigint_helpers::low_half(a * b, bits) + crate::integer::bigint_helpers::high_half(a * b, bits) * pow2(bits) == a * b,
        0 <= crate::integer::bigint_helpers::low_half(a * b, bits) < pow2(bits),
{
    crate::integer::bigint_helpers::lemma_halves(a * b, bits);
}

/// When a result is in range, the checked, wrapping, saturating and panicking variants of an
/// operation all give it.
pub proof fn law_in_range_results_agree(v: int, signed: bool, bits: nat)
    requires
        bits >= 1,
        fits(v, signed, bits),
    ensures
        wrap(v, signed, bits) == v,
        crate::model::saturate(v, signed, bits) == v,
{
    lemma_wrap(v, signed, bits);
}

/// Wrapping results are the true results modulo `2^bits`.
pub proof fn law_wrapping_is_modular(v: int, signed: bool, bits: nat)
    requires
        bits >= 1,
    ensures
        wrap(v, signed, bits) % (pow2(bits) as int) == v % (pow2(bits) as int),
        fits(wrap(v, signed, bits), signed, bits),
{
    lemma_wrap(v, signed, bits);
}

/// Casting a value to a type that holds it and back gives the value.
pub proof fn law_cast_round_trip(v: int, s1: bool, bits1: nat, s2: bool, bits2: nat)
    requires
        bits1 >= 1,
        bits2 >= 1,
        fits(v, s1, bits1),
        fits(v, s2, bits2),
    ensures
        wrap(wrap(v, s2, bits2), s1, bits1) == v,
{
    lemma_wrap(v, s2, bits2);
    lemma_wrap(v, s1, bits1);
}

/// The set and clear bits among the `bits` bits number `bits` together.
pub proof fn law_ones_and_zeros(v: int, bits: nat)
    ensures
        crate::integer::bitwise::ones_below(v, bits) + (bits - crate::integer::bitwise::ones_below(v, bits)) == bits,
        crate::integer::bitwise::ones_below(v, bits) <= bits,
{
    crate::integer::bitwise::lemma_ones_below_bound(v, bits);
}

/// Swapping the bytes twice gives the value back (`swap_bytes` is its own inverse).
pub proof fn law_swap_bytes_involution(v: int, signed: bool, n: nat)
    requires
        n >= 1,
        fits(v, signed, 8 * n),
    ensures
        ({
            let swapped = decode(le_value(le_bytes_of((v % (radix_pow(n) as int)) as nat, n).reverse()), signed, n);
            decode(le_value(le_bytes_of((swapped % (radix_pow(n) as int)) as nat, n).reverse()), signed, n) == v
        }),
{
    let r = radix_pow(n) as int;
    crate::digits::lemma_radix_pow_pos(n);
    let bs = le_bytes_of((v % r) as nat, n);
    let rev = bs.reverse();
    let u = le_value(rev);
    lemma_le_value_bound(rev);
    crate::model::lemma_decode_fits(u, signed, n);
    let swapped = decode(u, signed, n);
    // the bytes of the swapped value are the reversed bytes
    lemma_le_bytes_of_value(rev);
    assert(rev.len() == n);
    assert((swapped % r) as nat == u);
    assert(le_bytes_of(u, n) == rev);
    assert(rev.reverse() =~= bs);
    law_bytes_round_trip(v, signed, n);
}

/// When nothing overflows, the least common multiple of two nonzero values is a nonnegative
/// common multiple of both.
pub proof fn law_lcm_common_multiple<const S: bool, const N: usize, const B: usize, const OM: u8>(a: int, b: int)
    requires
        Integer::<S, N, B, OM>::valid_params(),
        Integer::<S, N, B, OM>::fits_spec(a),
        Integer::<S, N, B, OM>::fits_spec(b),
        a != 0,
        b != 0,
        Integer::<S, N, B, OM>::fits_spec(Integer::<S, N, B, OM>::lcm_product(a, b)),
        S ==> Integer::<S, N, B, OM>::fits_spec(abs_int(Integer::<S, N, B, OM>::lcm_product(a, b))),
    ensures
        Integer::<S, N, B, OM>::lcm_spec(a, b) >= 0,
        Integer::<S, N, B, OM>::lcm_spec(a, b) % abs_int(a) == 0,
        Integer::<S, N, B, OM>::lcm_spec(a, b) % abs_int(b) == 0,
        Integer::<S, N, B, OM>::lcm_spec(a, b) == abs_int(a) * (abs_int(b) / (gcd_nat(
            abs_int(a) as nat,
            abs_int(b) as nat,
        ) as int)),
{
    let bits = Integer::<S, N, B, OM>::spec_bits();
    let ua = abs_int(a) as nat;
    let ub = abs_int(b) as nat;
    let d = gcd_nat(ua, ub);
    lemma_range_facts(S, bits);
    lemma_pow2_half(bits);
    law_gcd_divides(ua, ub, 1);
    let x = ua as int;
    let y = ub as int;
    let g = d as int;
    lemma_fundamental_div_mod(x, g);
    lemma_fundamental_div_mod(y, g);
    let k = x / g;
    let m = y / g;
    assert(g <= x && g <= y) by (nonlinear_arith)
        requires
            x == g * k,
            y == g * m,
            x > 0,
            y > 0,
            g > 0,
    ;
    let h = pow2((bits - 1) as nat) as int;
    crate::model::lemma_wrap_small(g, S, bits);
    let p = Integer::<S, N, B, OM>::lcm_product(a, b);
    if S && g == h {
        // both are the minimum, and the magnitude of their product cannot fit
        assert(a == -h && b == -h);
        assert(crate::model::div_trunc(a, -h) == 1) by {
            lemma_div_basics(h);
        }
        assert(Integer::<S, N, B, OM>::wrap_spec(g) == -h);
        assert(p == 1 * b);
        assert(abs_int(p) == h);
        assert(false);
    }
    assert(Integer::<S, N, B, OM>::wrap_spec(g) == g);
    // the quotient is exact: a == q * g
    let q = crate::model::div_trunc(a, g);
    assert(x / g == k);
    assert(q * g == a) by (nonlinear_arith)
        requires
            q == (if a < 0 { -k } else { k }),
            x == g * k,
            x == (if a < 0 { -a } else { a }),
    ;
    let sb: int = if b < 0 { -m } else { m };
    assert(b == g * sb) by (nonlinear_arith)
        requires
            y == g * m,
            y == (if b < 0 { -b } else { b }),
            sb == (if b < 0 { -m } else { m }),
    ;
    assert(p == q * b);
    assert(p == a * sb) by (nonlinear_arith)
        requires
            p == q * b,
            q * g == a,
            b == g * sb,
    ;
    crate::model::lemma_wrap(p, S, bits);
    crate::model::lemma_wrap(abs_int(p), S, bits);
    let r = Integer::<S, N, B, OM>::lcm_spec(a, b);
    if S {
        assert(r == abs_int(p));
    } else {
        assert(r == p);
        assert(a > 0 && b > 0);
        lemma_div_pos_is_pos(x, g);
    }
    assert(r >= 0) by (nonlinear_arith)
        requires
            S ==> r == abs_int(p),
            !S ==> r == p && a > 0 && b > 0 && q == k && k >= 0,
            p == q * b,
            abs_int(p) == (if p < 0 { -p } else { p }),
    ;
    let t1: int = if (r == p) == (a >= 0) { sb } else { -sb };
    assert(r == x * t1) by (nonlinear_arith)
        requires
            r == p || r == -p,
            p == a * sb,
            x == (if a < 0 { -a } else { a }),
            t1 == (if (r == p) == (a >= 0) { sb } else { -sb }),
    ;
    let t2: int = if (r == p) == (b >= 0) { q } else { -q };
    assert(r == y * t2) by (nonlinear_arith)
        requires
            r == p || r == -p,
            p == q * b,
            y == (if b < 0 { -b } else { b }),
            t2 == (if (r == p) == (b >= 0) { q } else { -q }),
    ;
    lemma_mod_multiples_basic(t1, x);
    lemma_mod_multiples_basic(t2, y);
    assert(r == t1 * x) by (nonlinear_arith)
        requires
            r == x * t1,
    ;
    assert(r == t2 * y) by (nonlinear_arith)
        requires
            r == y * t2,
    ;
    lemma_div_pos_is_pos(y, g);
    assert(r == x * m) by (nonlinear_arith)
        requires
            r == x * t1,
            r >= 0,
            x > 0,
            m >= 0,
            t1 == sb || t1 == -sb,
            sb == m || sb == -m,
    ;
}

/// Bezout's identity: the gcd is an integer combination of the two numbers.
proof fn lemma_bezout(a: nat, b: nat) -> (r: (int, int))
    ensures
        gcd_nat(a, b) == a * r.0 + b * r.1,
    decreases b,
{
    if b == 0 {
        (1, 0)
    } else {
        lemma_mod_bound(a as int, b as int);
        let (s1, t1) = lemma_bezout(b, a % b);
        lemma_fundamental_div_mod(a as int, b as int);
        let q = (a / b) as int;
        let r0 = (a % b) as int;
        assert(b * s1 + r0 * t1 == a * t1 + b * (s1 - q * t1)) by (nonlinear_arith)
            requires
                a == b * q + r0,
        ;
        (t1, s1 - q * t1)
    }
}

/// The least common multiple divides every common multiple: when nothing overflows, a `c` that
/// both nonzero `a` and `b` divide is a multiple of their least common multiple.
pub proof fn law_lcm_least<const S: bool, const N: usize, const B: usize, const OM: u8>(a: int, b: int, c: int)
    requires
        Integer::<S, N, B, OM>::valid_params(),
        Integer::<S, N, B, OM>::fits_spec(a),
        Integer::<S, N, B, OM>::fits_spec(b),
        a != 0,
        b != 0,
        Integer::<S, N, B, OM>::fits_spec(Integer::<S, N, B, OM>::lcm_product(a, b)),
        S ==> Integer::<S, N, B, OM>::fits_spec(abs_int(Integer::<S, N, B, OM>::lcm_product(a, b))),
        c % abs_int(a) == 0,
        c % abs_int(b) == 0,
    ensures
        Integer::<S, N, B, OM>::lcm_spec(a, b) > 0,
        c % Integer::<S, N, B, OM>::lcm_spec(a, b) == 0,
{
    law_lcm_common_multiple::<S, N, B, OM>(a, b);
    let x = abs_int(a);
    let y = abs_int(b);
    let g = gcd_nat(x as nat, y as nat) as int;
    law_gcd_divides(x as nat, y as nat, 1);
    let (s, t) = lemma_bezout(x as nat, y as nat);
    lemma_fundamental_div_mod(x, g);
    lemma_fundamental_div_mod(y, g);
    let ka = x / g;
    let kb = y / g;
    let l = Integer::<S, N, B, OM>::lcm_spec(a, b);
    assert(l == x * kb);
    lemma_div_pos_is_pos(y, g);
    assert(kb > 0) by (nonlinear_arith)
        requires
            y == g * kb,
            y > 0,
            g > 0,
            kb >= 0,
    ;
    assert(l > 0) by (nonlinear_arith)
        requires
            l == x * kb,
            x > 0,
            kb > 0,
    ;
    // c == x * u == y * v
    lemma_fundamental_div_mod(c, x);
    lemma_fundamental_div_mod(c, y);
    let u = c / x;
    let v = c / y;
    // ka * u == kb * v, and ka * s + kb * t == 1
    assert(ka * u == kb * v && ka * s + kb * t == 1) by (nonlinear_arith)
        requires
            x == g * ka,
            y == g * kb,
            c == x * u,
            c == y * v,
            g == x * s + y * t,
            g > 0,
    ;
    // so kb divides u, and c == l * (v * s + u * t)
    let xu = x * u;
    // l * (v * s) == xu * (ka * s)
    lemma_mul_is_associative(x, kb, v * s);
    lemma_mul_is_associative(kb, v, s);
    lemma_mul_is_associative(ka, u, s);
    lemma_mul_is_commutative(ka, u);
    lemma_mul_is_associative(u, ka, s);
    lemma_mul_is_associative(x, u, ka * s);
    assert(l * (v * s) == xu * (ka * s));
    // l * (u * t) == xu * (kb * t)
    lemma_mul_is_associative(x, kb, u * t);
    lemma_mul_is_associative(kb, u, t);
    lemma_mul_is_commutative(kb, u);
    lemma_mul_is_associative(u, kb, t);
    lemma_mul_is_associative(x, u, kb * t);
    assert(l * (u * t) == xu * (kb * t));
    lemma_mul_is_distributive_add(l, v * s, u * t);
    lemma_mul_is_distributive_add(xu, ka * s, kb * t);
    assert(c == l * (v * s + u * t));
    lemma_mod_multiples_basic(v * s + u * t, l);
    assert(c == (v * s + u * t) * l) by (nonlinear_arith)
        requires
            c == l * (v * s + u * t),
    ;
}

/// The bit-reversed value of the low `k` bits is below `2^k`.
proof fn lemma_reversed_bound(v: int, k: nat)
    ensures
        0 <= reversed_bits(v, k) < pow2(k),
    decreases k,
{
    if k > 0 {
        lemma_reversed_bound(v, (k - 1) as nat);
        lemma_pow2_unfold(k);
    } else {
        lemma2_to64();
    }
}

/// Bit `j` of `2 * r + b` (for a bit `b`) is bit `j - 1` of `r`, and bit 0 is `b`.
proof fn lemma_bit_of_double(r: int, b: int, j: nat)
    requires
        r >= 0,
        0 <= b <= 1,
    ensures
        j == 0 ==> (bit_of(2 * r + b, j) <==> b == 1),
        j > 0 ==> (bit_of(2 * r + b, j) <==> bit_of(r, (j - 1) as nat)),
{
    let x = 2 * r + b;
    lemma2_to64();
    if j == 0 {
        assert(x / 1 == x);
        lemma_mod_multiples_vanish(r, b, 2);
        lemma_small_mod(b as nat, 2);
        lemma_mul_is_commutative(r, 2);
    } else {
        let p = pow2((j - 1) as nat) as int;
        lemma_pow2_unfold(j);
        lemma_pow2_pos((j - 1) as nat);
        lemma_div_denominator(x, 2, p);
        lemma_fundamental_div_mod_converse_div(x, 2, r, b);
        lemma_mul_is_commutative(2, p);
    }
}

/// Bit `j` of the reversal of the low `k` bits is bit `k - 1 - j` of the value.
proof fn lemma_reversed_bit(v: int, k: nat, j: nat)
    requires
        j < k,
    ensures
        bit_of(reversed_bits(v, k), j) == bit_of(v, (k - 1 - j) as nat),
    decreases k,
{
    let r = reversed_bits(v, (k - 1) as nat);
    let b: int = if bit_of(v, (k - 1) as nat) { 1 } else { 0 };
    lemma_reversed_bound(v, (k - 1) as nat);
    lemma_bit_of_double(r, b, j);
    if j > 0 {
        lemma_reversed_bit(v, (k - 1) as nat, (j - 1) as nat);
    }
}

/// Values in `[0, 2^k)` with the same low `k` bits are equal.
proof fn lemma_bits_determine(x: int, y: int, k: nat)
    requires
        0 <= x < pow2(k),
        0 <= y < pow2(k),
        forall|j: nat| j < k ==> bit_of(x, j) == bit_of(y, j),
    ensures
        x == y,
    decreases k,
{
    lemma2_to64();
    if k == 0 {
    } else {
        lemma_pow2_unfold(k);
        let hx = x / 2;
        let hy = y / 2;
        lemma_fundamental_div_mod(x, 2);
        lemma_fundamental_div_mod(y, 2);
        lemma_mod_bound(x, 2);
        lemma_mod_bound(y, 2);
        assert forall|j: nat| j < (k - 1) as nat implies bit_of(hx, j) == bit_of(hy, j) by {
            lemma_bit_of_double(hx, x % 2, j + 1);
            lemma_bit_of_double(hy, y % 2, j + 1);
            assert(bit_of(x, j + 1) == bit_of(y, j + 1));
        }
        lemma_bit_of_double(hx, x % 2, 0);
        lemma_bit_of_double(hy, y % 2, 0);
        assert(bit_of(x, 0) == bit_of(y, 0));
        lemma_div_pos_is_pos(x, 2);
        lemma_div_pos_is_pos(y, 2);
        lemma_bits_determine(hx, hy, (k - 1) as nat);
    }
}

/// Reversals of values with the same low `k` bits are equal.
proof fn lemma_reversed_same_bits(x: int, y: int, k: nat)
    requires
        forall|j: nat| j < k ==> bit_of(x, j) == bit_of(y, j),
    ensures
        reversed_bits(x, k) == reversed_bits(y, k),
    decreases k,
{
    if k > 0 {
        lemma_reversed_same_bits(x, y, (k - 1) as nat);
        assert(bit_of(x, (k - 1) as nat) == bit_of(y, (k - 1) as nat));
    }
}

/// Reversing the bits twice gives the value back (`reverse_bits` is its own inverse).
pub proof fn law_reverse_bits_involution(v: int, signed: bool, bits: nat)
    requires
        bits >= 1,
        fits(v, signed, bits),
    ensures
        wrap(reversed_bits(wrap(reversed_bits(v, bits), signed, bits), bits), signed, bits) == v,
{
    let m = pow2(bits) as int;
    lemma_pow2_pos(bits);
    let u = v % m;
    lemma_mod_bound(v, m);
    lemma_mod_twice(v, m);
    let r1 = reversed_bits(v, bits);
    let r = wrap(r1, signed, bits);
    lemma_wrap(r1, signed, bits);
    let r2 = reversed_bits(r, bits);
    // the second reversal reads the same bits as the first one produced
    assert forall|j: nat| j < bits implies bit_of(r, j) == bit_of(r1, j) by {
        crate::integer::bitwise::lemma_bit_congruent(r, r1, j, bits);
    }
    lemma_reversed_same_bits(r, r1, bits);
    // so its bits are those of v, which are those of u
    assert forall|j: nat| j < bits implies bit_of(r2, j) == bit_of(u, j) by {
        lemma_reversed_bit(r1, bits, j);
        lemma_reversed_bit(v, bits, (bits - 1 - j) as nat);
        crate::integer::bitwise::lemma_bit_congruent(u, v, j, bits);
    }
    lemma_reversed_bound(r, bits);
    lemma_bits_determine(r2, u, bits);
    crate::model::lemma_wrap_congruent(u, v, signed, bits);
    lemma_wrap(v, signed, bits);
}

/// A value below `2^w` whose bits from `k` to `w - 1` are clear is below `2^k`.
proof fn lemma_clear_top_bits(u: int, k: nat, w: nat)
    requires
        k <= w,
        0 <= u < pow2(w),
        forall|i: nat| k <= i < w ==> !#[trigger] bit_of(u, i),
    ensures
        u < pow2(k),
    decreases w - k,
{
    if k < w {
        let t = (w - 1) as nat;
        lemma_pow2_unfold(w);
        lemma_pow2_pos(t);
        assert(!bit_of(u, t));
        if u >= pow2(t) {
            let p = pow2(t) as int;
            lemma_fundamental_div_mod(u, p);
            lemma_mod_bound(u, p);
            assert(u / p == 1) by (nonlinear_arith)
                requires
                    u == p * (u / p) + u % p,
                    0 <= u % p < p,
                    p <= u < 2 * p,
            ;
            lemma2_to64();
        }
        lemma_clear_top_bits(u, k, t);
    }
}

/// A value with bit `k` set is at least `2^k`.
proof fn lemma_set_bit_lower_bound(u: int, k: nat)
    requires
        u >= 0,
        bit_of(u, k),
    ensures
        u >= pow2(k),
{
    let p = pow2(k) as int;
    lemma_pow2_pos(k);
    lemma_fundamental_div_mod(u, p);
    lemma_mod_bound(u, p);
    lemma_div_pos_is_pos(u, p);
    if u < p {
        lemma_basic_div(u, p);
        lemma2_to64();
    }
}

/// The number of bits needed to write an unsigned value is the width minus its leading zeros
/// (`bits() == BITS - leading_zeros()`), for any results that meet the two contracts.
pub proof fn law_bits_is_width_minus_leading_zeros(u: int, w: nat, len: nat, lz: nat)
    requires
        0 <= u < pow2(w),
        len <= w,
        u < pow2(len),
        len > 0 ==> u >= pow2((len - 1) as nat),
        lz <= w,
        forall|i: nat| w - lz <= i < w ==> !#[trigger] bit_of(u, i),
        lz < w ==> bit_of(u, (w - 1 - lz) as nat),
    ensures
        len == w - lz,
{
    let k = (w - lz) as nat;
    lemma_clear_top_bits(u, k, w);
    if k > 0 {
        lemma_set_bit_lower_bound(u, (k - 1) as nat);
    }
    assert(u < pow2(k));
    assert(k > 0 ==> u >= pow2((k - 1) as nat));
    if len < k {
        if len < (k - 1) as nat {
            lemma_pow2_strictly_increases(len, (k - 1) as nat);
        }
        assert(false);
    } else if len > k {
        if len - 1 > k {
            lemma_pow2_strictly_increases(k, (len - 1) as nat);
        }
        assert(false);
    }
}

/// Appending `k` copies of the byte `0` or `255` (`ones`) to a little-endian sequence adds
/// nothing, or the weight of all the new bytes: `256^(n + k) - 256^n`.
proof fn lemma_le_value_padded(s: Seq<u8>, ones: bool, k: nat)
    ensures
        le_value(s + Seq::new(k, |i: int| if ones { 255u8 } else { 0u8 })) == le_value(s) + (if ones {
            radix_pow(s.len() + k) - radix_pow(s.len())
        } else {
            0
        }),
    decreases k,
{
    let pad = Seq::new(k, |i: int| if ones { 255u8 } else { 0u8 });
    if k == 0 {
        assert(s + pad =~= s);
    } else {
        let k1 = (k - 1) as nat;
        let pad1 = Seq::new(k1, |i: int| if ones { 255u8 } else { 0u8 });
        lemma_le_value_padded(s, ones, k1);
        let t = s + pad;
        assert(t.drop_last() =~= s + pad1);
        crate::digits::lemma_radix_pow_succ(s.len() + k1);
        assert(t.len() - 1 == s.len() + k1);
        assert(t.last() == (if ones { 255u8 } else { 0u8 }));
        assert(le_value(t) == le_value(s + pad1) + (t.last() as nat) * radix_pow(s.len() + k1));
    }
}

/// Reading a value's bytes with extra sign bytes after them (`255` for a negative value, `0`
/// otherwise) gives the value back: `from_le_slice` of the padded `to_le_bytes`, and
/// `from_be_slice` of the padded `to_be_bytes` (sign bytes in front), return the value.
pub proof fn law_padded_slice_round_trip(v: int, signed: bool, n: nat, k: nat)
    requires
        n >= 1,
        fits(v, signed, 8 * n),
    ensures
        ({
            let le = le_bytes_of((v % (radix_pow(n) as int)) as nat, n);
            let pad = Seq::new(k, |i: int| if v < 0 { 255u8 } else { 0u8 });
            &&& crate::integer::bytes::slice_value(le + pad, signed) == v
            &&& crate::integer::bytes::slice_value((pad + le.reverse()).reverse(), signed) == v
        }),
{
    let r = radix_pow(n) as int;
    crate::digits::lemma_radix_pow_pos(n);
    let u = (v % r) as nat;
    let le = le_bytes_of(u, n);
    let pad = Seq::new(k, |i: int| if v < 0 { 255u8 } else { 0u8 });
    law_bytes_round_trip(v, signed, n);
    lemma_le_bytes_value(u, n);
    lemma_mod_bound(v, r);
    lemma_small_mod(u, radix_pow(n));
    assert(le_value(le) == u);
    lemma_le_value_padded(le, v < 0, k);
    let w = le + pad;
    assert(w.len() == n + k);
    lemma_range_facts(signed, 8 * n);
    lemma_pow2_half(8 * n);
    lemma_pow2_half(8 * (n + k));
    crate::digits::lemma_radix_pow_mono(n, n + k);
    if v >= 0 {
        lemma_small_mod(v as nat, r as nat);
        assert(le_value(w) == v);
        if signed && k > 0 {
            lemma_pow2_strictly_increases((8 * n - 1) as nat, (8 * (n + k) - 1) as nat);
        }
    } else {
        // v is negative, so the type is signed and the bytes hold v + 256^n
        lemma_mod_add_multiples_vanish(v, r);
        lemma_small_mod((v + r) as nat, r as nat);
        assert(u == v + r);
        assert(le_value(w) == v + radix_pow(n + k));
    }
    // the big-endian sequence with its sign bytes in front, reversed, is the same padded sequence
    assert((pad + le.reverse()).reverse() =~= w);
}

/// `from_literal_str` returns exactly what `from_literal_str_checked` returns as `Ok`: for any
/// results that meet the two contracts, the unchecked call can be made exactly when the checked
/// one succeeds (otherwise the unchecked form panics, which its `requires` leaves out), and then
/// it gives the same value.
pub proof fn law_literal_unchecked_is_checked<const S: bool, const N: usize, const B: usize, const OM: u8>(
    negative: bool,
    radix: nat,
    ds: Seq<u8>,
    checked: Result<Integer<S, N, B, OM>, ParseIntLiteralError>,
    unchecked: Integer<S, N, B, OM>,
)
    requires
        match checked {
            Ok(x) => literal_result(negative, radix, ds, S, Integer::<S, N, B, OM>::spec_bits()) == Ok::<
                int,
                ParseIntLiteralError,
            >(x@),
            Err(e) => literal_result(negative, radix, ds, S, Integer::<S, N, B, OM>::spec_bits()) == Err::<
                int,
                ParseIntLiteralError,
            >(e),
        },
    ensures
        (literal_result(negative, radix, ds, S, Integer::<S, N, B, OM>::spec_bits()) is Ok) == (checked is Ok),
        checked is Ok ==> (literal_result(negative, radix, ds, S, Integer::<S, N, B, OM>::spec_bits()) == Ok::<
            int,
            ParseIntLiteralError,
        >(unchecked@) <==> checked->Ok_0@ == unchecked@),
{
}

/// The digits of `ds`, most significant first, read onto `acc`.
pub open spec fn read_digits(ds: Seq<u8>, radix: nat, acc: nat) -> nat
    decreases ds.len(),
{
    if ds.len() == 0 {
        acc
    } else {
        read_digits(ds.skip(1), radix, acc * radix + ascii_digit(ds[0]))
    }
}

/// The position of the first byte of `ds` that is not a digit of `radix` (`ds.len()` if all are).
pub open spec fn first_non_digit(ds: Seq<u8>, radix: nat) -> nat
    decreases ds.len(),
{
    if ds.len() == 0 {
        0
    } else if ascii_digit(ds[0]) >= radix {
        0
    } else {
        1 + first_non_digit(ds.skip(1), radix)
    }
}

/// The first non-digit lies within the input, or just past its end.
proof fn lemma_first_non_digit_bound(ds: Seq<u8>, radix: nat)
    ensures
        first_non_digit(ds, radix) <= ds.len(),
    decreases ds.len(),
{
    if ds.len() > 0 {
        lemma_first_non_digit_bound(ds.skip(1), radix);
    }
}

/// Reading more digits never lowers the value.
proof fn lemma_read_digits_grows(ds: Seq<u8>, radix: nat, acc: nat)
    requires
        radix >= 1,
    ensures
        read_digits(ds, radix, acc) >= acc,
    decreases ds.len(),
{
    if ds.len() > 0 {
        let next = acc * radix + ascii_digit(ds[0]);
        assert(next >= acc) by (nonlinear_arith)
            requires
                radix >= 1,
                next == acc * radix + ascii_digit(ds[0]),
        ;
        lemma_read_digits_grows(ds.skip(1), radix, next);
    }
}

/// The digit scan fails at the first failure: with `j` the first non-digit and `p` the value of
/// the digits before it, the scan overflows when `p` exceeds the limit, meets an invalid digit
/// when `j` is inside the input, and gives `p` otherwise.
proof fn lemma_scan_first_failure(ds: Seq<u8>, radix: nat, limit: nat, acc: nat)
    requires
        radix >= 2,
        acc <= limit,
    ensures
        ({
            let j = first_non_digit(ds, radix);
            let p = read_digits(ds.take(j as int), radix, acc);
            scan_digits(ds, radix, limit, acc) == (if p > limit {
                Err::<nat, IntErrorKind>(IntErrorKind::PosOverflow)
            } else if j < ds.len() {
                Err(IntErrorKind::InvalidDigit)
            } else {
                Ok(p)
            })
        }),
    decreases ds.len(),
{
    let j = first_non_digit(ds, radix);
    if ds.len() == 0 {
        assert(ds.take(0) =~= Seq::<u8>::empty());
    } else if ascii_digit(ds[0]) >= radix {
        assert(ds.take(0) =~= Seq::<u8>::empty());
    } else {
        let next = acc * radix + ascii_digit(ds[0]);
        let rest = ds.skip(1);
        lemma_first_non_digit_bound(rest, radix);
        assert(j == 1 + first_non_digit(rest, radix));
        assert(ds.take(j as int).skip(1) =~= rest.take((j - 1) as int));
        assert(ds.take(j as int)[0] == ds[0]);
        if next > limit {
            lemma_read_digits_grows(rest.take((j - 1) as int), radix, next);
        } else {
            lemma_scan_first_failure(rest, radix, limit, next);
        }
    }
}

/// Parsing follows the rule of the primitive integers' `from_str_radix`: after an optional
/// sign (`+`, or `-` for a signed type), the digits are read from the most significant, and the
/// first failure decides. With `j` the position of the first byte that is not a digit and `p`
/// the value of the digits before it, the result is an overflow (negative for a `-` sign) when
/// `p` is beyond the type's range, `InvalidDigit` when there is such a byte, and `±p` otherwise.
/// An empty input is `Empty`, and a lone sign is `InvalidDigit`.
pub proof fn law_parse_first_failure(src: Seq<u8>, radix: nat, signed: bool, bits: nat)
    requires
        2 <= radix <= 36,
        bits >= 2,
    ensures
        src.len() == 0 ==> parse_ascii(src, radix, signed, bits) == Err::<int, IntErrorKind>(IntErrorKind::Empty),
        src.len() == 1 && (src[0] == 43 || src[0] == 45) ==> parse_ascii(src, radix, signed, bits) == Err::<
            int,
            IntErrorKind,
        >(IntErrorKind::InvalidDigit),
        src.len() > 0 && !(src.len() == 1 && (src[0] == 43 || src[0] == 45)) ==> ({
            let neg = signed && src[0] == 45;
            let ds = if neg || src[0] == 43 { src.skip(1) } else { src };
            let j = first_non_digit(ds, radix);
            let p = read_digits(ds.take(j as int), radix, 0);
            let v = if neg { -p } else { p as int };
            parse_ascii(src, radix, signed, bits) == (if !fits(v, signed, bits) {
                Err::<int, IntErrorKind>(if neg { IntErrorKind::NegOverflow } else { IntErrorKind::PosOverflow })
            } else if j < ds.len() {
                Err(IntErrorKind::InvalidDigit)
            } else {
                Ok(v)
            })
        }),
{
    if src.len() > 0 && !(src.len() == 1 && (src[0] == 43 || src[0] == 45)) {
        let neg = signed && src[0] == 45;
        let ds = if neg || src[0] == 43 { src.skip(1) } else { src };
        let limit = if neg { pow2((bits - 1) as nat) } else { max_of(signed, bits) as nat };
        lemma_range_facts(signed, bits);
        lemma_pow2_half(bits);
        lemma_scan_first_failure(ds, radix, limit, 0);
    }
}

/// An operator under the type's overflow mode gives the wrapping result in the wrapping mode,
/// the saturating result in the saturating mode, and in the panicking mode the checked result
/// (the true value) whenever that is representable. The operator forms (`add`, `sub`, `mul`,
/// `div`, `pow`, `neg`, `abs`, ...) state their results as `by_mode` of the true value, and the
/// wrapping, saturating and checked forms as `wrap_spec`, `saturate_spec` and the value itself.
pub proof fn law_operators_follow_mode<const S: bool, const N: usize, const B: usize, const OM: u8>(v: int)
    requires
        Integer::<S, N, B, OM>::valid_params(),
    ensures
        OM == 0 ==> Integer::<S, N, B, OM>::by_mode(v) == Integer::<S, N, B, OM>::wrap_spec(v),
        OM == 1 && Integer::<S, N, B, OM>::fits_spec(v) ==> Integer::<S, N, B, OM>::by_mode(v) == v,
        OM == 2 ==> Integer::<S, N, B, OM>::by_mode(v) == Integer::<S, N, B, OM>::saturate_spec(v),
        Integer::<S, N, B, OM>::fits_spec(v) ==> Integer::<S, N, B, OM>::by_mode(v) == v,
{
    let bits = Integer::<S, N, B, OM>::spec_bits();
    lemma_wrap(v, S, bits);
}

/// The ASCII byte `c` with an uppercase letter turned into its lowercase form.
pub open spec fn to_lower_ascii(c: u8) -> u8 {
    if 65 <= c <= 90 {
        (c + 32) as u8
    } else {
        c
    }
}

/// The digit value that a byte denotes in radices up to 36: `0`-`9` are 0 to 9, and the letters
/// `a`-`z` and `A`-`Z` are 10 to 35, whatever their case; any other byte denotes no digit.
pub open spec fn denoted_digit(c: u8) -> Option<nat> {
    if 48 <= c <= 57 {
        Some((c - 48) as nat)
    } else if 97 <= c <= 122 {
        Some((c - 87) as nat)
    } else if 65 <= c <= 90 {
        Some((c - 55) as nat)
    } else {
        None
    }
}

/// Turning uppercase letters into lowercase does not change the digit scan.
proof fn lemma_scan_case_blind(ds: Seq<u8>, radix: nat, limit: nat, acc: nat)
    ensures
        scan_digits(ds, radix, limit, acc) == scan_digits(ds.map_values(|c: u8| to_lower_ascii(c)), radix, limit, acc),
    decreases ds.len(),
{
    let lo = ds.map_values(|c: u8| to_lower_ascii(c));
    if ds.len() > 0 {
        assert(lo[0] == to_lower_ascii(ds[0]));
        assert(ascii_digit(lo[0]) == ascii_digit(ds[0]));
        assert(lo.skip(1) =~= ds.skip(1).map_values(|c: u8| to_lower_ascii(c)));
        lemma_scan_case_blind(ds.skip(1), radix, limit, acc * radix + ascii_digit(ds[0]));
    }
}

/// Digits are read whatever their case: parsing a string gives the same result as parsing it
/// with every uppercase letter turned into lowercase (`"FF"` reads as `"ff"`, `"Z"` as `"z"`).
pub proof fn law_parse_case_blind(src: Seq<u8>, radix: nat, signed: bool, bits: nat)
    ensures
        parse_ascii(src, radix, signed, bits) == parse_ascii(src.map_values(|c: u8| to_lower_ascii(c)), radix, signed, bits),
{
    let lo = src.map_values(|c: u8| to_lower_ascii(c));
    if src.len() > 0 {
        assert(lo[0] == to_lower_ascii(src[0]));
        let neg = signed && src[0] == 45;
        let ds = if neg || src[0] == 43 { src.skip(1) } else { src };
        let dl = if neg || src[0] == 43 { lo.skip(1) } else { lo };
        assert(dl =~= ds.map_values(|c: u8| to_lower_ascii(c)));
        let limit = if neg { pow2((bits - 1) as nat) } else { max_of(signed, bits) as nat };
        lemma_scan_case_blind(ds, radix, limit, 0);
    }
}

/// A single character parses as the digit it denotes: `0`-`9`, `a`-`z` and `A`-`Z` give 0 to
/// 35 (so `"Z"` in radix 36 is 35). A digit below the radix gives its value when that fits the
/// type and a positive overflow otherwise; any other character, or a digit not below the
/// radix, is an invalid digit.
pub proof fn law_parse_single_digit(c: u8, radix: nat, signed: bool, bits: nat)
    requires
        2 <= radix <= 36,
        bits >= 2,
        c != 43 && c != 45,
    ensures
        parse_ascii(seq![c], radix, signed, bits) == (match denoted_digit(c) {
            Some(d) => if d >= radix {
                Err::<int, IntErrorKind>(IntErrorKind::InvalidDigit)
            } else if fits(d as int, signed, bits) {
                Ok(d as int)
            } else {
                Err(IntErrorKind::PosOverflow)
            },
            None => Err(IntErrorKind::InvalidDigit),
        }),
{
    lemma_range_facts(signed, bits);
    lemma_pow2_half(bits);
    let ds = seq![c];
    assert(ds[0] == c);
    assert(ds.skip(1) =~= Seq::<u8>::empty());
    let limit = max_of(signed, bits) as nat;
    let d = ascii_digit(c);
    assert(scan_digits(ds.skip(1), radix, limit, 0 * radix + d) == Ok::<nat, IntErrorKind>(0 * radix + d));
    assert(0 * radix + d == d);
    assert(denoted_digit(c) is Some ==> denoted_digit(c)->0 == d);
    assert(denoted_digit(c) is None ==> d >= radix);
}

/// The bytes that can stand in the digits of a literal in the given radix: decimal digits and
/// `_`, and for radix 16 also `a`-`f` and `A`-`F`.
pub open spec fn literal_digit_byte(c: u8, radix: u32) -> bool {
    (48 <= c && c <= 57) || c == 95 || (radix == 16 && ((97 <= c && c <= 102) || (65 <= c && c <= 70)))
}

/// The digit run of a literal ends at the first byte that cannot stand in it.
proof fn lemma_digit_run_end(b: Seq<u8>, i: int, j: int, radix: u32)
    requires
        0 <= i <= j <= b.len(),
        forall|k: int| i <= k < j ==> literal_digit_byte(#[trigger] b[k], radix),
        j == b.len() || !literal_digit_byte(b[j], radix),
    ensures
        crate::literal_parse::literal_digits_end(b, i, radix) == j,
    decreases j - i,
{
    if i < j {
        lemma_digit_run_end(b, i + 1, j, radix);
    }
}

/// How a literal splits: with an optional `-`, then the prefix of its radix (`0b`, `0o`, `0x`,
/// or none for 10, where what follows must then not itself start with such a prefix or a `-`),
/// the digits `d` are every following byte up to the first that cannot stand in
/// the digits of that radix, and the rest `t` is the type descriptor. For
/// `"0xffU256"` the digits are `"ff"` and the descriptor is `"U256"`.
pub proof fn law_literal_split(negative: bool, radix: u32, d: Seq<u8>, t: Seq<u8>)
    requires
        radix == 2 || radix == 8 || radix == 10 || radix == 16,
        forall|k: int| 0 <= k < d.len() ==> literal_digit_byte(#[trigger] d[k], radix),
        t.len() == 0 || !literal_digit_byte(t[0], radix),
        radix == 10 ==> !((d + t).len() >= 2 && (d + t)[0] == 48 && ((d + t)[1] == 98 || (d + t)[1] == 111 || (d + t)[1] == 120)),
        radix == 10 && !negative ==> (d + t).len() == 0 || (d + t)[0] != 45,
    ensures
        ({
            let sign = if negative { seq![45u8] } else { Seq::<u8>::empty() };
            let prefix = if radix == 2 {
                seq![48u8, 98u8]
            } else if radix == 8 {
                seq![48u8, 111u8]
            } else if radix == 16 {
                seq![48u8, 120u8]
            } else {
                Seq::<u8>::empty()
            };
            let b = sign + prefix + d + t;
            let (neg, r, start, end) = crate::literal_parse::literal_parts(b);
            &&& neg == negative
            &&& r == radix
            &&& b.subrange(start, end) == d
            &&& b.subrange(end, b.len() as int) == t
        }),
{
    let sign = if negative { seq![45u8] } else { Seq::<u8>::empty() };
    let prefix = if radix == 2 {
        seq![48u8, 98u8]
    } else if radix == 8 {
        seq![48u8, 111u8]
    } else if radix == 16 {
        seq![48u8, 120u8]
    } else {
        Seq::<u8>::empty()
    };
    let b = sign + prefix + d + t;
    let st: int = (sign.len() + prefix.len()) as int;
    let sl: int = sign.len() as int;
    assert(b.len() == sl + prefix.len() + d.len() + t.len());
    if negative {
        assert(b[0] == 45);
    } else if b.len() > 0 {
        assert(b[0] == (prefix + d + t)[0]);
        if radix == 10 {
            assert(b[0] == (d + t)[0]);
        }
    }
    if radix != 10 {
        assert(b[sl] == 48);
        assert(b[sl + 1] == prefix[1]);
    }
    let dl: int = d.len() as int;
    assert forall|k: int| st <= k < st + dl implies literal_digit_byte(#[trigger] b[k], radix) by {
        assert(b[k] == d[k - st]);
    }
    if t.len() > 0 {
        assert(b[st + dl] == t[0]);
    }
    if radix == 10 && (d + t).len() >= 2 {
        assert(b[sign.len() as int] == (d + t)[0]);
        assert(b[sign.len() as int + 1] == (d + t)[1]);
    }
    lemma_digit_run_end(b, st, st + dl, radix);
    let (neg, r, start, end) = crate::literal_parse::literal_parts(b);
    assert(neg == negative);
    assert(r == radix);
    assert(start == st);
    assert(end == st + dl);
    assert(b.subrange(st, st + dl) =~= d);
    assert(b.subrange(st + dl, b.len() as int) =~= t);
}

/// A well-formed type descriptor — `I` or `U`, a decimal bit width from 2 to `u32::MAX`, and
/// optionally `w`, `p` or `s` — describes a signed type exactly when it starts with `I`, that bit
/// width, and the overflow mode of its last letter (panicking when there is none).
pub proof fn law_type_descriptor(c: u8, ds: Seq<u8>, m: Seq<u8>)
    requires
        c == 73 || c == 85,
        ds.len() >= 1,
        forall|k: int| 0 <= k < ds.len() ==> 48 <= #[trigger] ds[k] <= 57,
        2 <= crate::literal_parse::decimal_value(ds) < 0x1_0000_0000,
        m.len() == 0 || m == seq![119u8] || m == seq![112u8] || m == seq![115u8],
    ensures
        crate::literal_parse::integer_params(seq![c] + ds + m) == Ok::<(bool, nat, u8), (crate::literal_parse::TypeDescriptorError, int, int)>((
            c == 73,
            crate::literal_parse::decimal_value(ds),
            if m == seq![119u8] {
                0u8
            } else if m == seq![115u8] {
                2u8
            } else {
                1u8
            },
        )),
{
    let b = seq![c] + ds + m;
    assert(b[0] == c);
    assert(b[1] == ds[0]);
    assert(crate::literal_parse::first_digit_from(b, 1) == 1);
    assert(crate::literal_parse::first_digit_from(b, 0) == 1);
    let e: int = (1 + ds.len()) as int;
    lemma_decimal_run(b, 1, e);
    assert(b.subrange(1, e) =~= ds);
    if m.len() > 0 {
        assert(b[e] == m[0]);
    }
}

/// The run of decimal digits from `i` ends at `j` when the bytes from `i` to `j` are digits and
/// the byte at `j` is not.
proof fn lemma_decimal_run(b: Seq<u8>, i: int, j: int)
    requires
        0 <= i <= j <= b.len(),
        forall|k: int| i <= k < j ==> 48 <= #[trigger] b[k] <= 57,
        j == b.len() || !(48 <= b[j] <= 57),
    ensures
        crate::literal_parse::digit_run_end(b, i) == j,
    decreases j - i,
{
    if i < j {
        lemma_decimal_run(b, i + 1, j);
    }
}

/// The rejection threshold of uniform sampling is `2^zb` modulo the count: the least number of
/// draws that can be rejected so that the rest split evenly.
pub proof fn law_threshold_is_remainder(count: int, zb: nat)
    requires
        count > 0,
    ensures
        crate::random::threshold(count, zb) == (pow2(zb) as int) % count,
        (pow2(zb) - crate::random::threshold(count, zb)) % count == 0,
{
    lemma_pow2_pos(zb);
    lemma_mod_sub_multiples_vanish(pow2(zb) as int, count);
    lemma_fundamental_div_mod(pow2(zb) as int, count);
    lemma_mod_multiples_basic(pow2(zb) as int / count, count);
    lemma_mul_is_commutative(pow2(zb) as int / count, count);
}

/// Uniform sampling gives every value of the range the same number of draws: for a count `c`,
/// draws `v` of `zb` bits, and every offset `h` below `c`, the draws that a sampling step accepts
/// with result `low + h` (the low half of `v * c` at least the threshold and the high half equal
/// to `h`) are exactly the `2^zb / c` consecutive draws from `start`, all of them below `2^zb`.
pub proof fn law_sampling_is_uniform(c: int, zb: nat, h: int, v: int)
    requires
        c > 0,
        0 <= h < c,
        0 <= v < pow2(zb),
    ensures
        ({
            let m = pow2(zb) as int;
            let t = crate::random::threshold(c, zb);
            let start = (h * m + t + c - 1) / c;
            &&& 0 <= start
            &&& start + m / c <= m
            &&& (crate::integer::bigint_helpers::low_half(v * c, zb) >= t
                && crate::integer::bigint_helpers::high_half(v * c, zb) == h) <==> (start <= v < start + m / c)
        }),
{
    let m = pow2(zb) as int;
    lemma_pow2_pos(zb);
    law_threshold_is_remainder(c, zb);
    let t = crate::random::threshold(c, zb);
    let q = m / c;
    lemma_fundamental_div_mod(m, c);
    lemma_mod_bound(m, c);
    lemma_div_pos_is_pos(m, c);
    assert(m == c * q + t);
    let x = v * c;
    assert(x >= 0) by (nonlinear_arith)
        requires
            v >= 0,
            c > 0,
            x == v * c,
    ;
    lemma_fundamental_div_mod(x, m);
    lemma_mod_bound(x, m);
    let hi = x / m;
    let lo = x % m;
    // the accepted draws for h are those with h * m + t <= v * c < (h + 1) * m
    assert((lo >= t && hi == h) <==> (h * m + t <= x < (h + 1) * m)) by (nonlinear_arith)
        requires
            x == m * hi + lo,
            0 <= lo < m,
            m > 0,
            0 <= t < m || t == m % c,
            0 <= t < c,
    ;
    let a_ = h * m + t;
    assert(a_ >= 0) by (nonlinear_arith)
        requires
            h >= 0,
            m > 0,
            t >= 0,
            a_ == h * m + t,
    ;
    assert((h + 1) * m == a_ + c * q) by (nonlinear_arith)
        requires
            m == c * q + t,
            a_ == h * m + t,
    ;
    let start = (a_ + c - 1) / c;
    lemma_fundamental_div_mod(a_ + c - 1, c);
    lemma_mod_bound(a_ + c - 1, c);
    let rr = (a_ + c - 1) % c;
    // c * start is the least multiple of c at or above a_
    assert(a_ <= c * start < a_ + c) by (nonlinear_arith)
        requires
            a_ + c - 1 == c * start + rr,
            0 <= rr < c,
    ;
    assert((a_ <= x < a_ + c * q) <==> (start <= v < start + q)) by (nonlinear_arith)
        requires
            x == v * c,
            a_ <= c * start < a_ + c,
            c > 0,
            q >= 0,
    ;
    assert(start >= 0) by (nonlinear_arith)
        requires
            c * start >= a_,
            a_ >= 0,
            c > 0,
    ;
    assert(start + q <= m) by (nonlinear_arith)
        requires
            c * start < a_ + c,
            a_ + c * q == (h + 1) * m,
            h + 1 <= c,
            m > 0,
            c > 0,
    ;
}

/// The characters that `to_str_radix` writes are the lowercase digits: each digit below 36 is
/// written as a character in `0`-`9` or `a`-`z` that denotes that digit when read back.
pub proof fn law_digit_chars_lowercase(d: u8)
    requires
        d < 36,
    ensures
        ({
            let c = digit_char(d);
            &&& (48 <= c as u32 <= 57) || (97 <= c as u32 <= 122)
            &&& denoted_digit(c as u8) == Some(d as nat)
        }),
{
}

/// Underscores in the digits of a literal are separators only: the literal's value is that of
/// its digits with every `_` removed (`1_000` is `1000`).
pub proof fn law_literal_underscores_ignored(ds: Seq<u8>, radix: nat)
    ensures
        crate::literal_parse::literal_value(ds, radix) == crate::literal_parse::literal_value(
            ds.filter(|c: u8| c != 95u8),
            radix,
        ),
    decreases ds.len(),
{
    reveal(Seq::filter);
    if ds.len() > 0 {
        let f0 = ds.drop_last().filter(|c: u8| c != 95u8);
        law_literal_underscores_ignored(ds.drop_last(), radix);
        if ds.last() != 95u8 {
            let f = f0.push(ds.last());
            assert(f.drop_last() =~= f0);
            assert(f.last() == ds.last());
        }
    }
}

} // verus!
