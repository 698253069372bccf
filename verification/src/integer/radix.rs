//! Conversions between integers and lists of digits in a radix.
use super::{Integer, Uint};
use super::mul::abs_int;
use crate::errors::{IntErrorKind, ParseIntError};
use crate::model::{max_of, lemma_range_facts, lemma_pow2_half};
use vstd::arithmetic::div_mod::*;
use vstd::arithmetic::power2::*;
use vstd::arithmetic::mul::*;
use vstd::prelude::*;
use vstd::string::StringSliceAdditionalSpecFns;

verus! {

/// The value of little-endian digits in `radix`: `ds[0] + radix * ds[1] + radix^2 * ds[2] + ...`.
pub open spec fn digits_value(ds: Seq<u8>, radix: nat) -> nat
    decreases ds.len(),
{
    if ds.len() == 0 {
        0
    } else {
        ds[0] as nat + radix * digits_value(ds.skip(1), radix)
    }
}

/// Every digit is below `radix`.
pub open spec fn digits_below(ds: Seq<u8>, radix: nat) -> bool {
    forall|i: int| 0 <= i < ds.len() ==> #[trigger] ds[i] < radix
}

/// The little-endian digits of `v` in `radix`, without leading zeros (zero is the single digit
/// `0`).
pub open spec fn canonical_digits(v: nat, radix: nat) -> Seq<u8>
    decreases v,
{
    if radix < 2 || v < radix {
        seq![v as u8]
    } else {
        proof {
            lemma_div_decreases(v as int, radix as int);
        }
        seq![(v % radix) as u8] + canonical_digits(v / radix, radix)
    }
}

/// A number below `2^k` has at most `k` digits in any radix (for `k >= 1`).
proof fn lemma_canonical_digits_len(v: nat, radix: nat, k: nat)
    requires
        2 <= radix,
        k >= 1,
        v < pow2(k),
    ensures
        canonical_digits(v, radix).len() <= k,
    decreases v,
{
    if v >= radix {
        lemma_pow2_unfold(k);
        if k == 1 {
            lemma2_to64();
        }
        lemma_div_is_ordered_by_denominator(v as int, 2, radix as int);
        lemma_div_decreases(v as int, radix as int);
        lemma_div_pos_is_pos(v as int, radix as int);
        let h = pow2((k - 1) as nat) as int;
        lemma_fundamental_div_mod(v as int, 2);
        lemma_mod_bound(v as int, 2);
        assert(v / 2 < h);
        lemma_canonical_digits_len(v / radix, radix, (k - 1) as nat);
    }
}

/// A number is at least the value of its digits from position `i` upwards.
proof fn lemma_digits_value_skip(ds: Seq<u8>, radix: nat, i: int)
    requires
        0 <= i <= ds.len(),
        radix >= 1,
    ensures
        digits_value(ds, radix) >= digits_value(ds.skip(i), radix),
    decreases i,
{
    if i > 0 {
        assert(ds.skip(1).skip(i - 1) =~= ds.skip(i));
        lemma_digits_value_skip(ds.skip(1), radix, i - 1);
        let v = digits_value(ds.skip(1), radix);
        assert(ds[0] + radix * v >= v) by (nonlinear_arith)
            requires
                radix >= 1,
                v >= 0,
        ;
    } else {
        assert(ds.skip(0) =~= ds);
    }
}

/// The canonical digits are digits of the radix, give the value back, and have no leading zero.
pub proof fn lemma_canonical_digits(v: nat, radix: nat)
    requires
        2 <= radix <= 256,
    ensures
        digits_below(canonical_digits(v, radix), radix),
        digits_value(canonical_digits(v, radix), radix) == v,
        canonical_digits(v, radix).len() >= 1,
        canonical_digits(v, radix).len() > 1 ==> canonical_digits(v, radix).last() != 0,
    decreases v,
{
    let ds = canonical_digits(v, radix);
    if v < radix {
        assert(ds == seq![v as u8]);
        assert(ds.len() == 1);
        assert(ds.skip(1) =~= Seq::<u8>::empty());
        assert(digits_value(ds.skip(1), radix) == 0);
        assert(digits_value(ds, radix) == ds[0] + radix * digits_value(ds.skip(1), radix));
    } else {
        lemma_fundamental_div_mod(v as int, radix as int);
        lemma_mod_bound(v as int, radix as int);
        lemma_div_pos_is_pos(v as int, radix as int);
        lemma_div_is_ordered_by_denominator(v as int, 1, radix as int);
        lemma_div_decreases(v as int, radix as int);
        let q = v / radix;
        lemma_canonical_digits(q, radix);
        let rest = canonical_digits(q, radix);
        assert(ds == seq![(v % radix) as u8] + rest);
        assert(ds[0] == (v % radix) as u8);
        assert(ds.skip(1) =~= rest);
        assert(ds.last() == rest.last());
        assert(digits_value(ds, radix) == ds[0] + radix * digits_value(ds.skip(1), radix));
        assert(v == radix * q + v % radix);
        if q >= radix {
            lemma_div_decreases(q as int, radix as int);
            lemma_canonical_digits(q / radix, radix);
            assert(rest == seq![(q % radix) as u8] + canonical_digits(q / radix, radix));
        }
        if q < radix {
            assert(rest == seq![q as u8]);
            assert(q >= 1) by {
                lemma_div_non_zero(v as int, radix as int);
            }
        }
    }
}

impl<const N: usize, const B: usize, const OM: u8> Uint<N, B, OM> {
    /// The integer written by the little-endian `digits` in `radix`; `None` when a digit is not
    /// below `radix` or the value does not fit. The empty slice reads as zero.
    pub fn from_radix_le(digits: &[u8], radix: u32) -> (r: Option<Self>)
        requires
            Self::valid_params(),
            2 <= radix <= 256,
        ensures
            r.is_some() == (digits_below(digits@, radix as nat) && Self::fits_spec(digits_value(digits@, radix as nat) as int)),
            r.is_some() ==> r.unwrap()@ == digits_value(digits@, radix as nat),
    {
        let ghost ds = digits@;
        let len = digits.len();
        let mut acc = Self::zero();
        let mut i: usize = len;
        proof {
            assert(ds.skip(len as int) =~= Seq::<u8>::empty());
        }
        while i > 0
            invariant
                0 <= i <= len,
                len == ds.len(),
                ds == digits@,
                2 <= radix <= 256,
                Self::valid_params(),
                acc@ == digits_value(ds.skip(i as int), radix as nat),
                forall|j: int| i <= j < len ==> #[trigger] ds[j] < radix,
            decreases i,
        {
            i = i - 1;
            let d = digits[i];
            proof {
                assert(ds.skip(i as int).skip(1) =~= ds.skip(i + 1));
                assert(digits_value(ds.skip(i as int), radix as nat) == d + radix * digits_value(ds.skip(i + 1), radix as nat));
                lemma_mul_is_commutative(radix as int, acc@);
            }
            if d as u32 >= radix {
                assert(ds[i as int] >= radix);
                return None;
            }
            match acc.mul_small_add(radix, d as u32) {
                Some(v) => {
                    acc = v;
                },
                None => {
                    proof {
                        lemma_digits_value_skip(ds, radix as nat, i as int);
                        crate::model::lemma_range_facts(false, Self::spec_bits());
                    }
                    return None;
                },
            }
        }
        proof {
            assert(ds.skip(0) =~= ds);
            use_type_invariant(&acc);
        }
        Some(acc)
    }

    /// The integer written by the big-endian `digits` in `radix`; `None` when a digit is not
    /// below `radix` or the value does not fit. The empty slice reads as zero.
    pub fn from_radix_be(digits: &[u8], radix: u32) -> (r: Option<Self>)
        requires
            Self::valid_params(),
            2 <= radix <= 256,
        ensures
            r.is_some() == (digits_below(digits@, radix as nat) && Self::fits_spec(digits_value(digits@.reverse(), radix as nat) as int)),
            r.is_some() ==> r.unwrap()@ == digits_value(digits@.reverse(), radix as nat),
    {
        let mut rev: Vec<u8> = Vec::new();
        let len = digits.len();
        let mut i: usize = len;
        while i > 0
            invariant
                0 <= i <= len,
                len == digits@.len(),
                rev@.len() == len - i,
                forall|j: int| 0 <= j < rev@.len() ==> rev@[j] == digits@[len - 1 - j],
            decreases i,
        {
            i = i - 1;
            rev.push(digits[i]);
        }
        proof {
            assert(rev@ =~= digits@.reverse());
            assert(digits_below(digits@, radix as nat) == digits_below(rev@, radix as nat)) by {
                if digits_below(rev@, radix as nat) {
                    assert forall|j: int| 0 <= j < digits@.len() implies #[trigger] digits@[j] < radix by {
                        assert(rev@[len - 1 - j] == digits@[j]);
                    }
                }
            }
        }
        Self::from_radix_le(rev.as_slice(), radix)
    }

    /// The little-endian digits of the value in `radix`, without leading zeros (zero gives
    /// the single digit `0`).
    pub fn to_radix_le(&self, radix: u32) -> (r: Vec<u8>)
        requires
            2 <= radix <= 256,
        ensures
            r@ == canonical_digits(self@ as nat, radix as nat),
    {
        proof {
            use_type_invariant(self);
        }
        let mut out: Vec<u8> = Vec::new();
        let mut q = *self;
        loop
            invariant
                2 <= radix <= 256,
                q@ >= 0,
                self@ >= 0,
                out@ + canonical_digits(q@ as nat, radix as nat) == canonical_digits(self@ as nat, radix as nat),
            ensures
                out@ == canonical_digits(self@ as nat, radix as nat),
            decreases q@,
        {
            proof {
                use_type_invariant(&q);
            }
            let (quot, rem) = q.div_rem_small(radix);
            proof {
                lemma_fundamental_div_mod(q@, radix as int);
                lemma_mod_bound(q@, radix as int);
                lemma_div_pos_is_pos(q@, radix as int);
            }
            let ghost old_out = out@;
            out.push(rem as u8);
            if quot.is_zero() {
                proof {
                    assert(q@ < radix);
                    lemma_small_mod(q@ as nat, radix as nat);
                    assert(out@ =~= old_out + canonical_digits(q@ as nat, radix as nat));
                }
                return out;
            }
            proof {
                if q@ < radix {
                    lemma_basic_div(q@, radix as int);
                }
                lemma_div_decreases(q@, radix as int);
                assert(canonical_digits(q@ as nat, radix as nat) == seq![rem as u8] + canonical_digits(quot@ as nat, radix as nat));
                assert(out@ + canonical_digits(quot@ as nat, radix as nat) =~= old_out + canonical_digits(q@ as nat, radix as nat));
            }
            q = quot;
        }
    }

    /// The big-endian digits of the value in `radix`, without leading zeros (zero gives the
    /// single digit `0`).
    pub fn to_radix_be(&self, radix: u32) -> (r: Vec<u8>)
        requires
            2 <= radix <= 256,
        ensures
            r@ == canonical_digits(self@ as nat, radix as nat).reverse(),
    {
        let le = self.to_radix_le(radix);
        let mut out: Vec<u8> = Vec::new();
        let len = le.len();
        let mut i: usize = len;
        while i > 0
            invariant
                0 <= i <= len,
                len == le@.len(),
                out@.len() == len - i,
                forall|j: int| 0 <= j < out@.len() ==> out@[j] == le@[len - 1 - j],
            decreases i,
        {
            i = i - 1;
            out.push(le[i]);
        }
        proof {
            assert(out@ =~= le@.reverse());
        }
        out
    }
}

/// The digit that an ASCII character stands for: `0`-`9`, then `a`-`z` or `A`-`Z` for 10 to 35.
/// Any other byte stands for no digit of any radix up to 36 (it reads as 36 or more).
pub open spec fn ascii_digit(c: u8) -> nat {
    if 48 <= c <= 57 {
        (c - 48) as nat
    } else if 97 <= c <= 122 {
        (c - 97 + 10) as nat
    } else if 65 <= c <= 90 {
        (c - 65 + 10) as nat
    } else {
        255
    }
}

/// Reads ASCII digits from the most significant one, with `acc` the value read so far: the
/// value once all are read, or the first failure, a byte that is not a digit of `radix` or a
/// value that has grown above `limit`.
pub open spec fn scan_digits(ds: Seq<u8>, radix: nat, limit: nat, acc: nat) -> Result<nat, IntErrorKind>
    decreases ds.len(),
{
    if ds.len() == 0 {
        Ok(acc)
    } else if ascii_digit(ds[0]) >= radix {
        Err(IntErrorKind::InvalidDigit)
    } else if acc * radix + ascii_digit(ds[0]) > limit {
        Err(IntErrorKind::PosOverflow)
    } else {
        scan_digits(ds.skip(1), radix, limit, acc * radix + ascii_digit(ds[0]))
    }
}

/// The result of parsing `src` as an integer of `bits` bits: an optional sign (`+`, or `-` for
/// signed types) followed by digits of `radix`, read from the most significant; the first
/// failure decides the error.
pub open spec fn parse_ascii(src: Seq<u8>, radix: nat, signed: bool, bits: nat) -> Result<int, IntErrorKind> {
    if src.len() == 0 {
        Err(IntErrorKind::Empty)
    } else if src.len() == 1 && (src[0] == 43 || src[0] == 45) {
        Err(IntErrorKind::InvalidDigit)
    } else {
        let neg = signed && src[0] == 45;
        let ds = if neg || src[0] == 43 { src.skip(1) } else { src };
        let limit = if neg { pow2((bits - 1) as nat) } else { max_of(signed, bits) as nat };
        match scan_digits(ds, radix, limit, 0) {
            Ok(v) => Ok(if neg { -v } else { v as int }),
            Err(k) => Err(if neg && k == IntErrorKind::PosOverflow { IntErrorKind::NegOverflow } else { k }),
        }
    }
}

/// The ASCII character for a digit below 36: `0`-`9`, then `a`-`z`.
pub open spec fn digit_char(d: u8) -> char {
    if d < 10 {
        (48 + d) as char
    } else {
        (87 + d) as char
    }
}

/// A value written in `radix`: a `-` when negative, then the digits of its magnitude, most
/// significant first, as `0`-`9` and `a`-`z`.
pub open spec fn radix_string(v: int, radix: nat) -> Seq<char> {
    (if v < 0 { seq!['-'] } else { Seq::<char>::empty() }) + canonical_digits(abs_int(v) as nat, radix).reverse().map_values(
        |d: u8| digit_char(d),
    )
}

/// The digit an ASCII character stands for (see `ascii_digit`).
pub(crate) fn ascii_digit_of(c: u8) -> (r: u32)
    ensures
        r == ascii_digit(c),
{
    if 48 <= c && c <= 57 {
        (c - 48) as u32
    } else if 97 <= c && c <= 122 {
        (c - 97 + 10) as u32
    } else if 65 <= c && c <= 90 {
        (c - 65 + 10) as u32
    } else {
        255
    }
}

/// Appends a character to a string with std's `String::push`, trusted to leave the characters
/// that were there followed by `c`. `push` panics when the capacity would exceed `isize::MAX`
/// bytes, so the string (of at most four bytes a character) must stay below that. What it does
/// when the allocator fails (it aborts) is left unsaid.
#[verifier::external_body]
fn push_char(s: &mut String, c: char)
    requires
        4 * (old(s)@.len() + 1) <= isize::MAX,
    ensures
        final(s)@ == old(s)@.push(c),
{
    s.push(c)
}

/// The character for a digit below 36.
fn digit_to_char(d: u8) -> (r: char)
    requires
        d < 36,
    ensures
        r == digit_char(d),
{
    if d < 10 {
        (48 + d) as char
    } else {
        (87 + d) as char
    }
}

impl<const S: bool, const N: usize, const B: usize, const OM: u8> Integer<S, N, B, OM> {
    /// Parses ASCII bytes as an integer in `radix`: an optional `+` (or `-` for signed types)
    /// followed by digits `0`-`9`, `a`-`z`, `A`-`Z` below the radix. Whitespace, underscores
    /// and any other bytes are errors.
    pub fn from_ascii_radix(src: &[u8], radix: u32) -> (r: Result<Self, ParseIntError>)
        requires
            Self::valid_params(),
            2 <= radix <= 36,
        ensures
            match r {
                Ok(x) => parse_ascii(src@, radix as nat, S, Self::spec_bits()) == Ok::<int, IntErrorKind>(x@),
                Err(e) => parse_ascii(src@, radix as nat, S, Self::spec_bits()) == Err::<int, IntErrorKind>(e.kind),
            },
    {
        let len = src.len();
        if len == 0 {
            return Err(ParseIntError { kind: IntErrorKind::Empty });
        }
        let first = src[0];
        if len == 1 && (first == 43 || first == 45) {
            return Err(ParseIntError { kind: IntErrorKind::InvalidDigit });
        }
        let neg = S && first == 45;
        let start: usize = if neg || first == 43 { 1 } else { 0 };
        let ghost bits = Self::spec_bits();
        proof {
            lemma_range_facts(S, bits);
            lemma_pow2_half(bits);
        }
        let limit: Uint<N, B, OM> = if neg {
            Self::min_value().unsigned_abs_internal()
        } else {
            Self::max_value().force_sign::<false>()
        };
        proof {
            crate::model::lemma_wrap(Self::max_spec(), false, bits);
            if !S {
                lemma_range_facts(false, bits);
            } else {
                crate::model::lemma_fits_wider(Self::max_spec(), false, (bits - 1) as nat, bits);
                lemma_pow2_half((bits - 1) as nat);
            }
        }
        let ghost lim: nat = limit@ as nat;
        let ghost ds = if neg || first == 43 { src@.skip(1) } else { src@ };
        let mut acc = Uint::<N, B, OM>::zero();
        let mut i: usize = start;
        proof {
            assert(src@.skip(start as int) =~= ds);
            assert(lim == (if neg { pow2((bits - 1) as nat) } else { max_of(S, bits) as nat }));
        }
        while i < len
            invariant
                start <= i <= len,
                len == src@.len(),
                2 <= radix <= 36,
                Self::valid_params(),
                bits == Self::spec_bits(),
                lim == limit@,
                lim == (if neg { pow2((bits - 1) as nat) } else { max_of(S, bits) as nat }),
                len > 0,
                first == src@[0],
                neg == (S && first == 45),
                !(len == 1 && (first == 43 || first == 45)),
                ds == (if neg || first == 43 { src@.skip(1) } else { src@ }),
                0 <= acc@ <= lim,
                scan_digits(ds, radix as nat, lim, 0) == scan_digits(src@.skip(i as int), radix as nat, lim, acc@ as nat),
            decreases len - i,
        {
            let c = src[i];
            let d = ascii_digit_of(c);
            proof {
                assert(src@.skip(i as int)[0] == c);
                assert(src@.skip(i as int).skip(1) =~= src@.skip(i + 1));
            }
            if d >= radix {
                proof {
                    assert(scan_digits(src@.skip(i as int), radix as nat, lim, acc@ as nat) == Err::<nat, IntErrorKind>(IntErrorKind::InvalidDigit));
                }
                return Err(self::overflow_or_invalid(neg, IntErrorKind::InvalidDigit));
            }
            proof {
                assert(acc@ * radix + d >= 0) by (nonlinear_arith)
                    requires
                        acc@ >= 0,
                        radix >= 2,
                ;
            }
            match acc.mul_small_add(radix, d) {
                Some(v) => {
                    if limit.lt(&v) {
                        proof {
                            assert(scan_digits(src@.skip(i as int), radix as nat, lim, acc@ as nat) == Err::<nat, IntErrorKind>(IntErrorKind::PosOverflow));
                        }
                        return Err(self::overflow_or_invalid(neg, IntErrorKind::PosOverflow));
                    }
                    acc = v;
                },
                None => {
                    proof {
                        use_type_invariant(&limit);
                        assert(scan_digits(src@.skip(i as int), radix as nat, lim, acc@ as nat) == Err::<nat, IntErrorKind>(IntErrorKind::PosOverflow));
                    }
                    return Err(self::overflow_or_invalid(neg, IntErrorKind::PosOverflow));
                },
            }
            i = i + 1;
        }
        proof {
            assert(src@.skip(len as int) =~= Seq::<u8>::empty());
        }
        let v = acc.force_sign::<S>();
        proof {
            crate::model::lemma_wrap(acc@, S, bits);
        }
        if neg {
            proof {
                crate::model::lemma_wrap_small(acc@, S, bits);
                crate::model::lemma_wrap_small(-v@, S, bits);
            }
            Ok(v.wrapping_neg())
        } else {
            Ok(v)
        }
    }

    /// Parses a string as an integer in `radix` (see `from_ascii_radix`).
    pub fn from_str_radix(src: &str, radix: u32) -> (r: Result<Self, ParseIntError>)
        requires
            Self::valid_params(),
            2 <= radix <= 36,
        ensures
            match r {
                Ok(x) => parse_ascii(src.spec_bytes(), radix as nat, S, Self::spec_bits()) == Ok::<int, IntErrorKind>(x@),
                Err(e) => parse_ascii(src.spec_bytes(), radix as nat, S, Self::spec_bits()) == Err::<int, IntErrorKind>(e.kind),
            },
    {
        Self::from_ascii_radix(src.as_bytes(), radix)
    }

    /// Parses ASCII bytes as a decimal integer (see `from_ascii_radix`).
    pub fn from_ascii(src: &[u8]) -> (r: Result<Self, ParseIntError>)
        requires
            Self::valid_params(),
        ensures
            match r {
                Ok(x) => parse_ascii(src@, 10, S, Self::spec_bits()) == Ok::<int, IntErrorKind>(x@),
                Err(e) => parse_ascii(src@, 10, S, Self::spec_bits()) == Err::<int, IntErrorKind>(e.kind),
            },
    {
        Self::from_ascii_radix(src, 10)
    }

    /// The value written in `radix` with digits `0`-`9`, `a`-`z`, most significant first,
    /// after a `-` when negative.
    pub fn to_str_radix(&self, radix: u32) -> (r: String)
        requires
            2 <= radix <= 36,
            4 * Self::spec_bits() + 4 <= isize::MAX,
        ensures
            r@ == radix_string(self@, radix as nat),
    {
        proof {
            use_type_invariant(self);
        }
        let mut out = String::new();
        if self.is_negative_internal() {
            push_char(&mut out, '-');
        }
        let ghost prefix = out@;
        let digits = self.unsigned_abs_internal().to_radix_be(radix);
        proof {
            lemma_canonical_digits(abs_int(self@) as nat, radix as nat);
            crate::model::lemma_range_facts(S, Self::spec_bits());
            crate::model::lemma_pow2_half(Self::spec_bits());
            lemma_canonical_digits_len(abs_int(self@) as nat, radix as nat, Self::spec_bits());
        }
        let ghost ds = digits@;
        let mut i: usize = 0;
        while i < digits.len()
            invariant
                0 <= i <= digits@.len(),
                ds == digits@,
                digits_below(ds, radix as nat),
                radix <= 36,
                out@ == prefix + ds.take(i as int).map_values(|d: u8| digit_char(d)),
                prefix.len() <= 1,
                ds.len() <= Self::spec_bits(),
                4 * Self::spec_bits() + 4 <= isize::MAX,
            decreases digits@.len() - i,
        {
            let d = digits[i];
            assert(ds[i as int] < radix);
            let c = digit_to_char(d);
            push_char(&mut out, c);
            proof {
                assert(ds.take(i + 1).map_values(|d: u8| digit_char(d)) =~= ds.take(i as int).map_values(|d: u8| digit_char(d)).push(c));
            }
            i = i + 1;
        }
        proof {
            assert(ds.take(ds.len() as int) =~= ds);
            assert(prefix == (if self@ < 0 { seq!['-'] } else { Seq::<char>::empty() }));
        }
        out
    }
}

/// The error for a failed digit scan: an overflow of a negative number is a negative overflow.
fn overflow_or_invalid(neg: bool, kind: IntErrorKind) -> (r: ParseIntError)
    ensures
        r.kind == (if neg && kind == IntErrorKind::PosOverflow { IntErrorKind::NegOverflow } else { kind }),
{
    match kind {
        IntErrorKind::PosOverflow => if neg {
            ParseIntError { kind: IntErrorKind::NegOverflow }
        } else {
            ParseIntError { kind: IntErrorKind::PosOverflow }
        },
        _ => ParseIntError { kind },
    }
}

} // verus!
