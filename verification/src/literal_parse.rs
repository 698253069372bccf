//! Reading integer type descriptors such as `U256`, `I512s` or `U24w`: a sign (`I` or `U`),
//! a decimal bit width, and an optional overflow mode (`w`, `p` or `s`).
use crate::integer::{Integer, Uint};
use crate::integer::radix::ascii_digit;
use crate::model::{fits, lemma_range_facts, lemma_pow2_half};
use crate::overflow::OverflowMode;
use vstd::arithmetic::power2::*;
use vstd::prelude::*;
use vstd::string::StringSliceAdditionalSpecFns;
use vstd::utf8::{valid_utf8, is_continuation_byte, is_char_boundary, length_of_first_scalar, pop_first_scalar};

verus! {

/// Why a type descriptor could not be read.
#[derive(Clone, Copy, Debug, PartialEq, Eq, Structural)]
pub enum TypeDescriptorError {
    InvalidSuffix,
    BitWidthTooLarge,
    BitWidthTooSmall,
    InvalidOverflowModeDescriptor,
    NoBitWidthSpecified,
    InvalidSignDescriptor,
    NoSignDescriptor,
}

/// Whether a byte is an ASCII decimal digit.
pub open spec fn is_ascii_digit(c: u8) -> bool {
    48 <= c <= 57
}

/// The index of the first decimal digit at or after `i`, or the length when there is none.
pub open spec fn first_digit_from(b: Seq<u8>, i: int) -> int
    decreases b.len() - i,
{
    if i >= b.len() {
        b.len() as int
    } else if is_ascii_digit(b[i]) {
        i
    } else {
        first_digit_from(b, i + 1)
    }
}

/// The index just after the run of decimal digits that starts at `i`.
pub open spec fn digit_run_end(b: Seq<u8>, i: int) -> int
    decreases b.len() - i,
{
    if i >= b.len() || !is_ascii_digit(b[i]) {
        i
    } else {
        digit_run_end(b, i + 1)
    }
}

/// The value of a string of decimal digits.
pub open spec fn decimal_value(ds: Seq<u8>) -> nat
    decreases ds.len(),
{
    if ds.len() == 0 {
        0
    } else {
        decimal_value(ds.drop_last()) * 10 + (ds.last() - 48) as nat
    }
}

/// What a type descriptor describes: signedness, bit width and overflow mode, or the error
/// with the byte range of the descriptor that it is about.
pub open spec fn integer_params(b: Seq<u8>) -> Result<(bool, nat, u8), (TypeDescriptorError, int, int)> {
    let f = first_digit_from(b, 0);
    if b.len() == 0 {
        Err((TypeDescriptorError::InvalidSuffix, 0, 0))
    } else if f == b.len() {
        Err((TypeDescriptorError::NoBitWidthSpecified, 0, 0))
    } else if f == 0 {
        Err((TypeDescriptorError::NoSignDescriptor, 0, 0))
    } else if f > 1 {
        Err((TypeDescriptorError::InvalidSignDescriptor, 0, f))
    } else if b[0] != 73 && b[0] != 85 {
        Err((TypeDescriptorError::InvalidSignDescriptor, 0, 1))
    } else {
        let e = digit_run_end(b, 1);
        let bw = decimal_value(b.subrange(1, e));
        if bw < 2 {
            Err((TypeDescriptorError::BitWidthTooSmall, 1, e))
        } else if bw >= 0x1_0000_0000 {
            Err((TypeDescriptorError::BitWidthTooLarge, 1, e))
        } else if e == b.len() {
            Ok((b[0] == 73, bw, OverflowMode::Panic.spec_to_u8()))
        } else if e + 1 == b.len() && b[e] == 119 {
            Ok((b[0] == 73, bw, 0))
        } else if e + 1 == b.len() && b[e] == 112 {
            Ok((b[0] == 73, bw, 1))
        } else if e + 1 == b.len() && b[e] == 115 {
            Ok((b[0] == 73, bw, 2))
        } else {
            Err((TypeDescriptorError::InvalidOverflowModeDescriptor, e, b.len() as int))
        }
    }
}

/// In valid UTF-8, the byte after an ASCII byte starts a character.
proof fn lemma_after_ascii(bytes: Seq<u8>, i: int)
    requires
        valid_utf8(bytes),
        0 < i < bytes.len(),
        bytes[i - 1] < 0x80,
    ensures
        !is_continuation_byte(bytes[i]),
    decreases bytes.len(),
{
    let l = length_of_first_scalar(bytes);
    let rest = pop_first_scalar(bytes);
    assert(1 <= l <= 4);
    if i < l {
        assert(bytes[0] >= 0xc0);
    } else if i == l {
        assert(rest.len() > 0);
        assert(rest[0] == bytes[i]);
        assert(valid_utf8(rest));
        assert(vstd::utf8::valid_first_scalar(rest));
    } else {
        assert(rest[i - l - 1] == bytes[i - 1]);
        assert(rest[i - l] == bytes[i]);
        lemma_after_ascii(rest, i - l);
    }
}

/// A position holding an ASCII byte, or the end, is a character boundary of a string.
proof fn lemma_ascii_boundary(s: &str, i: int)
    requires
        0 <= i <= s.spec_bytes().len(),
        i < s.spec_bytes().len() ==> !is_continuation_byte(s.spec_bytes()[i]),
    ensures
        is_char_boundary(s.spec_bytes(), i),
{
    vstd::utf8::encode_utf8_valid_utf8(s@);
    vstd::utf8::is_char_boundary_start_end_of_seq(s.spec_bytes());
    if i < s.spec_bytes().len() {
        vstd::utf8::is_char_boundary_iff_not_is_continuation_byte(s.spec_bytes(), i);
    }
}

/// Whether the descriptor names a signed type (starts with `I`).
pub fn get_signedness(suffix: &str) -> (r: bool)
    ensures
        r == (suffix.spec_bytes().len() > 0 && suffix.spec_bytes()[0] == 73),
{
    let bytes = suffix.as_bytes();
    bytes.len() > 0 && bytes[0] == 73
}

/// The overflow mode named by the descriptor's last character (`w`, `p` or `s`), or the
/// default mode for any other character.
pub fn get_overflow_mode(suffix: &str) -> (r: u8)
    requires
        suffix.spec_bytes().len() > 0,
    ensures
        r == (if suffix.spec_bytes().last() == 119 {
            0
        } else if suffix.spec_bytes().last() == 112 {
            1
        } else if suffix.spec_bytes().last() == 115 {
            2
        } else {
            OverflowMode::Panic.spec_to_u8()
        }),
{
    let bytes = suffix.as_bytes();
    let c = bytes[bytes.len() - 1];
    if c == 119 {
        OverflowMode::Wrap.to_u8()
    } else if c == 112 {
        OverflowMode::Panic.to_u8()
    } else if c == 115 {
        OverflowMode::Saturate.to_u8()
    } else {
        OverflowMode::default_mode().to_u8()
    }
}

/// The storage size in bytes for a bit width, and the `B` parameter that goes with it: `0` when
/// the width is a whole number of bytes, the width itself otherwise.
pub fn get_size_params_from_bits(bits: usize) -> (r: (usize, usize))
    ensures
        r.0 == (bits + 7) / 8,
        r.1 == (if bits % 8 == 0 { 0 } else { bits }),
{
    let bytes = bits / 8 + if bits % 8 == 0 { 0 } else { 1 };
    let b = if bits % 8 == 0 { 0 } else { bits };
    (bytes, b)
}

/// Reads a type descriptor: its signedness, bit width and overflow mode, or the error with the
/// part of the descriptor that caused it.
pub fn get_integer_params(type_descriptor: &str) -> (r: Result<(bool, usize, u8), (TypeDescriptorError, &str)>)
    ensures
        match r {
            Ok((s, bw, om)) => integer_params(type_descriptor.spec_bytes()) == Ok::<(bool, nat, u8), (TypeDescriptorError, int, int)>((s, bw as nat, om)),
            Err((k, src)) => integer_params(type_descriptor.spec_bytes()) matches Err((k2, x, y)) && k == k2
                && src.spec_bytes() == type_descriptor.spec_bytes().subrange(x, y),
        },
{
    let bytes = type_descriptor.as_bytes();
    let ghost b = type_descriptor.spec_bytes();
    let len = bytes.len();
    proof {
        reveal_strlit("");
        assert(b.subrange(0, len as int) =~= b);
        assert(b.subrange(0, 0) =~= Seq::<u8>::empty());
    }
    if len == 0 {
        return Err((TypeDescriptorError::InvalidSuffix, type_descriptor));
    }
    let mut f: usize = 0;
    while f < len && !(48 <= bytes[f] && bytes[f] <= 57)
        invariant
            f <= len,
            len == b.len(),
            bytes@ == b,
            first_digit_from(b, 0) == first_digit_from(b, f as int),
        decreases len - f,
    {
        f = f + 1;
    }
    if f == len {
        return Err((TypeDescriptorError::NoBitWidthSpecified, ""));
    }
    if f == 0 {
        return Err((TypeDescriptorError::NoSignDescriptor, ""));
    }
    if f > 1 {
        proof {
            lemma_ascii_boundary(type_descriptor, f as int);
        }
        let (head, _) = type_descriptor.split_at(f);
        return Err((TypeDescriptorError::InvalidSignDescriptor, head));
    }
    let c0 = bytes[0];
    if c0 != 73 && c0 != 85 {
        proof {
            lemma_ascii_boundary(type_descriptor, 1);
        }
        let (head, _) = type_descriptor.split_at(1);
        return Err((TypeDescriptorError::InvalidSignDescriptor, head));
    }
    let mut e: usize = 1;
    let mut v: u64 = 0;
    proof {
        assert(b.subrange(1, 1) =~= Seq::<u8>::empty());
    }
    while e < len && 48 <= bytes[e] && bytes[e] <= 57
        invariant
            1 <= e <= len,
            len == b.len(),
            bytes@ == b,
            is_ascii_digit(b[1]),
            forall|j: int| 1 <= j < e ==> is_ascii_digit(#[trigger] b[j]),
            digit_run_end(b, 1) == digit_run_end(b, e as int),
            decimal_value(b.subrange(1, e as int)) < 0x1_0000_0000 ==> v == decimal_value(b.subrange(1, e as int)),
            decimal_value(b.subrange(1, e as int)) >= 0x1_0000_0000 ==> v == 0x1_0000_0000,
        decreases len - e,
    {
        let d = (bytes[e] - 48) as u64;
        proof {
            assert(b.subrange(1, e + 1).drop_last() =~= b.subrange(1, e as int));
            assert(b.subrange(1, e + 1).last() == b[e as int]);
        }
        if v < 0x1_0000_0000 {
            v = v * 10 + d;
            if v >= 0x1_0000_0000 {
                v = 0x1_0000_0000;
            }
        }
        e = e + 1;
    }
    proof {
        lemma_ascii_boundary(type_descriptor, 1);
        if e < len {
            vstd::utf8::encode_utf8_valid_utf8(type_descriptor@);
            lemma_after_ascii(b, e as int);
        }
        lemma_ascii_boundary(type_descriptor, e as int);
    }
    let (head, om_str) = type_descriptor.split_at(e);
    proof {
        assert(head.spec_bytes()[1] == b[1]);
        lemma_ascii_boundary(head, 1);
        assert(head.spec_bytes().subrange(1, e as int) =~= b.subrange(1, e as int));
    }
    let (_, bw_str) = head.split_at(1);
    if v < 2 {
        return Err((TypeDescriptorError::BitWidthTooSmall, bw_str));
    }
    if v >= 0x1_0000_0000 {
        return Err((TypeDescriptorError::BitWidthTooLarge, bw_str));
    }
    let om_bytes = om_str.as_bytes();
    proof {
        assert(om_bytes@ =~= b.subrange(e as int, len as int));
    }
    let om: u8 = if om_bytes.len() == 0 {
        OverflowMode::default_mode().to_u8()
    } else if om_bytes.len() == 1 && om_bytes[0] == 119 {
        OverflowMode::Wrap.to_u8()
    } else if om_bytes.len() == 1 && om_bytes[0] == 112 {
        OverflowMode::Panic.to_u8()
    } else if om_bytes.len() == 1 && om_bytes[0] == 115 {
        OverflowMode::Saturate.to_u8()
    } else {
        return Err((TypeDescriptorError::InvalidOverflowModeDescriptor, om_str));
    };
    Ok((c0 == 73, v as usize, om))
}

/// Reads an optional type descriptor: `(implicit, signedness, N, B, OM)`, where `implicit`
/// says that no valid descriptor was given (it is empty or invalid), in which case the size
/// parameters are those of a 64-bit unsigned wrapping type.
pub fn get_integer_params_fallback(type_descriptor: &str) -> (r: (bool, Result<bool, (TypeDescriptorError, &str)>, usize, usize, u8))
    ensures
        type_descriptor.spec_bytes().len() == 0 ==> r == (true, Ok::<bool, (TypeDescriptorError, &str)>(false), 8usize, 0usize, 0u8),
        type_descriptor.spec_bytes().len() > 0 ==> match integer_params(type_descriptor.spec_bytes()) {
            Ok((s, bw, om)) => r.0 == false && r.1 == Ok::<bool, (TypeDescriptorError, &str)>(s)
                && r.2 == (bw + 7) / 8 && r.3 == (if bw % 8 == 0 { 0 } else { bw }) && r.4 == om,
            Err((k, x, y)) => r.0 == true && (r.1 matches Err((k2, src)) && k2 == k
                && src.spec_bytes() == type_descriptor.spec_bytes().subrange(x, y))
                && r.2 == 8 && r.3 == 0 && r.4 == 0,
        },
{
    if type_descriptor.as_bytes().len() == 0 {
        return (true, Ok(false), 8, 0, 0);
    }
    match get_integer_params(type_descriptor) {
        Ok((s, bw, om)) => {
            let (n, b) = get_size_params_from_bits(bw);
            (false, Ok(s), n, b, om)
        },
        Err(err) => (true, Err(err), 8, 0, 0),
    }
}

/// The bytes of the strings one after the other.
pub open spec fn concat_bytes(msgs: Seq<&str>) -> Seq<u8>
    decreases msgs.len(),
{
    if msgs.len() == 0 {
        Seq::empty()
    } else {
        concat_bytes(msgs.drop_last()) + msgs.last().spec_bytes()
    }
}

/// The bytes of the first strings are no longer than the bytes of all of them.
proof fn lemma_concat_prefix(msgs: Seq<&str>, k: int)
    requires
        0 <= k <= msgs.len(),
    ensures
        concat_bytes(msgs.take(k)).len() <= concat_bytes(msgs).len(),
    decreases msgs.len() - k,
{
    if k < msgs.len() {
        lemma_concat_prefix(msgs, k + 1);
        assert(msgs.take(k + 1).drop_last() =~= msgs.take(k));
    } else {
        assert(msgs.take(k) =~= msgs);
    }
}

/// The bytes of the strings one after the other, in an array of exactly their total length.
pub fn concat_strs<const LEN: usize>(msgs: &[&str]) -> (r: [u8; LEN])
    requires
        concat_bytes(msgs@).len() == LEN,
    ensures
        r@ == concat_bytes(msgs@),
{
    let mut buf = [0u8; LEN];
    let mut w: usize = 0;
    let mut i: usize = 0;
    proof {
        assert(msgs@.take(0) =~= Seq::<&str>::empty());
    }
    while i < msgs.len()
        invariant
            0 <= i <= msgs@.len(),
            concat_bytes(msgs@).len() == LEN,
            w == concat_bytes(msgs@.take(i as int)).len(),
            forall|k: int| 0 <= k < w ==> buf@[k] == concat_bytes(msgs@.take(i as int))[k],
        decreases msgs@.len() - i,
    {
        let msg = msgs[i];
        let mb = msg.as_bytes();
        proof {
            lemma_concat_prefix(msgs@, i + 1);
            assert(msgs@.take(i + 1).drop_last() =~= msgs@.take(i as int));
            assert(msgs@.take(i + 1).last() == msg);
        }
        let ghost start = w;
        let mut j: usize = 0;
        while j < mb.len()
            invariant
                0 <= j <= mb@.len(),
                mb@ == msg.spec_bytes(),
                w == start + j,
                start + mb@.len() <= LEN,
                forall|k: int| 0 <= k < start ==> buf@[k] == concat_bytes(msgs@.take(i as int))[k],
                forall|k: int| 0 <= k < j ==> buf@[start + k] == mb@[k],
            decreases mb@.len() - j,
        {
            buf[w] = mb[j];
            w = w + 1;
            j = j + 1;
        }
        i = i + 1;
        proof {
            assert forall|k: int| 0 <= k < w implies buf@[k] == concat_bytes(msgs@.take(i as int))[k] by {
                if k >= start {
                    assert(buf@[start + (k - start)] == mb@[k - start]);
                }
            }
        }
    }
    proof {
        assert(msgs@.take(msgs@.len() as int) =~= msgs@);
        assert(buf@ =~= concat_bytes(msgs@));
    }
    buf
}

/// Why an integer literal could not be read.
#[derive(Clone, Copy, Debug, PartialEq, Eq, Structural)]
pub enum ParseIntLiteralError {
    OutOfRange,
    NoDigits,
    InvalidDigit,
    UnsignedNegation,
}

/// Every byte of a literal other than `_` is a digit of `radix`.
pub open spec fn literal_digits_valid(ds: Seq<u8>, radix: nat) -> bool {
    forall|i: int| 0 <= i < ds.len() && ds[i] != 95 ==> ascii_digit(#[trigger] ds[i]) < radix
}

/// The value of the digits of a literal, most significant first, skipping `_`.
pub open spec fn literal_value(ds: Seq<u8>, radix: nat) -> nat
    decreases ds.len(),
{
    if ds.len() == 0 {
        0
    } else if ds.last() == 95 {
        literal_value(ds.drop_last(), radix)
    } else {
        literal_value(ds.drop_last(), radix) * radix + ascii_digit(ds.last())
    }
}

/// The value of a literal with the given sign, radix and digits, as an integer of `bits` bits,
/// or why it cannot be one.
pub open spec fn literal_result(negative: bool, radix: nat, ds: Seq<u8>, signed: bool, bits: nat) -> Result<int, ParseIntLiteralError> {
    if ds.len() == 0 {
        Err(ParseIntLiteralError::NoDigits)
    } else if negative && !signed {
        Err(ParseIntLiteralError::UnsignedNegation)
    } else if !literal_digits_valid(ds, radix) {
        Err(ParseIntLiteralError::InvalidDigit)
    } else {
        let v = if negative { -literal_value(ds, radix) } else { literal_value(ds, radix) as int };
        if fits(v, signed, bits) {
            Ok(v)
        } else {
            Err(ParseIntLiteralError::OutOfRange)
        }
    }
}

impl<const S: bool, const N: usize, const B: usize, const OM: u8> Integer<S, N, B, OM> {
    /// Reads the digits of an integer literal (with `_` separators allowed) in `radix`, negated
    /// when `negative`.
    pub fn from_literal_str_checked(negative: bool, radix: u32, digit_bytes: &[u8]) -> (r: Result<Self, ParseIntLiteralError>)
        requires
            Self::valid_params(),
            2 <= radix <= 36,
        ensures
            match r {
                Ok(x) => literal_result(negative, radix as nat, digit_bytes@, S, Self::spec_bits()) == Ok::<int, ParseIntLiteralError>(x@),
                Err(e) => literal_result(negative, radix as nat, digit_bytes@, S, Self::spec_bits()) == Err::<int, ParseIntLiteralError>(e),
            },
    {
        let len = digit_bytes.len();
        if len == 0 {
            return Err(ParseIntLiteralError::NoDigits);
        }
        if negative && !S {
            return Err(ParseIntLiteralError::UnsignedNegation);
        }
        let ghost ds = digit_bytes@;
        let ghost bits = Self::spec_bits();
        let ghost m = pow2(bits) as int;
        proof {
            lemma_range_facts(S, bits);
            lemma_range_facts(false, bits);
            lemma_pow2_half(bits);
            assert(ds.take(0) =~= Seq::<u8>::empty());
        }
        let mut acc = Uint::<N, B, OM>::zero();
        let mut overflow = false;
        let mut i: usize = 0;
        while i < len
            invariant
                0 <= i <= len,
                len == ds.len(),
                len > 0,
                !(negative && !S),
                ds == digit_bytes@,
                2 <= radix <= 36,
                Self::valid_params(),
                bits == Self::spec_bits(),
                m == pow2(bits),
                m > 0,
                literal_digits_valid(ds.take(i as int), radix as nat),
                !overflow ==> acc@ == literal_value(ds.take(i as int), radix as nat),
                overflow ==> literal_value(ds.take(i as int), radix as nat) >= m,
            decreases len - i,
        {
            let c = digit_bytes[i];
            proof {
                assert(ds.take(i + 1).drop_last() =~= ds.take(i as int));
                assert(ds.take(i + 1).last() == c);
            }
            if c != 95 {
                let d = crate::integer::radix::ascii_digit_of(c);
                if d >= radix {
                    proof {
                        assert(ds[i as int] == c);
                    }
                    return Err(ParseIntLiteralError::InvalidDigit);
                }
                let ghost prev = literal_value(ds.take(i as int), radix as nat);
                proof {
                    assert(prev * radix + d >= prev) by (nonlinear_arith)
                        requires
                            radix >= 2,
                            prev >= 0,
                    ;
                }
                if !overflow {
                    match acc.mul_small_add(radix, d) {
                        Some(v) => {
                            acc = v;
                        },
                        None => {
                            overflow = true;
                        },
                    }
                }
            }
            i = i + 1;
            proof {
                assert forall|k: int| 0 <= k < ds.take(i as int).len() && ds.take(i as int)[k] != 95 implies ascii_digit(
                    #[trigger] ds.take(i as int)[k],
                ) < radix by {
                    if k < i - 1 {
                        assert(ds.take(i - 1)[k] == ds.take(i as int)[k]);
                    }
                }
            }
        }
        proof {
            assert(ds.take(len as int) =~= ds);
        }
        if overflow {
            return Err(ParseIntLiteralError::OutOfRange);
        }
        proof {
            use_type_invariant(&acc);
        }
        if negative {
            let lim = Self::min_value().unsigned_abs_internal();
            if lim.lt(&acc) {
                return Err(ParseIntLiteralError::OutOfRange);
            }
            let v = acc.force_sign::<S>();
            proof {
                crate::model::lemma_wrap_small(acc@, S, bits);
                crate::model::lemma_wrap_small(-v@, S, bits);
            }
            Ok(v.wrapping_neg())
        } else {
            let lim = Self::max_value().force_sign::<false>();
            proof {
                crate::model::lemma_wrap(Self::max_spec(), false, bits);
                if S {
                    crate::model::lemma_fits_wider(Self::max_spec(), false, (bits - 1) as nat, bits);
                }
            }
            if lim.lt(&acc) {
                return Err(ParseIntLiteralError::OutOfRange);
            }
            let v = acc.force_sign::<S>();
            proof {
                crate::model::lemma_wrap(acc@, S, bits);
            }
            Ok(v)
        }
    }

    /// Reads the digits of an integer literal that is known to be valid for the type.
    pub fn from_literal_str(negative: bool, radix: u32, digit_bytes: &[u8]) -> (r: Self)
        requires
            Self::valid_params(),
            2 <= radix <= 36,
            literal_result(negative, radix as nat, digit_bytes@, S, Self::spec_bits()) is Ok,
        ensures
            literal_result(negative, radix as nat, digit_bytes@, S, Self::spec_bits()) == Ok::<int, ParseIntLiteralError>(r@),
    {
        let parsed = Self::from_literal_str_checked(negative, radix, digit_bytes);
        parsed.unwrap()
    }
}

/// Reads integer literals into a type given by its parameters (`IMPLICIT` false), or into a
/// type chosen by the caller (`IMPLICIT` true).
pub struct IntLiteralParser<const IMPLICIT: bool, const S: bool, const N: usize, const B: usize, const OM: u8>;

impl<const S: bool, const N: usize, const B: usize, const OM: u8> IntLiteralParser<true, S, N, B, OM> {
    /// Reads a valid literal into the integer type `Integer<R, M, A, OM1>`.
    pub fn parse<const R: bool, const M: usize, const A: usize, const OM1: u8>(negative: bool, radix: u32, literal_str_bytes: &[u8]) -> (r: Integer<R, M, A, OM1>)
        requires
            Integer::<R, M, A, OM1>::valid_params(),
            2 <= radix <= 36,
            literal_result(negative, radix as nat, literal_str_bytes@, R, Integer::<R, M, A, OM1>::spec_bits()) is Ok,
        ensures
            literal_result(negative, radix as nat, literal_str_bytes@, R, Integer::<R, M, A, OM1>::spec_bits()) == Ok::<int, ParseIntLiteralError>(r@),
    {
        Integer::<R, M, A, OM1>::from_literal_str(negative, radix, literal_str_bytes)
    }
}

impl<const S: bool, const N: usize, const B: usize, const OM: u8> IntLiteralParser<false, S, N, B, OM> {
    /// Reads a valid literal into the integer type `Integer<S, N, B, OM>`.
    pub fn parse(negative: bool, radix: u32, literal_str_bytes: &[u8]) -> (r: Integer<S, N, B, OM>)
        requires
            Integer::<S, N, B, OM>::valid_params(),
            2 <= radix <= 36,
            literal_result(negative, radix as nat, literal_str_bytes@, S, Integer::<S, N, B, OM>::spec_bits()) is Ok,
        ensures
            literal_result(negative, radix as nat, literal_str_bytes@, S, Integer::<S, N, B, OM>::spec_bits()) == Ok::<int, ParseIntLiteralError>(r@),
    {
        Integer::<S, N, B, OM>::from_literal_str(negative, radix, literal_str_bytes)
    }
}

/// Whether a byte can stand in the digits of a literal of the radix: a decimal digit or `_`, and
/// for radix 16 also `a`-`f` and `A`-`F`.
pub open spec fn is_literal_digit(c: u8, radix: u32) -> bool {
    is_ascii_digit(c) || c == 95 || (radix == 16 && ((97 <= c <= 102) || (65 <= c <= 70)))
}

/// The index of the first byte at or after `i` that cannot stand in the digits, or the length.
pub open spec fn literal_digits_end(b: Seq<u8>, i: int, radix: u32) -> int
    decreases b.len() - i,
{
    if i >= b.len() || !is_literal_digit(b[i], radix) {
        i
    } else {
        literal_digits_end(b, i + 1, radix)
    }
}

/// How an integer literal such as `-0x_FF_U256w` splits: whether it is negative, its radix (from a
/// `0b`, `0o` or `0x` prefix, else 10), and where its digits start and end (the type
/// descriptor follows them).
pub open spec fn literal_parts(b: Seq<u8>) -> (bool, u32, int, int) {
    let negative = b.len() > 0 && b[0] == 45;
    let s = if negative { 1int } else { 0int };
    let radix: u32 = if b.len() - s >= 2 && b[s] == 48 && b[s + 1] == 98 {
        2
    } else if b.len() - s >= 2 && b[s] == 48 && b[s + 1] == 111 {
        8
    } else if b.len() - s >= 2 && b[s] == 48 && b[s + 1] == 120 {
        16
    } else {
        10
    };
    let start = if radix == 10 { s } else { s + 2 };
    (negative, radix, start, literal_digits_end(b, start, radix))
}

/// Splits an integer literal into its sign, radix, digits and type descriptor.
pub fn get_negative_radix_digits_type_descriptor(literal_str: &str) -> (r: (bool, u32, &[u8], &str))
    ensures
        ({
            let b = literal_str.spec_bytes();
            let (negative, radix, start, end) = literal_parts(b);
            &&& r.0 == negative
            &&& r.1 == radix
            &&& r.2@ == b.subrange(start, end)
            &&& r.3.spec_bytes() == b.subrange(end, b.len() as int)
        }),
{
    let bytes = literal_str.as_bytes();
    let ghost b = literal_str.spec_bytes();
    let len = bytes.len();
    let negative = len > 0 && bytes[0] == 45;
    let s: usize = if negative { 1 } else { 0 };
    let radix: u32 = if len - s >= 2 && bytes[s] == 48 && bytes[s + 1] == 98 {
        2
    } else if len - s >= 2 && bytes[s] == 48 && bytes[s + 1] == 111 {
        8
    } else if len - s >= 2 && bytes[s] == 48 && bytes[s + 1] == 120 {
        16
    } else {
        10
    };
    let start: usize = if radix == 10 { s } else { s + 2 };
    let mut i: usize = start;
    while i < len && (48 <= bytes[i] && bytes[i] <= 57 || bytes[i] == 95 || radix == 16 && (97 <= bytes[i] && bytes[i] <= 102 || 65 <= bytes[i] && bytes[i] <= 70))
        invariant
            start <= i <= len,
            len == b.len(),
            bytes@ == b,
            literal_digits_end(b, start as int, radix) == literal_digits_end(b, i as int, radix),
            forall|j: int| start <= j < i ==> #[trigger] b[j] < 0x80,
        decreases len - i,
    {
        i = i + 1;
    }
    proof {
        vstd::utf8::encode_utf8_valid_utf8(literal_str@);
        // the prefix bytes and the digits are ASCII, so the split points start characters
        if start > 0 && start < len {
            lemma_after_ascii(b, start as int);
        }
        if i > start && i < len {
            lemma_after_ascii(b, i as int);
        }
        lemma_ascii_boundary(literal_str, i as int);
    }
    let (head, descriptor) = literal_str.split_at(i);
    proof {
        assert(head.spec_bytes() =~= b.subrange(0, i as int));
        if start < i {
            assert(head.spec_bytes()[start as int] == b[start as int]);
            if start > 0 {
                lemma_after_ascii(b, start as int);
            }
        }
        lemma_ascii_boundary(head, start as int);
    }
    let (_, digits) = head.split_at(start);
    let digit_bytes = digits.as_bytes();
    proof {
        assert(digit_bytes@ =~= b.subrange(start as int, i as int));
    }
    (negative, radix, digit_bytes, descriptor)
}

} // verus!
