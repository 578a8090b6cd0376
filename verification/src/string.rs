//! Conversions from strings.
//!
//! A number is written as an optional `+` and one or more digits in a radix
//! from 2 to 36. The digits after `9` are the letters `a` to `z`, in either
//! case. The parser plans the room for the limbs from the length of the
//! string alone, asks the storage for it once, and then folds the digits
//! into an accumulator that starts at zero, so that the result is the
//! number which the digits write in the usual positional way.

use crate::arith_utils::{
    lemma_ceil_log2_is_least, spec_ceil_log2, spec_divide_round_up, ArithUtil,
};
use crate::limbs::{
    lemma_limb_count_bound, lemma_limbs_of, lemma_normalized_is_canonical,
    lemma_weight_monotonic, limb_count, limbs_of, weight,
};
use crate::memory::{IAllocError, Word, WordArray};
use crate::uint::UnsignedInteger;
use vstd::arithmetic::power2::{
    lemma2_to64, lemma_pow2_adds, lemma_pow2_pos, lemma_pow2_strictly_increases, pow2,
};
use vstd::prelude::*;
use vstd::std_specs::convert::FromSpecImpl;
use vstd::utf8::{
    encode_utf8, encode_utf8_decode_utf8, encode_utf8_first_scalar, encode_utf8_valid_utf8,
    is_char_boundary,
};

verus! {

/// An error that occurs parsing a string.
#[derive(Debug)]
pub enum ParseIntError<A: IAllocError> {
    /// A character that is no digit of the radix.
    InvalidDigit {
        /// The offending character.
        digit: char,
        /// The radix that the string was read in.
        radix: u32,
    },
    /// The string starts with a minus sign.
    ForbiddenNegative,
    /// The string has no digits.
    EmptyString,
    /// Room for the limbs could not be had.
    AllocFailed {
        /// What the storage reported.
        cause: A,
    },
}

impl<A: IAllocError> From<A> for ParseIntError<A> {
    /// Reports that the storage refused room, with what it gave as cause.
    fn from(cause: A) -> (e: Self) {
        ParseIntError::AllocFailed { cause }
    }
}

impl<A: IAllocError> FromSpecImpl<A> for ParseIntError<A> {
    open spec fn obeys_from_spec() -> bool {
        true
    }

    open spec fn from_spec(cause: A) -> Self {
        ParseIntError::AllocFailed { cause }
    }
}

/// The value of the digit that `c` writes, for the digits `0` to `9` and
/// the letters `a` to `z` of either case; nothing for any other character.
pub open spec fn spec_digit_value(c: char) -> Option<u32> {
    if '0' <= c <= '9' {
        Some((c as u32 - '0' as u32) as u32)
    } else if 'a' <= c <= 'z' {
        Some((c as u32 - 'a' as u32 + 10) as u32)
    } else if 'A' <= c <= 'Z' {
        Some((c as u32 - 'A' as u32 + 10) as u32)
    } else {
        None
    }
}

/// The number that `digits` write in `radix`, or the first character among
/// them that is no digit of `radix`.
pub open spec fn spec_parse_digits(digits: Seq<char>, radix: u32) -> Result<nat, char>
    decreases digits.len(),
{
    if digits.len() == 0 {
        Ok(0)
    } else {
        match spec_parse_digits(digits.drop_last(), radix) {
            Err(c) => Err(c),
            Ok(v) => match spec_digit_value(digits.last()) {
                Some(d) if d < radix => Ok(v * (radix as nat) + (d as nat)),
                _ => Err(digits.last()),
            },
        }
    }
}

/// The digits of `s`: what follows one leading `+`, or all of `s`.
pub open spec fn spec_unsigned_digits(s: Seq<char>) -> Seq<char> {
    if s.len() > 0 && s[0] == '+' {
        s.drop_first()
    } else {
        s
    }
}

/// The length in bytes of the string made of `chars`.
pub open spec fn byte_len(chars: Seq<char>) -> nat {
    encode_utf8(chars).len()
}

/// The number of limbs planned for a string of `len` bytes in `radix`:
/// `ceil(log2(radix))` bits for each byte, rounded up to whole limbs.
/// Nothing when the number of bits does not fit 64 bits.
pub open spec fn spec_limb_capacity(len: nat, radix: nat) -> Option<nat> {
    let bits = spec_ceil_log2(radix) * len;
    if bits > u64::MAX {
        None
    } else {
        Some(spec_divide_round_up(bits, 64))
    }
}

/// Whether `r` is what the digits ask for: their number in normalized
/// limbs, or the report of the first character that is no digit.
pub open spec fn parse_agrees<A: WordArray>(
    r: Result<UnsignedInteger<A>, ParseIntError<A::AllocErr>>,
    digits: Seq<char>,
    radix: u32,
) -> bool {
    match spec_parse_digits(digits, radix) {
        Ok(v) => r matches Ok(n) && n.wf() && n@ == limbs_of(v),
        Err(c) => r matches Err(ParseIntError::InvalidDigit { digit, radix: reported }) && digit
            == c && reported == radix,
    }
}

/// Whether `r` is a right answer to parsing the string `s` in `radix`.
///
/// A leading `-` is answered with [`ParseIntError::ForbiddenNegative`], and
/// a string without digits with [`ParseIntError::EmptyString`]. A string so
/// long that the bits planned for it do not fit 64 bits is answered with the
/// storage's error for overflowed capacity arithmetic. For any other string
/// the storage may refuse the room; if it does not, the answer is what the
/// digits ask for, in no more limbs than were planned.
pub open spec fn parse_outcome<A: WordArray>(
    r: Result<UnsignedInteger<A>, ParseIntError<A::AllocErr>>,
    s: Seq<char>,
    radix: u32,
) -> bool {
    let digits = spec_unsigned_digits(s);
    if s.len() > 0 && s[0] == '-' {
        r matches Err(ParseIntError::ForbiddenNegative)
    } else if digits.len() == 0 {
        r matches Err(ParseIntError::EmptyString)
    } else {
        match spec_limb_capacity(byte_len(digits), radix as nat) {
            None => r matches Err(ParseIntError::AllocFailed { cause }) && cause
                == A::AllocErr::spec_capacity_arithmetic_overflow(),
            Some(planned) => {
                ||| r matches Err(ParseIntError::AllocFailed { .. })
                ||| {
                    &&& parse_agrees(r, digits, radix)
                    &&& r matches Ok(n) ==> n@.len() <= planned <= n.spec_capacity()
                }
            },
        }
    }
}

/// A radix from 2 to 36 takes at most six bits for each digit.
pub proof fn lemma_bits_per_digit(radix: nat)
    requires
        2 <= radix <= 36,
    ensures
        1 <= spec_ceil_log2(radix) <= 6,
        radix <= pow2(spec_ceil_log2(radix)),
{
    lemma2_to64();
    lemma_ceil_log2_is_least(radix);
}

/// The planned limbs hold all the bits planned for, and are no more than
/// the string has bytes.
pub proof fn lemma_limb_capacity(len: nat, radix: nat)
    requires
        2 <= radix <= 36,
        spec_limb_capacity(len, radix) is Some,
    ensures
        spec_ceil_log2(radix) * len <= 64 * spec_limb_capacity(len, radix)->0,
        spec_limb_capacity(len, radix)->0 <= len,
{
    let bits = spec_ceil_log2(radix) * len;
    lemma_bits_per_digit(radix);
    assert(bits <= 6 * len) by (nonlinear_arith)
        requires
            bits == spec_ceil_log2(radix) * len,
            spec_ceil_log2(radix) <= 6,
    ;
}

/// A string has at least as many bytes as characters.
pub proof fn lemma_byte_len(chars: Seq<char>)
    ensures
        chars.len() <= byte_len(chars),
    decreases chars.len(),
{
    if chars.len() > 0 {
        lemma_byte_len(chars.drop_first());
    }
}

/// The number that `k` digits write in `radix` is below
/// `2^(ceil(log2(radix)) * k)`.
pub proof fn lemma_parse_bound(digits: Seq<char>, radix: u32)
    requires
        2 <= radix <= 36,
        spec_parse_digits(digits, radix) is Ok,
    ensures
        spec_parse_digits(digits, radix)->Ok_0 < pow2(spec_ceil_log2(radix as nat) * digits.len()),
    decreases digits.len(),
{
    let bits = spec_ceil_log2(radix as nat);
    lemma_bits_per_digit(radix as nat);
    if digits.len() == 0 {
        lemma_pow2_pos(0);
        assert(bits * 0 == 0) by (nonlinear_arith);
    } else {
        let front = digits.drop_last();
        let v = spec_parse_digits(front, radix)->Ok_0;
        let d = spec_digit_value(digits.last())->0;
        lemma_parse_bound(front, radix);
        let p = pow2(bits * front.len());
        lemma_pow2_adds(bits * front.len(), bits);
        assert(bits * digits.len() == bits * front.len() + bits) by (nonlinear_arith)
            requires
                digits.len() == front.len() + 1,
        ;
        assert(v * (radix as nat) + (d as nat) < p * pow2(bits)) by (nonlinear_arith)
            requires
                v < p,
                d < radix,
                radix <= pow2(bits),
        ;
    }
}

/// Capacity planning never falls short: the number that the digits of a
/// string write needs no more limbs than are planned for the string's
/// length.
pub proof fn lemma_capacity_suffices(digits: Seq<char>, radix: u32, len: nat)
    requires
        2 <= radix <= 36,
        digits.len() <= len,
        spec_parse_digits(digits, radix) is Ok,
        spec_limb_capacity(len, radix as nat) is Some,
    ensures
        spec_parse_digits(digits, radix)->Ok_0 < weight(spec_limb_capacity(len, radix as nat)->0),
        limb_count(spec_parse_digits(digits, radix)->Ok_0) <= spec_limb_capacity(
            len,
            radix as nat,
        )->0,
{
    let bits = spec_ceil_log2(radix as nat);
    let capacity = spec_limb_capacity(len, radix as nat)->0;
    let v = spec_parse_digits(digits, radix)->Ok_0;
    lemma_parse_bound(digits, radix);
    assert(bits * digits.len() <= bits * len) by (nonlinear_arith)
        requires
            digits.len() <= len,
    ;
    if bits * digits.len() < 64 * capacity {
        lemma_pow2_strictly_increases(bits * digits.len(), 64 * capacity);
    }
    lemma_limb_count_bound(v, capacity);
}

/// A prefix of digits that can be read is read first: the number of the
/// whole string goes on from it, and an error in it is the error of the
/// whole string.
pub proof fn lemma_parse_prefix(digits: Seq<char>, radix: u32, k: int)
    requires
        0 <= k <= digits.len(),
    ensures
        spec_parse_digits(digits.take(k), radix) matches Err(c) ==> spec_parse_digits(digits, radix)
            == Err::<nat, char>(c),
        spec_parse_digits(digits, radix) is Ok ==> spec_parse_digits(digits.take(k), radix) is Ok,
    decreases digits.len() - k,
{
    if k == digits.len() {
        assert(digits.take(k) =~= digits);
    } else {
        assert(digits.drop_last().take(k) =~= digits.take(k));
        lemma_parse_prefix(digits.drop_last(), radix, k);
    }
}

/// Maps a character to the digit that it writes.
pub fn digit_value(c: char) -> (d: Option<u32>)
    ensures
        d == spec_digit_value(c),
        d matches Some(v) ==> v < 36,
{
    if '0' <= c && c <= '9' {
        Some(c as u32 - '0' as u32)
    } else if 'a' <= c && c <= 'z' {
        Some(c as u32 - 'a' as u32 + 10)
    } else if 'A' <= c && c <= 'Z' {
        Some(c as u32 - 'A' as u32 + 10)
    } else {
        None
    }
}

/// Plans the number of limbs for a string of `len` bytes in `radix`.
///
/// Nothing is returned when the number of bits, `ceil(log2(radix))` for
/// each byte, does not fit 64 bits.
pub fn limb_capacity(len: usize, radix: u32) -> (capacity: Option<usize>)
    requires
        2 <= radix <= 36,
    ensures
        capacity is Some <==> spec_limb_capacity(len as nat, radix as nat) is Some,
        capacity matches Some(c) ==> spec_limb_capacity(len as nat, radix as nat) == Some(c as nat),
{
    let bits_per_digit: u32 = radix.ceil_log2();
    match (bits_per_digit as u64).checked_mul(len as u64) {
        Some(max_bits) => {
            proof {
                lemma_limb_capacity(len as nat, radix as nat);
            }
            Some(max_bits.divide_round_up(Word::BITS) as usize)
        },
        None => None,
    }
}

/// A string that starts with an ASCII character can be split after its
/// first byte, and what follows that byte encodes what follows the
/// character.
proof fn lemma_ascii_first_char(chars: Seq<char>)
    requires
        chars.len() > 0,
        (chars[0] as u32) < 0x80,
    ensures
        byte_len(chars) == byte_len(chars.drop_first()) + 1,
        is_char_boundary(encode_utf8(chars), 1),
        encode_utf8(chars).subrange(1, encode_utf8(chars).len() as int) == encode_utf8(
            chars.drop_first(),
        ),
{
    let bytes = encode_utf8(chars);
    let rest = encode_utf8(chars.drop_first());
    encode_utf8_first_scalar(chars);
    encode_utf8_valid_utf8(chars);
    encode_utf8_valid_utf8(chars.drop_first());
    assert(bytes.subrange(1, bytes.len() as int) =~= rest);
    reveal_with_fuel(is_char_boundary, 2);
}

/// Folds the digits of `digits` into an integer that lives in `words`.
///
/// The integer starts at zero; each digit multiplies it by the radix and
/// adds the digit's value. Nothing is allocated: `words` must have the
/// room that [`limb_capacity`] plans for the length of `digits`. The first
/// character that is no digit of the radix ends the parse with its report.
pub fn parse_digits<A: WordArray>(words: A, digits: &str, radix: u32) -> (r: Result<
    UnsignedInteger<A>,
    ParseIntError<A::AllocErr>,
>)
    requires
        2 <= radix <= 36,
        words.wf(),
        spec_limb_capacity(byte_len(digits@), radix as nat) matches Some(c) && c
            <= words.spec_capacity(),
    ensures
        parse_agrees(r, digits@, radix),
        r matches Ok(n) ==> n.spec_capacity() == words.spec_capacity() && n@.len()
            <= spec_limb_capacity(byte_len(digits@), radix as nat)->0,
{
    let ghost capacity = words.spec_capacity();
    let mut res = UnsignedInteger::from_word_array(words);
    res.set_zero();
    for digit in it: digits.chars()
        invariant
            2 <= radix <= 36,
            it.seq() == digits@,
            res.wf(),
            res.spec_capacity() == capacity,
            spec_limb_capacity(byte_len(digits@), radix as nat) matches Some(c) && c <= capacity,
            spec_parse_digits(digits@.take(it.index()), radix) matches Ok(v) && res@ == limbs_of(v),
    {
        let ghost index = it.index();
        let ghost before = digits@.take(index);
        let ghost after = digits@.take(index + 1);
        proof {
            assert(after.drop_last() =~= before);
        }
        let digit_val: u32 = match digit_value(digit) {
            Some(d) if d < radix => d,
            _ => {
                proof {
                    lemma_parse_prefix(digits@, radix, index + 1);
                }
                return Err(ParseIntError::InvalidDigit { digit, radix });
            },
        };
        proof {
            let v = spec_parse_digits(before, radix)->Ok_0;
            let planned = spec_limb_capacity(byte_len(digits@), radix as nat)->0;
            lemma_limbs_of(v);
            lemma_byte_len(digits@);
            lemma_capacity_suffices(after, radix, byte_len(digits@));
            lemma_weight_monotonic(planned, capacity);
        }
        res.unchecked_mul_add_u64(radix as u64, digit_val as u64);
        proof {
            lemma_normalized_is_canonical(res@);
        }
    }
    proof {
        assert(digits@.take(digits@.len() as int) =~= digits@);
        lemma_byte_len(digits@);
        lemma_capacity_suffices(digits@, radix, byte_len(digits@));
    }
    Ok(res)
}

/// Parses an unsigned integer written in `radix`.
///
/// A leading `-` is refused, one leading `+` is skipped, and what is left
/// must not be empty. The room for the limbs is planned by
/// [`limb_capacity`] from the length of what is left and asked for once;
/// then the digits are folded by [`parse_digits`]. The first error ends
/// the parse.
pub fn parse_unsigned_radix<A: WordArray>(s: &str, radix: u32) -> (r: Result<
    UnsignedInteger<A>,
    ParseIntError<A::AllocErr>,
>)
    requires
        2 <= radix <= 36,
    ensures
        parse_outcome(r, s@, radix),
        r matches Ok(n) ==> n.wf() && n.is_normalized(),
{
    let mut chars = s.chars();
    let digits: &str = match chars.next() {
        Some('-') => {
            return Err(ParseIntError::ForbiddenNegative);
        },
        Some('+') => {
            proof {
                lemma_ascii_first_char(s@);
            }
            let (_, rest) = s.split_at(1);
            proof {
                encode_utf8_decode_utf8(rest@);
                encode_utf8_decode_utf8(s@.drop_first());
            }
            rest
        },
        _ => s,
    };
    if digits.is_empty() {
        return Err(ParseIntError::EmptyString);
    }
    let max_capacity: usize = match limb_capacity(digits.as_bytes().len(), radix) {
        Some(max_capacity) => max_capacity,
        None => {
            return Err(
                ParseIntError::AllocFailed { cause: A::AllocErr::capacity_arithmetic_overflow() },
            );
        },
    };
    let words = match A::with_capacity(max_capacity) {
        Ok(words) => words,
        Err(cause) => {
            return Err(ParseIntError::from(cause));
        },
    };
    let r = parse_digits(words, digits, radix);
    proof {
        if r is Ok {
            lemma_limbs_of(spec_parse_digits(digits@, radix)->Ok_0);
        }
    }
    r
}

} // verus!
