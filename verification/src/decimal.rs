//! Fixed-point decimals with one fractional digit, held as integers in tenths.
//!
//! A value literal is an optional `-`, one or two integer digits, a `.` and
//! exactly one fractional digit. `-23.7` is held as `-237`. This module decodes
//! such literals from a byte buffer and writes tenths back as text.

use vstd::prelude::*;

verus! {

/// The byte that ends a record.
pub const NEWLINE: u8 = 10;

/// The byte between a record's key and its value.
pub const SEPARATOR: u8 = 59;

/// The sign of a negative value.
pub const MINUS: u8 = 45;

/// The decimal point.
pub const DOT: u8 = 46;

/// The byte of the digit zero.
pub const ASCII_OFFSET: u8 = 48;

/// Two zero digits, as one 16-bit word.
pub const ZERO_MASK: u16 = 0x3030;

pub open spec fn is_digit(byte: u8) -> bool {
    48 <= byte <= 57
}

/// One or two digits, a decimal point, one digit.
pub open spec fn is_magnitude(s: Seq<u8>) -> bool {
    ||| s.len() == 3 && is_digit(s[0]) && s[1] == DOT && is_digit(s[2])
    ||| s.len() == 4 && is_digit(s[0]) && is_digit(s[1]) && s[2] == DOT && is_digit(s[3])
}

pub open spec fn is_negative(s: Seq<u8>) -> bool {
    s.len() > 0 && s[0] == MINUS
}

/// The literal without its sign.
pub open spec fn unsigned_part(s: Seq<u8>) -> Seq<u8> {
    if is_negative(s) {
        s.subrange(1, s.len() as int)
    } else {
        s
    }
}

/// Whether `s` is a value literal: `-?[0-9]{1,2}\.[0-9]`.
pub open spec fn is_value(s: Seq<u8>) -> bool {
    is_magnitude(unsigned_part(s))
}

/// The tenths that an unsigned literal stands for.
pub open spec fn magnitude(s: Seq<u8>) -> int {
    if s.len() == 3 {
        (s[0] - 48) * 10 + (s[2] - 48)
    } else {
        (s[0] - 48) * 100 + (s[1] - 48) * 10 + (s[3] - 48)
    }
}

/// The tenths that a value literal stands for.
pub open spec fn tenths(s: Seq<u8>) -> int {
    if is_negative(s) {
        -magnitude(unsigned_part(s))
    } else {
        magnitude(s)
    }
}

/// A value literal in the one form that writing tenths produces: no leading
/// zero before a second integer digit, and no sign on zero.
pub open spec fn is_canonical_value(s: Seq<u8>) -> bool {
    &&& is_value(s)
    &&& unsigned_part(s).len() == 4 ==> unsigned_part(s)[0] != ASCII_OFFSET
    &&& is_negative(s) ==> tenths(s) != 0
}

/// The decimal digits of `n`, most significant first.
pub open spec fn decimal_digits(n: nat) -> Seq<u8>
    decreases n,
{
    if n < 10 {
        seq![(48 + n) as u8]
    } else {
        decimal_digits(n / 10).push((48 + n % 10) as u8)
    }
}

/// The text of an unsigned amount of tenths: the integer part, a decimal
/// point, one fractional digit.
pub open spec fn magnitude_text(m: nat) -> Seq<u8> {
    decimal_digits(m / 10).push(DOT).push((48 + m % 10) as u8)
}

/// The text of `v` tenths, with exactly one fractional digit.
pub open spec fn tenths_text(v: int) -> Seq<u8> {
    if v < 0 {
        seq![MINUS] + magnitude_text((-v) as nat)
    } else {
        magnitude_text(v as nat)
    }
}

/// The value of an ASCII digit. Bytes below `'0'` wrap around.
pub fn convert_from_ascii(byte: u8) -> (digit: i64)
    ensures
        digit == (if byte >= 48 { byte - 48 } else { byte + 208 }),
        is_digit(byte) ==> 0 <= digit <= 9,
{
    byte.wrapping_sub(ASCII_OFFSET) as i64
}

/// Reads the two bytes at `at` and `at + 1` as one little-endian word and
/// decodes the `len` digits that end it, without a branch: a mask made from
/// `len` blanks out the first byte where there is only one digit.
pub fn parse_2_digit_number(text: &[u8], at: usize, len: usize) -> (number: u16)
    requires
        at + 1 < text.len(),
        len == 1 || len == 2,
        is_digit(text[at + 1]),
        len == 2 ==> is_digit(text[at as int]),
    ensures
        number == (if len == 2 {
            (text[at as int] - 48) * 10 + (text[at + 1] - 48)
        } else {
            text[at + 1] - 48
        }),
{
    let shift: u32 = len as u32 * 8;
    let general_mask: u16 = #[verifier::truncate]
    ((!(0xFFFF_u32 >> shift)) as u16);
    let first: u8 = text[at];
    let second: u8 = text[at + 1];
    let word: u16 = (first as u16) | ((second as u16) << 8);
    let masked: u16 = word & general_mask;
    let zeros: u16 = ZERO_MASK & general_mask;
    assert(shift == 8 ==> (!(0xFFFF_u32 >> shift)) as u16 == 0xFF00) by (bit_vector);
    assert(shift == 16 ==> (!(0xFFFF_u32 >> shift)) as u16 == 0xFFFF) by (bit_vector);
    assert(general_mask == (if len == 2 { 0xFFFFu16 } else { 0xFF00u16 }));
    assert(masked >= zeros) by (bit_vector)
        requires
            word == (first as u16) | ((second as u16) << 8),
            masked == word & general_mask,
            zeros == 0x3030u16 & general_mask,
            general_mask == 0xFFFF || general_mask == 0xFF00,
            48 <= second <= 57,
            general_mask == 0xFFFF ==> 48 <= first <= 57,
    ;
    let number: u16 = masked - zeros;
    assert(((number >> 8) & 0xFF) == second - 48 && (number & 0xFF) == (if general_mask == 0xFFFF {
        first - 48
    } else {
        0
    })) by (bit_vector)
        requires
            word == (first as u16) | ((second as u16) << 8),
            masked == word & general_mask,
            zeros == 0x3030u16 & general_mask,
            number == masked - zeros,
            general_mask == 0xFFFF || general_mask == 0xFF00,
            48 <= second <= 57,
            general_mask == 0xFFFF ==> 48 <= first <= 57,
    ;
    let lower_digit: u16 = (number >> 8) & 0xFF;
    let upper_digit: u16 = (number & 0xFF) * 10;
    lower_digit + upper_digit
}

fn is_digit_byte(byte: u8) -> (yes: bool)
    ensures
        yes == is_digit(byte),
{
    ASCII_OFFSET <= byte && byte <= 57
}

/// Tests whether the bytes of `text` in `[from, to)` are a value literal.
pub fn is_value_at(text: &[u8], from: usize, to: usize) -> (yes: bool)
    requires
        from <= to <= text.len(),
    ensures
        yes == is_value(text@.subrange(from as int, to as int)),
{
    let ghost s = text@.subrange(from as int, to as int);
    if from == to {
        return false;
    }
    let negative = text[from] == MINUS;
    let start: usize = if negative {
        from + 1
    } else {
        from
    };
    let ghost u = unsigned_part(s);
    assert(u =~= text@.subrange(start as int, to as int));
    let digits: usize = to - start;
    if digits == 3 {
        assert(u[0] == text[start as int] && u[1] == text[start + 1] && u[2] == text[start + 2]);
        is_digit_byte(text[start]) && text[start + 1] == DOT && is_digit_byte(text[start + 2])
    } else if digits == 4 {
        assert(u[0] == text[start as int] && u[1] == text[start + 1] && u[2] == text[start + 2]
            && u[3] == text[start + 3]);
        is_digit_byte(text[start]) && is_digit_byte(text[start + 1]) && text[start + 2] == DOT
            && is_digit_byte(text[start + 3])
    } else {
        false
    }
}

/// Decodes the value literal that stands between the separator at
/// `separator_index` and `end`, into signed tenths.
///
/// The digit count follows from the length of the span; the integer digits are
/// read as one word, so for a single digit the byte before it (the sign or the
/// separator) is read too and masked out.
pub fn decode_tenths(text: &[u8], separator_index: usize, end: usize) -> (value: i64)
    requires
        separator_index < end <= text.len(),
        is_value(text@.subrange(separator_index + 1, end as int)),
    ensures
        value == tenths(text@.subrange(separator_index + 1, end as int)),
        -999 <= value <= 999,
{
    let ghost s = text@.subrange(separator_index + 1, end as int);
    let ghost u = unsigned_part(s);
    let is_neg = text[separator_index + 1] == MINUS;
    let sign_len: usize = if is_neg {
        1
    } else {
        0
    };
    assert(s[0] == text[separator_index + 1]);
    assert(u =~= text@.subrange(separator_index + 1 + sign_len, end as int));
    let num_len: usize = end - separator_index - 3 - sign_len;
    let at: usize = separator_index + 1 + sign_len - (2 - num_len);
    assert(u[u.len() - 1] == text[end - 1]);
    assert(u[u.len() - 3] == text[end - 3]);
    assert(num_len == 2 ==> u[0] == text[at as int]);
    let mut report_value: i64 = parse_2_digit_number(text, at, num_len) as i64 * 10;
    report_value += convert_from_ascii(text[end - 1]);
    if is_neg {
        -report_value
    } else {
        report_value
    }
}

/// Appends the decimal digits of `n` to `out`.
fn push_digits(out: &mut Vec<u8>, n: u128)
    ensures
        final(out)@ == old(out)@ + decimal_digits(n as nat),
    decreases n,
{
    if n >= 10 {
        push_digits(out, n / 10);
    }
    out.push(ASCII_OFFSET + (n % 10) as u8);
    assert(final(out)@ =~= old(out)@ + decimal_digits(n as nat));
}

/// Appends the text of `value` tenths to `out`: a sign where it is negative,
/// the integer part, a decimal point and exactly one fractional digit.
pub fn push_tenths(out: &mut Vec<u8>, value: i128)
    ensures
        final(out)@ == old(out)@ + tenths_text(value as int),
{
    let magnitude: u128 = if value < 0 {
        out.push(MINUS);
        (-(value + 1)) as u128 + 1
    } else {
        value as u128
    };
    push_digits(out, magnitude / 10);
    out.push(DOT);
    out.push(ASCII_OFFSET + (magnitude % 10) as u8);
    assert(final(out)@ =~= old(out)@ + tenths_text(value as int));
}

/// Writing the tenths that a value literal stands for gives the literal back,
/// byte for byte, for every canonical literal and for no other.
pub proof fn lemma_decode_then_write(s: Seq<u8>)
    requires
        is_value(s),
    ensures
        -999 <= tenths(s) <= 999,
        tenths_text(tenths(s)) == s <==> is_canonical_value(s),
{
    let u = unsigned_part(s);
    let m = magnitude(u);
    if is_canonical_value(s) {
        reveal_with_fuel(decimal_digits, 2);
        assert(magnitude_text(m as nat) =~= u);
        if is_negative(s) {
            assert(tenths(s) == -m);
            assert(seq![MINUS] + u =~= s);
        }
    } else {
        lemma_write_then_decode(tenths(s));
    }
}

/// Decoding the text written for `v` tenths gives `v` back, for every `v` in
/// the range of a value literal.
pub proof fn lemma_write_then_decode(v: int)
    requires
        -999 <= v <= 999,
    ensures
        is_canonical_value(tenths_text(v)),
        tenths(tenths_text(v)) == v,
{
    let m = if v < 0 {
        -v
    } else {
        v
    };
    reveal_with_fuel(decimal_digits, 2);
    let t = magnitude_text(m as nat);
    assert(t.len() == 3 || t.len() == 4);
    assert(is_magnitude(t));
    assert(magnitude(t) == m);
    if v < 0 {
        assert(unsigned_part(tenths_text(v)) =~= t);
    }
}

} // verus!
