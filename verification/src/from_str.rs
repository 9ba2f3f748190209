//! From a numeral to the bits of a fixed-point number: the whole digits and
//! the fraction digits are converted each on its own, put together, checked
//! against the range of the type and given their sign.
use crate::arith::{lemma_div_reaches, lemma_pow2_monotonic, lemma_pow2_widths};
use crate::bounds::{
    fraction_digits,
    is_negative,
    lemma_lexed_shape,
    lex_error,
    parse_bounds,
    trim_leading_zeros,
    trim_trailing_zeros,
    whole_digits,
};
use crate::decimal::{
    dec_digits,
    dec_frac_result,
    dec_prefix_value,
    get_frac128_dec,
    get_frac16_dec,
    get_frac32_dec,
    get_frac64_dec,
    get_frac8_dec,
};
use crate::error::{ParseErrorKind, ParseFixedError};
use crate::model::{
    all_digits,
    digits_value,
    is_digit,
    lemma_digit_value,
    lemma_digits_value_concat,
    lemma_digits_value_prefix,
    lemma_digits_value_step,
    lemma_pow10_increases,
    lemma_pow_step,
    lemma_radix_pow,
    lemma_round_bound,
    lemma_round_half_up_scale,
    pow10,
    radix_pow,
    round_half_up,
    CH_0,
};
use crate::radix::{
    bin_str_frac_to_bin,
    bin_str_int_to_bin,
    frac_round,
    hex_str_frac_to_bin,
    hex_str_int_to_bin,
    lemma_int_span_fits,
    oct_str_frac_to_bin,
    oct_str_int_to_bin,
};
use crate::sealed_int::SealedInt;
use crate::word::Word;
use vstd::arithmetic::power2::{lemma_pow2_adds, lemma_pow2_pos, pow2};
use vstd::prelude::*;
use vstd::string::StringSliceAdditionalSpecFns;

verus! {

/// The fraction that a span of fraction digits denotes, as `nbits` bits,
/// rounded to nearest with ties upward. A decimal fraction is taken to as
/// many digits as the number of bits calls for. Two to the `nbits` stands
/// for a fraction that rounds up to one.
pub open spec fn fraction_bits(frac: Seq<u8>, radix: u32, nbits: nat) -> nat {
    if radix == 10 {
        round_half_up(
            dec_prefix_value(frac, dec_digits(nbits)),
            pow10(dec_digits(nbits)),
            nbits,
        )
    } else {
        frac_round(frac, radix as nat, nbits)
    }
}

/// The magnitude that a numeral denotes, in units of two to the minus
/// `frac_nbits`: its whole part moved up by the fraction bits, plus its
/// fraction.
pub open spec fn magnitude(text: Seq<u8>, radix: u32, frac_nbits: nat) -> nat {
    digits_value(whole_digits(text), radix as nat) * pow2(frac_nbits) + fraction_bits(
        fraction_digits(text),
        radix,
        frac_nbits,
    )
}

/// The greatest magnitude that a type of the given width takes: all bits
/// for an unsigned type; for a signed type two to the width less one if the
/// number is negative, and one less than that if it is not.
pub open spec fn max_magnitude(width: nat, signed: bool, neg: bool) -> int {
    if !signed {
        pow2(width) - 1
    } else if neg {
        pow2((width - 1) as nat) as int
    } else {
        pow2((width - 1) as nat) - 1
    }
}

/// What parsing a numeral gives: the stored integer of the fixed-point
/// number, or the kind of the error. What is wrong with the text itself
/// comes before any overflow.
pub open spec fn parse_value(
    text: Seq<u8>,
    radix: u32,
    width: nat,
    frac_nbits: nat,
    signed: bool,
) -> Result<int, ParseErrorKind> {
    match lex_error(text, signed, radix) {
        Some(kind) => Err(kind),
        None => {
            let m = magnitude(text, radix, frac_nbits);
            if m > max_magnitude(width, signed, is_negative(text)) {
                Err(ParseErrorKind::Overflow)
            } else if is_negative(text) {
                Ok(-(m as int))
            } else {
                Ok(m as int)
            }
        },
    }
}

/// Whether what a parsing function gave back is the outcome that the text
/// calls for: the stored integer that stands for the value, or an error of
/// the kind.
pub open spec fn parsed_as<I: SealedInt>(
    r: Result<I, ParseFixedError>,
    outcome: Result<int, ParseErrorKind>,
) -> bool {
    match outcome {
        Ok(v) => r matches Ok(bits) && bits.int_value() == v,
        Err(kind) => r matches Err(e) && e.spec_kind() == kind,
    }
}

/// A zero in front does not change the number that digits denote.
pub proof fn lemma_trim_leading_value(s: Seq<u8>, radix: nat)
    requires
        radix > 0,
    ensures
        digits_value(trim_leading_zeros(s), radix) == digits_value(s, radix),
    decreases s.len(),
{
    if s.len() > 0 && s[0] == CH_0 {
        let head = s.take(1);
        let tail = s.drop_first();
        assert(head + tail =~= s);
        lemma_digits_value_concat(head, tail, radix);
        lemma_digits_value_step(head, 0, radix);
        assert(head.take(1) =~= head);
        assert(head.take(0).len() == 0);
        assert(0 * radix_pow(radix, tail.len()) == 0);
        lemma_trim_leading_value(tail, radix);
    }
}

/// A zero at the end does not change the fraction that digits denote.
pub proof fn lemma_fraction_bits_push_zero(s: Seq<u8>, radix: u32, nbits: nat)
    requires
        radix >= 2,
    ensures
        fraction_bits(s.push(CH_0), radix, nbits) == fraction_bits(s, radix, nbits),
{
    let t = s.push(CH_0);
    assert(t.drop_last() =~= s);
    if radix == 10 {
        let digits = dec_digits(nbits);
        let len = s.len();
        if len + 1 <= digits {
            lemma_pow_step((digits - len - 1) as nat);
            if len + 1 == digits {
                assert(t.take(digits as int) =~= t);
            }
            let v = digits_value(s, 10) as int;
            let p = pow10((digits - len - 1) as nat) as int;
            assert((v * 10 + 0) * p == v * (10 * p)) by (nonlinear_arith);
        } else {
            assert(t.take(digits as int) =~= s.take(digits as int));
        }
    } else {
        lemma_radix_pow(radix as nat, s.len());
        assert(digits_value(t, radix as nat) == digits_value(s, radix as nat) * radix + 0);
        lemma_round_half_up_scale(
            digits_value(s, radix as nat),
            radix_pow(radix as nat, s.len()),
            radix as nat,
            nbits,
        );
    }
}

/// Zeros at the end do not change the fraction that digits denote.
pub proof fn lemma_trim_trailing_fraction(s: Seq<u8>, radix: u32, nbits: nat)
    requires
        radix >= 2,
    ensures
        fraction_bits(trim_trailing_zeros(s), radix, nbits) == fraction_bits(s, radix, nbits),
    decreases s.len(),
{
    if s.len() > 0 && s.last() == CH_0 {
        let t = s.drop_last();
        assert(t.push(CH_0) =~= s);
        lemma_fraction_bits_push_zero(t, radix, nbits);
        lemma_trim_trailing_fraction(t, radix, nbits);
    }
}

/// A fraction is at most one: its bits do not exceed two to the `nbits`.
pub proof fn lemma_fraction_bits_bound(frac: Seq<u8>, radix: u32, nbits: nat)
    requires
        all_digits(frac, radix),
        radix >= 2,
    ensures
        fraction_bits(frac, radix, nbits) <= pow2(nbits),
{
    lemma_pow2_pos(nbits);
    let p = pow2(nbits) as int;
    if radix == 10 {
        let digits = dec_digits(nbits);
        let den = pow10(digits) as int;
        let num = dec_prefix_value(frac, digits) as int;
        lemma_pow10_increases(0, digits);
        assert(num < den) by {
            if frac.len() < digits {
                crate::model::lemma_digits_value_bound(frac, 10);
                crate::model::lemma_pow10_adds(frac.len(), (digits - frac.len()) as nat);
                lemma_pow10_increases(0, (digits - frac.len()) as nat);
                lemma_pow10_increases(0, frac.len());
                let v = digits_value(frac, 10) as int;
                let a = pow10(frac.len()) as int;
                let b = pow10((digits - frac.len()) as nat) as int;
                assert(v * b < a * b) by (nonlinear_arith)
                    requires
                        0 <= v < a,
                        b > 0,
                ;
                assert(frac.len() + (digits - frac.len()) as nat == digits);
                assert(a * b == den);
                assert(num == v * b);
            } else {
                let head = frac.take(digits as int);
                assert forall|j: int| 0 <= j < head.len() implies is_digit(
                    #[trigger] head[j],
                    10,
                ) by {
                    assert(head[j] == frac[j]);
                }
                crate::model::lemma_digits_value_bound(head, 10);
                assert(head.len() == digits);
                assert(num == digits_value(head, 10));
            }
        }
        lemma_round_bound(num as nat, den as nat, nbits);
    } else {
        crate::model::lemma_digits_value_bound(frac, radix);
        lemma_radix_pow(radix as nat, frac.len());
        lemma_round_bound(
            digits_value(frac, radix as nat),
            radix_pow(radix as nat, frac.len()),
            nbits,
        );
    }
}

/// Decimal whole digits to a word: times ten plus the digit, for each
/// digit in turn. No value means that the number does not fit the word.
pub fn dec_str_int_to_bin<I: Word>(s: &str) -> (r: Option<I>)
    requires
        all_digits(s.spec_bytes(), 10),
    ensures
        match r {
            Some(v) => v.int_value() == digits_value(s.spec_bytes(), 10),
            None => digits_value(s.spec_bytes(), 10) >= pow2(I::spec_nbits()),
        },
{
    let bytes = s.as_bytes();
    let ghost text = s.spec_bytes();
    let len = bytes.len();
    let ten = I::from_u8(10);
    let mut acc = I::from_u8(0);
    let mut index: usize = 0;
    proof {
        crate::model::lemma_digits_value_ends(text, 10);
    }
    while index < len
        invariant
            text == s.spec_bytes(),
            bytes@ == text,
            len == text.len(),
            index <= len,
            all_digits(text, 10),
            ten.int_value() == 10,
            acc.int_value() == digits_value(text.take(index as int), 10),
        decreases len - index,
    {
        proof {
            lemma_digit_value(text[index as int], 10);
            lemma_digits_value_step(text, index as int, 10);
            lemma_digits_value_prefix(text, index + 1, 10);
            lemma_radix_pow(10, (len - index - 1) as nat);
            let v = digits_value(text.take(index + 1), 10) as int;
            let p = radix_pow(10, (len - index - 1) as nat) as int;
            assert(v <= v * p) by (nonlinear_arith)
                requires
                    v >= 0,
                    p >= 1,
            ;
        }
        let digit = I::from_u8(bytes[index] - CH_0);
        let scaled = match acc.checked_mul(ten) {
            Some(product) => product,
            None => {
                return None;
            },
        };
        acc = match scaled.checked_add(digit) {
            Some(sum) => sum,
            None => {
                return None;
            },
        };
        index += 1;
    }
    proof {
        crate::model::lemma_digits_value_ends(text, 10);
    }
    Some(acc)
}

/// The whole part of a magnitude: the whole digits as a number, plus one if
/// the fraction rounded up to one, in the top `nbits` bits of a word. The
/// digits must not start with a zero. No value means that the whole part
/// does not fit its `nbits` bits.
pub fn get_int<I: Word>(whole: &str, radix: u32, nbits: u32, whole_frac: bool) -> (r: Option<I>)
    requires
        all_digits(whole.spec_bytes(), radix),
        whole.spec_bytes().len() > 0 ==> whole.spec_bytes()[0] != CH_0,
        nbits <= I::spec_nbits(),
    ensures
        ({
            let number = digits_value(whole.spec_bytes(), radix as nat) + if whole_frac {
                1nat
            } else {
                0nat
            };
            match r {
                Some(v) => number < pow2(nbits as nat) && v.int_value() == number * pow2(
                    (I::spec_nbits() - nbits) as nat,
                ),
                None => number >= pow2(nbits as nat),
            }
        }),
{
    let ghost text = whole.spec_bytes();
    let ghost width = I::spec_nbits();
    proof {
        I::lemma_word();
        lemma_pow2_widths();
        lemma_pow2_monotonic(nbits as nat, width);
        lemma_pow2_pos(nbits as nat);
    }
    let mut parsed_int: I = if whole.as_bytes().len() == 0 {
        I::from_u8(0)
    } else {
        proof {
            lemma_digit_value(text[0], radix);
            if radix == 2 {
                lemma_int_span_fits(text, 1, width);
            } else if radix == 8 {
                lemma_int_span_fits(text, 3, width);
            } else if radix == 16 {
                lemma_int_span_fits(text, 4, width);
            }
        }
        let digits = if radix == 2 {
            bin_str_int_to_bin(whole)
        } else if radix == 8 {
            oct_str_int_to_bin(whole)
        } else if radix == 16 {
            hex_str_int_to_bin(whole)
        } else {
            dec_str_int_to_bin(whole)
        };
        match digits {
            Some(v) => v,
            None => {
                return None;
            },
        }
    };
    if whole_frac {
        parsed_int = match parsed_int.checked_add(I::from_u8(1)) {
            Some(sum) => sum,
            None => {
                return None;
            },
        };
    }
    proof {
        I::lemma_int_value_range(parsed_int);
        lemma_div_reaches(parsed_int.int_value(), pow2(nbits as nat) as int, 1);
    }
    if nbits == 0 {
        return if parsed_int.is_zero() {
            proof {
                assert(0 * pow2(width) == 0);
            }
            Some(parsed_int)
        } else {
            None
        };
    }
    let remove_bits = I::nbits() - nbits;
    if remove_bits > 0 && !parsed_int.shr(nbits).is_zero() {
        None
    } else {
        proof {
            lemma_pow2_adds(nbits as nat, remove_bits as nat);
            lemma_pow2_pos(remove_bits as nat);
            let v = parsed_int.int_value();
            let p = pow2(nbits as nat) as int;
            let k = pow2(remove_bits as nat) as int;
            assert(v * k < p * k) by (nonlinear_arith)
                requires
                    0 <= v < p,
                    k > 0,
            ;
        }
        Some(parsed_int.shl(remove_bits))
    }
}

/// A decimal fraction as `nbits` fraction bits. The least of the widths
/// 8, 16, 32, 64 and 128 that holds the fraction bits does the work, so
/// the number of digits that count goes by the number of fraction bits.
pub fn dec_str_frac_to_bin<I: Word>(frac: &str, nbits: u32) -> (r: Option<I>)
    requires
        all_digits(frac.spec_bytes(), 10),
        nbits <= I::spec_nbits(),
    ensures
        match r {
            Some(v) => dec_frac_result(
                frac.spec_bytes(),
                dec_digits(nbits as nat),
                nbits as nat,
            ) == Some(v.int_value() as nat),
            None => dec_frac_result(frac.spec_bytes(), dec_digits(nbits as nat), nbits as nat)
                is None,
        },
{
    proof {
        I::lemma_word();
        lemma_pow2_monotonic(nbits as nat, I::spec_nbits());
    }
    let bits: Option<u128> = if nbits <= 8 {
        match get_frac8_dec(frac, nbits) {
            Some(b) => Some(b as u128),
            None => None,
        }
    } else if nbits <= 16 {
        match get_frac16_dec(frac, nbits) {
            Some(b) => Some(b as u128),
            None => None,
        }
    } else if nbits <= 32 {
        match get_frac32_dec(frac, nbits) {
            Some(b) => Some(b as u128),
            None => None,
        }
    } else if nbits <= 64 {
        match get_frac64_dec(frac, nbits) {
            Some(b) => Some(b as u128),
            None => None,
        }
    } else {
        get_frac128_dec(frac, nbits)
    };
    match bits {
        Some(b) => Some(I::from_u128(b)),
        None => None,
    }
}

/// The fraction of a magnitude: the fraction digits as `nbits` fraction
/// bits, rounded to nearest. No value means that the fraction rounds up to
/// one.
pub fn get_frac<I: Word>(frac: &str, radix: u32, nbits: u32) -> (r: Option<I>)
    requires
        all_digits(frac.spec_bytes(), radix),
        nbits <= I::spec_nbits(),
    ensures
        ({
            let bits = fraction_bits(frac.spec_bytes(), radix, nbits as nat);
            match r {
                Some(v) => v.int_value() == bits && bits < pow2(nbits as nat),
                None => bits >= pow2(nbits as nat),
            }
        }),
{
    let ghost text = frac.spec_bytes();
    if frac.as_bytes().len() == 0 {
        proof {
            lemma_fraction_bits_empty(text, radix, nbits as nat);
        }
        return Some(I::from_u8(0));
    }
    proof {
        lemma_digit_value(text[0], radix);
    }
    let bits = if radix == 2 {
        bin_str_frac_to_bin(frac, nbits)
    } else if radix == 8 {
        oct_str_frac_to_bin(frac, nbits)
    } else if radix == 16 {
        hex_str_frac_to_bin(frac, nbits)
    } else {
        dec_str_frac_to_bin(frac, nbits)
    };
    proof {
        if let Some(v) = bits {
            I::lemma_word();
            I::lemma_int_value_range(v);
        }
    }
    bits
}

/// No fraction digits denote no fraction.
pub proof fn lemma_fraction_bits_empty(frac: Seq<u8>, radix: u32, nbits: nat)
    requires
        frac.len() == 0,
    ensures
        fraction_bits(frac, radix, nbits) == 0,
        pow2(nbits) > 0,
{
    lemma_pow2_pos(nbits);
    let p = pow2(nbits) as int;
    assert(2 * 0 * p == 0) by (nonlinear_arith);
    if radix == 10 {
        let digits = dec_digits(nbits);
        lemma_pow10_increases(0, digits);
        assert(0 * pow10((digits - frac.len()) as nat) == 0);
        crate::arith::lemma_div_exact(0, (2 * pow10(digits)) as int, pow10(digits) as int);
    } else {
        vstd::arithmetic::power::lemma_pow0(radix as int);
        crate::arith::lemma_div_exact(0, 2, 1);
    }
}

/// The magnitude of a numeral with its sign: the whole digits and the
/// fraction digits are converted, the whole part takes the carry of a
/// fraction that rounds up to one, and both are put together. For a signed
/// type the magnitude may reach two to the width less one if the numeral
/// is negative, and must stay below it otherwise.
pub fn from_str_magnitude<I: Word>(
    s: &str,
    signed: bool,
    radix: u32,
    int_nbits: u32,
    frac_nbits: u32,
) -> (r: Result<(bool, I), ParseFixedError>)
    requires
        int_nbits + frac_nbits == I::spec_nbits(),
    ensures
        match parse_value(s.spec_bytes(), radix, I::spec_nbits(), frac_nbits as nat, signed) {
            Ok(v) => r matches Ok((neg, m)) && neg == is_negative(s.spec_bytes()) && m.int_value()
                == crate::sealed_int::abs(v),
            Err(kind) => r matches Err(e) && e.spec_kind() == kind,
        },
{
    let ghost text = s.spec_bytes();
    let ghost width = I::spec_nbits();
    let p = match parse_bounds(s, signed, radix) {
        Ok(p) => p,
        Err(e) => {
            return Err(e);
        },
    };
    let ghost whole = digits_value(whole_digits(text), radix as nat);
    let ghost fraction = fraction_bits(fraction_digits(text), radix, frac_nbits as nat);
    let ghost unit = pow2(frac_nbits as nat) as int;
    proof {
        I::lemma_word();
        lemma_pow2_widths();
        lemma_lexed_shape(text, signed, radix);
        lemma_trim_leading_value(whole_digits(text), radix as nat);
        lemma_trim_trailing_fraction(fraction_digits(text), radix, frac_nbits as nat);
        lemma_fraction_bits_bound(p.frac.spec_bytes(), radix, frac_nbits as nat);
        lemma_pow2_adds(int_nbits as nat, frac_nbits as nat);
        lemma_pow2_pos(frac_nbits as nat);
        lemma_pow2_pos(int_nbits as nat);
        lemma_pow2_monotonic((width - 1) as nat, width);
    }
    let (abs_frac, whole_frac) = match get_frac::<I>(p.frac, radix, frac_nbits) {
        Some(frac) => (frac, false),
        None => (I::from_u8(0), true),
    };
    let ghost number = whole + if whole_frac {
        1nat
    } else {
        0nat
    };
    proof {
        assert(number * unit + abs_frac.int_value() == whole * unit + fraction) by (nonlinear_arith)
            requires
                whole_frac ==> number == whole + 1 && abs_frac.int_value() == 0 && fraction == unit,
                !whole_frac ==> number == whole && abs_frac.int_value() == fraction,
        ;
    }
    let abs_int = match get_int::<I>(p.int, radix, int_nbits, whole_frac) {
        Some(i) => i,
        None => {
            proof {
                let limit = pow2(int_nbits as nat) as int;
                assert(number * unit >= limit * unit) by (nonlinear_arith)
                    requires
                        number >= limit,
                        unit > 0,
                ;
            }
            return Err(ParseFixedError::new(ParseErrorKind::Overflow));
        },
    };
    proof {
        let limit = pow2(int_nbits as nat) as int;
        assert(number * unit + unit <= limit * unit) by (nonlinear_arith)
            requires
                0 <= number < limit,
                unit > 0,
        ;
    }
    let abs = abs_int.plus(abs_frac);
    if signed {
        let msb = I::msb();
        let over = if p.neg {
            msb.less_than(abs)
        } else {
            !abs.less_than(msb)
        };
        if over {
            return Err(ParseFixedError::new(ParseErrorKind::Overflow));
        }
    }
    Ok((p.neg, abs))
}

/// Parses a numeral as the bits of an unsigned fixed-point number of 8
/// bits, `frac_nbits` of them fraction bits.
pub fn from_str_u8(s: &str, radix: u32, int_nbits: u32, frac_nbits: u32) -> (r: Result<
    u8,
    ParseFixedError,
>)
    requires
        int_nbits + frac_nbits == 8,
    ensures
        parsed_as(r, parse_value(s.spec_bytes(), radix, 8, frac_nbits as nat, false)),
{
    proof {
        if lex_error(s.spec_bytes(), false, radix) is None {
            lemma_lexed_shape(s.spec_bytes(), false, radix);
        }
    }
    match from_str_magnitude::<u8>(s, false, radix, int_nbits, frac_nbits) {
        Ok((_, abs)) => Ok(abs),
        Err(e) => Err(e),
    }
}

/// Parses a numeral as the bits of a signed fixed-point number of 8
/// bits, `frac_nbits` of them fraction bits, in two's complement.
pub fn from_str_i8(s: &str, radix: u32, int_nbits: u32, frac_nbits: u32) -> (r: Result<
    i8,
    ParseFixedError,
>)
    requires
        int_nbits + frac_nbits == 8,
    ensures
        parsed_as(r, parse_value(s.spec_bytes(), radix, 8, frac_nbits as nat, true)),
{
    proof {
        lemma_pow2_widths();
    }
    match from_str_magnitude::<u8>(s, true, radix, int_nbits, frac_nbits) {
        Ok((neg, abs)) => Ok(<i8 as SealedInt>::from_neg_abs(neg, abs)),
        Err(e) => Err(e),
    }
}

/// Parses a numeral as the bits of an unsigned fixed-point number of 16
/// bits, `frac_nbits` of them fraction bits.
pub fn from_str_u16(s: &str, radix: u32, int_nbits: u32, frac_nbits: u32) -> (r: Result<
    u16,
    ParseFixedError,
>)
    requires
        int_nbits + frac_nbits == 16,
    ensures
        parsed_as(r, parse_value(s.spec_bytes(), radix, 16, frac_nbits as nat, false)),
{
    proof {
        if lex_error(s.spec_bytes(), false, radix) is None {
            lemma_lexed_shape(s.spec_bytes(), false, radix);
        }
    }
    match from_str_magnitude::<u16>(s, false, radix, int_nbits, frac_nbits) {
        Ok((_, abs)) => Ok(abs),
        Err(e) => Err(e),
    }
}

/// Parses a numeral as the bits of a signed fixed-point number of 16
/// bits, `frac_nbits` of them fraction bits, in two's complement.
pub fn from_str_i16(s: &str, radix: u32, int_nbits: u32, frac_nbits: u32) -> (r: Result<
    i16,
    ParseFixedError,
>)
    requires
        int_nbits + frac_nbits == 16,
    ensures
        parsed_as(r, parse_value(s.spec_bytes(), radix, 16, frac_nbits as nat, true)),
{
    proof {
        lemma_pow2_widths();
    }
    match from_str_magnitude::<u16>(s, true, radix, int_nbits, frac_nbits) {
        Ok((neg, abs)) => Ok(<i16 as SealedInt>::from_neg_abs(neg, abs)),
        Err(e) => Err(e),
    }
}

/// Parses a numeral as the bits of an unsigned fixed-point number of 32
/// bits, `frac_nbits` of them fraction bits.
pub fn from_str_u32(s: &str, radix: u32, int_nbits: u32, frac_nbits: u32) -> (r: Result<
    u32,
    ParseFixedError,
>)
    requires
        int_nbits + frac_nbits == 32,
    ensures
        parsed_as(r, parse_value(s.spec_bytes(), radix, 32, frac_nbits as nat, false)),
{
    proof {
        if lex_error(s.spec_bytes(), false, radix) is None {
            lemma_lexed_shape(s.spec_bytes(), false, radix);
        }
    }
    match from_str_magnitude::<u32>(s, false, radix, int_nbits, frac_nbits) {
        Ok((_, abs)) => Ok(abs),
        Err(e) => Err(e),
    }
}

/// Parses a numeral as the bits of a signed fixed-point number of 32
/// bits, `frac_nbits` of them fraction bits, in two's complement.
pub fn from_str_i32(s: &str, radix: u32, int_nbits: u32, frac_nbits: u32) -> (r: Result<
    i32,
    ParseFixedError,
>)
    requires
        int_nbits + frac_nbits == 32,
    ensures
        parsed_as(r, parse_value(s.spec_bytes(), radix, 32, frac_nbits as nat, true)),
{
    proof {
        lemma_pow2_widths();
    }
    match from_str_magnitude::<u32>(s, true, radix, int_nbits, frac_nbits) {
        Ok((neg, abs)) => Ok(<i32 as SealedInt>::from_neg_abs(neg, abs)),
        Err(e) => Err(e),
    }
}

/// Parses a numeral as the bits of an unsigned fixed-point number of 64
/// bits, `frac_nbits` of them fraction bits.
pub fn from_str_u64(s: &str, radix: u32, int_nbits: u32, frac_nbits: u32) -> (r: Result<
    u64,
    ParseFixedError,
>)
    requires
        int_nbits + frac_nbits == 64,
    ensures
        parsed_as(r, parse_value(s.spec_bytes(), radix, 64, frac_nbits as nat, false)),
{
    proof {
        if lex_error(s.spec_bytes(), false, radix) is None {
            lemma_lexed_shape(s.spec_bytes(), false, radix);
        }
    }
    match from_str_magnitude::<u64>(s, false, radix, int_nbits, frac_nbits) {
        Ok((_, abs)) => Ok(abs),
        Err(e) => Err(e),
    }
}

/// Parses a numeral as the bits of a signed fixed-point number of 64
/// bits, `frac_nbits` of them fraction bits, in two's complement.
pub fn from_str_i64(s: &str, radix: u32, int_nbits: u32, frac_nbits: u32) -> (r: Result<
    i64,
    ParseFixedError,
>)
    requires
        int_nbits + frac_nbits == 64,
    ensures
        parsed_as(r, parse_value(s.spec_bytes(), radix, 64, frac_nbits as nat, true)),
{
    proof {
        lemma_pow2_widths();
    }
    match from_str_magnitude::<u64>(s, true, radix, int_nbits, frac_nbits) {
        Ok((neg, abs)) => Ok(<i64 as SealedInt>::from_neg_abs(neg, abs)),
        Err(e) => Err(e),
    }
}

/// Parses a numeral as the bits of an unsigned fixed-point number of 128
/// bits, `frac_nbits` of them fraction bits.
pub fn from_str_u128(s: &str, radix: u32, int_nbits: u32, frac_nbits: u32) -> (r: Result<
    u128,
    ParseFixedError,
>)
    requires
        int_nbits + frac_nbits == 128,
    ensures
        parsed_as(r, parse_value(s.spec_bytes(), radix, 128, frac_nbits as nat, false)),
{
    proof {
        if lex_error(s.spec_bytes(), false, radix) is None {
            lemma_lexed_shape(s.spec_bytes(), false, radix);
        }
    }
    match from_str_magnitude::<u128>(s, false, radix, int_nbits, frac_nbits) {
        Ok((_, abs)) => Ok(abs),
        Err(e) => Err(e),
    }
}

/// Parses a numeral as the bits of a signed fixed-point number of 128
/// bits, `frac_nbits` of them fraction bits, in two's complement.
pub fn from_str_i128(s: &str, radix: u32, int_nbits: u32, frac_nbits: u32) -> (r: Result<
    i128,
    ParseFixedError,
>)
    requires
        int_nbits + frac_nbits == 128,
    ensures
        parsed_as(r, parse_value(s.spec_bytes(), radix, 128, frac_nbits as nat, true)),
{
    proof {
        lemma_pow2_widths();
    }
    match from_str_magnitude::<u128>(s, true, radix, int_nbits, frac_nbits) {
        Ok((neg, abs)) => Ok(<i128 as SealedInt>::from_neg_abs(neg, abs)),
        Err(e) => Err(e),
    }
}

} // verus!
