//! What holds of parsing as a whole, proved from the contracts of the
//! parsing functions.
use crate::bounds::{
    fraction_digits,
    is_negative,
    lemma_lexed_shape,
    lex_error,
    rejected_from,
    whole_digits,
};
use crate::decimal::dec_digits;
use crate::error::{ParseErrorKind, ParseFixedError};
use crate::from_str::{fraction_bits, magnitude, max_magnitude, parse_value, parsed_as};
use crate::layout::{parsed_raw, FixedLayout, RawBits};
use crate::model::{
    all_digits,
    digits_value,
    lemma_digits_value_concat,
    lemma_pow10_adds,
    lemma_pow10_increases,
    lemma_radix_pow,
    lemma_round_half_up_scale,
    pow10,
    radix_pow,
    round_half_up,
};
use crate::sealed_int::SealedInt;
use vstd::arithmetic::power2::pow2;
use vstd::prelude::*;

verus! {

/// Parsing is a function of its arguments: two results for the same text,
/// radix and layout are the same result.
pub proof fn lemma_parse_deterministic<I: SealedInt>(
    text: Seq<u8>,
    radix: u32,
    width: nat,
    frac_nbits: nat,
    signed: bool,
    first: Result<I, ParseFixedError>,
    second: Result<I, ParseFixedError>,
)
    requires
        parsed_as(first, parse_value(text, radix, width, frac_nbits, signed)),
        parsed_as(second, parse_value(text, radix, width, frac_nbits, signed)),
    ensures
        first == second,
{
    match parse_value(text, radix, width, frac_nbits, signed) {
        Ok(v) => {
            I::lemma_int_value_injective(first->Ok_0, second->Ok_0);
        },
        Err(kind) => {
            ParseFixedError::lemma_kind_determines(first->Err_0, second->Err_0);
        },
    }
}

/// Parsing by layout is a function of its arguments as well.
pub proof fn lemma_parse_by_layout_deterministic(
    text: Seq<u8>,
    radix: u32,
    layout: FixedLayout,
    first: Result<RawBits, ParseFixedError>,
    second: Result<RawBits, ParseFixedError>,
)
    requires
        parsed_raw(first, text, radix, layout),
        parsed_raw(second, text, radix, layout),
    ensures
        first == second,
{
    if first is Err {
        ParseFixedError::lemma_kind_determines(first->Err_0, second->Err_0);
    }
}

/// Rounding gives the nearest value: the rounded value is off by at most
/// half a unit, and by half a unit only downward, that is, a tie goes up.
pub proof fn lemma_round_half_up_nearest(num: nat, den: nat, nbits: nat)
    requires
        den > 0,
    ensures
        -(den as int) <= 2 * (num * pow2(nbits) - round_half_up(num, den, nbits) * den) < den,
{
    let p = pow2(nbits) as int;
    let n = num as int;
    let d = den as int;
    let x = 2 * n * p + d;
    let r = round_half_up(num, den, nbits) as int;
    assert(x >= 0) by (nonlinear_arith)
        requires
            x == 2 * n * p + d,
            n >= 0,
            p >= 0,
            d > 0,
    ;
    vstd::arithmetic::div_mod::lemma_fundamental_div_mod(x, 2 * d);
    vstd::arithmetic::div_mod::lemma_mod_bound(x, 2 * d);
    assert(2 * (n * p - r * d) == x % (2 * d) - d) by (nonlinear_arith)
        requires
            x == 2 * n * p + d,
            x == (2 * d) * r + x % (2 * d),
    ;
}

/// Whether all digits of a fraction count: in radix 2, 8 and 16 always, in
/// radix 10 if there are no more digits than the number of fraction bits
/// calls for.
pub open spec fn all_digits_count(frac: Seq<u8>, radix: u32, nbits: nat) -> bool {
    radix == 10 ==> frac.len() <= dec_digits(nbits)
}

/// A fraction whose digits all count is converted to the nearest value to
/// the fraction itself: off by at most half a unit, and by half a unit only
/// downward.
pub proof fn lemma_fraction_nearest(frac: Seq<u8>, radix: u32, nbits: nat)
    requires
        all_digits(frac, radix),
        radix >= 2,
        all_digits_count(frac, radix, nbits),
    ensures
        radix_pow(radix as nat, frac.len()) > 0,
        fraction_bits(frac, radix, nbits) == round_half_up(
            digits_value(frac, radix as nat),
            radix_pow(radix as nat, frac.len()),
            nbits,
        ),
        -(radix_pow(radix as nat, frac.len()) as int) <= 2 * (digits_value(frac, radix as nat)
            * pow2(nbits) - fraction_bits(frac, radix, nbits) * radix_pow(
            radix as nat,
            frac.len(),
        )) < radix_pow(radix as nat, frac.len()),
{
    let len = frac.len();
    lemma_radix_pow(radix as nat, len);
    if radix == 10 {
        let digits = dec_digits(nbits);
        let rest = (digits - len) as nat;
        lemma_pow10_increases(0, len);
        lemma_pow10_increases(0, rest);
        lemma_pow10_adds(len, rest);
        if len == digits {
            assert(frac.take(digits as int) =~= frac);
        } else {
            lemma_round_half_up_scale(digits_value(frac, 10), pow10(len), pow10(rest), nbits);
        }
    }
    lemma_round_half_up_nearest(
        digits_value(frac, radix as nat),
        radix_pow(radix as nat, len),
        nbits,
    );
}

/// Equal fractions are converted to equal bits, whatever the radix in
/// which each is written and however many digits each has, as long as all
/// their digits count.
pub proof fn lemma_equal_fractions_convert_equally(
    first: Seq<u8>,
    first_radix: u32,
    second: Seq<u8>,
    second_radix: u32,
    nbits: nat,
)
    requires
        all_digits(first, first_radix),
        all_digits(second, second_radix),
        first_radix >= 2,
        second_radix >= 2,
        all_digits_count(first, first_radix, nbits),
        all_digits_count(second, second_radix, nbits),
        digits_value(first, first_radix as nat) * radix_pow(second_radix as nat, second.len())
            == digits_value(second, second_radix as nat) * radix_pow(
            first_radix as nat,
            first.len(),
        ),
    ensures
        fraction_bits(first, first_radix, nbits) == fraction_bits(second, second_radix, nbits),
{
    let v1 = digits_value(first, first_radix as nat);
    let v2 = digits_value(second, second_radix as nat);
    let d1 = radix_pow(first_radix as nat, first.len());
    let d2 = radix_pow(second_radix as nat, second.len());
    lemma_fraction_nearest(first, first_radix, nbits);
    lemma_fraction_nearest(second, second_radix, nbits);
    lemma_radix_pow(second_radix as nat, second.len());
    lemma_round_half_up_scale(v1, d1, d2, nbits);
    lemma_round_half_up_scale(v2, d2, d1, nbits);
    assert(d1 * d2 == d2 * d1) by (nonlinear_arith);
}

/// The magnitude that a numeral is converted to is the nearest multiple of
/// the unit, two to the minus `frac_nbits`, to the number that is written,
/// if all digits of its fraction count: off by at most half a unit, and by
/// half a unit only downward. The number that is written is its whole
/// digits and its fraction digits read as one number, over the radix to the
/// count of the fraction digits.
pub proof fn lemma_magnitude_nearest(text: Seq<u8>, can_be_neg: bool, radix: u32, frac_nbits: nat)
    requires
        lex_error(text, can_be_neg, radix) is None,
        all_digits_count(fraction_digits(text), radix, frac_nbits),
    ensures
        ({
            let den = radix_pow(radix as nat, fraction_digits(text).len());
            let num = digits_value(whole_digits(text), radix as nat) * den + digits_value(
                fraction_digits(text),
                radix as nat,
            );
            &&& den > 0
            &&& num == digits_value(whole_digits(text) + fraction_digits(text), radix as nat)
            &&& -(den as int) <= 2 * (num * pow2(frac_nbits) - magnitude(text, radix, frac_nbits)
                * den) < den
        }),
{
    let whole = whole_digits(text);
    let fraction = fraction_digits(text);
    lemma_lexed_shape(text, can_be_neg, radix);
    lemma_fraction_nearest(fraction, radix, frac_nbits);
    lemma_digits_value_concat(whole, fraction, radix as nat);
    let den = radix_pow(radix as nat, fraction.len()) as int;
    let w = digits_value(whole, radix as nat) as int;
    let v = digits_value(fraction, radix as nat) as int;
    let f = fraction_bits(fraction, radix, frac_nbits) as int;
    let unit = pow2(frac_nbits) as int;
    assert((w * den + v) * unit - (w * unit + f) * den == v * unit - f * den) by (nonlinear_arith);
}

/// A signed type takes a magnitude of two to the width less one from a
/// negative numeral and not from any other: the least value has no
/// counterpart above zero.
pub proof fn lemma_signed_range_asymmetric(text: Seq<u8>, radix: u32, width: nat, frac_nbits: nat)
    requires
        width >= 1,
        lex_error(text, true, radix) is None,
        magnitude(text, radix, frac_nbits) == pow2((width - 1) as nat),
    ensures
        max_magnitude(width, true, true) == max_magnitude(width, true, false) + 1,
        is_negative(text) ==> parse_value(text, radix, width, frac_nbits, true) == Ok::<
            int,
            ParseErrorKind,
        >(-(pow2((width - 1) as nat) as int)),
        !is_negative(text) ==> parse_value(text, radix, width, frac_nbits, true) == Err::<
            int,
            ParseErrorKind,
        >(ParseErrorKind::Overflow),
{
}

/// Whether negative numbers are allowed matters to a text only if it starts
/// with a minus sign.
pub proof fn lemma_sign_matters_to_minus_only(text: Seq<u8>, radix: u32, from: int)
    requires
        0 <= from <= text.len(),
        !is_negative(text),
    ensures
        rejected_from(text, true, radix, from) == rejected_from(text, false, radix, from),
    decreases text.len() - from,
{
    if from < text.len() {
        lemma_sign_matters_to_minus_only(text, radix, from + 1);
    }
}

/// A numeral without a minus sign means the same to a signed and to an
/// unsigned type, as far as the signed type reaches.
pub proof fn lemma_signed_agrees_with_unsigned(
    text: Seq<u8>,
    radix: u32,
    width: nat,
    frac_nbits: nat,
)
    requires
        width >= 1,
        !is_negative(text),
    ensures
        parse_value(text, radix, width, frac_nbits, true) is Ok ==> parse_value(
            text,
            radix,
            width,
            frac_nbits,
            true,
        ) == parse_value(text, radix, width, frac_nbits, false),
        lex_error(text, true, radix) == lex_error(text, false, radix),
{
    lemma_sign_matters_to_minus_only(text, radix, 0);
    crate::arith::lemma_pow2_monotonic((width - 1) as nat, width);
}

} // verus!
