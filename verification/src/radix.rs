//! Digits of radix 2, 8 and 16 to bits. Each digit carries 1, 3 or 4 bits,
//! so nothing is rounded but at the place where a fraction is cut off.
use crate::arith::{lemma_div_add_multiple, lemma_div_div, lemma_pow2_monotonic, lemma_pow2_widths};
use crate::model::{
    all_digits,
    digit_value,
    digits_value,
    is_digit,
    lemma_digit_value,
    lemma_digits_value_bound,
    lemma_digits_value_concat,
    lemma_digits_value_prefix,
    lemma_digits_value_step,
    lemma_radix_pow_pow2,
    lemma_round_cut,
    lemma_round_exact,
    radix_pow,
    round_half_up,
    CH_0,
};
use crate::sealed_int::SealedInt;
use crate::word::Word;
use vstd::arithmetic::power2::{lemma_pow2_adds, lemma_pow2_pos, lemma_pow2_unfold, pow2};
use vstd::prelude::*;
use vstd::string::StringSliceAdditionalSpecFns;

verus! {

/// The radix whose digits carry `bits` bits each.
pub open spec fn radix_of(bits: u32) -> u32 {
    if bits == 1 {
        2
    } else if bits == 3 {
        8
    } else {
        16
    }
}

/// The number of bits that the value of a digit takes.
pub open spec fn digit_bits(v: nat) -> nat {
    if v >= 8 {
        4
    } else if v >= 4 {
        3
    } else if v >= 2 {
        2
    } else if v >= 1 {
        1
    } else {
        0
    }
}

/// Whether whole digits of `bits` bits each fit `nbits` bits by the count
/// of their bits: those that the first digit takes, and `bits` for each
/// digit behind it.
pub open spec fn int_span_fits(s: Seq<u8>, bits: nat, nbits: nat) -> bool {
    digit_bits(digit_value(s[0])) + bits * (s.len() - 1) <= nbits
}

/// The fraction that a span of digits denotes, in `nbits` bits, rounded to
/// nearest with ties upward. Two to the `nbits` stands for a fraction that
/// rounds up to one.
pub open spec fn frac_round(s: Seq<u8>, radix: nat, nbits: nat) -> nat {
    round_half_up(digits_value(s, radix), radix_pow(radix, s.len()), nbits)
}

/// The radixes of 1, 3 and 4 bits are two to the number of bits.
pub proof fn lemma_radix_of(bits: u32)
    requires
        bits == 1 || bits == 3 || bits == 4,
    ensures
        radix_of(bits) == pow2(bits as nat),
        radix_of(bits) >= 2,
{
    lemma_pow2_widths();
}

/// Whole digits that do not start with a zero fit by the count of their
/// bits exactly if the number that they denote is below two to the `nbits`.
pub proof fn lemma_int_span_fits(s: Seq<u8>, bits: u32, nbits: nat)
    requires
        bits == 1 || bits == 3 || bits == 4,
        s.len() > 0,
        all_digits(s, radix_of(bits)),
        s[0] != CH_0,
    ensures
        int_span_fits(s, bits as nat, nbits) <==> digits_value(s, radix_of(bits) as nat) < pow2(
            nbits,
        ),
{
    let radix = radix_of(bits);
    lemma_radix_of(bits);
    lemma_pow2_widths();
    let head = s.take(1);
    let tail = s.skip(1);
    let rest = tail.len();
    assert(head + tail =~= s);
    lemma_digits_value_concat(head, tail, radix as nat);
    lemma_digits_value_step(head, 0, radix as nat);
    assert(head.take(1) =~= head);
    assert(head.take(0).len() == 0);
    assert forall|j: int| 0 <= j < tail.len() implies is_digit(#[trigger] tail[j], radix) by {
        assert(tail[j] == s[1 + j]);
    }
    lemma_digits_value_bound(tail, radix);
    lemma_digit_value(s[0], radix);
    lemma_radix_pow_pow2(bits as nat, rest);
    let first = digit_value(s[0]) as int;
    let width = digit_bits(first as nat);
    let p = pow2(bits as nat * rest) as int;
    let v = digits_value(s, radix as nat) as int;
    assert(digits_value(head, radix as nat) == first);
    assert(first * p <= v < first * p + p);
    // the first digit lies between two powers of two
    let low = pow2((width - 1) as nat) as int;
    let high = pow2(width) as int;
    assert(low <= first < high);
    lemma_pow2_adds((width - 1) as nat, bits as nat * rest);
    lemma_pow2_adds(width, bits as nat * rest);
    lemma_pow2_pos(bits as nat * rest);
    assert(low * p <= v) by (nonlinear_arith)
        requires
            low <= first,
            first * p <= v,
            p > 0,
    ;
    assert(v < high * p) by (nonlinear_arith)
        requires
            first < high,
            v < first * p + p,
            p > 0,
    ;
    if width + bits as nat * rest <= nbits {
        lemma_pow2_monotonic(width + bits as nat * rest, nbits);
    } else {
        lemma_pow2_monotonic(nbits, (width - 1) as nat + bits as nat * rest);
    }
}

/// The value of a hexadecimal digit. We know that byte is a valid hex:
///   * `0`..=`9` (0x30..=0x39) give byte & 0x0f
///   * `A`..=`F` (0x41..=0x46) give byte & 0x0f + 9
///   * `a`..=`f` (0x61..=0x66) give byte & 0x0f + 9
#[inline]
pub fn unchecked_hex_digit(byte: u8) -> (r: u8)
    requires
        is_digit(byte, 16),
    ensures
        r == digit_value(byte),
{
    proof {
        assert(0x30 <= byte <= 0x39 ==> byte & 0x0f == byte - 0x30) by (bit_vector);
        assert(0x41 <= byte <= 0x46 ==> byte & 0x0f == byte - 0x40) by (bit_vector);
        assert(0x61 <= byte <= 0x66 ==> byte & 0x0f == byte - 0x60) by (bit_vector);
    }
    (byte & 0x0f) + if byte >= 0x40 {
        9
    } else {
        0
    }
}

/// The number of bits that a digit's value takes: the width of a byte less
/// its leading zeros.
fn digit_bit_length(v: u8) -> (r: u32)
    requires
        v < 16,
    ensures
        r == digit_bits(v as nat),
{
    if v >= 8 {
        4
    } else if v >= 4 {
        3
    } else if v >= 2 {
        2
    } else if v >= 1 {
        1
    } else {
        0
    }
}

/// Whole digits of `bits` bits each to a word: shift the word left by
/// `bits` and add the digit, for each digit in turn. The leading zeros that
/// the first digit leaves in the word are the budget; each further digit
/// takes `bits` of it, and the fold stops as soon as the budget is used up.
fn str_int_to_bin<I: Word>(s: &str, bits: u32) -> (r: Option<I>)
    requires
        bits == 1 || bits == 3 || bits == 4,
        s.spec_bytes().len() > 0,
        all_digits(s.spec_bytes(), radix_of(bits)),
    ensures
        match r {
            Some(v) => int_span_fits(s.spec_bytes(), bits as nat, I::spec_nbits()) && v.int_value()
                == digits_value(s.spec_bytes(), radix_of(bits) as nat),
            None => !int_span_fits(s.spec_bytes(), bits as nat, I::spec_nbits()),
        },
{
    let bytes = s.as_bytes();
    let ghost text = s.spec_bytes();
    let ghost radix = radix_of(bits);
    let ghost nbits = I::spec_nbits();
    let len = bytes.len();
    proof {
        I::lemma_word();
        lemma_radix_of(bits);
        lemma_pow2_widths();
        lemma_digit_value(text[0], radix);
        lemma_digits_value_step(text, 0, radix as nat);
    }
    let first_val = unchecked_hex_digit(bytes[0]);
    let mut acc = I::from_u8(first_val);
    let mut leading_zeros: u32 = I::nbits() - digit_bit_length(first_val);
    let mut index: usize = 1;
    while index < len
        invariant
            bits == 1 || bits == 3 || bits == 4,
            radix == radix_of(bits),
            nbits == I::spec_nbits(),
            text == s.spec_bytes(),
            bytes@ == text,
            len == text.len(),
            all_digits(text, radix),
            1 <= index <= len,
            acc.int_value() == digits_value(text.take(index as int), radix as nat),
            leading_zeros + digit_bits(digit_value(text[0])) + bits * (index - 1) == nbits,
            acc.int_value() < pow2((nbits - leading_zeros) as nat),
        decreases len - index,
    {
        proof {
            lemma_digit_value(text[index as int], radix);
        }
        let val = unchecked_hex_digit(bytes[index]);
        if leading_zeros < bits {
            proof {
                assert(bits * (len - 1) >= bits * (index - 1) + bits) by (nonlinear_arith)
                    requires
                        len - 1 >= index,
                        bits >= 0,
                ;
            }
            return None;
        }
        proof {
            I::lemma_word();
            lemma_radix_of(bits);
            let used = (nbits - leading_zeros) as nat;
            lemma_pow2_adds(used, bits as nat);
            lemma_pow2_monotonic(used + bits as nat, nbits);
            lemma_digits_value_step(text, index as int, radix as nat);
            let a = acc.int_value();
            let p = pow2(used) as int;
            let r = pow2(bits as nat) as int;
            assert(0 <= a) by {
                I::lemma_int_value_range(acc);
            }
            assert(a * r + val < p * r) by (nonlinear_arith)
                requires
                    0 <= a < p,
                    0 <= val < r,
            ;
            assert(a * r >= 0) by (nonlinear_arith)
                requires
                    0 <= a,
                    r > 0,
            ;
        }
        leading_zeros = leading_zeros - bits;
        acc = acc.shl(bits).plus(I::from_u8(val));
        index += 1;
    }
    proof {
        lemma_digits_value_step(text, 0, radix as nat);
    }
    Some(acc)
}

/// Binary whole digits to a word.
pub fn bin_str_int_to_bin<I: Word>(s: &str) -> (r: Option<I>)
    requires
        s.spec_bytes().len() > 0,
        all_digits(s.spec_bytes(), 2),
    ensures
        match r {
            Some(v) => int_span_fits(s.spec_bytes(), 1, I::spec_nbits()) && v.int_value()
                == digits_value(s.spec_bytes(), 2),
            None => !int_span_fits(s.spec_bytes(), 1, I::spec_nbits()),
        },
{
    str_int_to_bin(s, 1)
}

/// Octal whole digits to a word.
pub fn oct_str_int_to_bin<I: Word>(s: &str) -> (r: Option<I>)
    requires
        s.spec_bytes().len() > 0,
        all_digits(s.spec_bytes(), 8),
    ensures
        match r {
            Some(v) => int_span_fits(s.spec_bytes(), 3, I::spec_nbits()) && v.int_value()
                == digits_value(s.spec_bytes(), 8),
            None => !int_span_fits(s.spec_bytes(), 3, I::spec_nbits()),
        },
{
    str_int_to_bin(s, 3)
}

/// Hexadecimal whole digits to a word.
pub fn hex_str_int_to_bin<I: Word>(s: &str) -> (r: Option<I>)
    requires
        s.spec_bytes().len() > 0,
        all_digits(s.spec_bytes(), 16),
    ensures
        match r {
            Some(v) => int_span_fits(s.spec_bytes(), 4, I::spec_nbits()) && v.int_value()
                == digits_value(s.spec_bytes(), 16),
            None => !int_span_fits(s.spec_bytes(), 4, I::spec_nbits()),
        },
{
    str_int_to_bin(s, 4)
}

/// Where a fraction is cut inside a digit: the bits of the digit that stay,
/// and the bit behind them, which rounds. `acc` holds the digits before,
/// `val` is the digit, `keep` the number of its bits that stay.
proof fn lemma_cut_digit(acc: int, val: int, bits: nat, keep: nat)
    requires
        0 <= acc,
        0 <= val < pow2(bits),
        keep < bits,
    ensures
        pow2((bits - keep) as nat) > 0,
        pow2((bits - keep - 1) as nat) > 0,
        0 <= val / (pow2((bits - keep) as nat) as int) < pow2(keep),
        acc * pow2(keep) + val / (pow2((bits - keep) as nat) as int) + (val / (pow2(
            (bits - keep - 1) as nat,
        ) as int)) % 2 == ((acc * pow2(bits) + val) / (pow2((bits - keep - 1) as nat) as int) + 1)
            / 2,
{
    let t = (bits - keep - 1) as nat;
    lemma_pow2_pos(t);
    lemma_pow2_pos(t + 1);
    lemma_pow2_pos(keep);
    lemma_pow2_unfold(t + 1);
    lemma_pow2_adds(keep + 1, t);
    lemma_pow2_adds(keep, t + 1);
    lemma_pow2_unfold(keep + 1);
    let pt = pow2(t) as int;
    let pk = pow2(keep) as int;
    let w = val / pt;
    // (acc * 2^bits + val) / 2^t == 2 * acc * 2^keep + w
    assert(acc * pow2(bits) == (2 * (acc * pk)) * pt) by (nonlinear_arith)
        requires
            pow2(bits) == (2 * pk) * pt,
    ;
    lemma_div_add_multiple(val, 2 * (acc * pk), pt);
    // w / 2 == val / 2^(t + 1)
    lemma_div_div(val, pt, 2);
    assert(pt * 2 == 2 * pt);
    vstd::arithmetic::div_mod::lemma_fundamental_div_mod(w, 2);
    lemma_div_add_multiple(w + 1, acc * pk, 2);
    assert((acc * pk) * 2 + (w + 1) == 2 * (acc * pk) + w + 1);
    // val / 2^(t + 1) < 2^keep
    vstd::arithmetic::div_mod::lemma_div_by_multiple_is_strongly_ordered(
        val,
        pow2(bits) as int,
        pk,
        pow2(t + 1) as int,
    );
    vstd::arithmetic::div_mod::lemma_div_by_multiple(pk, pow2(t + 1) as int);
    vstd::arithmetic::div_mod::lemma_div_pos_is_pos(val, pow2(t + 1) as int);
    assert(pk * pow2(t + 1) == pow2(bits));
}

/// A fraction that is cut inside its digit `index` rounds by the digits up
/// to that one: drop the bits of the digit behind the rounding bit, add one
/// and halve.
proof fn lemma_frac_cut(text: Seq<u8>, bits: u32, index: int, nbits: nat)
    requires
        bits == 1 || bits == 3 || bits == 4,
        all_digits(text, radix_of(bits)),
        0 <= index < text.len(),
        bits * index <= nbits < bits * index + bits,
    ensures
        pow2((bits * index + bits - 1 - nbits) as nat) > 0,
        frac_round(text, radix_of(bits) as nat, nbits) == (digits_value(
            text.take(index + 1),
            radix_of(bits) as nat,
        ) / pow2((bits * index + bits - 1 - nbits) as nat) + 1) / 2,
{
    let radix = radix_of(bits);
    let len = text.len();
    let t = (bits * index + bits - 1 - nbits) as nat;
    let rest = (bits as nat) * ((len - index - 1) as nat);
    let total = digits_value(text, radix as nat);
    lemma_radix_of(bits);
    lemma_digits_value_prefix(text, index + 1, radix);
    lemma_radix_pow_pow2(bits as nat, (len - index - 1) as nat);
    lemma_radix_pow_pow2(bits as nat, len);
    assert(bits as nat * len == nbits + 1 + t + rest) by (nonlinear_arith)
        requires
            t == bits * index + bits - 1 - nbits,
            rest == (bits as nat) * ((len - index - 1) as nat),
            index < len,
    ;
    lemma_round_cut(total, rest, t, nbits, bits as nat * len);
}

/// A fraction whose digits all fit is the number that the digits denote,
/// moved up to the top of the fraction bits.
proof fn lemma_frac_whole(text: Seq<u8>, bits: u32, nbits: nat)
    requires
        bits == 1 || bits == 3 || bits == 4,
        all_digits(text, radix_of(bits)),
        bits * text.len() <= nbits,
    ensures
        frac_round(text, radix_of(bits) as nat, nbits) == digits_value(
            text,
            radix_of(bits) as nat,
        ) * pow2((nbits - bits * text.len()) as nat),
        frac_round(text, radix_of(bits) as nat, nbits) < pow2(nbits),
{
    let radix = radix_of(bits);
    let used = (bits * text.len()) as nat;
    let up = (nbits - used) as nat;
    lemma_radix_of(bits);
    lemma_radix_pow_pow2(bits as nat, text.len());
    lemma_round_exact(digits_value(text, radix as nat), used, nbits);
    lemma_digits_value_bound(text, radix);
    lemma_pow2_adds(used, up);
    lemma_pow2_pos(up);
    let a = digits_value(text, radix as nat) as int;
    let p = pow2(used) as int;
    let k = pow2(up) as int;
    assert(a * k < p * k) by (nonlinear_arith)
        requires
            0 <= a < p,
            k > 0,
    ;
}

/// The end of a fraction that is cut inside a digit. `acc` holds the
/// digits before, `val` is the digit and `rem_bits` the number of its bits
/// that still fit. Those are taken, and the bit behind them is added to
/// round. No value means that the fraction rounds up to one.
fn round_in_digit<I: Word>(acc: I, val: u8, rem_bits: u32, nbits: u32, bits: u32) -> (r: Option<I>)
    requires
        bits == 1 || bits == 3 || bits == 4,
        rem_bits < bits,
        rem_bits <= nbits <= I::spec_nbits(),
        val < pow2(bits as nat),
        0 <= acc.int_value() < pow2((nbits - rem_bits) as nat),
    ensures
        pow2((bits - 1 - rem_bits) as nat) > 0,
        ({
            let rounded = ((acc.int_value() * pow2(bits as nat) + val) / (pow2(
                (bits - 1 - rem_bits) as nat,
            ) as int) + 1) / 2;
            match r {
                Some(v) => v.int_value() == rounded && rounded < pow2(nbits as nat),
                None => rounded >= pow2(nbits as nat),
            }
        }),
{
    let ghost a = acc.int_value();
    let ghost width = I::spec_nbits();
    proof {
        I::lemma_word();
        lemma_pow2_widths();
        lemma_cut_digit(a, val as int, bits as nat, rem_bits as nat);
        vstd::bits::lemma_u8_shr_is_div(val, (bits - rem_bits) as u8);
        vstd::bits::lemma_u8_shr_is_div(val, (bits - 1 - rem_bits) as u8);
        let low = val >> ((bits - 1 - rem_bits) as u8);
        assert(low & 1 == low % 2) by (bit_vector);
        lemma_pow2_adds((nbits - rem_bits) as nat, rem_bits as nat);
        lemma_pow2_monotonic(nbits as nat, width);
        lemma_pow2_pos(rem_bits as nat);
        lemma_pow2_pos(nbits as nat);
        let p = pow2((nbits - rem_bits) as nat) as int;
        let k = pow2(rem_bits as nat) as int;
        assert(a * k + k <= p * k) by (nonlinear_arith)
            requires
                0 <= a < p,
                k > 0,
        ;
        assert(a * k >= 0) by (nonlinear_arith)
            requires
                0 <= a,
                k > 0,
        ;
    }
    let dump_bits = I::nbits() - nbits;
    let top = acc.shl(rem_bits).plus(I::from_u8(val >> (bits - rem_bits)));
    // round
    let rounded = match top.checked_add(I::from_u8((val >> (bits - 1 - rem_bits)) & 1)) {
        Some(sum) => sum,
        None => {
            return None;
        },
    };
    proof {
        I::lemma_int_value_range(rounded);
        crate::arith::lemma_div_reaches(rounded.int_value(), pow2(nbits as nat) as int, 1);
    }
    if dump_bits != 0 && !rounded.shr(nbits).is_zero() {
        return None;
    }
    Some(rounded)
}

/// Fraction digits of `bits` bits each to `nbits` fraction bits: shift the
/// word left by `bits` and add the digit, for each digit in turn, until the
/// `nbits` are filled. If a digit reaches across the end, the bits of it
/// that fit are taken and the next bit is added to round; the rest and all
/// digits behind are left out. No value means that the fraction rounds up
/// to one.
fn str_frac_to_bin<I: Word>(s: &str, nbits: u32, bits: u32) -> (r: Option<I>)
    requires
        bits == 1 || bits == 3 || bits == 4,
        s.spec_bytes().len() > 0,
        all_digits(s.spec_bytes(), radix_of(bits)),
        nbits <= I::spec_nbits(),
    ensures
        match r {
            Some(v) => v.int_value() == frac_round(
                s.spec_bytes(),
                radix_of(bits) as nat,
                nbits as nat,
            ) && v.int_value() < pow2(nbits as nat),
            None => frac_round(s.spec_bytes(), radix_of(bits) as nat, nbits as nat) >= pow2(
                nbits as nat,
            ),
        },
{
    let bytes = s.as_bytes();
    let ghost text = s.spec_bytes();
    let ghost radix = radix_of(bits);
    let ghost width = I::spec_nbits();
    let len = bytes.len();
    proof {
        I::lemma_word();
        lemma_radix_of(bits);
        lemma_pow2_widths();
        lemma_digits_value_step(text, 0, radix as nat);
    }
    let mut rem_bits = nbits;
    let mut acc = I::from_u8(0);
    let mut index: usize = 0;
    while index < len
        invariant
            bits == 1 || bits == 3 || bits == 4,
            radix == radix_of(bits),
            width == I::spec_nbits(),
            text == s.spec_bytes(),
            bytes@ == text,
            len == text.len(),
            len > 0,
            all_digits(text, radix),
            nbits <= width,
            index <= len,
            rem_bits + bits * index == nbits,
            acc.int_value() == digits_value(text.take(index as int), radix as nat),
            0 <= acc.int_value() < pow2((bits * index) as nat),
        decreases len - index,
    {
        proof {
            lemma_radix_of(bits);
            lemma_digit_value(text[index as int], radix);
            lemma_digits_value_step(text, index as int, radix as nat);
        }
        let val = unchecked_hex_digit(bytes[index]);
        if rem_bits < bits {
            proof {
                lemma_frac_cut(text, bits, index as int, nbits as nat);
            }
            return round_in_digit(acc, val, rem_bits, nbits, bits);
        }
        proof {
            I::lemma_word();
            let a = acc.int_value();
            let used = (bits * index) as nat;
            lemma_pow2_adds(used, bits as nat);
            assert(bits * (index + 1) == bits * index + bits) by (nonlinear_arith);
            lemma_pow2_monotonic(used + bits as nat, width);
            let p = pow2(used) as int;
            let r = pow2(bits as nat) as int;
            assert(a * r + val < p * r) by (nonlinear_arith)
                requires
                    0 <= a < p,
                    0 <= val < r,
            ;
            assert(a * r >= 0) by (nonlinear_arith)
                requires
                    0 <= a,
                    r > 0,
            ;
        }
        acc = acc.shl(bits).plus(I::from_u8(val));
        rem_bits = rem_bits - bits;
        index += 1;
    }
    proof {
        I::lemma_word();
        lemma_digits_value_step(text, 0, radix as nat);
        lemma_frac_whole(text, bits, nbits as nat);
        lemma_pow2_monotonic(nbits as nat, width);
        assert(bits * len >= bits) by (nonlinear_arith)
            requires
                len >= 1,
                bits >= 0,
        ;
    }
    Some(acc.shl(rem_bits))
}

/// Binary fraction digits to `nbits` fraction bits.
pub fn bin_str_frac_to_bin<I: Word>(s: &str, nbits: u32) -> (r: Option<I>)
    requires
        s.spec_bytes().len() > 0,
        all_digits(s.spec_bytes(), 2),
        nbits <= I::spec_nbits(),
    ensures
        match r {
            Some(v) => v.int_value() == frac_round(s.spec_bytes(), 2, nbits as nat)
                && v.int_value() < pow2(nbits as nat),
            None => frac_round(s.spec_bytes(), 2, nbits as nat) >= pow2(nbits as nat),
        },
{
    str_frac_to_bin(s, nbits, 1)
}

/// Octal fraction digits to `nbits` fraction bits.
pub fn oct_str_frac_to_bin<I: Word>(s: &str, nbits: u32) -> (r: Option<I>)
    requires
        s.spec_bytes().len() > 0,
        all_digits(s.spec_bytes(), 8),
        nbits <= I::spec_nbits(),
    ensures
        match r {
            Some(v) => v.int_value() == frac_round(s.spec_bytes(), 8, nbits as nat)
                && v.int_value() < pow2(nbits as nat),
            None => frac_round(s.spec_bytes(), 8, nbits as nat) >= pow2(nbits as nat),
        },
{
    str_frac_to_bin(s, nbits, 3)
}

/// Hexadecimal fraction digits to `nbits` fraction bits.
pub fn hex_str_frac_to_bin<I: Word>(s: &str, nbits: u32) -> (r: Option<I>)
    requires
        s.spec_bytes().len() > 0,
        all_digits(s.spec_bytes(), 16),
        nbits <= I::spec_nbits(),
    ensures
        match r {
            Some(v) => v.int_value() == frac_round(s.spec_bytes(), 16, nbits as nat)
                && v.int_value() < pow2(nbits as nat),
            None => frac_round(s.spec_bytes(), 16, nbits as nat) >= pow2(nbits as nat),
        },
{
    str_frac_to_bin(s, nbits, 4)
}

} // verus!
