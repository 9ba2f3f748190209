//! Decimal fractions to binary fractions, rounded to nearest with ties
//! upward, in integer arithmetic: the numerator is scaled in a word of
//! twice the width and divided by a power of five.
use crate::arith::{lemma_pow2_monotonic, lemma_pow2_widths, lemma_u128_shl_is_mul};
use crate::model::{
    all_digits,
    digit_value,
    digits_value,
    lemma_dec_to_bin,
    lemma_digit_value,
    lemma_digits_value_concat,
    lemma_digits_value_step,
    lemma_pow_values,
    pow10,
    pow5,
    radix_pow,
    round_half_up,
    CH_0,
};
use crate::wide::{add_wide, div_wide, mul_hi_lo, shl_wide, shr_wide, wide};
use vstd::arithmetic::power2::{lemma_pow2_adds, lemma_pow2_pos, pow2};
use vstd::bits::{
    lemma_u128_shr_is_div,
    lemma_u16_shl_is_mul,
    lemma_u16_shr_is_div,
    lemma_u32_shl_is_mul,
    lemma_u32_shr_is_div,
    lemma_u64_shl_is_mul,
    lemma_u64_shr_is_div,
};
use vstd::prelude::*;
use vstd::string::StringSliceAdditionalSpecFns;

verus! {

/// What a decimal converter owes: the nearest value if it is below two to
/// the `nbits`, and nothing if the fraction rounds up to one.
pub open spec fn dec_result(val: nat, digits: nat, nbits: nat) -> Option<nat> {
    let nearest = round_half_up(val, pow10(digits), nbits);
    if nearest < pow2(nbits) {
        Some(nearest)
    } else {
        None
    }
}

/// A fraction of three decimal digits, `val / 1000`, as `nbits` binary
/// fraction bits. 5^3 × 2 < 2^8, so (10^3 - 1) × 2^(8-3+1) < 2^16.
pub fn dec3_to_bin8(val: u16, nbits: u32) -> (r: Option<u8>)
    requires
        val < 1000,
        nbits <= 8,
    ensures
        match r {
            Some(bits) => dec_result(val as nat, 3, nbits as nat) == Some(bits as nat),
            None => dec_result(val as nat, 3, nbits as nat) is None,
        },
{
    let dump_bits = 8 - nbits;
    let divisor: u16 = 250;
    proof {
        lemma_pow2_widths();
        lemma_pow_values();
        lemma_pow2_monotonic(nbits as nat, 8);
        lemma_pow2_monotonic(dump_bits as nat, 8);
        lemma_dec_to_bin(val as nat, 8, 3, nbits as nat);
        vstd::arithmetic::power2::lemma2_to64();
        lemma_u16_shl_is_mul(val, 6);
        lemma_u16_shr_is_div(val << 6, dump_bits as u16);
        vstd::arithmetic::div_mod::lemma_div_nonincreasing(
            (val * 64) as int,
            pow2(dump_bits as nat) as int,
        );
    }
    let shift = val << 6 >> dump_bits;
    let round = shift + (divisor / 2);
    proof {
        lemma_u16_shr_is_div(round, nbits as u16);
    }
    if round >> nbits >= divisor {
        None
    } else {
        Some((round / divisor) as u8)
    }
}

/// A fraction of six decimal digits, `val / 10^6`, as `nbits` binary
/// fraction bits. 5^6 × 2 < 2^16, so (10^6 - 1) × 2^(16-6+1) < 2^32.
pub fn dec6_to_bin16(val: u32, nbits: u32) -> (r: Option<u16>)
    requires
        val < 1000000,
        nbits <= 16,
    ensures
        match r {
            Some(bits) => dec_result(val as nat, 6, nbits as nat) == Some(bits as nat),
            None => dec_result(val as nat, 6, nbits as nat) is None,
        },
{
    let dump_bits = 16 - nbits;
    let divisor: u32 = 31250;
    proof {
        lemma_pow2_widths();
        lemma_pow_values();
        lemma_pow2_monotonic(nbits as nat, 16);
        lemma_pow2_monotonic(dump_bits as nat, 16);
        lemma_dec_to_bin(val as nat, 16, 6, nbits as nat);
        vstd::arithmetic::power2::lemma2_to64();
        lemma_u32_shl_is_mul(val, 11);
        lemma_u32_shr_is_div(val << 11, dump_bits);
        vstd::arithmetic::div_mod::lemma_div_nonincreasing(
            (val * 2048) as int,
            pow2(dump_bits as nat) as int,
        );
    }
    let shift = val << 11 >> dump_bits;
    let round = shift + (divisor / 2);
    proof {
        lemma_u32_shr_is_div(round, nbits);
    }
    if round >> nbits >= divisor {
        None
    } else {
        Some((round / divisor) as u16)
    }
}

/// A fraction of 13 decimal digits, `val / 10^13`, as `nbits` binary
/// fraction bits. 5^13 × 2 < 2^32, so (10^13 - 1) × 2^(32-13+1) < 2^64.
pub fn dec13_to_bin32(val: u64, nbits: u32) -> (r: Option<u32>)
    requires
        val < 10000000000000,
        nbits <= 32,
    ensures
        match r {
            Some(bits) => dec_result(val as nat, 13, nbits as nat) == Some(bits as nat),
            None => dec_result(val as nat, 13, nbits as nat) is None,
        },
{
    let dump_bits = 32 - nbits;
    let divisor: u64 = 2441406250;
    proof {
        lemma_pow2_widths();
        lemma_pow_values();
        lemma_pow2_monotonic(nbits as nat, 32);
        lemma_pow2_monotonic(dump_bits as nat, 32);
        lemma_dec_to_bin(val as nat, 32, 13, nbits as nat);
        vstd::arithmetic::power2::lemma2_to64();
        lemma_u64_shl_is_mul(val, 20);
        lemma_u64_shr_is_div(val << 20, dump_bits as u64);
        vstd::arithmetic::div_mod::lemma_div_nonincreasing(
            (val * 1048576) as int,
            pow2(dump_bits as nat) as int,
        );
    }
    let shift = val << 20 >> dump_bits;
    let round = shift + (divisor / 2);
    proof {
        lemma_u64_shr_is_div(round, nbits as u64);
    }
    if round >> nbits >= divisor {
        None
    } else {
        Some((round / divisor) as u32)
    }
}

/// A fraction of 27 decimal digits, `val / 10^27`, as `nbits` binary
/// fraction bits. 5^27 × 2 < 2^64, so (10^27 - 1) × 2^(64-27+1) < 2^128.
pub fn dec27_to_bin64(val: u128, nbits: u32) -> (r: Option<u64>)
    requires
        val < 1000000000000000000000000000,
        nbits <= 64,
    ensures
        match r {
            Some(bits) => dec_result(val as nat, 27, nbits as nat) == Some(bits as nat),
            None => dec_result(val as nat, 27, nbits as nat) is None,
        },
{
    let dump_bits = 64 - nbits;
    let divisor: u128 = 14901161193847656250;
    proof {
        lemma_pow2_widths();
        lemma_pow_values();
        lemma_pow2_monotonic(nbits as nat, 64);
        lemma_pow2_monotonic(dump_bits as nat, 64);
        lemma_dec_to_bin(val as nat, 64, 27, nbits as nat);
        vstd::arithmetic::power2::lemma2_to64_rest();
        lemma_u128_shl_is_mul(val, 38);
        lemma_u128_shr_is_div(val << 38, dump_bits as u128);
        vstd::arithmetic::div_mod::lemma_div_nonincreasing(
            (val * 274877906944) as int,
            pow2(dump_bits as nat) as int,
        );
    }
    let shift = val << 38 >> dump_bits;
    let round = shift + (divisor / 2);
    proof {
        lemma_u128_shr_is_div(round, nbits as u128);
    }
    if round >> nbits >= divisor {
        None
    } else {
        Some((round / divisor) as u64)
    }
}

/// The scaled numerator of a fraction of 54 decimal digits: the number
/// times two to the `nbits + 1`, without its lowest 54 bits. It stays below
/// the divisor times two to the `nbits`.
proof fn lemma_scaled54(val: nat, nbits: nat)
    requires
        val < pow10(54),
        nbits <= 128,
    ensures
        pow2(54) > 0,
        (val * pow2(nbits + 1)) / pow2(54) < 2 * pow5(54) * pow2(nbits),
        nbits < 53 ==> (val * pow2(nbits + 1)) / pow2(54) == val / pow2((53 - nbits) as nat),
        nbits >= 53 ==> (val * pow2(nbits + 1)) / pow2(54) == val * pow2((nbits - 53) as nat),
{
    crate::model::lemma_pow10_split(54);
    lemma_pow2_pos(54);
    lemma_pow2_pos(nbits);
    lemma_pow2_pos(nbits + 1);
    vstd::arithmetic::power2::lemma_pow2_unfold(nbits + 1);
    let v = val as int;
    let a = pow2(54) as int;
    let c = pow5(54) as int;
    let e = pow2(nbits + 1) as int;
    let n = pow2(nbits) as int;
    // v * e < a * c * e, so (v * e) / a < c * e
    assert(v * e < (c * e) * a) by (nonlinear_arith)
        requires
            v < a * c,
            0 <= v,
            e > 0,
    ;
    assert(v * e >= 0) by (nonlinear_arith)
        requires
            v >= 0,
            e > 0,
    ;
    vstd::arithmetic::div_mod::lemma_div_by_multiple_is_strongly_ordered(
        v * e,
        (c * e) * a,
        c * e,
        a,
    );
    vstd::arithmetic::div_mod::lemma_div_by_multiple(c * e, a);
    assert(c * e == 2 * c * n) by (nonlinear_arith)
        requires
            e == 2 * n,
    ;
    if nbits < 53 {
        let s = (53 - nbits) as nat;
        lemma_pow2_pos(s);
        lemma_pow2_adds(nbits + 1, s);
        crate::arith::lemma_div_cancel(v, pow2(s) as int, e);
    } else {
        let t = (nbits - 53) as nat;
        lemma_pow2_pos(t);
        lemma_pow2_adds(54, t);
        let p = pow2(t) as int;
        assert(v * e == (v * p) * a) by (nonlinear_arith)
            requires
                e == a * p,
        ;
        crate::arith::lemma_div_exact(v * p, a, 0);
    }
}

/// A fraction of 54 decimal digits in two groups of 27, `(hi × 10^27 + lo)
/// / 10^54`, as `nbits` binary fraction bits. 5^54 × 2 < 2^128, so
/// (10^54 - 1) × 2^(128-54+1) < 2^256: the scaled number takes two words.
pub fn dec27_27_to_bin128(hi: u128, lo: u128, nbits: u32) -> (r: Option<u128>)
    requires
        hi < 1000000000000000000000000000,
        lo < 1000000000000000000000000000,
        nbits <= 128,
    ensures
        match r {
            Some(bits) => dec_result(
                hi as nat * 1000000000000000000000000000 + lo as nat,
                54,
                nbits as nat,
            ) == Some(bits as nat),
            None => dec_result(
                hi as nat * 1000000000000000000000000000 + lo as nat,
                54,
                nbits as nat,
            ) is None,
        },
{
    let divisor: u128 = 111022302462515654042363166809082031250;
    let ghost val: nat = hi as nat * 1000000000000000000000000000 + lo as nat;
    let ghost m = pow2(128) as int;
    let ghost c = pow5(54) as int;
    let ghost n = pow2(nbits as nat) as int;
    let ghost scaled = ((val * pow2((nbits + 1) as nat)) / pow2(54)) as int;
    proof {
        lemma_pow2_widths();
        lemma_pow_values();
        lemma_pow2_pos(nbits as nat);
        lemma_pow2_monotonic(nbits as nat, 128);
        assert(val < pow10(54)) by (nonlinear_arith)
            requires
                val == hi as nat * 1000000000000000000000000000 + lo as nat,
                hi < 1000000000000000000000000000,
                lo < 1000000000000000000000000000,
                pow10(54) == 1000000000000000000000000000000000000000000000000000000,
        ;
        lemma_scaled54(val, nbits as nat);
        crate::model::lemma_round_scaled(val, 54, nbits as nat);
        crate::model::lemma_round_overflows((scaled + c) as nat, c as nat, nbits as nat);
        // the scaled number and its sum with half the divisor fit two words
        assert(2 * c * n + c < m * m) by (nonlinear_arith)
            requires
                0 < n <= m,
                c == 55511151231257827021181583404541015625,
                m == 0x1_0000_0000_0000_0000_0000_0000_0000_0000,
        ;
    }
    // we actually need to combine (10^27*hi + lo) << (128 - 54 + 1)
    let (hi_hi, hi_lo) = mul_hi_lo(hi, 1000000000000000000000000000);
    let (comb_hi, comb_lo) = add_wide(hi_hi, hi_lo, lo);
    let shift_lo;
    let shift_hi;
    if nbits < 53 {
        let (h, l) = shr_wide(comb_hi, comb_lo, 53 - nbits);
        shift_hi = h;
        shift_lo = l;
    } else if nbits > 53 {
        let (h, l) = shl_wide(comb_hi, comb_lo, nbits - 53);
        shift_hi = h;
        shift_lo = l;
    } else {
        proof {
            assert(pow2(0) == 1);
            assert(val * pow2(0) == val) by (nonlinear_arith)
                requires
                    pow2(0) == 1,
            ;
        }
        shift_hi = comb_hi;
        shift_lo = comb_lo;
    }
    assert(wide(shift_hi, shift_lo) == scaled);
    let (round_hi, round_lo) = add_wide(shift_hi, shift_lo, divisor / 2);
    let ghost round = wide(round_hi, round_lo) as int;
    let whole_compare;
    if nbits == 128 {
        proof {
            crate::arith::lemma_div_exact(round_hi as int, m, round_lo as int);
        }
        whole_compare = round_hi;
    } else if nbits == 0 {
        proof {
            assert(n == 1);
            crate::wide::lemma_wide_high_below(round_hi, round_lo, 1, m);
            vstd::arithmetic::div_mod::lemma_div_basics(round);
        }
        whole_compare = round_lo;
    } else {
        let (over, whole) = shr_wide(round_hi, round_lo, nbits);
        proof {
            // the sum is below three halves of the divisor times two to the `nbits`
            assert(round < (3 * c) * n) by (nonlinear_arith)
                requires
                    round < 2 * c * n + c,
                    n >= 1,
                    c > 0,
            ;
            vstd::arithmetic::div_mod::lemma_div_by_multiple_is_strongly_ordered(
                round,
                (3 * c) * n,
                3 * c,
                n,
            );
            vstd::arithmetic::div_mod::lemma_div_by_multiple(3 * c, n);
            crate::wide::lemma_wide_high_below(over, whole, 1, m);
        }
        whole_compare = whole;
    }
    assert(whole_compare == round / n);
    if whole_compare >= divisor {
        None
    } else {
        proof {
            crate::arith::lemma_div_reaches(round, n, 2 * c);
            crate::wide::lemma_wide_high_below(round_hi, round_lo, 2 * c, n);
        }
        Some(div_wide(round_hi, round_lo, divisor))
    }
}

/// The number of decimal fraction digits that are taken into account for
/// `nbits` fraction bits: as many as let the scaled numerator fit a word
/// of twice the least width that holds the fraction bits.
pub open spec fn dec_digits(nbits: nat) -> nat {
    if nbits <= 8 {
        3
    } else if nbits <= 16 {
        6
    } else if nbits <= 32 {
        13
    } else if nbits <= 64 {
        27
    } else {
        54
    }
}

/// The first `digits` decimal digits of a span as a number, with zeros in
/// place of the digits that the span lacks. Digits beyond are left out.
pub open spec fn dec_prefix_value(s: Seq<u8>, digits: nat) -> nat {
    if s.len() < digits {
        digits_value(s, 10) * pow10((digits - s.len()) as nat)
    } else {
        digits_value(s.take(digits as int), 10)
    }
}

/// The decimal fraction that a span of digits denotes, taken to `digits`
/// digits, as `nbits` fraction bits; nothing if it rounds up to one.
pub open spec fn dec_frac_result(s: Seq<u8>, digits: nat, nbits: nat) -> Option<nat> {
    dec_result(dec_prefix_value(s, digits), digits, nbits)
}

/// One more digit taken multiplies the number by ten and adds the digit, or
/// a zero behind the end of the span.
proof fn lemma_dec_prefix_step(s: Seq<u8>, i: nat)
    ensures
        dec_prefix_value(s, 0) == 0,
        dec_prefix_value(s, i + 1) == dec_prefix_value(s, i) * 10 + if i < s.len() {
            digit_value(s[i as int])
        } else {
            0
        },
{
    crate::model::lemma_pow_step(0);
    assert(s.take(0).len() == 0);
    if i < s.len() {
        lemma_digits_value_step(s, i as int, 10);
        if i + 1 == s.len() {
            assert(s.take(s.len() as int) =~= s);
        }
    } else {
        crate::model::lemma_pow_step((i - s.len()) as nat);
        if i == s.len() {
            assert(s.take(i as int) =~= s);
        }
        let v = digits_value(s, 10) as int;
        let p = pow10((i - s.len()) as nat) as int;
        assert(v * (10 * p) == (v * p) * 10) by (nonlinear_arith);
    }
}

/// The digits from `from` on, taken to `digits` digits, as a number.
fn dec_scaled(bytes: &[u8], from: usize, digits: usize) -> (r: u128)
    requires
        from <= bytes@.len(),
        all_digits(bytes@, 10),
        digits <= 27,
    ensures
        r == dec_prefix_value(bytes@.skip(from as int), digits as nat),
        r < pow10(digits as nat),
{
    let ghost sub = bytes@.skip(from as int);
    let len = bytes.len();
    let mut acc: u128 = 0;
    let mut taken: usize = 0;
    proof {
        lemma_dec_prefix_step(sub, 0);
        crate::model::lemma_pow_step(0);
    }
    while taken < digits
        invariant
            taken <= digits <= 27,
            from <= len,
            len == bytes@.len(),
            sub == bytes@.skip(from as int),
            all_digits(bytes@, 10),
            acc == dec_prefix_value(sub, taken as nat),
            acc < pow10(taken as nat),
        decreases digits - taken,
    {
        proof {
            lemma_dec_prefix_step(sub, taken as nat);
            crate::model::lemma_pow_step(taken as nat);
            lemma_pow_values();
            crate::model::lemma_pow10_increases((taken + 1) as nat, 27);
            if taken < sub.len() {
                assert(sub[taken as int] == bytes@[from + taken]);
                lemma_digit_value(bytes@[from + taken], 10);
            }
        }
        let digit: u8 = if taken < len - from {
            bytes[from + taken] - CH_0
        } else {
            0
        };
        acc = acc * 10 + digit as u128;
        taken += 1;
    }
    acc
}

/// A decimal fraction to `nbits` fraction bits of a byte, by its first
/// three digits.
pub fn get_frac8_dec(frac: &str, nbits: u32) -> (r: Option<u8>)
    requires
        all_digits(frac.spec_bytes(), 10),
        nbits <= 8,
    ensures
        match r {
            Some(bits) => dec_frac_result(frac.spec_bytes(), 3, nbits as nat) == Some(bits as nat),
            None => dec_frac_result(frac.spec_bytes(), 3, nbits as nat) is None,
        },
{
    proof {
        lemma_pow_values();
        assert(frac.spec_bytes().skip(0) =~= frac.spec_bytes());
    }
    let i = dec_scaled(frac.as_bytes(), 0, 3);
    dec3_to_bin8(i as u16, nbits)
}

/// A decimal fraction to `nbits` fraction bits of a 16-bit word, by its
/// first six digits.
pub fn get_frac16_dec(frac: &str, nbits: u32) -> (r: Option<u16>)
    requires
        all_digits(frac.spec_bytes(), 10),
        nbits <= 16,
    ensures
        match r {
            Some(bits) => dec_frac_result(frac.spec_bytes(), 6, nbits as nat) == Some(bits as nat),
            None => dec_frac_result(frac.spec_bytes(), 6, nbits as nat) is None,
        },
{
    proof {
        lemma_pow_values();
        assert(frac.spec_bytes().skip(0) =~= frac.spec_bytes());
    }
    let i = dec_scaled(frac.as_bytes(), 0, 6);
    dec6_to_bin16(i as u32, nbits)
}

/// A decimal fraction to `nbits` fraction bits of a 32-bit word, by its
/// first 13 digits.
pub fn get_frac32_dec(frac: &str, nbits: u32) -> (r: Option<u32>)
    requires
        all_digits(frac.spec_bytes(), 10),
        nbits <= 32,
    ensures
        match r {
            Some(bits) => dec_frac_result(frac.spec_bytes(), 13, nbits as nat) == Some(bits as nat),
            None => dec_frac_result(frac.spec_bytes(), 13, nbits as nat) is None,
        },
{
    proof {
        lemma_pow_values();
        assert(frac.spec_bytes().skip(0) =~= frac.spec_bytes());
    }
    let i = dec_scaled(frac.as_bytes(), 0, 13);
    dec13_to_bin32(i as u64, nbits)
}

/// A decimal fraction to `nbits` fraction bits of a 64-bit word, by its
/// first 27 digits.
pub fn get_frac64_dec(frac: &str, nbits: u32) -> (r: Option<u64>)
    requires
        all_digits(frac.spec_bytes(), 10),
        nbits <= 64,
    ensures
        match r {
            Some(bits) => dec_frac_result(frac.spec_bytes(), 27, nbits as nat) == Some(bits as nat),
            None => dec_frac_result(frac.spec_bytes(), 27, nbits as nat) is None,
        },
{
    proof {
        lemma_pow_values();
        assert(frac.spec_bytes().skip(0) =~= frac.spec_bytes());
    }
    let i = dec_scaled(frac.as_bytes(), 0, 27);
    dec27_to_bin64(i, nbits)
}

/// The first 54 digits of a span are its first 27 digits, times ten to the
/// 27, plus the 27 digits behind them.
proof fn lemma_dec_prefix_groups(s: Seq<u8>)
    requires
        all_digits(s, 10),
    ensures
        s.len() <= 27 ==> dec_prefix_value(s, 54) == dec_prefix_value(s, 27) * pow10(27),
        s.len() > 27 ==> dec_prefix_value(s, 54) == dec_prefix_value(s, 27) * pow10(27)
            + dec_prefix_value(s.skip(27), 27),
{
    let len = s.len();
    if len <= 27 {
        crate::model::lemma_pow_step(0);
        assert(s.take(len as int) =~= s);
        crate::model::lemma_pow10_adds((27 - len) as nat, 27);
        let v = digits_value(s, 10) as int;
        let a = pow10((27 - len) as nat) as int;
        let b = pow10(27) as int;
        assert(v * (a * b) == (v * a) * b) by (nonlinear_arith);
    } else {
        let end: int = if len < 54 {
            len as int
        } else {
            54
        };
        let head = s.take(27);
        let tail = s.skip(27);
        let low = tail.take(end - 27);
        let all = s.take(end);
        assert(head + low =~= all);
        lemma_digits_value_concat(head, low, 10);
        if len < 54 {
            assert(all =~= s);
            assert(low =~= tail);
            crate::model::lemma_pow10_adds((end - 27) as nat, (54 - len) as nat);
            let h = digits_value(head, 10) as int;
            let l = digits_value(low, 10) as int;
            let a = pow10((end - 27) as nat) as int;
            let b = pow10((54 - len) as nat) as int;
            assert(radix_pow(10, low.len()) == a);
            assert((h * a + l) * b == h * (a * b) + l * b) by (nonlinear_arith);
        } else {
            assert(radix_pow(10, low.len()) == pow10(27));
        }
    }
}

/// A decimal fraction to `nbits` fraction bits of a 128-bit word, by its
/// first 54 digits in two groups of 27.
pub fn get_frac128_dec(frac: &str, nbits: u32) -> (r: Option<u128>)
    requires
        all_digits(frac.spec_bytes(), 10),
        nbits <= 128,
    ensures
        match r {
            Some(bits) => dec_frac_result(frac.spec_bytes(), 54, nbits as nat) == Some(bits as nat),
            None => dec_frac_result(frac.spec_bytes(), 54, nbits as nat) is None,
        },
{
    let bytes = frac.as_bytes();
    proof {
        lemma_pow_values();
        lemma_dec_prefix_groups(bytes@);
        assert(bytes@.skip(0) =~= bytes@);
    }
    let (hi, lo) = if bytes.len() <= 27 {
        let hi = dec_scaled(bytes, 0, 27);
        (hi, 0)
    } else {
        let hi = dec_scaled(bytes, 0, 27);
        let lo = dec_scaled(bytes, 27, 27);
        (hi, lo)
    };
    dec27_27_to_bin128(hi, lo, nbits)
}

} // verus!
