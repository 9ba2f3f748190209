//! The mathematical meaning of numerals: digits, the numbers that they
//! denote, and rounding to a number of fraction bits.
use vstd::arithmetic::power::pow;
use vstd::arithmetic::power2::pow2;
use vstd::prelude::*;

verus! {

/// The character `+`.
pub const PLUS: u8 = 0x2b;

/// The character `-`.
pub const MINUS: u8 = 0x2d;

/// The character `.`, which parts the whole digits from the fraction digits.
pub const POINT: u8 = 0x2e;

/// The character `0`.
pub const CH_0: u8 = 0x30;

/// The character `1`.
pub const CH_1: u8 = 0x31;

/// The character `7`.
pub const CH_7: u8 = 0x37;

/// The character `9`.
pub const CH_9: u8 = 0x39;

/// The character `A`.
pub const UPPER_A: u8 = 0x41;

/// The character `F`.
pub const UPPER_F: u8 = 0x46;

/// The character `a`.
pub const LOWER_A: u8 = 0x61;

/// The character `f`.
pub const LOWER_F: u8 = 0x66;

/// The number that a digit character stands for; 0 for any other byte.
pub open spec fn digit_value(b: u8) -> nat {
    if CH_0 <= b <= CH_9 {
        (b - CH_0) as nat
    } else if LOWER_A <= b <= LOWER_F {
        (b - LOWER_A + 10) as nat
    } else if UPPER_A <= b <= UPPER_F {
        (b - UPPER_A + 10) as nat
    } else {
        0
    }
}

/// Whether a byte is a digit of the radix. No byte is a digit of a radix
/// other than 2, 8, 10 and 16.
pub open spec fn is_digit(b: u8, radix: u32) -> bool {
    ||| radix == 2 && CH_0 <= b <= CH_1
    ||| radix == 8 && CH_0 <= b <= CH_7
    ||| radix == 10 && CH_0 <= b <= CH_9
    ||| radix == 16 && (CH_0 <= b <= CH_9 || LOWER_A <= b <= LOWER_F || UPPER_A <= b <= UPPER_F)
}

/// Whether every byte of a span is a digit of the radix.
pub open spec fn all_digits(s: Seq<u8>, radix: u32) -> bool {
    forall|i: int| 0 <= i < s.len() ==> is_digit(#[trigger] s[i], radix)
}

/// The number that a span of digits denotes, most significant digit first.
pub open spec fn digits_value(s: Seq<u8>, radix: nat) -> nat
    decreases s.len(),
{
    if s.len() == 0 {
        0
    } else {
        digits_value(s.drop_last(), radix) * radix + digit_value(s.last())
    }
}

/// A power of the radix, as a natural number.
pub open spec fn radix_pow(radix: nat, e: nat) -> nat {
    pow(radix as int, e) as nat
}

/// A power of five, as a natural number.
pub open spec fn pow5(e: nat) -> nat {
    pow(5, e) as nat
}

/// A power of ten, as a natural number.
pub open spec fn pow10(e: nat) -> nat {
    pow(10, e) as nat
}

/// The integer nearest to `num * 2^nbits / den`, the upper one of two that
/// are equally near.
pub open spec fn round_half_up(num: nat, den: nat, nbits: nat) -> nat {
    (2 * num * pow2(nbits) + den) / (2 * den)
}

/// Powers of a radix are positive and grow by a factor of the radix.
pub proof fn lemma_radix_pow(radix: nat, e: nat)
    requires
        radix > 0,
    ensures
        radix_pow(radix, e) > 0,
        radix_pow(radix, 0) == 1,
        radix_pow(radix, e + 1) == radix_pow(radix, e) * radix,
{
    vstd::arithmetic::power::lemma_pow_positive(radix as int, e);
    vstd::arithmetic::power::lemma_pow_positive(radix as int, e + 1);
    vstd::arithmetic::power::lemma_pow0(radix as int);
    vstd::arithmetic::power::lemma_pow1(radix as int);
    vstd::arithmetic::power::lemma_pow_adds(radix as int, e, 1);
}

/// A power of a power of two is a power of two.
pub proof fn lemma_radix_pow_pow2(bits: nat, e: nat)
    ensures
        pow2(bits) > 0,
        radix_pow(pow2(bits), e) == pow2(bits * e),
{
    vstd::arithmetic::power2::lemma_pow2_pos(bits);
    vstd::arithmetic::power::lemma_pow_positive(2, bits);
    vstd::arithmetic::power::lemma_pow_multiplies(2, bits, e);
    vstd::arithmetic::power::lemma_pow_positive(2, bits * e);
}

/// Powers of five and ten are positive, and ten to the `e` is two to the
/// `e` times five to the `e`.
pub proof fn lemma_pow10_split(e: nat)
    ensures
        pow5(e) > 0,
        pow10(e) > 0,
        pow10(e) == pow2(e) * pow5(e),
{
    vstd::arithmetic::power::lemma_pow_positive(5, e);
    vstd::arithmetic::power::lemma_pow_positive(10, e);
    vstd::arithmetic::power::lemma_pow_positive(2, e);
    vstd::arithmetic::power::lemma_pow_distributes(2, 5, e);
}

/// A power of ten grows with its exponent.
pub proof fn lemma_pow10_increases(a: nat, b: nat)
    requires
        a <= b,
    ensures
        0 < pow10(a) <= pow10(b),
{
    vstd::arithmetic::power::lemma_pow_positive(10, a);
    vstd::arithmetic::power::lemma_pow_positive(10, b);
    vstd::arithmetic::power::lemma_pow_increases(10, a, b);
}

/// Ten to a sum of exponents is the product of the powers.
pub proof fn lemma_pow10_adds(a: nat, b: nat)
    ensures
        pow10(a + b) == pow10(a) * pow10(b),
{
    vstd::arithmetic::power::lemma_pow_positive(10, a);
    vstd::arithmetic::power::lemma_pow_positive(10, b);
    vstd::arithmetic::power::lemma_pow_positive(10, a + b);
    vstd::arithmetic::power::lemma_pow_adds(10, a, b);
}

/// One more factor of five or ten.
pub proof fn lemma_pow_step(e: nat)
    ensures
        pow5(e + 1) == 5 * pow5(e),
        pow10(e + 1) == 10 * pow10(e),
        pow5(0) == 1,
        pow10(0) == 1,
{
    vstd::arithmetic::power::lemma_pow_positive(5, e);
    vstd::arithmetic::power::lemma_pow_positive(10, e);
    vstd::arithmetic::power::lemma_pow_adds(5, 1, e);
    vstd::arithmetic::power::lemma_pow_adds(10, 1, e);
    vstd::arithmetic::power::lemma_pow1(5);
    vstd::arithmetic::power::lemma_pow1(10);
    vstd::arithmetic::power::lemma_pow0(5);
    vstd::arithmetic::power::lemma_pow0(10);
}

/// The powers of five and ten that the decimal converters work with.
pub proof fn lemma_pow_values()
    ensures
        pow5(3) == 125,
        pow10(3) == 1000,
        pow5(6) == 15625,
        pow10(6) == 1000000,
        pow5(13) == 1220703125,
        pow10(13) == 10000000000000,
        pow5(27) == 7450580596923828125,
        pow10(27) == 1000000000000000000000000000,
        pow5(54) == 55511151231257827021181583404541015625,
        pow10(54) == 1000000000000000000000000000000000000000000000000000000,
{
    lemma_pow_step(0);
    lemma_pow_step(1);
    lemma_pow_step(2);
    assert(pow5(3) == 125 && pow10(3) == 1000);
    lemma_pow_square(3, 125, 1000);
    lemma_pow_square(6, 15625, 1000000);
    lemma_pow_step(12);
    lemma_pow_square(13, 1220703125, 10000000000000);
    lemma_pow_step(26);
    lemma_pow_square(27, 7450580596923828125, 1000000000000000000000000000);
}

/// The powers with twice the exponent are the squares.
proof fn lemma_pow_square(e: nat, five: nat, ten: nat)
    requires
        pow5(e) == five,
        pow10(e) == ten,
    ensures
        pow5(2 * e) == five * five,
        pow10(2 * e) == ten * ten,
{
    vstd::arithmetic::power::lemma_pow_adds(5, e, e);
    vstd::arithmetic::power::lemma_pow_adds(10, e, e);
    vstd::arithmetic::power::lemma_pow_positive(5, e);
    vstd::arithmetic::power::lemma_pow_positive(10, e);
    vstd::arithmetic::power::lemma_pow_positive(5, 2 * e);
    vstd::arithmetic::power::lemma_pow_positive(10, 2 * e);
    assert(e + e == 2 * e);
    assert(pow(5, e) * pow(5, e) == five * five) by (nonlinear_arith)
        requires
            pow(5, e) == five,
    ;
    assert(pow(10, e) * pow(10, e) == ten * ten) by (nonlinear_arith)
        requires
            pow(10, e) == ten,
    ;
}

/// A digit of a radix has a value below the radix, and only the radixes 2,
/// 8, 10 and 16 have digits.
pub proof fn lemma_digit_value(b: u8, radix: u32)
    requires
        is_digit(b, radix),
    ensures
        digit_value(b) < radix,
        radix == 2 || radix == 8 || radix == 10 || radix == 16,
        is_digit(b, 16),
        b < 0x80,
        digit_value(b) == 0 <==> b == CH_0,
{
}

/// A span of digits denotes a number below the radix to the span's length.
pub proof fn lemma_digits_value_bound(s: Seq<u8>, radix: u32)
    requires
        all_digits(s, radix),
        radix >= 2,
    ensures
        digits_value(s, radix as nat) < radix_pow(radix as nat, s.len()),
    decreases s.len(),
{
    lemma_radix_pow(radix as nat, 0);
    if s.len() > 0 {
        let t = s.drop_last();
        assert forall|i: int| 0 <= i < t.len() implies is_digit(#[trigger] t[i], radix) by {
            assert(t[i] == s[i]);
        }
        lemma_digits_value_bound(t, radix);
        lemma_digit_value(s.last(), radix);
        lemma_radix_pow(radix as nat, t.len());
        let r = radix as int;
        let p = radix_pow(radix as nat, t.len()) as int;
        let v = digits_value(t, radix as nat) as int;
        assert(v * r + digit_value(s.last()) < p * r) by (nonlinear_arith)
            requires
                v < p,
                digit_value(s.last()) < r,
                0 <= v,
        ;
    }
}

/// The number that two spans denote when written one behind the other.
pub proof fn lemma_digits_value_concat(a: Seq<u8>, b: Seq<u8>, radix: nat)
    requires
        radix > 0,
    ensures
        digits_value(a + b, radix) == digits_value(a, radix) * radix_pow(radix, b.len())
            + digits_value(b, radix),
    decreases b.len(),
{
    lemma_radix_pow(radix, 0);
    if b.len() == 0 {
        assert(a + b =~= a);
    } else {
        let t = b.drop_last();
        assert((a + b).drop_last() =~= a + t);
        assert((a + b).last() == b.last());
        lemma_digits_value_concat(a, t, radix);
        lemma_radix_pow(radix, t.len());
        let x = digits_value(a, radix) as int;
        let p = radix_pow(radix, t.len()) as int;
        let y = digits_value(t, radix) as int;
        let r = radix as int;
        assert((x * p + y) * r == x * (p * r) + y * r) by (nonlinear_arith);
    }
}

/// One more digit multiplies the number by the radix and adds the digit.
pub proof fn lemma_digits_value_step(s: Seq<u8>, i: int, radix: nat)
    requires
        0 <= i < s.len(),
    ensures
        digits_value(s.take(i + 1), radix) == digits_value(s.take(i), radix) * radix + digit_value(
            s[i],
        ),
        digits_value(s.take(0), radix) == 0,
        s.take(s.len() as int) == s,
{
    assert(s.take(i + 1).drop_last() =~= s.take(i));
    assert(s.take(s.len() as int) =~= s);
}

/// No digits denote zero, and all digits of a span are the span.
pub proof fn lemma_digits_value_ends(s: Seq<u8>, radix: nat)
    ensures
        digits_value(s.take(0), radix) == 0,
        s.take(s.len() as int) == s,
{
    assert(s.take(s.len() as int) =~= s);
}

/// The first `i` digits denote the whole number without its last digits:
/// the quotient by the radix to the number of digits left out.
pub proof fn lemma_digits_value_prefix(s: Seq<u8>, i: int, radix: u32)
    requires
        0 <= i <= s.len(),
        all_digits(s, radix),
        radix >= 2,
    ensures
        radix_pow(radix as nat, (s.len() - i) as nat) > 0,
        digits_value(s.take(i), radix as nat) == digits_value(s, radix as nat) / radix_pow(
            radix as nat,
            (s.len() - i) as nat,
        ),
        digits_value(s.take(i), radix as nat) * radix_pow(radix as nat, (s.len() - i) as nat)
            <= digits_value(s, radix as nat),
{
    let a = s.take(i);
    let b = s.skip(i);
    assert(a + b =~= s);
    lemma_digits_value_concat(a, b, radix as nat);
    assert forall|j: int| 0 <= j < b.len() implies is_digit(#[trigger] b[j], radix) by {
        assert(b[j] == s[i + j]);
    }
    lemma_digits_value_bound(b, radix);
    lemma_radix_pow(radix as nat, b.len());
    crate::arith::lemma_div_exact(
        digits_value(a, radix as nat) as int,
        radix_pow(radix as nat, b.len()) as int,
        digits_value(b, radix as nat) as int,
    );
}

/// Rounding does not change when numerator and denominator are scaled
/// alike.
pub proof fn lemma_round_half_up_scale(num: nat, den: nat, c: nat, nbits: nat)
    requires
        den > 0,
        c > 0,
    ensures
        round_half_up(num * c, den * c, nbits) == round_half_up(num, den, nbits),
{
    let p = pow2(nbits) as int;
    let n = num as int;
    let d = den as int;
    let k = c as int;
    assert(2 * (n * k) * p + d * k == k * (2 * n * p + d)) by (nonlinear_arith);
    assert(2 * (d * k) == k * (2 * d)) by (nonlinear_arith);
    assert(2 * n * p + d >= 0) by (nonlinear_arith)
        requires
            n >= 0,
            p >= 0,
            d > 0,
    ;
    crate::arith::lemma_div_cancel(2 * n * p + d, 2 * d, k);
}

/// A proper fraction rounds to at most two to the `nbits`.
pub proof fn lemma_round_bound(num: nat, den: nat, nbits: nat)
    requires
        num < den,
    ensures
        round_half_up(num, den, nbits) <= pow2(nbits),
{
    vstd::arithmetic::power2::lemma_pow2_pos(nbits);
    let p = pow2(nbits) as int;
    let n = num as int;
    let d = den as int;
    assert(2 * n * p + d < (p + 1) * (2 * d)) by (nonlinear_arith)
        requires
            0 <= n < d,
            p > 0,
    ;
    assert(2 * n * p + d >= 0) by (nonlinear_arith)
        requires
            0 <= n < d,
            p > 0,
    ;
    crate::arith::lemma_div_reaches(2 * n * p + d, 2 * d, p + 1);
}

/// A fraction over a power of two that needs no more than `nbits` bits is
/// its own nearest value.
pub proof fn lemma_round_exact(v: nat, len: nat, nbits: nat)
    requires
        len <= nbits,
    ensures
        round_half_up(v, pow2(len), nbits) == v * pow2((nbits - len) as nat),
{
    let up = (nbits - len) as nat;
    vstd::arithmetic::power2::lemma_pow2_pos(len);
    vstd::arithmetic::power2::lemma_pow2_pos(up);
    vstd::arithmetic::power2::lemma_pow2_adds(len, up);
    let d = pow2(len) as int;
    let p = pow2(up) as int;
    let x = v as int;
    let q = x * p;
    assert(2 * x * (d * p) + d == d * (2 * q + 1)) by (nonlinear_arith)
        requires
            q == x * p,
    ;
    assert(2 * q + 1 >= 0) by (nonlinear_arith)
        requires
            q == x * p,
            x >= 0,
            p > 0,
    ;
    crate::arith::lemma_div_cancel(2 * q + 1, 2, d);
    assert(d * 2 == 2 * d);
    crate::arith::lemma_div_exact(q, 2, 1);
}

/// A fraction over a power of two with more than `nbits` bits rounds by
/// its first `nbits + 1` bits: drop the bits behind them, add one and halve.
pub proof fn lemma_round_cut(total: nat, rest: nat, t: nat, nbits: nat, len: nat)
    requires
        len == nbits + 1 + t + rest,
    ensures
        pow2(rest) > 0,
        pow2(t) > 0,
        round_half_up(total, pow2(len), nbits) == ((total / pow2(rest)) / pow2(t) + 1) / 2,
{
    let e = t + rest;
    vstd::arithmetic::power2::lemma_pow2_pos(rest);
    vstd::arithmetic::power2::lemma_pow2_pos(t);
    vstd::arithmetic::power2::lemma_pow2_pos(e);
    vstd::arithmetic::power2::lemma_pow2_pos(nbits);
    vstd::arithmetic::power2::lemma_pow2_adds(rest, t);
    vstd::arithmetic::power2::lemma_pow2_adds(nbits, e + 1);
    vstd::arithmetic::power2::lemma_pow2_unfold(e + 1);
    let x = total as int;
    let n = pow2(nbits) as int;
    let pe = pow2(e) as int;
    // 2 * x * n + n * 2 * pe over 2 * n * 2 * pe: the common factor 2 * n cancels
    assert(2 * x * n + pow2(len) == (2 * n) * (x + pe)) by (nonlinear_arith)
        requires
            pow2(len) == n * (2 * pe),
    ;
    assert(2 * pow2(len) == (2 * n) * (2 * pe)) by (nonlinear_arith)
        requires
            pow2(len) == n * (2 * pe),
    ;
    crate::arith::lemma_div_cancel(x + pe, 2 * pe, 2 * n);
    // (x + pe) / (2 * pe) == ((x + pe) / pe) / 2 == (x / pe + 1) / 2
    assert(2 * pe == pe * 2);
    crate::arith::lemma_div_div(x + pe, pe, 2);
    crate::arith::lemma_div_add_multiple(x, 1, pe);
    assert(1 * pe + x == x + pe);
    // x / pe == (x / 2^rest) / 2^t
    crate::arith::lemma_div_div(x, pow2(rest) as int, pow2(t) as int);
}

/// Rounding to nearest in the way the decimal converters do it: scale the
/// numerator by two to the `nbits + 1`, drop `d` bits, add five to the `d`
/// and divide by twice that.
pub proof fn lemma_round_scaled(val: nat, d: nat, nbits: nat)
    ensures
        pow5(d) > 0,
        (((val * pow2(nbits + 1)) / pow2(d) + pow5(d)) / (2 * pow5(d))) as nat == round_half_up(
            val,
            pow10(d),
            nbits,
        ),
{
    lemma_pow10_split(d);
    vstd::arithmetic::power2::lemma_pow2_pos(d);
    vstd::arithmetic::power2::lemma_pow2_pos(nbits);
    vstd::arithmetic::power2::lemma_pow2_unfold(nbits + 1);
    let c = pow5(d) as int;
    let p = pow2(d) as int;
    let y = (val * pow2(nbits + 1)) as int;
    assert(y == 2 * val * pow2(nbits)) by (nonlinear_arith)
        requires
            y == val * pow2(nbits + 1),
            pow2(nbits + 1) == 2 * pow2(nbits),
    ;
    assert(y >= 0) by (nonlinear_arith)
        requires
            y == val * pow2(nbits + 1),
    ;
    // (y + p * c) / (2 * p * c) == ((y + p * c) / p) / (2 * c) == (y / p + c) / (2 * c)
    crate::arith::lemma_div_add_multiple(y, c, p);
    assert(c * p + y == y + p * c) by (nonlinear_arith);
    assert(c * p > 0) by (nonlinear_arith)
        requires
            c > 0,
            p > 0,
    ;
    crate::arith::lemma_div_div(y + p * c, p, 2 * c);
    assert(p * (2 * c) == 2 * (p * c)) by (nonlinear_arith);
    assert(pow10(d) as int == p * c);
}

/// The quotient by twice `c` reaches two to the `nbits` exactly when the
/// quotient by two to the `nbits` reaches twice `c`.
pub proof fn lemma_round_overflows(sum: nat, c: nat, nbits: nat)
    requires
        c > 0,
    ensures
        pow2(nbits) > 0,
        sum / (2 * c) >= pow2(nbits) <==> sum / pow2(nbits) >= 2 * c,
{
    vstd::arithmetic::power2::lemma_pow2_pos(nbits);
    let limit = pow2(nbits) as int;
    crate::arith::lemma_div_reaches(sum as int, (2 * c) as int, limit);
    crate::arith::lemma_div_reaches(sum as int, limit, (2 * c) as int);
    assert(limit * (2 * c) == (2 * c) * limit) by (nonlinear_arith);
}

/// Shifting left by the width less the digits plus one and then right by
/// the bits to drop scales as the rounding wants it.
pub proof fn lemma_dec_scaled(val: nat, w: nat, d: nat, nbits: nat)
    requires
        nbits <= w,
        d <= w + 1,
    ensures
        pow2((w - nbits) as nat) > 0,
        pow2(d) > 0,
        (val * pow2((w + 1 - d) as nat)) / pow2((w - nbits) as nat) == (val * pow2(nbits + 1)) / pow2(
            d,
        ),
{
    let up = (w + 1 - d) as nat;
    let drop = (w - nbits) as nat;
    vstd::arithmetic::power2::lemma_pow2_pos(up);
    vstd::arithmetic::power2::lemma_pow2_pos(drop);
    vstd::arithmetic::power2::lemma_pow2_pos(d);
    vstd::arithmetic::power2::lemma_pow2_pos(nbits);
    vstd::arithmetic::power2::lemma_pow2_pos(nbits + 1);
    vstd::arithmetic::power2::lemma_pow2_adds(up, d);
    vstd::arithmetic::power2::lemma_pow2_adds(drop, nbits + 1);
    let a = pow2(up) as int;
    let b = pow2(drop) as int;
    let c = pow2(d) as int;
    let e = pow2(nbits + 1) as int;
    let v = val as int;
    assert(a * c == b * e);
    // (v * a) / b == (c * v * a) / (c * b) == (b * v * e) / (b * c) == (v * e) / c
    assert(v * a >= 0 && v * e >= 0) by (nonlinear_arith)
        requires
            v >= 0,
            a > 0,
            e > 0,
    ;
    crate::arith::lemma_div_cancel(v * a, b, c);
    crate::arith::lemma_div_cancel(v * e, c, b);
    assert(c * (v * a) == b * (v * e)) by (nonlinear_arith)
        requires
            a * c == b * e,
    ;
    assert(c * b == b * c) by (nonlinear_arith);
}

/// What the decimal converters compute is the nearest value, and their
/// test for a fraction that rounds up to one is exact.
pub proof fn lemma_dec_to_bin(val: nat, w: nat, d: nat, nbits: nat)
    requires
        nbits <= w,
        d <= w + 1,
    ensures
        pow5(d) > 0,
        pow2(nbits) > 0,
        pow2((w - nbits) as nat) > 0,
        ({
            let shifted = (val * pow2((w + 1 - d) as nat)) / pow2((w - nbits) as nat);
            let rounded = shifted + pow5(d);
            &&& rounded / (2 * pow5(d)) == round_half_up(val, pow10(d), nbits)
            &&& rounded / pow2(nbits) >= 2 * pow5(d) <==> round_half_up(val, pow10(d), nbits)
                >= pow2(nbits)
        }),
{
    lemma_dec_scaled(val, w, d, nbits);
    lemma_round_scaled(val, d, nbits);
    let shifted = (val * pow2((w + 1 - d) as nat)) / pow2((w - nbits) as nat);
    lemma_round_overflows(shifted + pow5(d), pow5(d), nbits);
}

} // verus!
