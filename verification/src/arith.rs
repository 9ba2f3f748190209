//! Facts about powers of two and about shifts of 128-bit words that the
//! rest of the library builds on.
use vstd::arithmetic::mul::lemma_mul_is_commutative;
use vstd::arithmetic::power2::{
    lemma2_to64,
    lemma2_to64_rest,
    lemma_pow2_adds,
    lemma_pow2_pos,
    lemma_pow2_strictly_increases,
    lemma_pow2_unfold,
    pow2,
};
use vstd::prelude::*;

verus! {

/// The powers of two at the widths of the machine words.
pub proof fn lemma_pow2_widths()
    ensures
        pow2(0) == 1,
        pow2(1) == 2,
        pow2(2) == 4,
        pow2(3) == 8,
        pow2(4) == 16,
        pow2(7) == 0x80,
        pow2(8) == 0x100,
        pow2(15) == 0x8000,
        pow2(16) == 0x1_0000,
        pow2(31) == 0x8000_0000,
        pow2(32) == 0x1_0000_0000,
        pow2(63) == 0x8000_0000_0000_0000,
        pow2(64) == 0x1_0000_0000_0000_0000,
        pow2(127) == 0x8000_0000_0000_0000_0000_0000_0000_0000,
        pow2(128) == 0x1_0000_0000_0000_0000_0000_0000_0000_0000,
{
    lemma2_to64();
    lemma2_to64_rest();
    lemma_pow2_adds(64, 63);
    lemma_pow2_adds(64, 64);
}

/// A power of two grows with its exponent.
pub proof fn lemma_pow2_monotonic(a: nat, b: nat)
    requires
        a <= b,
    ensures
        pow2(a) <= pow2(b),
        pow2(a) > 0,
{
    lemma_pow2_pos(a);
    if a < b {
        lemma_pow2_strictly_increases(a, b);
    }
}

/// A power of two is a multiple of every smaller power of two.
pub proof fn lemma_pow2_multiple(a: nat, b: nat)
    requires
        a <= b,
    ensures
        pow2(b) == pow2(a) * pow2((b - a) as nat),
        pow2(b) % pow2(a) == 0,
{
    lemma_pow2_adds(a, (b - a) as nat);
    lemma_pow2_pos(a);
    vstd::arithmetic::div_mod::lemma_mod_multiples_basic(
        pow2((b - a) as nat) as int,
        pow2(a) as int,
    );
    lemma_mul_is_commutative(pow2(a) as int, pow2((b - a) as nat) as int);
}

/// Shifting a 128-bit word to the left multiplies it by a power of two, as
/// long as the product fits.
pub proof fn lemma_u128_shl_is_mul(x: u128, shift: u32)
    requires
        shift < 128,
        x * pow2(shift as nat) <= u128::MAX,
    ensures
        x << shift == x * pow2(shift as nat),
    decreases shift,
{
    lemma_pow2_widths();
    if shift == 0 {
        assert(x << 0u32 == x) by (bit_vector);
        assert(x << shift == x);
        assert(x * pow2(0) == x);
    } else {
        let prev = (shift - 1) as u32;
        lemma_pow2_unfold(shift as nat);
        lemma_pow2_pos(prev as nat);
        assert(x * pow2(shift as nat) == 2 * (x * pow2(prev as nat))) by (nonlinear_arith)
            requires
                pow2(shift as nat) == 2 * pow2(prev as nat),
        ;
        lemma_u128_shl_is_mul(x, prev);
        let y = x << prev;
        assert(x << shift == (x << prev) << 1u32) by (bit_vector)
            requires
                0 < shift < 128,
                prev == shift - 1,
        ;
        assert(y == x * pow2(prev as nat));
        assert(y << 1u32 == 2 * y) by (bit_vector)
            requires
                y <= 0x7fff_ffff_ffff_ffff_ffff_ffff_ffff_ffffu128,
        ;
        assert(x << shift == y << 1u32);
    }
}

/// Two to the power `shift`, for a shift below 128.
pub fn pow2_u128(shift: u32) -> (r: u128)
    requires
        shift < 128,
    ensures
        r == pow2(shift as nat),
{
    proof {
        lemma_pow2_widths();
        lemma_pow2_monotonic(shift as nat, 127);
        lemma_u128_shl_is_mul(1, shift);
    }
    1u128 << shift
}

/// Shifting a 128-bit word to the left multiplies it by a power of two and
/// keeps the low 128 bits of the product.
pub proof fn lemma_u128_shl_wraps(x: u128, shift: u32)
    requires
        shift < 128,
    ensures
        x << shift == (x * pow2(shift as nat)) % (pow2(128) as int),
    decreases shift,
{
    lemma_pow2_widths();
    let m = pow2(128) as int;
    if shift == 0 {
        assert(x << 0u32 == x) by (bit_vector);
        assert(x << shift == x);
        assert(x * pow2(0) == x);
        vstd::arithmetic::div_mod::lemma_small_mod(x as nat, m as nat);
    } else {
        let prev = (shift - 1) as u32;
        lemma_pow2_unfold(shift as nat);
        lemma_pow2_pos(prev as nat);
        let p = x * pow2(prev as nat);
        assert(x * pow2(shift as nat) == 2 * p) by (nonlinear_arith)
            requires
                pow2(shift as nat) == 2 * pow2(prev as nat),
                p == x * pow2(prev as nat),
        ;
        lemma_u128_shl_wraps(x, prev);
        let y = x << prev;
        assert(y == p % m);
        assert(x << shift == (x << prev) << 1u32) by (bit_vector)
            requires
                0 < shift < 128,
                prev == shift - 1,
        ;
        assert(x << shift == y << 1u32);
        assert(y << 1u32 == 2 * (y & 0x7fff_ffff_ffff_ffff_ffff_ffff_ffff_ffffu128))
            by (bit_vector);
        assert(y & 0x7fff_ffff_ffff_ffff_ffff_ffff_ffff_ffffu128 == y
            % 0x8000_0000_0000_0000_0000_0000_0000_0000u128) by (bit_vector);
        let h = pow2(127) as int;
        assert(m == 2 * h);
        // 2 * (y mod h) is (2 * y) mod m
        let yi = y as int;
        assert(2 * (yi % h) == (2 * yi) % m) by {
            let q = yi / h;
            let r = yi % h;
            vstd::arithmetic::div_mod::lemma_fundamental_div_mod(yi, h);
            assert(2 * yi == m * q + 2 * r) by (nonlinear_arith)
                requires
                    yi == h * q + r,
                    m == 2 * h,
            ;
            vstd::arithmetic::div_mod::lemma_fundamental_div_mod_converse(2 * yi, m, q, 2 * r);
        }
        // (2 * (p mod m)) mod m is (2 * p) mod m
        vstd::arithmetic::div_mod::lemma_mul_mod_noop_right(2, p, m);
    }
}

/// Division undoes a multiplication with a remainder below the divisor.
pub proof fn lemma_div_exact(q: int, d: int, r: int)
    requires
        0 <= r < d,
    ensures
        (q * d + r) / d == q,
        (q * d + r) % d == r,
{
    vstd::arithmetic::div_mod::lemma_fundamental_div_mod_converse(q * d + r, d, q, r);
}

/// A multiple of the divisor can be taken out of a quotient.
pub proof fn lemma_div_add_multiple(x: int, m: int, d: int)
    requires
        d > 0,
    ensures
        (m * d + x) / d == m + x / d,
        (m * d + x) % d == x % d,
{
    let q = x / d;
    let r = x % d;
    vstd::arithmetic::div_mod::lemma_fundamental_div_mod(x, d);
    assert(m * d + x == (m + q) * d + r) by (nonlinear_arith)
        requires
            x == d * q + r,
    ;
    lemma_div_exact(m + q, d, r);
}

/// Dividing twice is dividing by the product.
pub proof fn lemma_div_div(x: int, a: int, b: int)
    requires
        0 <= x,
        a > 0,
        b > 0,
    ensures
        a * b > 0,
        (x / a) / b == x / (a * b),
{
    vstd::arithmetic::div_mod::lemma_div_denominator(x, a, b);
    assert(a * b > 0) by (nonlinear_arith)
        requires
            a > 0,
            b > 0,
    ;
}

/// A common factor of dividend and divisor cancels.
pub proof fn lemma_div_cancel(x: int, y: int, c: int)
    requires
        0 <= x,
        y > 0,
        c > 0,
    ensures
        c * y > 0,
        (c * x) / (c * y) == x / y,
{
    vstd::arithmetic::div_mod::lemma_div_multiples_vanish_quotient(c, x, y);
    assert(c * y > 0) by (nonlinear_arith)
        requires
            y > 0,
            c > 0,
    ;
}

/// A quotient reaches `n` exactly when the dividend reaches `n` times the
/// divisor.
pub proof fn lemma_div_reaches(x: int, d: int, n: int)
    requires
        0 <= x,
        d > 0,
    ensures
        x / d >= n <==> x >= n * d,
{
    let q = x / d;
    let r = x % d;
    vstd::arithmetic::div_mod::lemma_fundamental_div_mod(x, d);
    vstd::arithmetic::div_mod::lemma_mod_bound(x, d);
    assert(x / d >= n <==> x >= n * d) by (nonlinear_arith)
        requires
            x == d * q + r,
            0 <= r < d,
            q == x / d,
    ;
}

} // verus!
