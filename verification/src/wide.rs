//! Arithmetic on numbers of 256 bits, held as two 128-bit words: what the
//! 128-bit decimal fraction needs, where no wider machine word exists.
use crate::arith::{
    lemma_div_add_multiple,
    lemma_div_div,
    lemma_div_exact,
    lemma_pow2_monotonic,
    lemma_pow2_multiple,
    lemma_pow2_widths,
    lemma_u128_shl_is_mul,
    lemma_u128_shl_wraps,
};
use vstd::arithmetic::div_mod::{lemma_fundamental_div_mod, lemma_mod_bound};
use vstd::arithmetic::power2::{lemma_pow2_pos, lemma_pow2_unfold, pow2};
use vstd::bits::lemma_u128_shr_is_div;
use vstd::prelude::*;

verus! {

/// The number that a high and a low word stand for together.
pub open spec fn wide(hi: u128, lo: u128) -> nat {
    hi as nat * pow2(128) + lo as nat
}

/// A number that is below `d` times a factor of at most two to the 128 has
/// a high word below `d`.
pub proof fn lemma_wide_high_below(hi: u128, lo: u128, d: int, n: int)
    requires
        wide(hi, lo) < d * n,
        0 < n <= pow2(128),
        0 <= d,
    ensures
        hi < d,
{
    let m = pow2(128) as int;
    if hi >= d {
        assert(hi * m >= d * n) by (nonlinear_arith)
            requires
                hi >= d,
                d >= 0,
                0 < n <= m,
        ;
    }
}

/// The low 64 bits of a word.
const LO: u128 = 0xffff_ffff_ffff_ffff;

/// A word is its upper half times two to the 64 plus its lower half.
proof fn lemma_halves(x: u128)
    ensures
        x == (x >> 64) * 0x1_0000_0000_0000_0000 + (x & LO),
        (x >> 64) <= LO,
        (x & LO) <= LO,
{
    assert(x == (x >> 64) * 0x1_0000_0000_0000_0000 + (x & 0xffff_ffff_ffff_ffff)) by (bit_vector);
    assert((x >> 64) <= 0xffff_ffff_ffff_ffff) by (bit_vector);
    assert((x & 0xffff_ffff_ffff_ffff) <= 0xffff_ffff_ffff_ffff) by (bit_vector);
}

/// The product of two half words fits a word.
proof fn lemma_half_product(a: u128, b: u128)
    requires
        a <= LO,
        b <= LO,
    ensures
        a * b <= 0xffff_ffff_ffff_fffe_0000_0000_0000_0001,
{
    assert(a * b <= 0xffff_ffff_ffff_ffff * 0xffff_ffff_ffff_ffff) by (nonlinear_arith)
        requires
            0 <= a <= 0xffff_ffff_ffff_ffff,
            0 <= b <= 0xffff_ffff_ffff_ffff,
    ;
}

/// The full product of two words, as a high and a low word: schoolbook
/// multiplication on halves of 64 bits, with the carries carried.
pub fn mul_hi_lo(lhs: u128, rhs: u128) -> (r: (u128, u128))
    ensures
        wide(r.0, r.1) == lhs * rhs,
{
    let (lhs_hi, lhs_lo) = (lhs >> 64, lhs & LO);
    let (rhs_hi, rhs_lo) = (rhs >> 64, rhs & LO);
    proof {
        lemma_pow2_widths();
        lemma_halves(lhs);
        lemma_halves(rhs);
        lemma_half_product(lhs_lo, rhs_lo);
        lemma_half_product(lhs_hi, rhs_lo);
        lemma_half_product(lhs_lo, rhs_hi);
        lemma_half_product(lhs_hi, rhs_hi);
    }
    let lhs_lo_rhs_lo = lhs_lo * rhs_lo;
    let lhs_hi_rhs_lo = lhs_hi * rhs_lo;
    let lhs_lo_rhs_hi = lhs_lo * rhs_hi;
    let lhs_hi_rhs_hi = lhs_hi * rhs_hi;

    let col01 = lhs_lo_rhs_lo;
    let (col01_hi, col01_lo) = (col01 >> 64, col01 & LO);
    proof {
        lemma_halves(col01);
    }
    let partial_col12 = lhs_hi_rhs_lo + col01_hi;
    let col12 = partial_col12.wrapping_add(lhs_lo_rhs_hi);
    let carry_col3 = col12 < partial_col12;
    let (col12_hi, col12_lo) = (col12 >> 64, col12 & LO);
    proof {
        lemma_halves(col12);
        assert(col12_lo << 64 == col12_lo * 0x1_0000_0000_0000_0000) by (bit_vector)
            requires
                col12_lo <= 0xffff_ffff_ffff_ffff,
        ;
    }
    let ans01 = (col12_lo << 64) + col01_lo;
    let ghost carry: int = if carry_col3 {
        0x1_0000_0000_0000_0000
    } else {
        0
    };
    proof {
        let b = 0x1_0000_0000_0000_0000int;
        // the middle column, with the carry that left it
        assert(partial_col12 + lhs_lo_rhs_hi == col12 + carry * b);
        // the whole product, column by column
        assert(lhs * rhs == lhs_hi_rhs_hi * (b * b) + (lhs_hi_rhs_lo + lhs_lo_rhs_hi) * b
            + lhs_lo_rhs_lo) by (nonlinear_arith)
            requires
                lhs == lhs_hi * b + lhs_lo,
                rhs == rhs_hi * b + rhs_lo,
                lhs_hi_rhs_hi == lhs_hi * rhs_hi,
                lhs_hi_rhs_lo == lhs_hi * rhs_lo,
                lhs_lo_rhs_hi == lhs_lo * rhs_hi,
                lhs_lo_rhs_lo == lhs_lo * rhs_lo,
        ;
        assert(lhs * rhs == (lhs_hi_rhs_hi + col12_hi + carry) * (b * b) + ans01)
            by (nonlinear_arith)
            requires
                lhs * rhs == lhs_hi_rhs_hi * (b * b) + (lhs_hi_rhs_lo + lhs_lo_rhs_hi) * b
                    + lhs_lo_rhs_lo,
                lhs_lo_rhs_lo == col01_hi * b + col01_lo,
                lhs_hi_rhs_lo + col01_hi + lhs_lo_rhs_hi == col12 + carry * b,
                col12 == col12_hi * b + col12_lo,
                ans01 == col12_lo * b + col01_lo,
        ;
        assert(lhs * rhs <= 0xffff_ffff_ffff_ffff_ffff_ffff_ffff_ffff
            * 0xffff_ffff_ffff_ffff_ffff_ffff_ffff_ffff) by (nonlinear_arith)
            requires
                0 <= lhs <= 0xffff_ffff_ffff_ffff_ffff_ffff_ffff_ffff,
                0 <= rhs <= 0xffff_ffff_ffff_ffff_ffff_ffff_ffff_ffff,
        ;
        assert(b * b == pow2(128));
        let top = lhs_hi_rhs_hi + col12_hi + carry;
        assert(top < b * b) by (nonlinear_arith)
            requires
                lhs * rhs == top * (b * b) + ans01,
                0 <= ans01,
                lhs * rhs <= 0xffff_ffff_ffff_ffff_ffff_ffff_ffff_ffff
                    * 0xffff_ffff_ffff_ffff_ffff_ffff_ffff_ffff,
                b * b == 0x1_0000_0000_0000_0000_0000_0000_0000_0000,
        ;
        assert(1u128 << 64 == 0x1_0000_0000_0000_0000) by (bit_vector);
    }
    let ans23 = lhs_hi_rhs_hi + col12_hi + if carry_col3 {
        1u128 << 64
    } else {
        0
    };
    (ans23, ans01)
}

/// The top `k` bits of the low word behind the high word: the dividend of
/// the long division after `k` steps.
spec fn leading_part(hi: u128, lo: u128, k: nat) -> nat {
    hi as nat * pow2(k) + lo as nat / pow2((128 - k) as nat)
}

/// One more bit of the low word doubles the leading part and adds the bit.
proof fn lemma_leading_part_step(hi: u128, lo: u128, k: nat)
    requires
        k < 128,
    ensures
        leading_part(hi, lo, k + 1) == 2 * leading_part(hi, lo, k) + (lo as nat / pow2(
            (127 - k) as nat,
        )) % 2,
{
    let i = (127 - k) as nat;
    lemma_pow2_unfold(k + 1);
    lemma_pow2_unfold(i + 1);
    lemma_pow2_pos(i);
    lemma_pow2_pos(k);
    let x = lo as int;
    let d = pow2(i) as int;
    // x / (2 * d) == (x / d) / 2
    lemma_div_div(x, d, 2);
    lemma_fundamental_div_mod(x / d, 2);
    assert(hi as nat * pow2(k + 1) == 2 * (hi as nat * pow2(k))) by (nonlinear_arith)
        requires
            pow2(k + 1) == 2 * pow2(k),
    ;
    assert(d * 2 == 2 * d);
}

/// The quotient of a number of two words by a divisor that is greater than
/// the high word, so that the quotient fits one word. Long division, one
/// bit of the low word at a time.
pub fn div_wide(dividend_hi: u128, dividend_lo: u128, divisor: u128) -> (q: u128)
    requires
        dividend_hi < divisor,
    ensures
        q == wide(dividend_hi, dividend_lo) / (divisor as nat),
{
    let mut rem: u128 = dividend_hi;
    let mut quot: u128 = 0;
    let mut i: u32 = 128;
    proof {
        lemma_pow2_widths();
        vstd::arithmetic::div_mod::lemma_basic_div(dividend_lo as int, pow2(128) as int);
    }
    while i > 0
        invariant
            i <= 128,
            dividend_hi < divisor,
            rem < divisor,
            leading_part(dividend_hi, dividend_lo, (128 - i) as nat) == quot * divisor + rem,
            quot < pow2((128 - i) as nat),
        decreases i,
    {
        let ghost k = (128 - i) as nat;
        i -= 1;
        proof {
            lemma_pow2_widths();
            lemma_u128_shr_is_div(dividend_lo, i as u128);
            lemma_leading_part_step(dividend_hi, dividend_lo, k);
            lemma_pow2_unfold(k + 1);
            lemma_pow2_monotonic(k + 1, 128);
        }
        let bit: u128 = (dividend_lo >> i) % 2;
        let ghost doubled: int = 2 * rem + bit;
        let take: bool;
        if rem >= 0x8000_0000_0000_0000_0000_0000_0000_0000 {
            // the doubled remainder does not fit a word, so the divisor goes into it
            let low: u128 = (rem - 0x8000_0000_0000_0000_0000_0000_0000_0000) * 2 + bit;
            rem = low.wrapping_sub(divisor);
            take = true;
        } else {
            let low: u128 = rem * 2 + bit;
            if low >= divisor {
                rem = low - divisor;
                take = true;
            } else {
                rem = low;
                take = false;
            }
        }
        proof {
            let old_quot = quot as int;
            let d = divisor as int;
            let t: int = if take {
                1
            } else {
                0
            };
            assert(doubled == t * d + rem);
            assert(leading_part(dividend_hi, dividend_lo, k + 1) == (2 * old_quot + t) * d + rem)
                by (nonlinear_arith)
                requires
                    leading_part(dividend_hi, dividend_lo, k + 1) == 2 * leading_part(
                        dividend_hi,
                        dividend_lo,
                        k,
                    ) + bit,
                    leading_part(dividend_hi, dividend_lo, k) == old_quot * d + (doubled - bit) / 2,
                    (doubled - bit) % 2 == 0,
                    doubled == t * d + rem,
            ;
        }
        quot = quot * 2 + if take {
            1
        } else {
            0
        };
    }
    proof {
        assert(pow2(0) == 1) by {
            lemma_pow2_widths();
        }
        assert(leading_part(dividend_hi, dividend_lo, 128) == wide(dividend_hi, dividend_lo));
        lemma_div_exact(quot as int, divisor as int, rem as int);
    }
    quot
}

/// A number of two words plus a word, where the sum fits two words.
pub fn add_wide(hi: u128, lo: u128, x: u128) -> (r: (u128, u128))
    requires
        wide(hi, lo) + x < pow2(128) * pow2(128),
    ensures
        wide(r.0, r.1) == wide(hi, lo) + x,
{
    proof {
        lemma_pow2_widths();
    }
    let sum_lo = lo.wrapping_add(x);
    let overflow = sum_lo < lo;
    proof {
        let m = pow2(128) as int;
        if overflow {
            assert(lo + x == sum_lo + m);
            assert(hi + 1 < m) by (nonlinear_arith)
                requires
                    hi * m + sum_lo + m < m * m,
                    0 <= sum_lo,
                    m > 0,
            ;
            assert((hi + 1) * m == hi * m + m) by (nonlinear_arith);
        }
    }
    let sum_hi = if overflow {
        hi + 1
    } else {
        hi
    };
    (sum_hi, sum_lo)
}

/// A number of two words divided by two to the `n`, for `n` from 1 to 127.
pub fn shr_wide(hi: u128, lo: u128, n: u32) -> (r: (u128, u128))
    requires
        0 < n < 128,
    ensures
        wide(r.0, r.1) == wide(hi, lo) / pow2(n as nat),
{
    let up: u32 = 128 - n;
    proof {
        lemma_pow2_widths();
        lemma_pow2_pos(n as nat);
        lemma_pow2_pos(up as nat);
        lemma_pow2_multiple(n as nat, 128);
        lemma_u128_shr_is_div(lo, n as u128);
        lemma_u128_shr_is_div(hi, n as u128);
        lemma_u128_shl_wraps(hi, up);
        assert(((lo >> n) | (hi << up)) == (lo >> n) + (hi << up)) by (bit_vector)
            requires
                0 < n < 128,
                up == 128 - n,
        ;
        let d = pow2(n as nat) as int;
        let u = pow2(up as nat) as int;
        let m = pow2(128) as int;
        let h = hi as int;
        let l = lo as int;
        assert(m == d * u);
        lemma_fundamental_div_mod(h, d);
        lemma_mod_bound(h, d);
        lemma_fundamental_div_mod(l, d);
        lemma_mod_bound(l, d);
        // the bits of the high word that move down into the low word
        let moved = (h % d) * u;
        assert(h * u == (h / d) * m + moved) by (nonlinear_arith)
            requires
                h == d * (h / d) + h % d,
                m == d * u,
                moved == (h % d) * u,
        ;
        assert(0 <= moved && moved + u <= m) by (nonlinear_arith)
            requires
                0 <= h % d < d,
                m == d * u,
                u > 0,
                moved == (h % d) * u,
        ;
        lemma_div_exact(h / d, m, moved);
        assert((h * u) % m == moved);
        assert(hi << up == moved);
        // the low word contributes less than what moved down is a multiple of
        assert(l / d < u) by (nonlinear_arith)
            requires
                l == d * (l / d) + l % d,
                0 <= l % d,
                l < d * u,
                d > 0,
        ;
        assert(moved + l / d < m);
        // the whole number divided
        assert(h * m + l == (h * u) * d + l) by (nonlinear_arith)
            requires
                m == d * u,
        ;
        lemma_div_add_multiple(l, h * u, d);
        assert((h / d) * m + moved + l / d == (h * m + l) / d);
    }
    let shift_lo = (lo >> n) | (hi << up);
    let shift_hi = hi >> n;
    (shift_hi, shift_lo)
}

/// A number of two words times two to the `n`, for `n` from 1 to 127,
/// where the product fits two words.
pub fn shl_wide(hi: u128, lo: u128, n: u32) -> (r: (u128, u128))
    requires
        0 < n < 128,
        wide(hi, lo) * pow2(n as nat) < pow2(128) * pow2(128),
    ensures
        wide(r.0, r.1) == wide(hi, lo) * pow2(n as nat),
{
    let down: u32 = 128 - n;
    proof {
        lemma_pow2_widths();
        lemma_pow2_pos(n as nat);
        lemma_pow2_pos(down as nat);
        lemma_pow2_multiple(n as nat, 128);
        lemma_u128_shr_is_div(lo, down as u128);
        lemma_u128_shl_wraps(lo, n);
        let d = pow2(n as nat) as int;
        let u = pow2(down as nat) as int;
        let m = pow2(128) as int;
        let h = hi as int;
        let l = lo as int;
        assert(m == d * u);
        assert(h * d < m) by (nonlinear_arith)
            requires
                (h * m + l) * d < m * m,
                0 <= l,
                0 <= h,
                d > 0,
                m > 0,
        ;
        lemma_u128_shl_is_mul(hi, n);
        assert(((hi << n) | (lo >> down)) == (hi << n) + (lo >> down)) by (bit_vector)
            requires
                0 < n < 128,
                down == 128 - n,
        ;
        lemma_fundamental_div_mod(l, u);
        lemma_mod_bound(l, u);
        // the bits of the low word that stay in the low word
        let kept = (l % u) * d;
        assert(l * d == (l / u) * m + kept) by (nonlinear_arith)
            requires
                l == u * (l / u) + l % u,
                m == d * u,
                kept == (l % u) * d,
        ;
        assert(0 <= kept < m) by (nonlinear_arith)
            requires
                0 <= l % u < u,
                m == d * u,
                d > 0,
                kept == (l % u) * d,
        ;
        lemma_div_exact(l / u, m, kept);
        assert(lo << n == kept);
        assert(l / u < d) by (nonlinear_arith)
            requires
                l == u * (l / u) + l % u,
                0 <= l % u,
                l < d * u,
                u > 0,
        ;
        assert(h * d + l / u < m) by (nonlinear_arith)
            requires
                (h * m + l) * d < m * m,
                l * d == (l / u) * m + kept,
                0 <= kept,
                m > 0,
        ;
        assert((h * m + l) * d == (h * d + l / u) * m + kept) by (nonlinear_arith)
            requires
                l * d == (l / u) * m + kept,
        ;
    }
    let shift_lo = lo << n;
    let shift_hi = (hi << n) | (lo >> down);
    (shift_hi, shift_lo)
}

} // verus!
