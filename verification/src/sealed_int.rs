//! The primitive integers as the fixed-point types see them: words of a
//! known width that can be told apart by sign and taken apart into sign and
//! magnitude.
use crate::arith::{
    lemma_pow2_monotonic,
    lemma_pow2_widths,
    lemma_u128_shl_is_mul,
    pow2_u128,
};
use vstd::arithmetic::power2::{lemma_pow2_strictly_increases, pow2};
use vstd::prelude::*;

verus! {

/// The absolute value of an integer.
pub open spec fn abs(v: int) -> nat {
    if v < 0 {
        (-v) as nat
    } else {
        v as nat
    }
}

/// A magnitude as a fixed-point bit pattern with `frac_bits` fraction bits,
/// cut to 128 bits, and whether the magnitude needs more than `int_bits`
/// bits.
pub fn fixed_abs_overflow(abs: u128, frac_bits: u32, int_bits: u32) -> (r: (u128, bool))
    ensures
        r.0 == (abs * pow2(frac_bits as nat)) % (pow2(128) as int),
        r.1 == (abs >= pow2(int_bits as nat)),
{
    proof {
        lemma_pow2_widths();
    }
    let overflow = if int_bits >= 128 {
        proof {
            lemma_pow2_monotonic(128, int_bits as nat);
        }
        false
    } else {
        proof {
            vstd::bits::lemma_u128_shr_is_div(abs, int_bits as u128);
            vstd::arithmetic::power2::lemma_pow2_pos(int_bits as nat);
            let d = pow2(int_bits as nat) as int;
            if abs >= d {
                vstd::arithmetic::div_mod::lemma_div_is_ordered(d, abs as int, d);
                vstd::arithmetic::div_mod::lemma_div_basics(d);
            } else {
                vstd::arithmetic::div_mod::lemma_basic_div(abs as int, d);
            }
        }
        (abs >> int_bits) != 0
    };
    let shifted = if frac_bits >= 128 {
        proof {
            crate::arith::lemma_pow2_multiple(128, frac_bits as nat);
            let k = pow2((frac_bits - 128) as nat) as int;
            let m = pow2(128) as int;
            assert(abs * pow2(frac_bits as nat) == m * (abs * k)) by (nonlinear_arith)
                requires
                    pow2(frac_bits as nat) == m * k,
            ;
            vstd::arithmetic::div_mod::lemma_mod_multiples_basic(abs * k, m);
            vstd::arithmetic::mul::lemma_mul_is_commutative(m, abs * k);
        }
        0
    } else {
        proof {
            crate::arith::lemma_u128_shl_wraps(abs, frac_bits);
        }
        abs << frac_bits
    };
    (shifted, overflow)
}

/// What the fixed-point types need of the integer that stores them.
pub trait SealedInt: Copy {
    /// The unsigned integer of the same width, which holds magnitudes.
    type Unsigned: Copy;

    /// Whether the type has negative values.
    spec fn spec_is_signed() -> bool;

    /// The width of the type in bits.
    spec fn spec_nbits() -> nat;

    /// The number that a value stands for.
    spec fn int_value(self) -> int;

    /// The number that a magnitude stands for.
    spec fn abs_value(abs: Self::Unsigned) -> nat;

    /// No type is wider than 128 bits.
    proof fn lemma_nbits()
        ensures
            1 <= Self::spec_nbits() <= 128,
    ;

    /// A value lies in the range of its type: two's complement for a signed
    /// type, from zero for an unsigned one.
    proof fn lemma_int_value_range(x: Self)
        ensures
            Self::spec_is_signed() ==> -pow2((Self::spec_nbits() - 1) as nat) <= x.int_value() < pow2(
                (Self::spec_nbits() - 1) as nat,
            ),
            !Self::spec_is_signed() ==> 0 <= x.int_value() < pow2(Self::spec_nbits()),
    ;

    /// Two values that stand for the same number are the same value.
    proof fn lemma_int_value_injective(x: Self, y: Self)
        requires
            x.int_value() == y.int_value(),
        ensures
            x == y,
    ;

    /// A magnitude is below two to the width.
    proof fn lemma_abs_value_range(abs: Self::Unsigned)
        ensures
            Self::abs_value(abs) < pow2(Self::spec_nbits()),
    ;

    fn is_signed() -> (r: bool)
        ensures
            r == Self::spec_is_signed(),
    ;

    fn nbits() -> (r: u32)
        ensures
            r == Self::spec_nbits(),
    ;

    /// The value with only bit `shift` set. In a signed type the top bit
    /// alone is the least value.
    fn one_shl(shift: u32) -> (r: Self)
        requires
            shift < Self::spec_nbits(),
        ensures
            r.int_value() == if Self::spec_is_signed() && shift == Self::spec_nbits() - 1 {
                -pow2(shift as nat)
            } else {
                pow2(shift as nat) as int
            },
    ;

    /// The value with every bit from `shift` upward set.
    fn all_ones_shl(shift: u32) -> (r: Self)
        requires
            shift < Self::spec_nbits(),
        ensures
            r.int_value() == if Self::spec_is_signed() {
                -pow2(shift as nat)
            } else {
                pow2(Self::spec_nbits()) - pow2(shift as nat)
            },
    ;

    fn is_zero(self) -> (r: bool)
        ensures
            r == (self.int_value() == 0),
    ;

    /// The value as a fixed-point magnitude with `frac_bits` fraction
    /// bits: whether it is negative, its magnitude times two to the
    /// `frac_bits`, cut to 128 bits, and whether the magnitude needs more
    /// than `int_bits` bits.
    fn to_fixed_neg_abs_overflow(self, frac_bits: u32, int_bits: u32) -> (r: (bool, u128, bool))
        ensures
            r.0 == (self.int_value() < 0),
            r.1 == (abs(self.int_value()) * pow2(frac_bits as nat)) % pow2(128),
            r.2 == (abs(self.int_value()) >= pow2(int_bits as nat)),
    ;

    /// The sign and the magnitude of the value.
    fn neg_abs(self) -> (r: (bool, Self::Unsigned))
        ensures
            r.0 == (self.int_value() < 0),
            Self::abs_value(r.1) == abs(self.int_value()),
    ;

    /// The value with the given sign and magnitude. An unsigned type has no
    /// negative values but zero; a signed type takes magnitudes up to two
    /// to the width less one, the greatest of them for its least value
    /// whatever the sign.
    fn from_neg_abs(neg: bool, abs: Self::Unsigned) -> (r: Self)
        requires
            !Self::spec_is_signed() ==> !neg || Self::abs_value(abs) == 0,
            Self::spec_is_signed() ==> Self::abs_value(abs) <= pow2((Self::spec_nbits() - 1) as nat),
        ensures
            r.int_value() == if neg || Self::abs_value(abs) == pow2((Self::spec_nbits() - 1) as nat)
                && Self::spec_is_signed() {
                -(Self::abs_value(abs) as int)
            } else {
                Self::abs_value(abs) as int
            },
    ;

    /// The value with only the top bit set.
    fn msb() -> (r: Self)
        ensures
            r.int_value() == if Self::spec_is_signed() {
                -pow2((Self::spec_nbits() - 1) as nat)
            } else {
                pow2((Self::spec_nbits() - 1) as nat) as int
            },
    {
        proof {
            Self::lemma_nbits();
        }
        Self::one_shl(Self::nbits() - 1)
    }
}

/// The primitive integers that fixed-point numbers convert to and from.
pub trait Int: Copy + SealedInt {

}

impl SealedInt for bool {
    type Unsigned = bool;

    open spec fn spec_is_signed() -> bool {
        false
    }

    open spec fn spec_nbits() -> nat {
        1
    }

    open spec fn int_value(self) -> int {
        if self {
            1
        } else {
            0
        }
    }

    open spec fn abs_value(abs: bool) -> nat {
        if abs {
            1
        } else {
            0
        }
    }

    proof fn lemma_nbits() {
    }

    proof fn lemma_int_value_range(x: bool) {
        lemma_pow2_widths();
    }

    proof fn lemma_int_value_injective(x: bool, y: bool) {
    }

    proof fn lemma_abs_value_range(abs: bool) {
        lemma_pow2_widths();
    }

    #[inline]
    fn is_signed() -> (r: bool) {
        false
    }

    #[inline]
    fn nbits() -> (r: u32) {
        1
    }

    #[inline]
    fn one_shl(shift: u32) -> (r: bool) {
        proof {
            lemma_pow2_widths();
        }
        true
    }

    #[inline]
    fn all_ones_shl(shift: u32) -> (r: bool) {
        proof {
            lemma_pow2_widths();
        }
        true
    }

    #[inline]
    fn is_zero(self) -> (r: bool) {
        !self
    }

    #[inline]
    fn to_fixed_neg_abs_overflow(self, frac_bits: u32, int_bits: u32) -> (r: (bool, u128, bool)) {
        proof {
            lemma_pow2_widths();
            lemma_pow2_monotonic(0, int_bits as nat);
            lemma_pow2_monotonic(0, frac_bits as nat);
        }
        if !self {
            proof {
                assert(0 * pow2(frac_bits as nat) == 0) by (nonlinear_arith);
            }
            return (false, 0, false);
        }
        let overflow = int_bits == 0;
        proof {
            if int_bits > 0 {
                lemma_pow2_monotonic(1, int_bits as nat);
            }
        }
        let abs = if frac_bits == 0 {
            1u128
        } else if frac_bits < 128 {
            proof {
                lemma_pow2_monotonic(frac_bits as nat, 127);
            }
            pow2_u128(frac_bits)
        } else {
            proof {
                crate::arith::lemma_pow2_multiple(128, frac_bits as nat);
            }
            0
        };
        (false, abs, overflow)
    }

    #[inline]
    fn neg_abs(self) -> (r: (bool, bool)) {
        (false, self)
    }

    #[inline]
    fn from_neg_abs(neg: bool, abs: bool) -> (r: bool) {
        proof {
            lemma_pow2_widths();
        }
        abs
    }
}


impl SealedInt for i8 {
    type Unsigned = u8;

    open spec fn spec_is_signed() -> bool {
        true
    }

    open spec fn spec_nbits() -> nat {
        8
    }

    open spec fn int_value(self) -> int {
        self as int
    }

    open spec fn abs_value(abs: u8) -> nat {
        abs as nat
    }

    proof fn lemma_nbits() {
    }

    proof fn lemma_int_value_range(x: i8) {
        lemma_pow2_widths();
    }

    proof fn lemma_int_value_injective(x: i8, y: i8) {
    }

    proof fn lemma_abs_value_range(abs: u8) {
        lemma_pow2_widths();
    }

    #[inline]
    fn is_signed() -> (r: bool) {
        true
    }

    #[inline]
    fn nbits() -> (r: u32) {
        8
    }

    #[inline]
    fn one_shl(shift: u32) -> (r: i8) {
        if shift == 7 {
            proof {
                lemma_pow2_widths();
            }
            i8::MIN
        } else {
            proof {
                lemma_pow2_widths();
                lemma_pow2_strictly_increases(shift as nat, 7);
                vstd::bits::lemma_u8_shl_is_mul(1, shift as u8);
            }
            let bit: u8 = 1 << shift;
            bit as i8
        }
    }

    #[inline]
    fn all_ones_shl(shift: u32) -> (r: i8) {
        if shift == 7 {
            proof {
                lemma_pow2_widths();
            }
            i8::MIN
        } else {
            proof {
                lemma_pow2_widths();
                lemma_pow2_strictly_increases(shift as nat, 7);
                vstd::bits::lemma_u8_shl_is_mul(1, shift as u8);
            }
            let bit: u8 = 1 << shift;
            -(bit as i8)
        }
    }

    #[inline]
    fn is_zero(self) -> (r: bool) {
        self == 0
    }

    #[inline]
    fn to_fixed_neg_abs_overflow(self, frac_bits: u32, int_bits: u32) -> (r: (bool, u128, bool)) {
        let (neg, abs) = SealedInt::neg_abs(self);
        let (bits, overflow) = fixed_abs_overflow(abs as u128, frac_bits, int_bits);
        (neg, bits, overflow)
    }

    #[inline]
    fn neg_abs(self) -> (r: (bool, u8)) {
        if self == i8::MIN {
            (true, 0x80)
        } else if self < 0 {
            (true, (-self) as u8)
        } else {
            (false, self as u8)
        }
    }

    #[inline]
    fn from_neg_abs(neg: bool, abs: u8) -> (r: i8) {
        proof {
            lemma_pow2_widths();
        }
        if abs == 0x80 {
            i8::MIN
        } else if neg {
            -(abs as i8)
        } else {
            abs as i8
        }
    }
}

impl Int for i8 {

}

impl SealedInt for i16 {
    type Unsigned = u16;

    open spec fn spec_is_signed() -> bool {
        true
    }

    open spec fn spec_nbits() -> nat {
        16
    }

    open spec fn int_value(self) -> int {
        self as int
    }

    open spec fn abs_value(abs: u16) -> nat {
        abs as nat
    }

    proof fn lemma_nbits() {
    }

    proof fn lemma_int_value_range(x: i16) {
        lemma_pow2_widths();
    }

    proof fn lemma_int_value_injective(x: i16, y: i16) {
    }

    proof fn lemma_abs_value_range(abs: u16) {
        lemma_pow2_widths();
    }

    #[inline]
    fn is_signed() -> (r: bool) {
        true
    }

    #[inline]
    fn nbits() -> (r: u32) {
        16
    }

    #[inline]
    fn one_shl(shift: u32) -> (r: i16) {
        if shift == 15 {
            proof {
                lemma_pow2_widths();
            }
            i16::MIN
        } else {
            proof {
                lemma_pow2_widths();
                lemma_pow2_strictly_increases(shift as nat, 15);
                vstd::bits::lemma_u16_shl_is_mul(1, shift as u16);
            }
            let bit: u16 = 1 << shift;
            bit as i16
        }
    }

    #[inline]
    fn all_ones_shl(shift: u32) -> (r: i16) {
        if shift == 15 {
            proof {
                lemma_pow2_widths();
            }
            i16::MIN
        } else {
            proof {
                lemma_pow2_widths();
                lemma_pow2_strictly_increases(shift as nat, 15);
                vstd::bits::lemma_u16_shl_is_mul(1, shift as u16);
            }
            let bit: u16 = 1 << shift;
            -(bit as i16)
        }
    }

    #[inline]
    fn is_zero(self) -> (r: bool) {
        self == 0
    }

    #[inline]
    fn to_fixed_neg_abs_overflow(self, frac_bits: u32, int_bits: u32) -> (r: (bool, u128, bool)) {
        let (neg, abs) = SealedInt::neg_abs(self);
        let (bits, overflow) = fixed_abs_overflow(abs as u128, frac_bits, int_bits);
        (neg, bits, overflow)
    }

    #[inline]
    fn neg_abs(self) -> (r: (bool, u16)) {
        if self == i16::MIN {
            (true, 0x8000)
        } else if self < 0 {
            (true, (-self) as u16)
        } else {
            (false, self as u16)
        }
    }

    #[inline]
    fn from_neg_abs(neg: bool, abs: u16) -> (r: i16) {
        proof {
            lemma_pow2_widths();
        }
        if abs == 0x8000 {
            i16::MIN
        } else if neg {
            -(abs as i16)
        } else {
            abs as i16
        }
    }
}

impl Int for i16 {

}

impl SealedInt for i32 {
    type Unsigned = u32;

    open spec fn spec_is_signed() -> bool {
        true
    }

    open spec fn spec_nbits() -> nat {
        32
    }

    open spec fn int_value(self) -> int {
        self as int
    }

    open spec fn abs_value(abs: u32) -> nat {
        abs as nat
    }

    proof fn lemma_nbits() {
    }

    proof fn lemma_int_value_range(x: i32) {
        lemma_pow2_widths();
    }

    proof fn lemma_int_value_injective(x: i32, y: i32) {
    }

    proof fn lemma_abs_value_range(abs: u32) {
        lemma_pow2_widths();
    }

    #[inline]
    fn is_signed() -> (r: bool) {
        true
    }

    #[inline]
    fn nbits() -> (r: u32) {
        32
    }

    #[inline]
    fn one_shl(shift: u32) -> (r: i32) {
        if shift == 31 {
            proof {
                lemma_pow2_widths();
            }
            i32::MIN
        } else {
            proof {
                lemma_pow2_widths();
                lemma_pow2_strictly_increases(shift as nat, 31);
                vstd::bits::lemma_u32_shl_is_mul(1, shift as u32);
            }
            let bit: u32 = 1 << shift;
            bit as i32
        }
    }

    #[inline]
    fn all_ones_shl(shift: u32) -> (r: i32) {
        if shift == 31 {
            proof {
                lemma_pow2_widths();
            }
            i32::MIN
        } else {
            proof {
                lemma_pow2_widths();
                lemma_pow2_strictly_increases(shift as nat, 31);
                vstd::bits::lemma_u32_shl_is_mul(1, shift as u32);
            }
            let bit: u32 = 1 << shift;
            -(bit as i32)
        }
    }

    #[inline]
    fn is_zero(self) -> (r: bool) {
        self == 0
    }

    #[inline]
    fn to_fixed_neg_abs_overflow(self, frac_bits: u32, int_bits: u32) -> (r: (bool, u128, bool)) {
        let (neg, abs) = SealedInt::neg_abs(self);
        let (bits, overflow) = fixed_abs_overflow(abs as u128, frac_bits, int_bits);
        (neg, bits, overflow)
    }

    #[inline]
    fn neg_abs(self) -> (r: (bool, u32)) {
        if self == i32::MIN {
            (true, 0x8000_0000)
        } else if self < 0 {
            (true, (-self) as u32)
        } else {
            (false, self as u32)
        }
    }

    #[inline]
    fn from_neg_abs(neg: bool, abs: u32) -> (r: i32) {
        proof {
            lemma_pow2_widths();
        }
        if abs == 0x8000_0000 {
            i32::MIN
        } else if neg {
            -(abs as i32)
        } else {
            abs as i32
        }
    }
}

impl Int for i32 {

}

impl SealedInt for i64 {
    type Unsigned = u64;

    open spec fn spec_is_signed() -> bool {
        true
    }

    open spec fn spec_nbits() -> nat {
        64
    }

    open spec fn int_value(self) -> int {
        self as int
    }

    open spec fn abs_value(abs: u64) -> nat {
        abs as nat
    }

    proof fn lemma_nbits() {
    }

    proof fn lemma_int_value_range(x: i64) {
        lemma_pow2_widths();
    }

    proof fn lemma_int_value_injective(x: i64, y: i64) {
    }

    proof fn lemma_abs_value_range(abs: u64) {
        lemma_pow2_widths();
    }

    #[inline]
    fn is_signed() -> (r: bool) {
        true
    }

    #[inline]
    fn nbits() -> (r: u32) {
        64
    }

    #[inline]
    fn one_shl(shift: u32) -> (r: i64) {
        if shift == 63 {
            proof {
                lemma_pow2_widths();
            }
            i64::MIN
        } else {
            proof {
                lemma_pow2_widths();
                lemma_pow2_strictly_increases(shift as nat, 63);
                vstd::bits::lemma_u64_shl_is_mul(1, shift as u64);
            }
            let bit: u64 = 1 << shift;
            bit as i64
        }
    }

    #[inline]
    fn all_ones_shl(shift: u32) -> (r: i64) {
        if shift == 63 {
            proof {
                lemma_pow2_widths();
            }
            i64::MIN
        } else {
            proof {
                lemma_pow2_widths();
                lemma_pow2_strictly_increases(shift as nat, 63);
                vstd::bits::lemma_u64_shl_is_mul(1, shift as u64);
            }
            let bit: u64 = 1 << shift;
            -(bit as i64)
        }
    }

    #[inline]
    fn is_zero(self) -> (r: bool) {
        self == 0
    }

    #[inline]
    fn to_fixed_neg_abs_overflow(self, frac_bits: u32, int_bits: u32) -> (r: (bool, u128, bool)) {
        let (neg, abs) = SealedInt::neg_abs(self);
        let (bits, overflow) = fixed_abs_overflow(abs as u128, frac_bits, int_bits);
        (neg, bits, overflow)
    }

    #[inline]
    fn neg_abs(self) -> (r: (bool, u64)) {
        if self == i64::MIN {
            (true, 0x8000_0000_0000_0000)
        } else if self < 0 {
            (true, (-self) as u64)
        } else {
            (false, self as u64)
        }
    }

    #[inline]
    fn from_neg_abs(neg: bool, abs: u64) -> (r: i64) {
        proof {
            lemma_pow2_widths();
        }
        if abs == 0x8000_0000_0000_0000 {
            i64::MIN
        } else if neg {
            -(abs as i64)
        } else {
            abs as i64
        }
    }
}

impl Int for i64 {

}

impl SealedInt for i128 {
    type Unsigned = u128;

    open spec fn spec_is_signed() -> bool {
        true
    }

    open spec fn spec_nbits() -> nat {
        128
    }

    open spec fn int_value(self) -> int {
        self as int
    }

    open spec fn abs_value(abs: u128) -> nat {
        abs as nat
    }

    proof fn lemma_nbits() {
    }

    proof fn lemma_int_value_range(x: i128) {
        lemma_pow2_widths();
    }

    proof fn lemma_int_value_injective(x: i128, y: i128) {
    }

    proof fn lemma_abs_value_range(abs: u128) {
        lemma_pow2_widths();
    }

    #[inline]
    fn is_signed() -> (r: bool) {
        true
    }

    #[inline]
    fn nbits() -> (r: u32) {
        128
    }

    #[inline]
    fn one_shl(shift: u32) -> (r: i128) {
        if shift == 127 {
            proof {
                lemma_pow2_widths();
            }
            i128::MIN
        } else {
            proof {
                lemma_pow2_widths();
                lemma_pow2_strictly_increases(shift as nat, 127);
                lemma_u128_shl_is_mul(1, shift);
            }
            let bit: u128 = 1 << shift;
            bit as i128
        }
    }

    #[inline]
    fn all_ones_shl(shift: u32) -> (r: i128) {
        if shift == 127 {
            proof {
                lemma_pow2_widths();
            }
            i128::MIN
        } else {
            proof {
                lemma_pow2_widths();
                lemma_pow2_strictly_increases(shift as nat, 127);
                lemma_u128_shl_is_mul(1, shift);
            }
            let bit: u128 = 1 << shift;
            -(bit as i128)
        }
    }

    #[inline]
    fn is_zero(self) -> (r: bool) {
        self == 0
    }

    #[inline]
    fn to_fixed_neg_abs_overflow(self, frac_bits: u32, int_bits: u32) -> (r: (bool, u128, bool)) {
        let (neg, abs) = SealedInt::neg_abs(self);
        let (bits, overflow) = fixed_abs_overflow(abs, frac_bits, int_bits);
        (neg, bits, overflow)
    }

    #[inline]
    fn neg_abs(self) -> (r: (bool, u128)) {
        if self == i128::MIN {
            (true, 0x8000_0000_0000_0000_0000_0000_0000_0000)
        } else if self < 0 {
            (true, (-self) as u128)
        } else {
            (false, self as u128)
        }
    }

    #[inline]
    fn from_neg_abs(neg: bool, abs: u128) -> (r: i128) {
        proof {
            lemma_pow2_widths();
        }
        if abs == 0x8000_0000_0000_0000_0000_0000_0000_0000 {
            i128::MIN
        } else if neg {
            -(abs as i128)
        } else {
            abs as i128
        }
    }
}

impl Int for i128 {

}

impl SealedInt for u8 {
    type Unsigned = u8;

    open spec fn spec_is_signed() -> bool {
        false
    }

    open spec fn spec_nbits() -> nat {
        8
    }

    open spec fn int_value(self) -> int {
        self as int
    }

    open spec fn abs_value(abs: u8) -> nat {
        abs as nat
    }

    proof fn lemma_nbits() {
    }

    proof fn lemma_int_value_range(x: u8) {
        lemma_pow2_widths();
    }

    proof fn lemma_int_value_injective(x: u8, y: u8) {
    }

    proof fn lemma_abs_value_range(abs: u8) {
        lemma_pow2_widths();
    }

    #[inline]
    fn is_signed() -> (r: bool) {
        false
    }

    #[inline]
    fn nbits() -> (r: u32) {
        8
    }

    #[inline]
    fn one_shl(shift: u32) -> (r: u8) {
        proof {
            lemma_pow2_widths();
            lemma_pow2_monotonic(shift as nat, 7);
            vstd::bits::lemma_u8_shl_is_mul(1, shift as u8);
        }
        1 << shift
    }

    #[inline]
    fn all_ones_shl(shift: u32) -> (r: u8) {
        proof {
            lemma_pow2_widths();
            lemma_pow2_monotonic(shift as nat, 7);
            vstd::bits::lemma_u8_shl_is_mul(1, shift as u8);
        }
        u8::MAX - ((1 << shift) - 1)
    }

    #[inline]
    fn is_zero(self) -> (r: bool) {
        self == 0
    }

    #[inline]
    fn to_fixed_neg_abs_overflow(self, frac_bits: u32, int_bits: u32) -> (r: (bool, u128, bool)) {
        let (bits, overflow) = fixed_abs_overflow(self as u128, frac_bits, int_bits);
        (false, bits, overflow)
    }

    #[inline]
    fn neg_abs(self) -> (r: (bool, u8)) {
        (false, self)
    }

    #[inline]
    fn from_neg_abs(neg: bool, abs: u8) -> (r: u8) {
        abs
    }
}

impl Int for u8 {

}

impl SealedInt for u16 {
    type Unsigned = u16;

    open spec fn spec_is_signed() -> bool {
        false
    }

    open spec fn spec_nbits() -> nat {
        16
    }

    open spec fn int_value(self) -> int {
        self as int
    }

    open spec fn abs_value(abs: u16) -> nat {
        abs as nat
    }

    proof fn lemma_nbits() {
    }

    proof fn lemma_int_value_range(x: u16) {
        lemma_pow2_widths();
    }

    proof fn lemma_int_value_injective(x: u16, y: u16) {
    }

    proof fn lemma_abs_value_range(abs: u16) {
        lemma_pow2_widths();
    }

    #[inline]
    fn is_signed() -> (r: bool) {
        false
    }

    #[inline]
    fn nbits() -> (r: u32) {
        16
    }

    #[inline]
    fn one_shl(shift: u32) -> (r: u16) {
        proof {
            lemma_pow2_widths();
            lemma_pow2_monotonic(shift as nat, 15);
            vstd::bits::lemma_u16_shl_is_mul(1, shift as u16);
        }
        1 << shift
    }

    #[inline]
    fn all_ones_shl(shift: u32) -> (r: u16) {
        proof {
            lemma_pow2_widths();
            lemma_pow2_monotonic(shift as nat, 15);
            vstd::bits::lemma_u16_shl_is_mul(1, shift as u16);
        }
        u16::MAX - ((1 << shift) - 1)
    }

    #[inline]
    fn is_zero(self) -> (r: bool) {
        self == 0
    }

    #[inline]
    fn to_fixed_neg_abs_overflow(self, frac_bits: u32, int_bits: u32) -> (r: (bool, u128, bool)) {
        let (bits, overflow) = fixed_abs_overflow(self as u128, frac_bits, int_bits);
        (false, bits, overflow)
    }

    #[inline]
    fn neg_abs(self) -> (r: (bool, u16)) {
        (false, self)
    }

    #[inline]
    fn from_neg_abs(neg: bool, abs: u16) -> (r: u16) {
        abs
    }
}

impl Int for u16 {

}

impl SealedInt for u32 {
    type Unsigned = u32;

    open spec fn spec_is_signed() -> bool {
        false
    }

    open spec fn spec_nbits() -> nat {
        32
    }

    open spec fn int_value(self) -> int {
        self as int
    }

    open spec fn abs_value(abs: u32) -> nat {
        abs as nat
    }

    proof fn lemma_nbits() {
    }

    proof fn lemma_int_value_range(x: u32) {
        lemma_pow2_widths();
    }

    proof fn lemma_int_value_injective(x: u32, y: u32) {
    }

    proof fn lemma_abs_value_range(abs: u32) {
        lemma_pow2_widths();
    }

    #[inline]
    fn is_signed() -> (r: bool) {
        false
    }

    #[inline]
    fn nbits() -> (r: u32) {
        32
    }

    #[inline]
    fn one_shl(shift: u32) -> (r: u32) {
        proof {
            lemma_pow2_widths();
            lemma_pow2_monotonic(shift as nat, 31);
            vstd::bits::lemma_u32_shl_is_mul(1, shift as u32);
        }
        1 << shift
    }

    #[inline]
    fn all_ones_shl(shift: u32) -> (r: u32) {
        proof {
            lemma_pow2_widths();
            lemma_pow2_monotonic(shift as nat, 31);
            vstd::bits::lemma_u32_shl_is_mul(1, shift as u32);
        }
        u32::MAX - ((1 << shift) - 1)
    }

    #[inline]
    fn is_zero(self) -> (r: bool) {
        self == 0
    }

    #[inline]
    fn to_fixed_neg_abs_overflow(self, frac_bits: u32, int_bits: u32) -> (r: (bool, u128, bool)) {
        let (bits, overflow) = fixed_abs_overflow(self as u128, frac_bits, int_bits);
        (false, bits, overflow)
    }

    #[inline]
    fn neg_abs(self) -> (r: (bool, u32)) {
        (false, self)
    }

    #[inline]
    fn from_neg_abs(neg: bool, abs: u32) -> (r: u32) {
        abs
    }
}

impl Int for u32 {

}

impl SealedInt for u64 {
    type Unsigned = u64;

    open spec fn spec_is_signed() -> bool {
        false
    }

    open spec fn spec_nbits() -> nat {
        64
    }

    open spec fn int_value(self) -> int {
        self as int
    }

    open spec fn abs_value(abs: u64) -> nat {
        abs as nat
    }

    proof fn lemma_nbits() {
    }

    proof fn lemma_int_value_range(x: u64) {
        lemma_pow2_widths();
    }

    proof fn lemma_int_value_injective(x: u64, y: u64) {
    }

    proof fn lemma_abs_value_range(abs: u64) {
        lemma_pow2_widths();
    }

    #[inline]
    fn is_signed() -> (r: bool) {
        false
    }

    #[inline]
    fn nbits() -> (r: u32) {
        64
    }

    #[inline]
    fn one_shl(shift: u32) -> (r: u64) {
        proof {
            lemma_pow2_widths();
            lemma_pow2_monotonic(shift as nat, 63);
            vstd::bits::lemma_u64_shl_is_mul(1, shift as u64);
        }
        1 << shift
    }

    #[inline]
    fn all_ones_shl(shift: u32) -> (r: u64) {
        proof {
            lemma_pow2_widths();
            lemma_pow2_monotonic(shift as nat, 63);
            vstd::bits::lemma_u64_shl_is_mul(1, shift as u64);
        }
        u64::MAX - ((1 << shift) - 1)
    }

    #[inline]
    fn is_zero(self) -> (r: bool) {
        self == 0
    }

    #[inline]
    fn to_fixed_neg_abs_overflow(self, frac_bits: u32, int_bits: u32) -> (r: (bool, u128, bool)) {
        let (bits, overflow) = fixed_abs_overflow(self as u128, frac_bits, int_bits);
        (false, bits, overflow)
    }

    #[inline]
    fn neg_abs(self) -> (r: (bool, u64)) {
        (false, self)
    }

    #[inline]
    fn from_neg_abs(neg: bool, abs: u64) -> (r: u64) {
        abs
    }
}

impl Int for u64 {

}

impl SealedInt for u128 {
    type Unsigned = u128;

    open spec fn spec_is_signed() -> bool {
        false
    }

    open spec fn spec_nbits() -> nat {
        128
    }

    open spec fn int_value(self) -> int {
        self as int
    }

    open spec fn abs_value(abs: u128) -> nat {
        abs as nat
    }

    proof fn lemma_nbits() {
    }

    proof fn lemma_int_value_range(x: u128) {
        lemma_pow2_widths();
    }

    proof fn lemma_int_value_injective(x: u128, y: u128) {
    }

    proof fn lemma_abs_value_range(abs: u128) {
        lemma_pow2_widths();
    }

    #[inline]
    fn is_signed() -> (r: bool) {
        false
    }

    #[inline]
    fn nbits() -> (r: u32) {
        128
    }

    #[inline]
    fn one_shl(shift: u32) -> (r: u128) {
        proof {
            lemma_pow2_widths();
            lemma_pow2_monotonic(shift as nat, 127);
            lemma_u128_shl_is_mul(1, shift);
        }
        1 << shift
    }

    #[inline]
    fn all_ones_shl(shift: u32) -> (r: u128) {
        proof {
            lemma_pow2_widths();
            lemma_pow2_monotonic(shift as nat, 127);
            lemma_u128_shl_is_mul(1, shift);
        }
        u128::MAX - ((1 << shift) - 1)
    }

    #[inline]
    fn is_zero(self) -> (r: bool) {
        self == 0
    }

    #[inline]
    fn to_fixed_neg_abs_overflow(self, frac_bits: u32, int_bits: u32) -> (r: (bool, u128, bool)) {
        let (bits, overflow) = fixed_abs_overflow(self, frac_bits, int_bits);
        (false, bits, overflow)
    }

    #[inline]
    fn neg_abs(self) -> (r: (bool, u128)) {
        (false, self)
    }

    #[inline]
    fn from_neg_abs(neg: bool, abs: u128) -> (r: u128) {
        abs
    }
}

impl Int for u128 {

}

/// The width of the pointer-sized integers is that of the 32-bit or of the
/// 64-bit words.
proof fn lemma_pointer_width()
    ensures
        usize::BITS == 32 || usize::BITS == 64,
        usize::MAX == pow2(usize::BITS as nat) - 1,
        isize::MAX == pow2((usize::BITS - 1) as nat) - 1,
        isize::MIN == -pow2((usize::BITS - 1) as nat),
{
    lemma_pow2_widths();
}

impl SealedInt for isize {
    type Unsigned = usize;

    open spec fn spec_is_signed() -> bool {
        true
    }

    open spec fn spec_nbits() -> nat {
        usize::BITS as nat
    }

    open spec fn int_value(self) -> int {
        self as int
    }

    open spec fn abs_value(abs: usize) -> nat {
        abs as nat
    }

    proof fn lemma_nbits() {
        lemma_pointer_width();
    }

    proof fn lemma_int_value_range(x: isize) {
        lemma_pointer_width();
    }

    proof fn lemma_int_value_injective(x: isize, y: isize) {
    }

    proof fn lemma_abs_value_range(abs: usize) {
        lemma_pointer_width();
    }

    #[inline]
    fn is_signed() -> (r: bool) {
        true
    }

    #[inline]
    fn nbits() -> (r: u32) {
        usize::BITS
    }

    #[inline]
    fn one_shl(shift: u32) -> (r: isize) {
        proof {
            lemma_pointer_width();
        }
        if shift == usize::BITS - 1 {
            isize::MIN
        } else {
            proof {
                lemma_pow2_strictly_increases(shift as nat, (usize::BITS - 1) as nat);
                vstd::bits::lemma_usize_shl_is_mul(1, shift as usize);
            }
            let bit: usize = 1 << shift;
            bit as isize
        }
    }

    #[inline]
    fn all_ones_shl(shift: u32) -> (r: isize) {
        proof {
            lemma_pointer_width();
        }
        if shift == usize::BITS - 1 {
            isize::MIN
        } else {
            proof {
                lemma_pow2_strictly_increases(shift as nat, (usize::BITS - 1) as nat);
                vstd::bits::lemma_usize_shl_is_mul(1, shift as usize);
            }
            let bit: usize = 1 << shift;
            -(bit as isize)
        }
    }

    #[inline]
    fn is_zero(self) -> (r: bool) {
        self == 0
    }

    #[inline]
    fn to_fixed_neg_abs_overflow(self, frac_bits: u32, int_bits: u32) -> (r: (bool, u128, bool)) {
        let (neg, abs) = SealedInt::neg_abs(self);
        let (bits, overflow) = fixed_abs_overflow(abs as u128, frac_bits, int_bits);
        (neg, bits, overflow)
    }

    #[inline]
    fn neg_abs(self) -> (r: (bool, usize)) {
        proof {
            lemma_pointer_width();
        }
        if self == isize::MIN {
            (true, isize::MAX as usize + 1)
        } else if self < 0 {
            (true, (-self) as usize)
        } else {
            (false, self as usize)
        }
    }

    #[inline]
    fn from_neg_abs(neg: bool, abs: usize) -> (r: isize) {
        proof {
            lemma_pointer_width();
        }
        if abs > isize::MAX as usize {
            isize::MIN
        } else if neg {
            -(abs as isize)
        } else {
            abs as isize
        }
    }
}

impl Int for isize {

}

impl SealedInt for usize {
    type Unsigned = usize;

    open spec fn spec_is_signed() -> bool {
        false
    }

    open spec fn spec_nbits() -> nat {
        usize::BITS as nat
    }

    open spec fn int_value(self) -> int {
        self as int
    }

    open spec fn abs_value(abs: usize) -> nat {
        abs as nat
    }

    proof fn lemma_nbits() {
        lemma_pointer_width();
    }

    proof fn lemma_int_value_range(x: usize) {
        lemma_pointer_width();
    }

    proof fn lemma_int_value_injective(x: usize, y: usize) {
    }

    proof fn lemma_abs_value_range(abs: usize) {
        lemma_pointer_width();
    }

    #[inline]
    fn is_signed() -> (r: bool) {
        false
    }

    #[inline]
    fn nbits() -> (r: u32) {
        usize::BITS
    }

    #[inline]
    fn one_shl(shift: u32) -> (r: usize) {
        proof {
            lemma_pointer_width();
            lemma_pow2_monotonic(shift as nat, (usize::BITS - 1) as nat);
            vstd::bits::lemma_usize_shl_is_mul(1, shift as usize);
        }
        1 << shift
    }

    #[inline]
    fn all_ones_shl(shift: u32) -> (r: usize) {
        proof {
            lemma_pointer_width();
            lemma_pow2_monotonic(shift as nat, (usize::BITS - 1) as nat);
            vstd::bits::lemma_usize_shl_is_mul(1, shift as usize);
        }
        usize::MAX - ((1 << shift) - 1)
    }

    #[inline]
    fn is_zero(self) -> (r: bool) {
        self == 0
    }

    #[inline]
    fn to_fixed_neg_abs_overflow(self, frac_bits: u32, int_bits: u32) -> (r: (bool, u128, bool)) {
        let (bits, overflow) = fixed_abs_overflow(self as u128, frac_bits, int_bits);
        (false, bits, overflow)
    }

    #[inline]
    fn neg_abs(self) -> (r: (bool, usize)) {
        (false, self)
    }

    #[inline]
    fn from_neg_abs(neg: bool, abs: usize) -> (r: usize) {
        abs
    }
}

impl Int for usize {

}

} // verus!
