//! The unsigned words that magnitudes are built in: the operations that
//! the converters need, stated over the numbers that the words stand for.
use crate::arith::{lemma_pow2_widths, lemma_u128_shl_is_mul};
use crate::sealed_int::SealedInt;
use vstd::arithmetic::power2::pow2;
use vstd::prelude::*;

verus! {

/// An unsigned integer of 8, 16, 32, 64 or 128 bits as a working word.
pub trait Word: SealedInt {
    /// A word is unsigned, and 8, 16, 32, 64 or 128 bits wide.
    proof fn lemma_word()
        ensures
            !Self::spec_is_signed(),
            Self::spec_nbits() == 8 || Self::spec_nbits() == 16 || Self::spec_nbits() == 32
                || Self::spec_nbits() == 64 || Self::spec_nbits() == 128,
    ;

    /// The word that stands for a byte's value.
    fn from_u8(v: u8) -> (r: Self)
        ensures
            r.int_value() == v,
    ;

    /// The word that stands for a number below two to the width.
    fn from_u128(v: u128) -> (r: Self)
        requires
            v < pow2(Self::spec_nbits()),
        ensures
            r.int_value() == v,
    ;

    /// The number that the word stands for, in the widest word.
    fn to_u128(self) -> (r: u128)
        ensures
            r == self.int_value(),
    ;

    /// The word shifted left by `n` bits, where nothing is shifted out.
    fn shl(self, n: u32) -> (r: Self)
        requires
            n < Self::spec_nbits(),
            self.int_value() * pow2(n as nat) < pow2(Self::spec_nbits()),
        ensures
            r.int_value() == self.int_value() * pow2(n as nat),
    ;

    /// The word shifted right by `n` bits.
    fn shr(self, n: u32) -> (r: Self)
        requires
            n < Self::spec_nbits(),
        ensures
            r.int_value() == self.int_value() / (pow2(n as nat) as int),
    ;

    /// The sum of two words, where it fits.
    fn plus(self, rhs: Self) -> (r: Self)
        requires
            self.int_value() + rhs.int_value() < pow2(Self::spec_nbits()),
        ensures
            r.int_value() == self.int_value() + rhs.int_value(),
    ;

    /// The sum of two words, if it fits.
    fn checked_add(self, rhs: Self) -> (r: Option<Self>)
        ensures
            match r {
                Some(sum) => sum.int_value() == self.int_value() + rhs.int_value(),
                None => self.int_value() + rhs.int_value() >= pow2(Self::spec_nbits()),
            },
    ;

    /// The product of two words, if it fits.
    fn checked_mul(self, rhs: Self) -> (r: Option<Self>)
        ensures
            match r {
                Some(product) => product.int_value() == self.int_value() * rhs.int_value(),
                None => self.int_value() * rhs.int_value() >= pow2(Self::spec_nbits()),
            },
    ;

    /// Whether this word is less than the other.
    fn less_than(self, rhs: Self) -> (r: bool)
        ensures
            r == (self.int_value() < rhs.int_value()),
    ;
}

impl Word for u8 {
    proof fn lemma_word() {
    }

    #[inline]
    fn from_u8(v: u8) -> (r: u8) {
        v as u8
    }

    #[inline]
    fn from_u128(v: u128) -> (r: u8) {
        proof {
            lemma_pow2_widths();
        }
        v as u8
    }

    #[inline]
    fn to_u128(self) -> (r: u128) {
        self as u128
    }

    #[inline]
    fn shl(self, n: u32) -> (r: u8) {
        proof {
            lemma_pow2_widths();
            vstd::bits::lemma_u8_shl_is_mul(self, n as u8);
        }
        self << n
    }

    #[inline]
    fn shr(self, n: u32) -> (r: u8) {
        proof {
            vstd::bits::lemma_u8_shr_is_div(self, n as u8);
        }
        self >> n
    }

    #[inline]
    fn plus(self, rhs: u8) -> (r: u8) {
        proof {
            lemma_pow2_widths();
        }
        self + rhs
    }

    #[inline]
    fn checked_add(self, rhs: u8) -> (r: Option<u8>) {
        proof {
            lemma_pow2_widths();
        }
        u8::checked_add(self, rhs)
    }

    #[inline]
    fn checked_mul(self, rhs: u8) -> (r: Option<u8>) {
        proof {
            lemma_pow2_widths();
        }
        u8::checked_mul(self, rhs)
    }

    #[inline]
    fn less_than(self, rhs: u8) -> (r: bool) {
        self < rhs
    }
}

impl Word for u16 {
    proof fn lemma_word() {
    }

    #[inline]
    fn from_u8(v: u8) -> (r: u16) {
        v as u16
    }

    #[inline]
    fn from_u128(v: u128) -> (r: u16) {
        proof {
            lemma_pow2_widths();
        }
        v as u16
    }

    #[inline]
    fn to_u128(self) -> (r: u128) {
        self as u128
    }

    #[inline]
    fn shl(self, n: u32) -> (r: u16) {
        proof {
            lemma_pow2_widths();
            vstd::bits::lemma_u16_shl_is_mul(self, n as u16);
        }
        self << n
    }

    #[inline]
    fn shr(self, n: u32) -> (r: u16) {
        proof {
            vstd::bits::lemma_u16_shr_is_div(self, n as u16);
        }
        self >> n
    }

    #[inline]
    fn plus(self, rhs: u16) -> (r: u16) {
        proof {
            lemma_pow2_widths();
        }
        self + rhs
    }

    #[inline]
    fn checked_add(self, rhs: u16) -> (r: Option<u16>) {
        proof {
            lemma_pow2_widths();
        }
        u16::checked_add(self, rhs)
    }

    #[inline]
    fn checked_mul(self, rhs: u16) -> (r: Option<u16>) {
        proof {
            lemma_pow2_widths();
        }
        u16::checked_mul(self, rhs)
    }

    #[inline]
    fn less_than(self, rhs: u16) -> (r: bool) {
        self < rhs
    }
}

impl Word for u32 {
    proof fn lemma_word() {
    }

    #[inline]
    fn from_u8(v: u8) -> (r: u32) {
        v as u32
    }

    #[inline]
    fn from_u128(v: u128) -> (r: u32) {
        proof {
            lemma_pow2_widths();
        }
        v as u32
    }

    #[inline]
    fn to_u128(self) -> (r: u128) {
        self as u128
    }

    #[inline]
    fn shl(self, n: u32) -> (r: u32) {
        proof {
            lemma_pow2_widths();
            vstd::bits::lemma_u32_shl_is_mul(self, n as u32);
        }
        self << n
    }

    #[inline]
    fn shr(self, n: u32) -> (r: u32) {
        proof {
            vstd::bits::lemma_u32_shr_is_div(self, n as u32);
        }
        self >> n
    }

    #[inline]
    fn plus(self, rhs: u32) -> (r: u32) {
        proof {
            lemma_pow2_widths();
        }
        self + rhs
    }

    #[inline]
    fn checked_add(self, rhs: u32) -> (r: Option<u32>) {
        proof {
            lemma_pow2_widths();
        }
        u32::checked_add(self, rhs)
    }

    #[inline]
    fn checked_mul(self, rhs: u32) -> (r: Option<u32>) {
        proof {
            lemma_pow2_widths();
        }
        u32::checked_mul(self, rhs)
    }

    #[inline]
    fn less_than(self, rhs: u32) -> (r: bool) {
        self < rhs
    }
}

impl Word for u64 {
    proof fn lemma_word() {
    }

    #[inline]
    fn from_u8(v: u8) -> (r: u64) {
        v as u64
    }

    #[inline]
    fn from_u128(v: u128) -> (r: u64) {
        proof {
            lemma_pow2_widths();
        }
        v as u64
    }

    #[inline]
    fn to_u128(self) -> (r: u128) {
        self as u128
    }

    #[inline]
    fn shl(self, n: u32) -> (r: u64) {
        proof {
            lemma_pow2_widths();
            vstd::bits::lemma_u64_shl_is_mul(self, n as u64);
        }
        self << n
    }

    #[inline]
    fn shr(self, n: u32) -> (r: u64) {
        proof {
            vstd::bits::lemma_u64_shr_is_div(self, n as u64);
        }
        self >> n
    }

    #[inline]
    fn plus(self, rhs: u64) -> (r: u64) {
        proof {
            lemma_pow2_widths();
        }
        self + rhs
    }

    #[inline]
    fn checked_add(self, rhs: u64) -> (r: Option<u64>) {
        proof {
            lemma_pow2_widths();
        }
        u64::checked_add(self, rhs)
    }

    #[inline]
    fn checked_mul(self, rhs: u64) -> (r: Option<u64>) {
        proof {
            lemma_pow2_widths();
        }
        u64::checked_mul(self, rhs)
    }

    #[inline]
    fn less_than(self, rhs: u64) -> (r: bool) {
        self < rhs
    }
}

impl Word for u128 {
    proof fn lemma_word() {
    }

    #[inline]
    fn from_u8(v: u8) -> (r: u128) {
        v as u128
    }

    #[inline]
    fn from_u128(v: u128) -> (r: u128) {
        proof {
            lemma_pow2_widths();
        }
        v as u128
    }

    #[inline]
    fn to_u128(self) -> (r: u128) {
        self as u128
    }

    #[inline]
    fn shl(self, n: u32) -> (r: u128) {
        proof {
            lemma_pow2_widths();
            lemma_u128_shl_is_mul(self, n);
        }
        self << n
    }

    #[inline]
    fn shr(self, n: u32) -> (r: u128) {
        proof {
            vstd::bits::lemma_u128_shr_is_div(self, n as u128);
        }
        self >> n
    }

    #[inline]
    fn plus(self, rhs: u128) -> (r: u128) {
        proof {
            lemma_pow2_widths();
        }
        self + rhs
    }

    #[inline]
    fn checked_add(self, rhs: u128) -> (r: Option<u128>) {
        proof {
            lemma_pow2_widths();
        }
        u128::checked_add(self, rhs)
    }

    #[inline]
    fn checked_mul(self, rhs: u128) -> (r: Option<u128>) {
        proof {
            lemma_pow2_widths();
        }
        u128::checked_mul(self, rhs)
    }

    #[inline]
    fn less_than(self, rhs: u128) -> (r: bool) {
        self < rhs
    }
}

} // verus!
