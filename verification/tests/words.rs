use fixed::arith::pow2_u128;
use fixed::decimal::{
    dec13_to_bin32, dec27_27_to_bin128, dec27_to_bin64, dec3_to_bin8, dec6_to_bin16, get_frac128_dec,
    get_frac16_dec, get_frac32_dec, get_frac64_dec, get_frac8_dec,
};
use fixed::from_str::dec_str_frac_to_bin;
use fixed::radix::{
    bin_str_frac_to_bin, bin_str_int_to_bin, hex_str_frac_to_bin, hex_str_int_to_bin,
    oct_str_frac_to_bin, oct_str_int_to_bin, unchecked_hex_digit,
};
use fixed::sealed_int::{fixed_abs_overflow, SealedInt};
use fixed::wide::{add_wide, div_wide, mul_hi_lo, shl_wide, shr_wide};
use fixed::word::Word;

#[test]
fn hex_digits_have_their_values() {
    for (i, byte) in "0123456789".bytes().enumerate() {
        assert_eq!(unchecked_hex_digit(byte), i as u8);
    }
    for (i, byte) in "abcdef".bytes().enumerate() {
        assert_eq!(unchecked_hex_digit(byte), 10 + i as u8);
    }
    for (i, byte) in "ABCDEF".bytes().enumerate() {
        assert_eq!(unchecked_hex_digit(byte), 10 + i as u8);
    }
}

#[test]
fn whole_digits_fill_a_word_and_no_more() {
    assert_eq!(bin_str_int_to_bin::<u8>("11111111"), Some(255));
    assert_eq!(bin_str_int_to_bin::<u8>("100000000"), None);
    assert_eq!(bin_str_int_to_bin::<u8>("1"), Some(1));
    assert_eq!(bin_str_int_to_bin::<u8>("0"), Some(0));
    assert_eq!(oct_str_int_to_bin::<u8>("377"), Some(255));
    assert_eq!(oct_str_int_to_bin::<u8>("400"), None);
    assert_eq!(oct_str_int_to_bin::<u8>("1000"), None);
    assert_eq!(oct_str_int_to_bin::<u16>("177777"), Some(65535));
    assert_eq!(oct_str_int_to_bin::<u16>("200000"), None);
    assert_eq!(hex_str_int_to_bin::<u8>("fF"), Some(255));
    assert_eq!(hex_str_int_to_bin::<u8>("100"), None);
    assert_eq!(hex_str_int_to_bin::<u32>("89abCDef"), Some(0x89ab_cdef));
    assert_eq!(hex_str_int_to_bin::<u64>("123456789abcdef0"), Some(0x1234_5678_9abc_def0));
    assert_eq!(
        hex_str_int_to_bin::<u128>("ffffffffffffffffffffffffffffffff"),
        Some(u128::MAX)
    );
    assert_eq!(hex_str_int_to_bin::<u128>("100000000000000000000000000000000"), None);
}

#[test]
fn the_budget_of_bits_counts_digits_behind_the_first() {
    // a zero in front leaves the whole word as budget, and each digit behind takes its bits
    assert_eq!(bin_str_int_to_bin::<u8>("000000001"), Some(1));
    assert_eq!(bin_str_int_to_bin::<u8>("0000000001"), None);
    assert_eq!(oct_str_int_to_bin::<u8>("001"), Some(1));
    assert_eq!(oct_str_int_to_bin::<u8>("0001"), None);
    assert_eq!(hex_str_int_to_bin::<u8>("001"), Some(1));
    assert_eq!(hex_str_int_to_bin::<u8>("0001"), None);
    // the first digit takes only the bits that it needs
    assert_eq!(oct_str_int_to_bin::<u8>("377"), Some(0o377));
    assert_eq!(oct_str_int_to_bin::<u8>("477"), None);
    assert_eq!(hex_str_int_to_bin::<u16>("1fff"), Some(0x1fff));
}

#[test]
fn fraction_digits_round_at_the_cut() {
    assert_eq!(bin_str_frac_to_bin::<u8>("1", 8), Some(0x80));
    assert_eq!(bin_str_frac_to_bin::<u8>("11111111", 8), Some(0xff));
    assert_eq!(bin_str_frac_to_bin::<u8>("111111110", 8), Some(0xff));
    assert_eq!(bin_str_frac_to_bin::<u8>("111111111", 8), None);
    assert_eq!(bin_str_frac_to_bin::<u8>("011", 2), Some(2));
    assert_eq!(bin_str_frac_to_bin::<u8>("0101", 2), Some(1));
    assert_eq!(bin_str_frac_to_bin::<u8>("1", 0), None);
    assert_eq!(bin_str_frac_to_bin::<u8>("0", 0), Some(0));
    assert_eq!(bin_str_frac_to_bin::<u8>("01", 0), Some(0));
    assert_eq!(bin_str_frac_to_bin::<u8>("111", 2), None);
    assert_eq!(oct_str_frac_to_bin::<u8>("5", 2), Some(3));
    assert_eq!(oct_str_frac_to_bin::<u8>("5", 3), Some(5));
    assert_eq!(oct_str_frac_to_bin::<u8>("5", 8), Some(0xa0));
    assert_eq!(oct_str_frac_to_bin::<u8>("57", 4), Some(12));
    assert_eq!(oct_str_frac_to_bin::<u8>("7777", 3), None);
    assert_eq!(oct_str_frac_to_bin::<u8>("776", 8), Some(0xff));
    assert_eq!(oct_str_frac_to_bin::<u8>("777", 8), None);
    assert_eq!(hex_str_frac_to_bin::<u8>("B", 2), Some(3));
    assert_eq!(hex_str_frac_to_bin::<u8>("7", 2), Some(2));
    assert_eq!(hex_str_frac_to_bin::<u8>("8", 0), None);
    assert_eq!(hex_str_frac_to_bin::<u8>("7", 0), Some(0));
    assert_eq!(hex_str_frac_to_bin::<u8>("ff7", 8), Some(0xff));
    assert_eq!(hex_str_frac_to_bin::<u8>("ff8", 8), None);
    assert_eq!(hex_str_frac_to_bin::<u16>("FFFF8", 16), None);
    assert_eq!(hex_str_frac_to_bin::<u16>("FFFF7", 16), Some(0xffff));
    assert_eq!(hex_str_frac_to_bin::<u16>("ab", 16), Some(0xab00));
    assert_eq!(hex_str_frac_to_bin::<u128>("8", 128), Some(1 << 127));
    assert_eq!(
        hex_str_frac_to_bin::<u128>("ffffffffffffffffffffffffffffffff8", 128),
        None
    );
    assert_eq!(
        hex_str_frac_to_bin::<u128>("ffffffffffffffffffffffffffffffff7", 128),
        Some(u128::MAX)
    );
}

#[test]
fn decimal_fractions_round_to_nearest() {
    assert_eq!(dec3_to_bin8(0, 8), Some(0));
    assert_eq!(dec3_to_bin8(498, 8), Some(0x7f));
    assert_eq!(dec3_to_bin8(499, 8), Some(0x80));
    assert_eq!(dec3_to_bin8(998, 8), Some(0xff));
    assert_eq!(dec3_to_bin8(999, 8), None);
    assert_eq!(dec3_to_bin8(499, 0), Some(0));
    assert_eq!(dec3_to_bin8(500, 0), None);
    assert_eq!(dec3_to_bin8(250, 1), Some(1));
    assert_eq!(dec3_to_bin8(249, 1), Some(0));
    assert_eq!(dec3_to_bin8(750, 1), None);
    assert_eq!(dec3_to_bin8(41, 8), Some(10));
    assert_eq!(dec6_to_bin16(123456, 16), Some(8091));
    assert_eq!(dec6_to_bin16(999992, 16), Some(0xffff));
    assert_eq!(dec6_to_bin16(999993, 16), None);
    assert_eq!(dec6_to_bin16(250000, 1), Some(1));
    assert_eq!(dec6_to_bin16(249999, 1), Some(0));
    assert_eq!(dec6_to_bin16(500000, 0), None);
    assert_eq!(dec13_to_bin32(1234567890123, 32), Some(530242871));
    assert_eq!(dec13_to_bin32(5000000000000, 0), None);
    assert_eq!(dec13_to_bin32(4999999999999, 0), Some(0));
    assert_eq!(dec27_to_bin64(123456789012345678901234567, 64), Some(2277375791072698140));
    assert_eq!(dec27_to_bin64(123456789012345678901234567, 10), Some(126));
    assert_eq!(dec27_to_bin64(500000000000000000000000000, 64), Some(1 << 63));
    assert_eq!(dec27_to_bin64(999999999999999999999999999, 64), None);
}

#[test]
fn two_groups_of_decimal_digits_round_to_nearest() {
    let hi = 123_456_789_012_345_678_901_234_567;
    let lo = 987_654_321_098_765_432_109_876_543;
    assert_eq!(
        dec27_27_to_bin128(hi, lo, 128),
        Some(42_010_168_377_579_896_403_540_037_811_203_677_112)
    );
    assert_eq!(dec27_27_to_bin128(hi, lo, 100), Some(156_500_072_693_749_876_333_549_759_579));
    assert_eq!(dec27_27_to_bin128(hi, lo, 64), Some(2_277_375_791_072_698_140));
    assert_eq!(dec27_27_to_bin128(hi, lo, 54), Some(2_223_999_795_969_432));
    assert_eq!(dec27_27_to_bin128(hi, lo, 53), Some(1_111_999_897_984_716));
    assert_eq!(dec27_27_to_bin128(hi, lo, 52), Some(555_999_948_992_358));
    assert_eq!(dec27_27_to_bin128(hi, lo, 1), Some(0));
    assert_eq!(dec27_27_to_bin128(hi, lo, 0), Some(0));
    let nines = 999_999_999_999_999_999_999_999_999;
    for nbits in 0..=128 {
        assert_eq!(dec27_27_to_bin128(nines, nines, nbits), None);
        assert_eq!(dec27_27_to_bin128(0, 0, nbits), Some(0));
    }
    assert_eq!(dec27_27_to_bin128(500_000_000_000_000_000_000_000_000, 0, 0), None);
    assert_eq!(dec27_27_to_bin128(499_999_999_999_999_999_999_999_999, nines, 0), Some(0));
    assert_eq!(dec27_27_to_bin128(500_000_000_000_000_000_000_000_000, 0, 128), Some(1 << 127));
    assert_eq!(dec27_27_to_bin128(250_000_000_000_000_000_000_000_000, 0, 2), Some(1));
}

#[test]
fn decimal_fraction_digits_are_read_to_their_count() {
    assert_eq!(get_frac8_dec("5", 8), Some(0x80));
    assert_eq!(get_frac8_dec("041", 8), Some(10));
    assert_eq!(get_frac8_dec("0419", 8), Some(10));
    assert_eq!(get_frac8_dec("999", 8), None);
    assert_eq!(get_frac8_dec("", 8), Some(0));
    assert_eq!(get_frac16_dec("0411", 8), Some(11));
    assert_eq!(get_frac16_dec("123456", 16), Some(8091));
    assert_eq!(get_frac16_dec("1234569", 16), Some(8091));
    assert_eq!(get_frac32_dec("1234567890123", 32), Some(530242871));
    assert_eq!(get_frac32_dec("12345678901239", 32), Some(530242871));
    assert_eq!(get_frac64_dec("123456789012345678901234567", 64), Some(2277375791072698140));
    assert_eq!(get_frac64_dec("5", 64), Some(1 << 63));
    assert_eq!(get_frac128_dec("5", 128), Some(1 << 127));
    assert_eq!(
        get_frac128_dec("123456789012345678901234567", 64),
        Some(2277375791072698140)
    );
    assert_eq!(
        get_frac128_dec("123456789012345678901234567987654321098765432109876543", 128),
        Some(42_010_168_377_579_896_403_540_037_811_203_677_112)
    );
    assert_eq!(
        get_frac128_dec("1234567890123456789012345679876543210987654321098765431", 128),
        Some(42_010_168_377_579_896_403_540_037_811_203_677_112)
    );
    assert_eq!(
        get_frac128_dec("12345678901234567890123456798765432109876543210987", 128),
        Some(42_010_168_377_579_896_403_540_037_811_203_677_112)
    );
}

#[test]
fn the_fraction_bits_choose_the_count_of_decimal_digits() {
    // up to 8 fraction bits go by three digits, whatever the word
    assert_eq!(dec_str_frac_to_bin::<u8>("0411", 8), Some(10));
    assert_eq!(dec_str_frac_to_bin::<u16>("0411", 8), Some(10));
    assert_eq!(dec_str_frac_to_bin::<u128>("0411", 8), Some(10));
    // up to 16 go by six
    assert_eq!(dec_str_frac_to_bin::<u16>("0411", 9), Some(21));
    assert_eq!(dec_str_frac_to_bin::<u16>("1234569", 16), Some(8091));
    assert_eq!(dec_str_frac_to_bin::<u32>("1234569", 16), Some(8091));
    // up to 32 by 13, up to 64 by 27, beyond by 54
    assert_eq!(dec_str_frac_to_bin::<u32>("12345678901239", 32), Some(530242871));
    assert_eq!(dec_str_frac_to_bin::<u64>("12345678901239", 32), Some(530242871));
    assert_eq!(
        dec_str_frac_to_bin::<u64>("1234567890123456789012345679", 64),
        Some(2277375791072698140)
    );
    assert_eq!(
        dec_str_frac_to_bin::<u128>("1234567890123456789012345679", 64),
        Some(2277375791072698140)
    );
    assert_eq!(
        dec_str_frac_to_bin::<u128>("1234567890123456789012345679876543210987654321098765431", 128),
        Some(42_010_168_377_579_896_403_540_037_811_203_677_112)
    );
    assert_eq!(dec_str_frac_to_bin::<u8>("5", 0), None);
    assert_eq!(dec_str_frac_to_bin::<u8>("4999", 0), Some(0));
    assert_eq!(dec_str_frac_to_bin::<u128>("5", 128), Some(1 << 127));
    assert_eq!(dec_str_frac_to_bin::<u128>("", 128), Some(0));
}

#[test]
fn products_take_two_words() {
    assert_eq!(mul_hi_lo(0, 0), (0, 0));
    assert_eq!(mul_hi_lo(1, u128::MAX), (0, u128::MAX));
    assert_eq!(mul_hi_lo(u128::MAX, u128::MAX), (u128::MAX - 1, 1));
    assert_eq!(mul_hi_lo(1 << 64, 1 << 64), (1, 0));
    assert_eq!(mul_hi_lo(1 << 127, 2), (1, 0));
    assert_eq!(
        mul_hi_lo(0x1234_5678_9abc_def0_fedc_ba98_7654_3210, 0x0fed_cba9_8765_4321_1234_5678_9abc_def),
        (0x12_1fa0_0ad7_7d74_2335_deb7_595e_5ff7, 0x985f_06f6_9446_7393_2236_d88f_e561_8cf0)
    );
    assert_eq!(
        mul_hi_lo(999_999_999_999_999_999_999_999_999, 1_000_000_000_000_000_000_000_000_000),
        (2_938_735_877_055_718, 0xc519_9909_082a_c840_f26f_7fc3_1800_0000)
    );
}

#[test]
fn quotients_of_two_words_fit_one() {
    assert_eq!(div_wide(0, 10, 3), 3);
    assert_eq!(div_wide(0, u128::MAX, 1), u128::MAX);
    assert_eq!(div_wide(1, 0, 2), 1 << 127);
    assert_eq!(div_wide(u128::MAX - 1, u128::MAX, u128::MAX), u128::MAX);
    assert_eq!(
        div_wide(0x1234, 0x5678_9abc_def0_1234_5678_9abc_def0_1234, 0xffff_ffff_ffff_ffff_ffff),
        0x1234_5678_9abc_def0
    );
    let (hi, lo) = mul_hi_lo(0xdead_beef_dead_beef_dead_beef, 0x1234_5678_9abc_def0_1234_5678);
    assert_eq!(div_wide(hi, lo, 0x1234_5678_9abc_def0_1234_5678), 0xdead_beef_dead_beef_dead_beef);
    assert_eq!(div_wide(hi, lo, 0xdead_beef_dead_beef_dead_beef), 0x1234_5678_9abc_def0_1234_5678);
}

#[test]
fn two_words_add_and_shift() {
    assert_eq!(add_wide(0, u128::MAX, 1), (1, 0));
    assert_eq!(add_wide(5, 7, 8), (5, 15));
    assert_eq!(add_wide(5, u128::MAX - 1, 3), (6, 1));
    assert_eq!(shr_wide(1, 0, 1), (0, 1 << 127));
    assert_eq!(shr_wide(0x3, 0x5, 1), (1, (1 << 127) | 2));
    assert_eq!(shr_wide(u128::MAX, u128::MAX, 127), (1, u128::MAX));
    assert_eq!(shl_wide(0, 1 << 127, 1), (1, 0));
    assert_eq!(shl_wide(1, (1 << 127) | 2, 1), (3, 4));
    assert_eq!(shl_wide(0, u128::MAX, 127), (u128::MAX >> 1, 1 << 127));
}

#[test]
fn powers_of_two_and_magnitudes() {
    assert_eq!(pow2_u128(0), 1);
    assert_eq!(pow2_u128(127), 1 << 127);
    assert_eq!(fixed_abs_overflow(0, 5, 0), (0, false));
    assert_eq!(fixed_abs_overflow(3, 4, 2), (0x30, false));
    assert_eq!(fixed_abs_overflow(4, 4, 2), (0x40, true));
    assert_eq!(fixed_abs_overflow(3, 127, 2), (1 << 127, false));
    assert_eq!(fixed_abs_overflow(3, 128, 2), (0, false));
    assert_eq!(fixed_abs_overflow(3, 200, 200), (0, false));
    assert_eq!(fixed_abs_overflow(u128::MAX, 0, 127), (u128::MAX, true));
    assert_eq!(fixed_abs_overflow(u128::MAX, 0, 128), (u128::MAX, false));
    assert_eq!(fixed_abs_overflow(1, 0, 0), (1, true));
}

#[test]
fn words_do_their_arithmetic() {
    assert_eq!(u8::from_u8(7), 7);
    assert_eq!(u128::from_u8(255), 255);
    assert_eq!(u8::from_u128(255), 255);
    assert_eq!(u64::from_u128(u64::MAX as u128), u64::MAX);
    assert_eq!(u128::from_u128(u128::MAX), u128::MAX);
    assert_eq!(Word::shl(3u8, 6), 0xc0);
    assert_eq!(Word::shl(1u128, 127), 1 << 127);
    assert_eq!(Word::shr(0xc0u8, 6), 3);
    assert_eq!(Word::shr(u64::MAX, 63), 1);
    assert_eq!(5u16.plus(6), 11);
    assert_eq!(Word::checked_add(255u8, 1), None);
    assert_eq!(Word::checked_add(254u8, 1), Some(255));
    assert_eq!(Word::checked_add(u128::MAX, 1), None);
    assert_eq!(Word::checked_mul(16u8, 16), None);
    assert_eq!(Word::checked_mul(15u8, 17), Some(255));
    assert_eq!(Word::checked_mul(1u32 << 16, 1 << 16), None);
    assert!(3u32.less_than(4));
    assert!(!4u32.less_than(4));
    assert!(!5u32.less_than(4));
}

#[test]
fn integers_know_their_width_and_sign() {
    assert!(!<bool as SealedInt>::is_signed());
    assert_eq!(<bool as SealedInt>::nbits(), 1);
    assert!(<i8 as SealedInt>::is_signed());
    assert!(!<u8 as SealedInt>::is_signed());
    assert_eq!(<i8 as SealedInt>::nbits(), 8);
    assert_eq!(<u16 as SealedInt>::nbits(), 16);
    assert_eq!(<i32 as SealedInt>::nbits(), 32);
    assert_eq!(<u64 as SealedInt>::nbits(), 64);
    assert_eq!(<i128 as SealedInt>::nbits(), 128);
    assert!(<i128 as SealedInt>::is_signed());
    assert!(!<u128 as SealedInt>::is_signed());
}

#[test]
fn single_bits_and_runs_of_ones() {
    assert!(<bool as SealedInt>::one_shl(0));
    assert!(<bool as SealedInt>::all_ones_shl(0));
    assert!(<bool as SealedInt>::msb());
    assert_eq!(<u8 as SealedInt>::one_shl(0), 1);
    assert_eq!(<u8 as SealedInt>::one_shl(7), 0x80);
    assert_eq!(<i8 as SealedInt>::one_shl(6), 0x40);
    assert_eq!(<i8 as SealedInt>::one_shl(7), i8::MIN);
    assert_eq!(<u8 as SealedInt>::all_ones_shl(0), 0xff);
    assert_eq!(<u8 as SealedInt>::all_ones_shl(3), 0xf8);
    assert_eq!(<u8 as SealedInt>::all_ones_shl(7), 0x80);
    assert_eq!(<i8 as SealedInt>::all_ones_shl(0), -1);
    assert_eq!(<i8 as SealedInt>::all_ones_shl(3), -8);
    assert_eq!(<i8 as SealedInt>::all_ones_shl(7), i8::MIN);
    assert_eq!(<u16 as SealedInt>::all_ones_shl(4), 0xfff0);
    assert_eq!(<i16 as SealedInt>::all_ones_shl(4), !0 << 4);
    assert_eq!(<u32 as SealedInt>::one_shl(31), 1 << 31);
    assert_eq!(<i32 as SealedInt>::one_shl(31), i32::MIN);
    assert_eq!(<i32 as SealedInt>::all_ones_shl(30), !0 << 30);
    assert_eq!(<u64 as SealedInt>::all_ones_shl(63), 1 << 63);
    assert_eq!(<i64 as SealedInt>::one_shl(62), 1 << 62);
    assert_eq!(<u128 as SealedInt>::one_shl(127), 1 << 127);
    assert_eq!(<u128 as SealedInt>::all_ones_shl(127), 1 << 127);
    assert_eq!(<u128 as SealedInt>::all_ones_shl(0), u128::MAX);
    assert_eq!(<i128 as SealedInt>::one_shl(127), i128::MIN);
    assert_eq!(<i128 as SealedInt>::all_ones_shl(126), !0 << 126);
    assert_eq!(<u8 as SealedInt>::msb(), 0x80);
    assert_eq!(<i8 as SealedInt>::msb(), i8::MIN);
    assert_eq!(<u16 as SealedInt>::msb(), 0x8000);
    assert_eq!(<i16 as SealedInt>::msb(), i16::MIN);
    assert_eq!(<u32 as SealedInt>::msb(), 0x8000_0000);
    assert_eq!(<i64 as SealedInt>::msb(), i64::MIN);
    assert_eq!(<u128 as SealedInt>::msb(), 1 << 127);
    assert_eq!(<i128 as SealedInt>::msb(), i128::MIN);
}

#[test]
fn zero_is_told() {
    assert!(SealedInt::is_zero(false));
    assert!(!SealedInt::is_zero(true));
    assert!(SealedInt::is_zero(0u8));
    assert!(!SealedInt::is_zero(1u8));
    assert!(SealedInt::is_zero(0i64));
    assert!(!SealedInt::is_zero(i64::MIN));
    assert!(!SealedInt::is_zero(u128::MAX));
}

#[test]
fn sign_and_magnitude_go_both_ways() {
    assert_eq!(SealedInt::neg_abs(true), (false, true));
    assert_eq!(SealedInt::neg_abs(false), (false, false));
    assert_eq!(<bool as SealedInt>::from_neg_abs(false, true), true);
    assert_eq!(SealedInt::neg_abs(5u8), (false, 5u8));
    assert_eq!(SealedInt::neg_abs(-5i8), (true, 5u8));
    assert_eq!(SealedInt::neg_abs(5i8), (false, 5u8));
    assert_eq!(SealedInt::neg_abs(i8::MIN), (true, 0x80u8));
    assert_eq!(SealedInt::neg_abs(i8::MAX), (false, 0x7fu8));
    assert_eq!(SealedInt::neg_abs(i16::MIN), (true, 0x8000u16));
    assert_eq!(SealedInt::neg_abs(-1i32), (true, 1u32));
    assert_eq!(SealedInt::neg_abs(i64::MIN), (true, 1u64 << 63));
    assert_eq!(SealedInt::neg_abs(i128::MIN), (true, 1u128 << 127));
    assert_eq!(SealedInt::neg_abs(i128::MIN + 1), (true, (1u128 << 127) - 1));
    assert_eq!(SealedInt::neg_abs(u128::MAX), (false, u128::MAX));
    assert_eq!(<u8 as SealedInt>::from_neg_abs(false, 200), 200);
    assert_eq!(<u8 as SealedInt>::from_neg_abs(true, 0), 0);
    assert_eq!(<i8 as SealedInt>::from_neg_abs(false, 0x7f), 127);
    assert_eq!(<i8 as SealedInt>::from_neg_abs(true, 0x7f), -127);
    assert_eq!(<i8 as SealedInt>::from_neg_abs(true, 0x80), -128);
    assert_eq!(<i8 as SealedInt>::from_neg_abs(false, 0x80), -128);
    assert_eq!(<i8 as SealedInt>::from_neg_abs(true, 0), 0);
    assert_eq!(<i16 as SealedInt>::from_neg_abs(true, 0x8000), i16::MIN);
    assert_eq!(<i32 as SealedInt>::from_neg_abs(true, 12345), -12345);
    assert_eq!(<i64 as SealedInt>::from_neg_abs(false, 12345), 12345);
    assert_eq!(<i128 as SealedInt>::from_neg_abs(true, 1 << 127), i128::MIN);
    assert_eq!(<i128 as SealedInt>::from_neg_abs(true, (1 << 127) - 1), i128::MIN + 1);
}

#[test]
fn integers_become_fixed_point_magnitudes() {
    assert_eq!(false.to_fixed_neg_abs_overflow(5, 0), (false, 0, false));
    assert_eq!(true.to_fixed_neg_abs_overflow(0, 1), (false, 1, false));
    assert_eq!(true.to_fixed_neg_abs_overflow(5, 0), (false, 32, true));
    assert_eq!(true.to_fixed_neg_abs_overflow(127, 1), (false, 1 << 127, false));
    assert_eq!(true.to_fixed_neg_abs_overflow(128, 0), (false, 0, true));
    assert_eq!(0u8.to_fixed_neg_abs_overflow(4, 4), (false, 0, false));
    assert_eq!(0i8.to_fixed_neg_abs_overflow(4, 0), (false, 0, false));
    assert_eq!(3u8.to_fixed_neg_abs_overflow(4, 4), (false, 0x30, false));
    assert_eq!(15u8.to_fixed_neg_abs_overflow(4, 4), (false, 0xf0, false));
    assert_eq!(16u8.to_fixed_neg_abs_overflow(4, 4), (false, 0x100, true));
    assert_eq!((-3i8).to_fixed_neg_abs_overflow(4, 4), (true, 0x30, false));
    assert_eq!(i8::MIN.to_fixed_neg_abs_overflow(0, 8), (true, 0x80, false));
    assert_eq!(i8::MIN.to_fixed_neg_abs_overflow(0, 7), (true, 0x80, true));
    assert_eq!(1u16.to_fixed_neg_abs_overflow(16, 0), (false, 0x1_0000, true));
    assert_eq!(1u16.to_fixed_neg_abs_overflow(15, 1), (false, 0x8000, false));
    assert_eq!((-1i32).to_fixed_neg_abs_overflow(32, 32), (true, 1 << 32, false));
    assert_eq!(u64::MAX.to_fixed_neg_abs_overflow(64, 64), (false, (u64::MAX as u128) << 64, false));
    assert_eq!(u64::MAX.to_fixed_neg_abs_overflow(65, 63), (false, ((u64::MAX as u128) << 65), true));
    assert_eq!(i64::MIN.to_fixed_neg_abs_overflow(0, 64), (true, 1 << 63, false));
    assert_eq!(u128::MAX.to_fixed_neg_abs_overflow(0, 128), (false, u128::MAX, false));
    assert_eq!(u128::MAX.to_fixed_neg_abs_overflow(4, 124), (false, u128::MAX << 4, true));
    assert_eq!(i128::MIN.to_fixed_neg_abs_overflow(0, 128), (true, 1 << 127, false));
    assert_eq!(i128::MIN.to_fixed_neg_abs_overflow(1, 127), (true, 0, true));
    assert_eq!(5i128.to_fixed_neg_abs_overflow(128, 0), (false, 0, true));
}

#[test]
fn pointer_sized_integers_are_integers_too() {
    let bits = usize::BITS;
    assert!(<isize as SealedInt>::is_signed());
    assert!(!<usize as SealedInt>::is_signed());
    assert_eq!(<isize as SealedInt>::nbits(), bits);
    assert_eq!(<usize as SealedInt>::nbits(), bits);
    assert_eq!(<usize as SealedInt>::one_shl(0), 1);
    assert_eq!(<usize as SealedInt>::one_shl(bits - 1), 1 << (bits - 1));
    assert_eq!(<isize as SealedInt>::one_shl(bits - 2), 1 << (bits - 2));
    assert_eq!(<isize as SealedInt>::one_shl(bits - 1), isize::MIN);
    assert_eq!(<usize as SealedInt>::all_ones_shl(0), usize::MAX);
    assert_eq!(<usize as SealedInt>::all_ones_shl(4), usize::MAX << 4);
    assert_eq!(<usize as SealedInt>::all_ones_shl(bits - 1), 1 << (bits - 1));
    assert_eq!(<isize as SealedInt>::all_ones_shl(0), -1);
    assert_eq!(<isize as SealedInt>::all_ones_shl(4), -16);
    assert_eq!(<isize as SealedInt>::all_ones_shl(bits - 1), isize::MIN);
    assert_eq!(<usize as SealedInt>::msb(), 1 << (bits - 1));
    assert_eq!(<isize as SealedInt>::msb(), isize::MIN);
    assert!(SealedInt::is_zero(0usize));
    assert!(!SealedInt::is_zero(isize::MIN));
    assert_eq!(SealedInt::neg_abs(usize::MAX), (false, usize::MAX));
    assert_eq!(SealedInt::neg_abs(-5isize), (true, 5usize));
    assert_eq!(SealedInt::neg_abs(5isize), (false, 5usize));
    assert_eq!(SealedInt::neg_abs(isize::MIN), (true, 1usize << (bits - 1)));
    assert_eq!(SealedInt::neg_abs(isize::MAX), (false, usize::MAX >> 1));
    assert_eq!(<usize as SealedInt>::from_neg_abs(false, 77), 77);
    assert_eq!(<isize as SealedInt>::from_neg_abs(true, 77), -77);
    assert_eq!(<isize as SealedInt>::from_neg_abs(false, 77), 77);
    assert_eq!(<isize as SealedInt>::from_neg_abs(true, 1 << (bits - 1)), isize::MIN);
    assert_eq!(<isize as SealedInt>::from_neg_abs(false, 1 << (bits - 1)), isize::MIN);
    assert_eq!(<isize as SealedInt>::from_neg_abs(true, usize::MAX >> 1), isize::MIN + 1);
    assert_eq!((-3isize).to_fixed_neg_abs_overflow(4, 4), (true, 0x30, false));
    assert_eq!(16usize.to_fixed_neg_abs_overflow(4, 4), (false, 0x100, true));
    assert_eq!(isize::MIN.to_fixed_neg_abs_overflow(0, bits), (true, 1 << (bits - 1), false));
    assert_eq!(isize::MIN.to_fixed_neg_abs_overflow(0, bits - 1), (true, 1 << (bits - 1), true));
}
