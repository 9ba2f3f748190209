use fixed::bounds::{parse_bounds, Parse};
use fixed::error::{ParseErrorKind, ParseFixedError};
use fixed::layout::{parse, FixedLayout, RawBits};
use fixed::from_str::{
    dec_str_int_to_bin, from_str_i128, from_str_i16, from_str_i8, from_str_magnitude, from_str_u128,
    from_str_u16, from_str_u32, from_str_u64, from_str_u8, get_frac, get_int,
};

fn kind_of<T: core::fmt::Debug>(r: Result<T, ParseFixedError>) -> ParseErrorKind {
    r.unwrap_err().kind()
}

/// The nearest integer to `num * 2^nbits / den`, ties upward.
fn nearest(num: u128, den: u128, nbits: u32) -> u128 {
    (2 * num * (1u128 << nbits) + den) / (2 * den)
}

#[test]
fn malformed_numerals_are_told_apart() {
    assert_eq!(kind_of(from_str_u8("0 ", 10, 8, 0)), ParseErrorKind::InvalidDigit);
    assert_eq!(kind_of(from_str_u8("+.", 10, 8, 0)), ParseErrorKind::NoDigits);
    assert_eq!(kind_of(from_str_u8("1.2.3", 10, 8, 0)), ParseErrorKind::TooManyPoints);
    assert_eq!(kind_of(from_str_u8("1+2", 10, 8, 0)), ParseErrorKind::InvalidDigit);
    assert_eq!(kind_of(from_str_u8("1-2", 10, 8, 0)), ParseErrorKind::InvalidDigit);
    assert_eq!(kind_of(from_str_u8("-1", 10, 8, 0)), ParseErrorKind::InvalidDigit);
    assert_eq!(kind_of(from_str_i8("1+2", 10, 8, 0)), ParseErrorKind::InvalidDigit);
    assert_eq!(kind_of(from_str_i8("1-2", 10, 8, 0)), ParseErrorKind::InvalidDigit);
    assert_eq!(kind_of(from_str_i8("--1", 10, 8, 0)), ParseErrorKind::InvalidDigit);
    assert_eq!(kind_of(from_str_i8("+-1", 10, 8, 0)), ParseErrorKind::InvalidDigit);
    assert_eq!(kind_of(from_str_i8(".-1", 10, 8, 0)), ParseErrorKind::InvalidDigit);
    assert_eq!(kind_of(from_str_i8("", 10, 8, 0)), ParseErrorKind::NoDigits);
    assert_eq!(kind_of(from_str_i8("-", 10, 8, 0)), ParseErrorKind::NoDigits);
    assert_eq!(kind_of(from_str_i8(".", 10, 8, 0)), ParseErrorKind::NoDigits);
    assert_eq!(kind_of(from_str_i8("-.", 10, 8, 0)), ParseErrorKind::NoDigits);
    assert_eq!(kind_of(from_str_i8("1e3", 10, 8, 0)), ParseErrorKind::InvalidDigit);
    assert_eq!(kind_of(from_str_i8("\u{e9}", 10, 8, 0)), ParseErrorKind::InvalidDigit);
    assert_eq!(kind_of(from_str_i8("1\u{663}", 10, 8, 0)), ParseErrorKind::InvalidDigit);
}

#[test]
fn the_first_offence_decides_the_error() {
    assert_eq!(kind_of(from_str_u8("1.2.x", 10, 8, 0)), ParseErrorKind::TooManyPoints);
    assert_eq!(kind_of(from_str_u8("1.x.2", 10, 8, 0)), ParseErrorKind::InvalidDigit);
    assert_eq!(kind_of(from_str_u8("..", 10, 8, 0)), ParseErrorKind::TooManyPoints);
    assert_eq!(kind_of(from_str_u8("\u{e9}..", 10, 8, 0)), ParseErrorKind::InvalidDigit);
}

#[test]
fn errors_in_the_text_come_before_overflow() {
    assert_eq!(kind_of(from_str_u8("999999999", 10, 8, 0)), ParseErrorKind::Overflow);
    assert_eq!(kind_of(from_str_u8("999999999 ", 10, 8, 0)), ParseErrorKind::InvalidDigit);
    assert_eq!(kind_of(from_str_u8("999999999.9.", 10, 8, 0)), ParseErrorKind::TooManyPoints);
    assert_eq!(kind_of(from_str_u8("FFFFFFFFF+", 16, 8, 0)), ParseErrorKind::InvalidDigit);
}

#[test]
fn digits_are_those_of_the_radix() {
    assert_eq!(from_str_u8("101", 2, 8, 0).unwrap(), 5);
    assert_eq!(kind_of(from_str_u8("102", 2, 8, 0)), ParseErrorKind::InvalidDigit);
    assert_eq!(from_str_u8("17", 8, 8, 0).unwrap(), 15);
    assert_eq!(kind_of(from_str_u8("18", 8, 8, 0)), ParseErrorKind::InvalidDigit);
    assert_eq!(from_str_u8("19", 10, 8, 0).unwrap(), 19);
    assert_eq!(kind_of(from_str_u8("1a", 10, 8, 0)), ParseErrorKind::InvalidDigit);
    assert_eq!(from_str_u8("aF", 16, 8, 0).unwrap(), 0xaf);
    assert_eq!(from_str_u8("Af", 16, 8, 0).unwrap(), 0xaf);
    assert_eq!(kind_of(from_str_u8("ag", 16, 8, 0)), ParseErrorKind::InvalidDigit);
    assert_eq!(kind_of(from_str_u8("a@", 16, 8, 0)), ParseErrorKind::InvalidDigit);
    assert_eq!(kind_of(from_str_u8("a`", 16, 8, 0)), ParseErrorKind::InvalidDigit);
    assert_eq!(kind_of(from_str_u8("a/", 16, 8, 0)), ParseErrorKind::InvalidDigit);
    assert_eq!(kind_of(from_str_u8("a:", 16, 8, 0)), ParseErrorKind::InvalidDigit);
}

#[test]
fn other_radixes_have_no_digits() {
    assert_eq!(kind_of(from_str_u8("1", 7, 8, 0)), ParseErrorKind::InvalidDigit);
    assert_eq!(kind_of(from_str_u8("0", 0, 8, 0)), ParseErrorKind::InvalidDigit);
    assert_eq!(kind_of(from_str_u8("+.", 36, 8, 0)), ParseErrorKind::NoDigits);
    assert_eq!(kind_of(from_str_i8("-", 3, 8, 0)), ParseErrorKind::NoDigits);
    assert_eq!(kind_of(parse_bounds("10", true, 1)), ParseErrorKind::InvalidDigit);
}

#[test]
fn a_plus_sign_is_taken_by_every_layout() {
    assert_eq!(from_str_u8("+5", 10, 8, 0).unwrap(), 5);
    assert_eq!(from_str_i8("+5", 10, 8, 0).unwrap(), 5);
    assert_eq!(from_str_u8("+.5", 10, 0, 8).unwrap(), 0x80);
    assert_eq!(kind_of(from_str_u8("++5", 10, 8, 0)), ParseErrorKind::InvalidDigit);
    assert_eq!(kind_of(from_str_u8("5+", 10, 8, 0)), ParseErrorKind::InvalidDigit);
}

#[test]
fn spans_come_back_trimmed() {
    let Parse { neg, int, frac } = parse_bounds("000120.03400", false, 10).unwrap();
    assert_eq!((neg, int, frac), (false, "120", "034"));
    let Parse { neg, int, frac } = parse_bounds("-000.000", true, 10).unwrap();
    assert_eq!((neg, int, frac), (true, "", ""));
    let Parse { neg, int, frac } = parse_bounds("+7", true, 8).unwrap();
    assert_eq!((neg, int, frac), (false, "7", ""));
    let Parse { neg, int, frac } = parse_bounds(".5", true, 8).unwrap();
    assert_eq!((neg, int, frac), (false, "", "5"));
    let Parse { neg, int, frac } = parse_bounds("5.", true, 8).unwrap();
    assert_eq!((neg, int, frac), (false, "5", ""));
    let Parse { neg, int, frac } = parse_bounds("0a0.0A0", true, 16).unwrap();
    assert_eq!((neg, int, frac), (false, "a0", "0A"));
}

#[test]
fn trimming_keeps_the_value() {
    assert_eq!(from_str_u16("12.5", 10, 8, 8), from_str_u16("0000012.5000000", 10, 8, 8));
    assert_eq!(from_str_u16("12.5", 10, 8, 8).unwrap(), 0x0c80);
    assert_eq!(
        from_str_u16("0000000000000000000000000000000001", 2, 16, 0).unwrap(),
        1
    );
    assert_eq!(from_str_u16("0000000000000000000000000000000377", 8, 16, 0).unwrap(), 0xff);
    assert_eq!(from_str_u16("00000000000000000000000000000000ff", 16, 16, 0).unwrap(), 0xff);
    assert_eq!(from_str_u16("0.10000000000000000000000000000000", 2, 0, 16).unwrap(), 0x8000);
}

#[test]
fn parsing_twice_gives_the_same() {
    let texts = ["0.498", "-0.501", "1.2.3", "255.5", "+.", "7F.FF8", "-128.499", ""];
    for text in texts.iter() {
        for radix in [2u32, 8, 10, 16, 5].iter() {
            assert_eq!(from_str_u8(text, *radix, 4, 4), from_str_u8(text, *radix, 4, 4));
            assert_eq!(from_str_i8(text, *radix, 8, 0), from_str_i8(text, *radix, 8, 0));
            assert_eq!(
                from_str_i128(text, *radix, 64, 64),
                from_str_i128(text, *radix, 64, 64)
            );
        }
    }
}

#[test]
fn three_digit_fractions_round_to_nearest() {
    for v in 0..1000u128 {
        let text = format!("0.{:03}", v);
        let want = nearest(v, 1000, 8);
        match from_str_u8(&text, 10, 0, 8) {
            Ok(bits) => assert_eq!(u128::from(bits), want),
            Err(e) => {
                assert_eq!(e.kind(), ParseErrorKind::Overflow);
                assert_eq!(want, 256);
            }
        }
        // off by half a unit at most, and by half a unit only downward
        let diff = 2 * (v as i128 * 256 - want as i128 * 1000);
        assert!(-1000 <= diff && diff < 1000);
    }
}

#[test]
fn six_digit_fractions_round_to_nearest() {
    for v in 0..1_000_000u128 {
        let text = format!("0.{:06}", v);
        let want = nearest(v, 1_000_000, 16);
        match from_str_u16(&text, 10, 0, 16) {
            Ok(bits) => assert_eq!(u128::from(bits), want),
            Err(e) => {
                assert_eq!(e.kind(), ParseErrorKind::Overflow);
                assert_eq!(want, 65536);
            }
        }
    }
}

#[test]
fn short_fractions_round_to_nearest_in_every_split() {
    for frac_nbits in 0..=8u32 {
        for v in 0..100u128 {
            let text = format!("0.{:02}", v);
            let want = nearest(v, 100, frac_nbits);
            let got = from_str_u16(&text, 10, 16 - frac_nbits, frac_nbits).unwrap();
            assert_eq!(u128::from(got), want);
        }
    }
}

#[test]
fn decimal_digits_beyond_the_count_are_left_out() {
    // up to eight fraction bits read three digits
    assert_eq!(from_str_u8("0.0410", 10, 0, 8).unwrap(), 10);
    assert_eq!(from_str_u8("0.0419999999", 10, 0, 8).unwrap(), 10);
    assert_eq!(from_str_u8("0.042", 10, 0, 8).unwrap(), 11);
    // eight fraction bits read three digits in a wider word too
    assert_eq!(from_str_u16("0.041", 10, 8, 8).unwrap(), 10);
    assert_eq!(from_str_u16("0.0419999999", 10, 8, 8).unwrap(), 10);
    assert_eq!(from_str_u16("0.042", 10, 8, 8).unwrap(), 11);
    // nine to sixteen fraction bits read six
    assert_eq!(from_str_u16("0.0411", 10, 7, 9).unwrap(), 21);
    assert_eq!(from_str_u16("0.1234569", 10, 0, 16).unwrap(), 8091);
    assert_eq!(from_str_u16("0.4999999", 10, 16, 0).unwrap(), 0);
    assert_eq!(from_str_u16("0.5", 10, 16, 0).unwrap(), 1);
}

#[test]
fn a_fraction_that_rounds_up_to_one_carries_into_the_whole_part() {
    assert_eq!(from_str_u8("0.99", 10, 4, 4).unwrap(), 0x10);
    assert_eq!(from_str_u8(".99", 10, 4, 4).unwrap(), 0x10);
    assert_eq!(from_str_u8("1.99", 10, 4, 4).unwrap(), 0x20);
    assert_eq!(kind_of(from_str_u8("15.99", 10, 4, 4)), ParseErrorKind::Overflow);
    assert_eq!(from_str_u8("14.99", 10, 4, 4).unwrap(), 0xf0);
    assert_eq!(from_str_u16(".9999", 10, 8, 8).unwrap(), 0x0100);
    assert_eq!(from_str_u8("0.FF", 16, 4, 4).unwrap(), 0x10);
    assert_eq!(from_str_u8("0.77", 8, 5, 3).unwrap(), 0x08);
    assert_eq!(from_str_u8("0.11111", 2, 4, 4).unwrap(), 0x10);
    assert_eq!(from_str_i8("-0.99", 10, 4, 4).unwrap(), -0x10);
    assert_eq!(from_str_u8("0.5", 10, 8, 0).unwrap(), 1);
    assert_eq!(from_str_u8("0.4", 10, 8, 0).unwrap(), 0);
    assert_eq!(kind_of(from_str_u8("0.999", 10, 0, 8)), ParseErrorKind::Overflow);
}

#[test]
fn signed_ranges_are_one_apart() {
    assert_eq!(from_str_i8("-128", 10, 8, 0).unwrap(), -128);
    assert_eq!(kind_of(from_str_i8("128", 10, 8, 0)), ParseErrorKind::Overflow);
    assert_eq!(from_str_i8("127", 10, 8, 0).unwrap(), 127);
    assert_eq!(kind_of(from_str_i8("-129", 10, 8, 0)), ParseErrorKind::Overflow);
    assert_eq!(from_str_i8("-80", 16, 8, 0).unwrap(), -128);
    assert_eq!(kind_of(from_str_i8("80", 16, 8, 0)), ParseErrorKind::Overflow);
    assert_eq!(from_str_i16("-100000", 8, 16, 0).unwrap(), -32768);
    assert_eq!(kind_of(from_str_i16("100000", 8, 16, 0)), ParseErrorKind::Overflow);
    assert_eq!(
        from_str_i128("-170141183460469231731687303715884105728", 10, 128, 0).unwrap(),
        i128::MIN
    );
    assert_eq!(
        kind_of(from_str_i128("170141183460469231731687303715884105728", 10, 128, 0)),
        ParseErrorKind::Overflow
    );
}

#[test]
fn negative_zero_is_zero() {
    assert_eq!(from_str_i8("-0", 10, 8, 0).unwrap(), 0);
    assert_eq!(from_str_i8("-0.001", 10, 0, 8).unwrap(), 0);
    assert_eq!(from_str_i8("-.0", 16, 4, 4).unwrap(), 0);
    assert_eq!(from_str_i128("-0.0", 2, 64, 64).unwrap(), 0);
}

#[test]
fn boundary_digits_in_binary_and_hex_agree() {
    assert_eq!(from_str_u16("0.011111111111111101", 2, 0, 16).unwrap(), 0x7fff);
    assert_eq!(from_str_u16("0.7FFF7", 16, 0, 16).unwrap(), 0x7fff);
    assert_eq!(from_str_u16("0.377775", 8, 0, 16).unwrap(), 0x7fff);
    assert_eq!(from_str_u16("0.011111111111111110", 2, 0, 16).unwrap(), 0x8000);
    assert_eq!(from_str_u16("0.7FFF8", 16, 0, 16).unwrap(), 0x8000);
    assert_eq!(from_str_u16("0.377776", 8, 0, 16).unwrap(), 0x8000);
    // digits behind the rounding bit do not count
    assert_eq!(from_str_u16("0.7FFF7FFFFFFFFFFFFFFFFFFFFFFFFFFFFFFFFF", 16, 0, 16).unwrap(), 0x7fff);
    assert_eq!(from_str_u16("0.7FFF80000000000000000000000000000000001", 16, 0, 16).unwrap(), 0x8000);
}

#[test]
fn a_fraction_is_cut_inside_a_digit() {
    // 0.5 in octal is 0.101 in binary
    assert_eq!(from_str_u8("0.5", 8, 6, 2).unwrap(), 3);
    assert_eq!(from_str_u8("0.5", 8, 7, 1).unwrap(), 1);
    assert_eq!(from_str_u8("0.5", 8, 8, 0).unwrap(), 1);
    assert_eq!(from_str_u8("0.3", 8, 8, 0).unwrap(), 0);
    assert_eq!(from_str_u8("0.57", 8, 4, 4).unwrap(), 12);
    // 0.B in hexadecimal is 0.1011 in binary
    assert_eq!(from_str_u8("0.B", 16, 6, 2).unwrap(), 3);
    assert_eq!(from_str_u8("0.7", 16, 6, 2).unwrap(), 2);
    assert_eq!(from_str_u8("0.b", 16, 5, 3).unwrap(), 6);
    assert_eq!(from_str_u8("0.B", 16, 7, 1).unwrap(), 1);
    assert_eq!(from_str_u8("0.8", 16, 8, 0).unwrap(), 1);
    assert_eq!(from_str_u8("0.7", 16, 8, 0).unwrap(), 0);
}

#[test]
fn wide_words_take_their_digits() {
    assert_eq!(from_str_u32("0.1234567890123", 10, 0, 32).unwrap(), 530242871);
    assert_eq!(
        from_str_u64("0.123456789012345678901234567", 10, 0, 64).unwrap(),
        2277375791072698140
    );
    assert_eq!(
        from_str_u128(
            "0.123456789012345678901234567987654321098765432109876543",
            10,
            0,
            128
        )
        .unwrap(),
        42010168377579896403540037811203677112
    );
    // digits behind the 54th are left out
    assert_eq!(
        from_str_u128(
            "0.1234567890123456789012345679876543210987654321098765439999",
            10,
            0,
            128
        )
        .unwrap(),
        42010168377579896403540037811203677112
    );
    assert_eq!(
        from_str_u128("0.123456789012345678901234567", 10, 64, 64).unwrap(),
        2277375791072698140
    );
    assert_eq!(from_str_u128("1.5", 10, 64, 64).unwrap(), 0x1_8000_0000_0000_0000);
    assert_eq!(
        from_str_u128("340282366920938463463374607431768211455", 10, 128, 0).unwrap(),
        u128::MAX
    );
    assert_eq!(
        kind_of(from_str_u128("340282366920938463463374607431768211456", 10, 128, 0)),
        ParseErrorKind::Overflow
    );
    assert_eq!(
        from_str_u64("1777777777777777777777", 8, 64, 0).unwrap(),
        u64::MAX
    );
    assert_eq!(
        kind_of(from_str_u64("2000000000000000000000", 8, 64, 0)),
        ParseErrorKind::Overflow
    );
}

#[test]
fn magnitudes_come_with_their_sign() {
    assert_eq!(from_str_magnitude::<u8>("-1.5", true, 10, 4, 4).unwrap(), (true, 0x18));
    assert_eq!(from_str_magnitude::<u8>("1.5", true, 10, 4, 4).unwrap(), (false, 0x18));
    assert_eq!(from_str_magnitude::<u8>("-8", true, 10, 4, 4).unwrap(), (true, 0x80));
    assert_eq!(
        kind_of(from_str_magnitude::<u8>("8", true, 10, 4, 4)),
        ParseErrorKind::Overflow
    );
    assert_eq!(from_str_magnitude::<u8>("8", false, 10, 4, 4).unwrap(), (false, 0x80));
    assert_eq!(
        kind_of(from_str_magnitude::<u8>("-8", false, 10, 4, 4)),
        ParseErrorKind::InvalidDigit
    );
    assert_eq!(from_str_magnitude::<u16>("-0", true, 10, 16, 0).unwrap(), (true, 0));
}

#[test]
fn whole_parts_go_to_the_top_bits() {
    assert_eq!(get_int::<u8>("", 10, 4, false), Some(0));
    assert_eq!(get_int::<u8>("", 10, 4, true), Some(0x10));
    assert_eq!(get_int::<u8>("", 10, 0, false), Some(0));
    assert_eq!(get_int::<u8>("", 10, 0, true), None);
    assert_eq!(get_int::<u8>("15", 10, 4, false), Some(0xf0));
    assert_eq!(get_int::<u8>("15", 10, 4, true), None);
    assert_eq!(get_int::<u8>("16", 10, 4, false), None);
    assert_eq!(get_int::<u8>("255", 10, 8, false), Some(255));
    assert_eq!(get_int::<u8>("255", 10, 8, true), None);
    assert_eq!(get_int::<u8>("256", 10, 8, false), None);
    assert_eq!(get_int::<u8>("1", 10, 0, false), None);
    assert_eq!(get_int::<u16>("777", 8, 9, false), Some(0o777 << 7));
    assert_eq!(get_int::<u16>("1000", 8, 9, false), None);
    assert_eq!(get_int::<u32>("fF", 16, 8, false), Some(0xff00_0000));
    assert_eq!(get_int::<u64>("1", 2, 1, false), Some(1 << 63));
    assert_eq!(get_int::<u64>("1", 2, 1, true), None);
    assert_eq!(get_int::<u128>("10", 2, 2, true), Some(3 << 126));
}

#[test]
fn fractions_go_to_the_low_bits() {
    assert_eq!(get_frac::<u8>("", 10, 8), Some(0));
    assert_eq!(get_frac::<u8>("", 10, 0), Some(0));
    assert_eq!(get_frac::<u8>("5", 10, 8), Some(0x80));
    assert_eq!(get_frac::<u8>("5", 10, 1), Some(1));
    assert_eq!(get_frac::<u8>("5", 10, 0), None);
    assert_eq!(get_frac::<u8>("4", 10, 0), Some(0));
    assert_eq!(get_frac::<u8>("999", 10, 8), None);
    assert_eq!(get_frac::<u16>("999", 10, 8), None);
    assert_eq!(get_frac::<u16>("998", 10, 8), Some(0xff));
    assert_eq!(get_frac::<u16>("1", 2, 16), Some(0x8000));
    assert_eq!(get_frac::<u16>("4", 8, 16), Some(0x8000));
    assert_eq!(get_frac::<u16>("8", 16, 16), Some(0x8000));
    assert_eq!(get_frac::<u128>("8", 16, 128), Some(1 << 127));
    assert_eq!(get_frac::<u128>("5", 10, 128), Some(1 << 127));
}

#[test]
fn decimal_whole_digits_fold_by_ten() {
    assert_eq!(dec_str_int_to_bin::<u8>(""), Some(0));
    assert_eq!(dec_str_int_to_bin::<u8>("0"), Some(0));
    assert_eq!(dec_str_int_to_bin::<u8>("255"), Some(255));
    assert_eq!(dec_str_int_to_bin::<u8>("0255"), Some(255));
    assert_eq!(dec_str_int_to_bin::<u8>("256"), None);
    assert_eq!(dec_str_int_to_bin::<u8>("2550"), None);
    assert_eq!(dec_str_int_to_bin::<u16>("65535"), Some(65535));
    assert_eq!(dec_str_int_to_bin::<u16>("65536"), None);
    assert_eq!(dec_str_int_to_bin::<u32>("4294967295"), Some(u32::MAX));
    assert_eq!(dec_str_int_to_bin::<u64>("18446744073709551615"), Some(u64::MAX));
    assert_eq!(dec_str_int_to_bin::<u64>("18446744073709551616"), None);
    assert_eq!(
        dec_str_int_to_bin::<u128>("340282366920938463463374607431768211455"),
        Some(u128::MAX)
    );
}

#[test]
fn each_kind_of_error_has_its_phrase() {
    assert_eq!(
        ParseFixedError::new(ParseErrorKind::InvalidDigit).message(),
        "invalid digit found in string"
    );
    assert_eq!(ParseFixedError::new(ParseErrorKind::NoDigits).message(), "string has no digits");
    assert_eq!(
        ParseFixedError::new(ParseErrorKind::TooManyPoints).message(),
        "more than one decimal point found in string"
    );
    assert_eq!(ParseFixedError::new(ParseErrorKind::Overflow).message(), "overflow");
    assert_eq!(from_str_u8("x", 10, 8, 0).unwrap_err().message(), "invalid digit found in string");
    assert_eq!(from_str_u8("", 10, 8, 0).unwrap_err().message(), "string has no digits");
    assert_eq!(
        from_str_u8("..", 10, 8, 0).unwrap_err().message(),
        "more than one decimal point found in string"
    );
    assert_eq!(from_str_u8("256", 10, 8, 0).unwrap_err().message(), "overflow");
    assert_eq!(ParseFixedError::new(ParseErrorKind::Overflow).kind(), ParseErrorKind::Overflow);
    assert_ne!(
        ParseFixedError::new(ParseErrorKind::Overflow),
        ParseFixedError::new(ParseErrorKind::NoDigits)
    );
}

#[test]
fn layouts_are_of_the_widths_of_the_words() {
    for width in 0..=200u32 {
        for frac in 0..=200u32 {
            let known = [8, 16, 32, 64, 128].contains(&width);
            let layout = FixedLayout::new(width, frac, true);
            assert_eq!(layout.is_some(), known && frac <= width);
            if let Some(layout) = layout {
                assert_eq!(layout.width(), width);
                assert_eq!(layout.frac_nbits(), frac);
                assert_eq!(layout.int_nbits(), width - frac);
                assert!(layout.is_signed());
            }
        }
    }
    assert!(!FixedLayout::new(8, 3, false).unwrap().is_signed());
    assert_eq!(FixedLayout::new(u32::MAX, 0, false), None);
    assert_eq!(FixedLayout::new(8, u32::MAX, false), None);
}

#[test]
fn parsing_by_layout_gives_magnitude_and_sign() {
    let u0f8 = FixedLayout::new(8, 8, false).unwrap();
    let i0f8 = FixedLayout::new(8, 8, true).unwrap();
    assert_eq!(parse("0.498", 10, u0f8), Ok(RawBits { neg: false, magnitude: 0x7f }));
    assert_eq!(parse("0.499", 10, u0f8), Ok(RawBits { neg: false, magnitude: 0x80 }));
    assert_eq!(kind_of(parse("0.999", 10, u0f8)), ParseErrorKind::Overflow);
    assert_eq!(parse("-0.501", 10, i0f8), Ok(RawBits { neg: true, magnitude: 0x80 }));
    assert_eq!(kind_of(parse("-0.502", 10, i0f8)), ParseErrorKind::Overflow);
    assert_eq!(parse("0.498", 10, i0f8), Ok(RawBits { neg: false, magnitude: 0x7f }));
    assert_eq!(kind_of(parse("0.499", 10, i0f8)), ParseErrorKind::Overflow);
    assert_eq!(kind_of(parse("-0.5", 10, u0f8)), ParseErrorKind::InvalidDigit);
    assert_eq!(kind_of(parse("0 ", 10, u0f8)), ParseErrorKind::InvalidDigit);
    assert_eq!(kind_of(parse("+.", 10, u0f8)), ParseErrorKind::NoDigits);
    assert_eq!(kind_of(parse("1.2.3", 10, u0f8)), ParseErrorKind::TooManyPoints);
    let u0f16 = FixedLayout::new(16, 16, false).unwrap();
    assert_eq!(
        parse("0.011111111111111101", 2, u0f16),
        Ok(RawBits { neg: false, magnitude: 0x7fff })
    );
    assert_eq!(parse("0.7FFF7", 16, u0f16), Ok(RawBits { neg: false, magnitude: 0x7fff }));
    assert_eq!(parse("0.7FFF8", 16, u0f16), Ok(RawBits { neg: false, magnitude: 0x8000 }));
    let i16f16 = FixedLayout::new(32, 16, true).unwrap();
    assert_eq!(
        parse("-32768.000007", 10, i16f16),
        Ok(RawBits { neg: true, magnitude: 0x8000_0000 })
    );
    assert_eq!(kind_of(parse("-32768.000008", 10, i16f16)), ParseErrorKind::Overflow);
    let i32f32 = FixedLayout::new(64, 32, true).unwrap();
    assert_eq!(
        parse("2147483647.9999999998", 10, i32f32),
        Ok(RawBits { neg: false, magnitude: 0x7fff_ffff_ffff_ffff })
    );
    let u128f0 = FixedLayout::new(128, 0, false).unwrap();
    assert_eq!(
        parse("FFFFFFFFFFFFFFFFFFFFFFFFFFFFFFFF.7", 16, u128f0),
        Ok(RawBits { neg: false, magnitude: u128::MAX })
    );
    assert_eq!(
        kind_of(parse("FFFFFFFFFFFFFFFFFFFFFFFFFFFFFFFF.8", 16, u128f0)),
        ParseErrorKind::Overflow
    );
    let i128f0 = FixedLayout::new(128, 0, true).unwrap();
    assert_eq!(
        parse("-170141183460469231731687303715884105728.4999", 10, i128f0),
        Ok(RawBits { neg: true, magnitude: 1 << 127 })
    );
    assert_eq!(parse("-0", 10, i128f0), Ok(RawBits { neg: true, magnitude: 0 }));
}

#[test]
fn parsing_by_layout_agrees_with_parsing_by_type() {
    let texts = ["0.498", "-0.501", "1.2.3", "255.5", "+.", "7F.FF8", "-128.499", "", "12.75"];
    for text in texts.iter() {
        for radix in [2u32, 8, 10, 16, 5].iter() {
            for frac in 0..=8u32 {
                let unsigned = parse(text, *radix, FixedLayout::new(8, frac, false).unwrap());
                match from_str_u8(text, *radix, 8 - frac, frac) {
                    Ok(bits) => {
                        assert_eq!(unsigned, Ok(RawBits { neg: false, magnitude: bits as u128 }))
                    }
                    Err(e) => assert_eq!(unsigned, Err(e)),
                }
                let signed = parse(text, *radix, FixedLayout::new(8, frac, true).unwrap());
                match from_str_i8(text, *radix, 8 - frac, frac) {
                    Ok(bits) => {
                        let raw = signed.unwrap();
                        assert_eq!(raw.magnitude, bits.unsigned_abs() as u128);
                        assert_eq!(raw.neg, text.starts_with('-'));
                    }
                    Err(e) => assert_eq!(signed, Err(e)),
                }
            }
        }
    }
}

#[test]
fn every_short_numeral_rounds_to_nearest() {
    let digits = "0123456789abcdef".as_bytes();
    for radix in [2u32, 8, 10, 16].iter() {
        let radix = *radix;
        let r = radix as usize;
        for whole_len in 0..=2usize {
            for frac_len in 0..=3usize {
                if whole_len + frac_len == 0 {
                    continue;
                }
                let wholes = r.pow(whole_len as u32);
                let fracs = r.pow(frac_len as u32);
                // a few numbers of whole digits, every number of fraction digits
                for w in (0..wholes).step_by(1 + wholes / 7) {
                    for f in 0..fracs {
                        let mut text = String::new();
                        let mut rest = w;
                        let mut whole_digits = vec![];
                        for _ in 0..whole_len {
                            whole_digits.push(digits[rest % r]);
                            rest /= r;
                        }
                        whole_digits.reverse();
                        let mut rest = f;
                        let mut frac_digits = vec![];
                        for _ in 0..frac_len {
                            frac_digits.push(digits[rest % r]);
                            rest /= r;
                        }
                        frac_digits.reverse();
                        for d in whole_digits.iter() {
                            text.push(*d as char);
                        }
                        text.push('.');
                        for d in frac_digits.iter() {
                            text.push(*d as char);
                        }
                        for frac_nbits in 0..=8u32 {
                            let want = ((w as u128) << frac_nbits)
                                + nearest(f as u128, fracs as u128, frac_nbits);
                            let got = from_str_u8(&text, radix, 8 - frac_nbits, frac_nbits);
                            if want < 256 {
                                assert_eq!(got.map(u128::from), Ok(want), "{} {}", text, frac_nbits);
                            } else {
                                assert_eq!(kind_of(got), ParseErrorKind::Overflow);
                            }
                            let signed = from_str_i8(&text, radix, 8 - frac_nbits, frac_nbits);
                            if want < 128 {
                                assert_eq!(signed.map(|b| b as u128), Ok(want));
                            } else {
                                assert_eq!(kind_of(signed), ParseErrorKind::Overflow);
                            }
                            let negative = format!("-{}", text);
                            let signed = from_str_i8(&negative, radix, 8 - frac_nbits, frac_nbits);
                            if want <= 128 {
                                assert_eq!(signed.map(|b| -(b as i128)), Ok(want as i128));
                            } else {
                                assert_eq!(kind_of(signed), ParseErrorKind::Overflow);
                            }
                        }
                    }
                }
            }
        }
    }
}
