//! Parsing by layout: the width of a fixed-point type, the number of its
//! fraction bits and whether it is signed, given as a value.
use crate::bounds::is_negative;
use crate::error::ParseFixedError;
use crate::from_str::{from_str_magnitude, parse_value};
use crate::sealed_int::abs;
use crate::word::Word;
use vstd::prelude::*;
use vstd::string::StringSliceAdditionalSpecFns;

verus! {

/// Whether a width and a number of fraction bits make a layout: the width
/// is 8, 16, 32, 64 or 128, and the fraction bits are no more than the
/// width.
pub open spec fn valid_layout(width: u32, frac_nbits: u32) -> bool {
    &&& width == 8 || width == 16 || width == 32 || width == 64 || width == 128
    &&& frac_nbits <= width
}

/// The layout of a fixed-point type: its width in bits, the number of its
/// fraction bits, and whether it is signed.
#[derive(Clone, Copy, Debug, PartialEq, Eq)]
pub struct FixedLayout {
    width: u32,
    frac_nbits: u32,
    signed: bool,
}

impl FixedLayout {
    #[verifier::type_invariant]
    spec fn well_formed(self) -> bool {
        valid_layout(self.width, self.frac_nbits)
    }

    /// The width in bits, in specifications.
    pub closed spec fn spec_width(self) -> u32 {
        self.width
    }

    /// The number of fraction bits, in specifications.
    pub closed spec fn spec_frac_nbits(self) -> u32 {
        self.frac_nbits
    }

    /// Whether the type is signed, in specifications.
    pub closed spec fn spec_is_signed(self) -> bool {
        self.signed
    }

    /// The layout of the given width, fraction bits and signedness, if
    /// there is one.
    pub fn new(width: u32, frac_nbits: u32, signed: bool) -> (r: Option<FixedLayout>)
        ensures
            match r {
                Some(layout) => {
                    &&& valid_layout(width, frac_nbits)
                    &&& layout.spec_width() == width
                    &&& layout.spec_frac_nbits() == frac_nbits
                    &&& layout.spec_is_signed() == signed
                },
                None => !valid_layout(width, frac_nbits),
            },
    {
        let known = width == 8 || width == 16 || width == 32 || width == 64 || width == 128;
        if known && frac_nbits <= width {
            Some(FixedLayout { width, frac_nbits, signed })
        } else {
            None
        }
    }

    /// The width in bits.
    pub fn width(&self) -> (r: u32)
        ensures
            r == self.spec_width(),
            valid_layout(self.spec_width(), self.spec_frac_nbits()),
    {
        proof {
            use_type_invariant(self);
        }
        self.width
    }

    /// The number of bits behind the point.
    pub fn frac_nbits(&self) -> (r: u32)
        ensures
            r == self.spec_frac_nbits(),
    {
        self.frac_nbits
    }

    /// The number of bits before the point.
    pub fn int_nbits(&self) -> (r: u32)
        ensures
            r == self.spec_width() - self.spec_frac_nbits(),
    {
        proof {
            use_type_invariant(self);
        }
        self.width - self.frac_nbits
    }

    /// Whether the type is signed.
    pub fn is_signed(&self) -> (r: bool)
        ensures
            r == self.spec_is_signed(),
    {
        self.signed
    }
}

/// The magnitude of a parsed number as a bit pattern of the width of its
/// layout, before the sign is applied, and the sign.
#[derive(Clone, Copy, Debug, PartialEq, Eq, Structural)]
pub struct RawBits {
    /// Whether the numeral has a minus sign.
    pub neg: bool,
    /// The magnitude, in units of two to the minus the fraction bits.
    pub magnitude: u128,
}

/// Whether what parsing by layout gave back is the outcome that the text
/// calls for.
pub open spec fn parsed_raw(
    r: Result<RawBits, ParseFixedError>,
    text: Seq<u8>,
    radix: u32,
    layout: FixedLayout,
) -> bool {
    match parse_value(
        text,
        radix,
        layout.spec_width() as nat,
        layout.spec_frac_nbits() as nat,
        layout.spec_is_signed(),
    ) {
        Ok(v) => r matches Ok(bits) && bits.neg == is_negative(text) && bits.magnitude == abs(v),
        Err(kind) => r matches Err(e) && e.spec_kind() == kind,
    }
}

/// Parses a numeral in a word of the width of the layout.
fn parse_in<I: Word>(text: &str, radix: u32, layout: FixedLayout) -> (r: Result<
    RawBits,
    ParseFixedError,
>)
    requires
        layout.spec_width() == I::spec_nbits(),
    ensures
        parsed_raw(r, text.spec_bytes(), radix, layout),
{
    let frac_nbits = layout.frac_nbits();
    let int_nbits = layout.int_nbits();
    match from_str_magnitude::<I>(text, layout.is_signed(), radix, int_nbits, frac_nbits) {
        Ok((neg, bits)) => Ok(RawBits { neg, magnitude: bits.to_u128() }),
        Err(e) => Err(e),
    }
}

/// Parses a numeral of the given radix as a fixed-point number of the
/// given layout. What comes back is the magnitude as a bit pattern and the
/// sign, or what is wrong: with the text, or that the number does not fit.
pub fn parse(text: &str, radix: u32, layout: FixedLayout) -> (r: Result<RawBits, ParseFixedError>)
    ensures
        parsed_raw(r, text.spec_bytes(), radix, layout),
{
    let width = layout.width();
    if width == 8 {
        parse_in::<u8>(text, radix, layout)
    } else if width == 16 {
        parse_in::<u16>(text, radix, layout)
    } else if width == 32 {
        parse_in::<u32>(text, radix, layout)
    } else if width == 64 {
        parse_in::<u64>(text, radix, layout)
    } else {
        parse_in::<u128>(text, radix, layout)
    }
}

} // verus!
