//! Exact conversion of written numerals to the bit patterns of fixed-point
//! numbers.
//!
//! A numeral is an optional sign, digits of radix 2, 8, 10 or 16 and an
//! optional fraction behind a point. It is turned into the stored integer
//! of a fixed-point number of a given width and number of fraction bits,
//! rounded to nearest with ties upward, using integer arithmetic only.
//!
//! * [`bounds`] takes a numeral apart or says what is wrong with it.
//! * [`radix`] converts digits of radix 2, 8 and 16, [`decimal`] decimal
//!   fractions, with the help of the two-word arithmetic of [`wide`].
//! * [`from_str`] puts the parts together for each width and signedness;
//!   [`layout`] does so for a layout that is given as a value.
//! * [`sealed_int`] and [`word`] say what the conversions need of the
//!   integers that they work in.
//! * [`model`] holds the mathematical meaning of digits and rounding that
//!   all contracts speak of, [`arith`] facts about powers of two and shifts,
//!   and [`laws`] what follows for parsing as a whole.
pub mod arith;
pub mod bounds;
pub mod decimal;
pub mod error;
pub mod from_str;
pub mod laws;
pub mod layout;
pub mod model;
pub mod radix;
pub mod sealed_int;
pub mod wide;
pub mod word;

pub use crate::bounds::{parse_bounds, Parse};
pub use crate::error::{ParseErrorKind, ParseFixedError};
pub use crate::layout::{parse, FixedLayout, RawBits};
pub use crate::sealed_int::{Int, SealedInt};
pub use crate::word::Word;
