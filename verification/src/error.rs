//! The errors that parsing can report.
use vstd::prelude::*;

verus! {

/// What was wrong with a numeral.
#[derive(Clone, Copy, Debug, PartialEq, Eq, Structural)]
pub enum ParseErrorKind {
    /// A character that is no digit of the radix, or a sign that is
    /// repeated, misplaced or not allowed.
    InvalidDigit,
    /// The numeral holds no digit at all.
    NoDigits,
    /// The numeral holds more than one point.
    TooManyPoints,
    /// The number does not fit the fixed-point type.
    Overflow,
}

/// An error which can be returned when parsing a fixed-point number.
#[derive(Clone, Copy, Debug, PartialEq, Eq, Structural)]
pub struct ParseFixedError {
    kind: ParseErrorKind,
}

/// The phrase by which an error of the given kind is shown.
pub open spec fn message_of(kind: ParseErrorKind) -> Seq<char> {
    match kind {
        ParseErrorKind::InvalidDigit => "invalid digit found in string"@,
        ParseErrorKind::NoDigits => "string has no digits"@,
        ParseErrorKind::TooManyPoints => "more than one decimal point found in string"@,
        ParseErrorKind::Overflow => "overflow"@,
    }
}

impl ParseFixedError {
    /// The kind of this error, in specifications.
    pub closed spec fn spec_kind(self) -> ParseErrorKind {
        self.kind
    }

    /// An error of the given kind.
    pub fn new(kind: ParseErrorKind) -> (e: ParseFixedError)
        ensures
            e.spec_kind() == kind,
    {
        ParseFixedError { kind }
    }

    /// The kind of this error.
    pub fn kind(&self) -> (k: ParseErrorKind)
        ensures
            k == self.spec_kind(),
    {
        self.kind
    }

    /// One short phrase that describes the error.
    pub fn message(&self) -> (m: &'static str)
        ensures
            m@ == message_of(self.spec_kind()),
    {
        match self.kind {
            ParseErrorKind::InvalidDigit => "invalid digit found in string",
            ParseErrorKind::NoDigits => "string has no digits",
            ParseErrorKind::TooManyPoints => "more than one decimal point found in string",
            ParseErrorKind::Overflow => "overflow",
        }
    }

    /// An error is nothing but its kind.
    pub proof fn lemma_kind_determines(a: ParseFixedError, b: ParseFixedError)
        requires
            a.spec_kind() == b.spec_kind(),
        ensures
            a == b,
    {
    }
}

} // verus!
