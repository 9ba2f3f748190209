//! The lexical pass: one scan over a numeral that finds its sign, its whole
//! digits and its fraction digits, or says what is wrong with it.
use crate::error::{ParseErrorKind, ParseFixedError};
use crate::model::{
    all_digits,
    is_digit,
    CH_0,
    CH_1,
    CH_7,
    CH_9,
    LOWER_A,
    LOWER_F,
    MINUS,
    PLUS,
    POINT,
    UPPER_A,
    UPPER_F,
};
use vstd::prelude::*;
use vstd::string::StringSliceAdditionalSpecFns;
use vstd::utf8::{
    encode_utf8_valid_utf8,
    is_char_boundary_iff_not_is_continuation_byte,
    is_char_boundary_start_end_of_seq,
};

verus! {

/// A numeral taken apart: its sign, its whole digits without leading zeros
/// and its fraction digits without trailing zeros.
#[derive(Clone, Copy, Debug, PartialEq, Eq)]
pub struct Parse<'a> {
    pub neg: bool,
    pub int: &'a str,
    pub frac: &'a str,
}

impl<'a> Parse<'a> {
    /// Both spans hold digits of the radix only, the whole digits do not
    /// start with a zero and the fraction digits do not end with one.
    pub open spec fn wf(self, radix: u32) -> bool {
        let whole = self.int.spec_bytes();
        let fraction = self.frac.spec_bytes();
        &&& all_digits(whole, radix)
        &&& all_digits(fraction, radix)
        &&& whole.len() > 0 ==> whole[0] != CH_0
        &&& fraction.len() > 0 ==> fraction.last() != CH_0
    }
}

/// Whether the byte at `i` may stand where it stands: a plus sign only in
/// front, a minus sign only in front and only if negative numbers are
/// allowed, a point only if none came before, and otherwise only a digit of
/// the radix.
pub open spec fn byte_allowed(text: Seq<u8>, i: int, can_be_neg: bool, radix: u32) -> bool {
    let b = text[i];
    if b == PLUS {
        i == 0
    } else if b == MINUS {
        can_be_neg && i == 0
    } else if b == POINT {
        forall|j: int| 0 <= j < i ==> text[j] != POINT
    } else {
        is_digit(b, radix)
    }
}

/// The index of the first byte at or after `from` that is not allowed, or
/// the length of the text if there is none.
pub open spec fn rejected_from(text: Seq<u8>, can_be_neg: bool, radix: u32, from: int) -> int
    decreases text.len() - from,
{
    if from < 0 || from >= text.len() {
        text.len() as int
    } else if !byte_allowed(text, from, can_be_neg, radix) {
        from
    } else {
        rejected_from(text, can_be_neg, radix, from + 1)
    }
}

/// Whether the text holds a digit of the radix.
pub open spec fn has_digit(text: Seq<u8>, radix: u32) -> bool {
    exists|i: int| 0 <= i < text.len() && is_digit(#[trigger] text[i], radix)
}

/// What is wrong with the text, if anything. The first byte that is not
/// allowed decides: a point there means too many points, anything else an
/// invalid digit. A text of allowed bytes must still hold a digit.
pub open spec fn lex_error(text: Seq<u8>, can_be_neg: bool, radix: u32) -> Option<ParseErrorKind> {
    let i = rejected_from(text, can_be_neg, radix, 0);
    if i < text.len() {
        if text[i] == POINT {
            Some(ParseErrorKind::TooManyPoints)
        } else {
            Some(ParseErrorKind::InvalidDigit)
        }
    } else if !has_digit(text, radix) {
        Some(ParseErrorKind::NoDigits)
    } else {
        None
    }
}

/// Whether the text starts with a minus sign.
pub open spec fn is_negative(text: Seq<u8>) -> bool {
    text.len() > 0 && text[0] == MINUS
}

/// The number of bytes that the sign takes: one or none.
pub open spec fn sign_len(text: Seq<u8>) -> int {
    if text.len() > 0 && (text[0] == PLUS || text[0] == MINUS) {
        1
    } else {
        0
    }
}

/// The index of the first point at or after `from`, or the length of the
/// text if there is none.
pub open spec fn point_from(text: Seq<u8>, from: int) -> int
    decreases text.len() - from,
{
    if from < 0 || from >= text.len() {
        text.len() as int
    } else if text[from] == POINT {
        from
    } else {
        point_from(text, from + 1)
    }
}

/// The digits between the sign and the point, as written.
pub open spec fn whole_digits(text: Seq<u8>) -> Seq<u8> {
    text.subrange(sign_len(text), point_from(text, 0))
}

/// The digits behind the point, as written; none if there is no point.
pub open spec fn fraction_digits(text: Seq<u8>) -> Seq<u8> {
    let p = point_from(text, 0);
    if p < text.len() {
        text.subrange(p + 1, text.len() as int)
    } else {
        Seq::empty()
    }
}

/// A span without the zeros that it starts with.
pub open spec fn trim_leading_zeros(s: Seq<u8>) -> Seq<u8>
    decreases s.len(),
{
    if s.len() > 0 && s[0] == CH_0 {
        trim_leading_zeros(s.drop_first())
    } else {
        s
    }
}

/// A span without the zeros that it ends with.
pub open spec fn trim_trailing_zeros(s: Seq<u8>) -> Seq<u8>
    decreases s.len(),
{
    if s.len() > 0 && s.last() == CH_0 {
        trim_trailing_zeros(s.drop_last())
    } else {
        s
    }
}

/// Allowed bytes up to `to`, and either the end or a byte that is not
/// allowed at `to`, make `to` the first rejected index.
pub proof fn lemma_rejected_from(text: Seq<u8>, can_be_neg: bool, radix: u32, from: int, to: int)
    requires
        0 <= from <= to <= text.len(),
        forall|j: int| from <= j < to ==> byte_allowed(text, j, can_be_neg, radix),
        to < text.len() ==> !byte_allowed(text, to, can_be_neg, radix),
    ensures
        rejected_from(text, can_be_neg, radix, from) == to,
    decreases to - from,
{
    if from < to {
        lemma_rejected_from(text, can_be_neg, radix, from + 1, to);
    }
}

/// No point up to `to`, and either the end or a point at `to`, make `to`
/// the index of the first point.
pub proof fn lemma_point_from(text: Seq<u8>, from: int, to: int)
    requires
        0 <= from <= to <= text.len(),
        forall|j: int| from <= j < to ==> text[j] != POINT,
        to < text.len() ==> text[to] == POINT,
    ensures
        point_from(text, from) == to,
    decreases to - from,
{
    if from < to {
        lemma_point_from(text, from + 1, to);
    }
}

/// Trimming the zeros in front leaves what follows the first `k` bytes, if
/// those are zeros and the next one is not.
pub proof fn lemma_trim_leading_zeros(s: Seq<u8>, k: int)
    requires
        0 <= k <= s.len(),
        forall|j: int| 0 <= j < k ==> s[j] == CH_0,
        k < s.len() ==> s[k] != CH_0,
    ensures
        trim_leading_zeros(s) == s.subrange(k, s.len() as int),
    decreases k,
{
    if k == 0 {
        assert(s.subrange(0, s.len() as int) =~= s);
    } else {
        let t = s.drop_first();
        assert forall|j: int| 0 <= j < k - 1 implies t[j] == CH_0 by {
            assert(t[j] == s[j + 1]);
        }
        lemma_trim_leading_zeros(t, k - 1);
        assert(t.subrange(k - 1, t.len() as int) =~= s.subrange(k, s.len() as int));
    }
}

/// Trimming the zeros at the end leaves the first `k` bytes, if all behind
/// them are zeros and the last of them is not.
pub proof fn lemma_trim_trailing_zeros(s: Seq<u8>, k: int)
    requires
        0 <= k <= s.len(),
        forall|j: int| k <= j < s.len() ==> s[j] == CH_0,
        k > 0 ==> s[k - 1] != CH_0,
    ensures
        trim_trailing_zeros(s) == s.subrange(0, k),
    decreases s.len() - k,
{
    if k == s.len() {
        assert(s.subrange(0, k) =~= s);
    } else {
        let t = s.drop_last();
        lemma_trim_trailing_zeros(t, k);
        assert(t.subrange(0, k) =~= s.subrange(0, k));
    }
}

/// If no byte from `from` on is rejected, every byte from there on is
/// allowed.
pub proof fn lemma_none_rejected(text: Seq<u8>, can_be_neg: bool, radix: u32, from: int)
    requires
        0 <= from <= text.len(),
        rejected_from(text, can_be_neg, radix, from) >= text.len(),
    ensures
        forall|i: int| from <= i < text.len() ==> byte_allowed(text, i, can_be_neg, radix),
    decreases text.len() - from,
{
    if from < text.len() {
        lemma_none_rejected(text, can_be_neg, radix, from + 1);
    }
}

/// The first point at or after `from` has no point before it.
pub proof fn lemma_first_point(text: Seq<u8>, from: int)
    requires
        0 <= from <= text.len(),
    ensures
        from <= point_from(text, from) <= text.len(),
        forall|j: int| from <= j < point_from(text, from) ==> text[j] != POINT,
        point_from(text, from) < text.len() ==> text[point_from(text, from)] == POINT,
    decreases text.len() - from,
{
    if from < text.len() && text[from] != POINT {
        lemma_first_point(text, from + 1);
    }
}

/// A text without an error is a sign or none, whole digits, and then
/// nothing more or a point and fraction digits; and there is a digit, so
/// the radix is 2, 8, 10 or 16.
pub proof fn lemma_lexed_shape(text: Seq<u8>, can_be_neg: bool, radix: u32)
    requires
        lex_error(text, can_be_neg, radix) is None,
    ensures
        radix == 2 || radix == 8 || radix == 10 || radix == 16,
        sign_len(text) <= point_from(text, 0) <= text.len(),
        all_digits(whole_digits(text), radix),
        all_digits(fraction_digits(text), radix),
        whole_digits(text).len() + fraction_digits(text).len() > 0,
        is_negative(text) ==> can_be_neg,
        text == text.take(sign_len(text)) + whole_digits(text) + text.skip(point_from(text, 0)),
        point_from(text, 0) < text.len() ==> text.skip(point_from(text, 0)) == seq![POINT]
            + fraction_digits(text),
{
    let len = text.len() as int;
    let first = sign_len(text);
    let p = point_from(text, 0);
    lemma_none_rejected(text, can_be_neg, radix, 0);
    lemma_first_point(text, 0);
    assert(first <= p) by {
        if first == 1 && p == 0 {
            assert(text[0] == POINT);
        }
    }
    let whole = whole_digits(text);
    assert forall|j: int| 0 <= j < whole.len() implies is_digit(#[trigger] whole[j], radix) by {
        assert(whole[j] == text[first + j]);
        assert(byte_allowed(text, first + j, can_be_neg, radix));
    }
    let fraction = fraction_digits(text);
    assert forall|j: int| 0 <= j < fraction.len() implies is_digit(
        #[trigger] fraction[j],
        radix,
    ) by {
        assert(fraction[j] == text[p + 1 + j]);
        assert(byte_allowed(text, p + 1 + j, can_be_neg, radix));
    }
    let i = choose|i: int| 0 <= i < text.len() && is_digit(#[trigger] text[i], radix);
    assert(first <= i && i != p) by {
        assert(byte_allowed(text, i, can_be_neg, radix));
    }
    crate::model::lemma_digit_value(text[i], radix);
    if len > 0 {
        assert(byte_allowed(text, 0, can_be_neg, radix));
    }
    assert(text =~= text.take(first) + whole + text.skip(p));
    if p < len {
        assert(text.skip(p) =~= seq![POINT] + fraction);
    }
}

/// A text that is built as a numeral is without an error and has the parts
/// that it was built from: a plus sign, a minus sign where negative numbers
/// are allowed, or no sign; whole digits; and nothing more, or a point and
/// fraction digits; with a digit among them.
pub proof fn lemma_numeral_lexes(
    sign: Seq<u8>,
    whole: Seq<u8>,
    fraction: Option<Seq<u8>>,
    can_be_neg: bool,
    radix: u32,
)
    requires
        sign.len() == 0 || sign == seq![PLUS] || (can_be_neg && sign == seq![MINUS]),
        all_digits(whole, radix),
        fraction matches Some(digits) ==> all_digits(digits, radix),
        whole.len() > 0 || (fraction matches Some(digits) && digits.len() > 0),
    ensures
        ({
            let text = sign + whole + match fraction {
                Some(digits) => seq![POINT] + digits,
                None => Seq::empty(),
            };
            &&& lex_error(text, can_be_neg, radix) is None
            &&& is_negative(text) == (sign == seq![MINUS])
            &&& whole_digits(text) == whole
            &&& fraction_digits(text) == match fraction {
                Some(digits) => digits,
                None => Seq::empty(),
            }
        }),
{
    let tail: Seq<u8> = match fraction {
        Some(digits) => seq![POINT] + digits,
        None => Seq::empty(),
    };
    let text = sign + whole + tail;
    let first = sign.len() as int;
    let p = first + whole.len();
    let len = text.len() as int;
    assert forall|i: int| 0 <= i < len implies byte_allowed(text, i, can_be_neg, radix) by {
        if i < first {
            assert(text[i] == sign[i]);
        } else if i < p {
            assert(text[i] == whole[i - first]);
        } else if i == p {
            assert(text[i] == POINT);
            assert forall|j: int| 0 <= j < i implies text[j] != POINT by {
                if j < first {
                    assert(text[j] == sign[j]);
                } else {
                    assert(text[j] == whole[j - first]);
                }
            }
        } else {
            assert(text[i] == fraction->Some_0[i - p - 1]);
        }
    }
    lemma_rejected_from(text, can_be_neg, radix, 0, len);
    if whole.len() > 0 {
        assert(text[first] == whole[0]);
        assert(is_digit(text[first], radix));
    } else {
        assert(text[p + 1] == fraction->Some_0[0]);
        assert(is_digit(text[p + 1], radix));
    }
    assert forall|j: int| 0 <= j < p implies text[j] != POINT by {
        if j < first {
            assert(text[j] == sign[j]);
        } else {
            assert(text[j] == whole[j - first]);
        }
    }
    if p < len {
        assert(text[p] == POINT);
    }
    lemma_point_from(text, 0, p);
    if first == 0 {
        assert(sign_len(text) == 0) by {
            if whole.len() > 0 {
                assert(text[0] == whole[0]);
            } else {
                assert(text[0] == POINT);
            }
        }
    } else {
        assert(text[0] == sign[0]);
    }
    assert(whole_digits(text) =~= whole);
    match fraction {
        Some(digits) => {
            assert(fraction_digits(text) =~= digits);
        },
        None => {
            assert(fraction_digits(text) =~= Seq::<u8>::empty());
        },
    }
}

/// Whether `byte` is a digit of the radix.
pub fn is_radix_digit(byte: u8, radix: u32) -> (r: bool)
    ensures
        r == is_digit(byte, radix),
{
    if radix == 2 {
        CH_0 <= byte && byte <= CH_1
    } else if radix == 8 {
        CH_0 <= byte && byte <= CH_7
    } else if radix == 10 {
        CH_0 <= byte && byte <= CH_9
    } else if radix == 16 {
        (CH_0 <= byte && byte <= CH_9) || (LOWER_A <= byte && byte <= LOWER_F) || (UPPER_A
            <= byte && byte <= UPPER_F)
    } else {
        false
    }
}

/// The part of `s` from byte `from` up to byte `to`, where neither index
/// falls inside a character of several bytes.
fn span<'a>(s: &'a str, from: usize, to: usize) -> (r: &'a str)
    requires
        from <= to <= s.spec_bytes().len(),
        from < s.spec_bytes().len() ==> s.spec_bytes()[from as int] < 0x80,
        to < s.spec_bytes().len() ==> s.spec_bytes()[to as int] < 0x80,
    ensures
        r.spec_bytes() == s.spec_bytes().subrange(from as int, to as int),
{
    let ghost text = s.spec_bytes();
    proof {
        encode_utf8_valid_utf8(s@);
        is_char_boundary_start_end_of_seq(text);
        if to < text.len() {
            is_char_boundary_iff_not_is_continuation_byte(text, to as int);
        }
    }
    let head = s.split_at(to).0;
    let ghost front = head.spec_bytes();
    proof {
        encode_utf8_valid_utf8(head@);
        is_char_boundary_start_end_of_seq(front);
        if from < front.len() {
            assert(front[from as int] == text[from as int]);
            is_char_boundary_iff_not_is_continuation_byte(front, from as int);
        }
    }
    let part = head.split_at(from).1;
    proof {
        assert(front.subrange(from as int, front.len() as int) =~= text.subrange(
            from as int,
            to as int,
        ));
    }
    part
}

/// Where the parts of a numeral lie, as the scan found them.
struct Marks {
    /// Whether a minus sign stands in front.
    neg: bool,
    /// The index of the first whole digit that is not a zero, or of the
    /// point (the length, without a point) if there is none.
    int_start: usize,
    /// The index of the point, or the length of the text if there is none.
    point: usize,
    /// The index behind the last fraction digit that is not a zero, or
    /// behind the point if there is none (the length, without a point).
    frac_end: usize,
}

impl Marks {
    /// The marks describe `text`, which holds allowed bytes only.
    spec fn describes(self, text: Seq<u8>, radix: u32) -> bool {
        let first = sign_len(text);
        let frac_start = if self.point < text.len() {
            self.point + 1
        } else {
            text.len() as int
        };
        &&& self.neg == is_negative(text)
        &&& first <= self.int_start <= self.point <= text.len()
        &&& frac_start <= self.frac_end <= text.len()
        &&& forall|j: int| 0 <= j < self.point ==> text[j] != POINT
        &&& self.point < text.len() ==> text[self.point as int] == POINT
        &&& forall|j: int|
            first <= j < text.len() && j != self.point ==> is_digit(#[trigger] text[j], radix)
        &&& forall|j: int| first <= j < self.int_start ==> text[j] == CH_0
        &&& self.int_start < self.point ==> text[self.int_start as int] != CH_0
        &&& forall|j: int| self.frac_end <= j < text.len() ==> text[j] == CH_0
        &&& self.frac_end > frac_start ==> text[self.frac_end - 1] != CH_0
    }
}

/// The spans that the marks cut out of the text are the whole digits
/// without their leading zeros and the fraction digits without their
/// trailing zeros.
proof fn lemma_marks_spans(text: Seq<u8>, radix: u32, m: Marks)
    requires
        m.describes(text, radix),
    ensures
        text.subrange(m.int_start as int, m.point as int) == trim_leading_zeros(
            whole_digits(text),
        ),
        text.subrange(
            if m.point < text.len() {
                m.point + 1
            } else {
                text.len() as int
            },
            m.frac_end as int,
        ) == trim_trailing_zeros(fraction_digits(text)),
        all_digits(text.subrange(m.int_start as int, m.point as int), radix),
        all_digits(
            text.subrange(
                if m.point < text.len() {
                    m.point + 1
                } else {
                    text.len() as int
                },
                m.frac_end as int,
            ),
            radix,
        ),
        m.int_start < m.point ==> text[m.int_start as int] != CH_0,
        m.frac_end > m.point + 1 ==> text[m.frac_end - 1] != CH_0,
{
    let first = sign_len(text);
    let len = text.len() as int;
    let point = m.point as int;
    let int_start = m.int_start as int;
    let frac_end = m.frac_end as int;
    let frac_start = if point < len {
        point + 1
    } else {
        len
    };
    lemma_point_from(text, 0, point);
    let whole = whole_digits(text);
    assert(whole == text.subrange(first, point));
    assert forall|j: int| 0 <= j < int_start - first implies whole[j] == CH_0 by {
        assert(whole[j] == text[first + j]);
    }
    if int_start < point {
        assert(whole[int_start - first] == text[int_start]);
    }
    lemma_trim_leading_zeros(whole, int_start - first);
    assert(whole.subrange(int_start - first, whole.len() as int) =~= text.subrange(
        int_start,
        point,
    ));
    let whole_span = text.subrange(int_start, point);
    assert forall|j: int| 0 <= j < whole_span.len() implies is_digit(
        #[trigger] whole_span[j],
        radix,
    ) by {
        assert(whole_span[j] == text[int_start + j]);
    }
    let fraction = fraction_digits(text);
    assert(fraction =~= text.subrange(frac_start, len));
    assert forall|j: int| frac_end - frac_start <= j < fraction.len() implies fraction[j]
        == CH_0 by {
        assert(fraction[j] == text[frac_start + j]);
    }
    if frac_end > frac_start {
        assert(fraction[frac_end - frac_start - 1] == text[frac_end - 1]);
    }
    lemma_trim_trailing_zeros(fraction, frac_end - frac_start);
    assert(fraction.subrange(0, frac_end - frac_start) =~= text.subrange(frac_start, frac_end));
    let frac_span = text.subrange(frac_start, frac_end);
    assert forall|j: int| 0 <= j < frac_span.len() implies is_digit(
        #[trigger] frac_span[j],
        radix,
    ) by {
        assert(frac_span[j] == text[frac_start + j]);
    }
}

/// The scan itself: classifies each byte in turn and notes where the
/// parts of the numeral lie.
fn scan(bytes: &[u8], can_be_neg: bool, radix: u32) -> (r: Result<Marks, ParseFixedError>)
    ensures
        match lex_error(bytes@, can_be_neg, radix) {
            Some(kind) => r matches Err(e) && e.spec_kind() == kind,
            None => r matches Ok(m) && m.describes(bytes@, radix),
        },
{
    let ghost text = bytes@;
    let len = bytes.len();
    let mut sign: Option<bool> = None;
    let mut trimmed_int_start: Option<usize> = None;
    let mut point: Option<usize> = None;
    let mut trimmed_frac_end: Option<usize> = None;
    let mut has_any_digit = false;
    let mut index: usize = 0;
    while index < len
        invariant
            bytes@ == text,
            len == text.len(),
            index <= len,
            forall|j: int| 0 <= j < index ==> byte_allowed(text, j, can_be_neg, radix),
            sign.is_some() <==> index > 0 && (text[0] == PLUS || text[0] == MINUS),
            sign == Some(true) <==> index > 0 && text[0] == MINUS,
            (sign.is_some() || point.is_some() || has_any_digit) <==> index > 0,
            has_any_digit <==> exists|j: int| 0 <= j < index && is_digit(#[trigger] text[j], radix),
            match point {
                Some(p) => p < index && text[p as int] == POINT && forall|j: int|
                    0 <= j < p ==> text[j] != POINT,
                None => forall|j: int| 0 <= j < index ==> text[j] != POINT,
            },
            forall|j: int|
                0 < j < index && point != Some(j as usize) ==> is_digit(#[trigger] text[j], radix),
            index > 0 && sign.is_none() && point != Some(0usize) ==> is_digit(text[0], radix),
            match trimmed_int_start {
                Some(st) => {
                    &&& sign_len(text) <= st < index
                    &&& point matches Some(p) ==> st < p
                    &&& text[st as int] != CH_0
                    &&& forall|j: int| sign_len(text) <= j < st ==> text[j] == CH_0
                },
                None => forall|j: int|
                    sign_len(text) <= j < index && (point matches Some(p) ==> j < p) ==> text[j]
                        == CH_0,
            },
            match trimmed_frac_end {
                Some(end) => {
                    &&& point matches Some(p) && p < end <= index && (end > p + 1 ==> text[end
                        - 1] != CH_0)
                    &&& forall|j: int| end <= j < index ==> text[j] == CH_0
                },
                None => point.is_none(),
            },
        decreases len - index,
    {
        let byte = bytes[index];
        if byte == PLUS {
            if sign.is_some() || point.is_some() || has_any_digit {
                proof {
                    lemma_rejected_from(text, can_be_neg, radix, 0, index as int);
                }
                return Err(ParseFixedError::new(ParseErrorKind::InvalidDigit));
            }
            sign = Some(false);
        } else if byte == MINUS {
            if !can_be_neg || sign.is_some() || point.is_some() || has_any_digit {
                proof {
                    lemma_rejected_from(text, can_be_neg, radix, 0, index as int);
                }
                return Err(ParseFixedError::new(ParseErrorKind::InvalidDigit));
            }
            sign = Some(true);
        } else if byte == POINT {
            if point.is_some() {
                proof {
                    lemma_rejected_from(text, can_be_neg, radix, 0, index as int);
                }
                return Err(ParseFixedError::new(ParseErrorKind::TooManyPoints));
            }
            point = Some(index);
            trimmed_frac_end = Some(index + 1);
        } else if is_radix_digit(byte, radix) {
            if trimmed_int_start.is_none() && point.is_none() && byte != CH_0 {
                trimmed_int_start = Some(index);
            }
            if trimmed_frac_end.is_some() && byte != CH_0 {
                trimmed_frac_end = Some(index + 1);
            }
            has_any_digit = true;
        } else {
            proof {
                lemma_rejected_from(text, can_be_neg, radix, 0, index as int);
            }
            return Err(ParseFixedError::new(ParseErrorKind::InvalidDigit));
        }
        index += 1;
    }
    proof {
        lemma_rejected_from(text, can_be_neg, radix, 0, len as int);
    }
    if !has_any_digit {
        return Err(ParseFixedError::new(ParseErrorKind::NoDigits));
    }
    let neg = match sign {
        Some(n) => n,
        None => false,
    };
    let point_at: usize = match point {
        Some(p) => p,
        None => len,
    };
    let int_start: usize = match trimmed_int_start {
        Some(start) => start,
        None => point_at,
    };
    let frac_end: usize = match trimmed_frac_end {
        Some(end) => end,
        None => len,
    };
    Ok(Marks { neg, int_start, point: point_at, frac_end })
}

/// Takes a numeral apart. Scans the text once; `+` may stand in front,
/// `-` too if `can_be_neg`; at most one point may occur; every other
/// character must be a digit of the radix, and there must be one. The spans
/// that come back are free of leading zeros in the whole part and of
/// trailing zeros in the fraction.
pub fn parse_bounds(s: &str, can_be_neg: bool, radix: u32) -> (r: Result<
    Parse<'_>,
    ParseFixedError,
>)
    ensures
        match lex_error(s.spec_bytes(), can_be_neg, radix) {
            Some(kind) => r matches Err(e) && e.spec_kind() == kind,
            None => r matches Ok(p) && p.wf(radix) && p.neg == is_negative(s.spec_bytes())
                && p.int.spec_bytes() == trim_leading_zeros(whole_digits(s.spec_bytes()))
                && p.frac.spec_bytes() == trim_trailing_zeros(fraction_digits(s.spec_bytes())),
        },
{
    let ghost text = s.spec_bytes();
    let marks = match scan(s.as_bytes(), can_be_neg, radix) {
        Ok(m) => m,
        Err(e) => {
            return Err(e);
        },
    };
    proof {
        lemma_marks_spans(text, radix, marks);
    }
    let len = s.as_bytes().len();
    let frac_start: usize = if marks.point < len {
        marks.point + 1
    } else {
        len
    };
    let int_span = span(s, marks.int_start, marks.point);
    let frac_span = span(s, frac_start, marks.frac_end);
    proof {
        if int_span.spec_bytes().len() > 0 {
            assert(int_span.spec_bytes()[0] == text[marks.int_start as int]);
        }
        if frac_span.spec_bytes().len() > 0 {
            assert(frac_span.spec_bytes().last() == text[marks.frac_end - 1]);
        }
    }
    Ok(Parse { neg: marks.neg, int: int_span, frac: frac_span })
}

} // verus!
