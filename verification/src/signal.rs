//! Signal definitions (`SG_` lines): how they are read, checked, written
//! back, and how a signal's raw value is taken out of a message's data.
//!
//! A signal's scaling numbers (factor, offset, minimum, maximum) are kept
//! here as the decimal text they were written as; the text is checked to be
//! a well-formed decimal number, so that turning it into a binary floating
//! point value cannot fail.
use vstd::prelude::*;
use vstd::string::StringSliceAdditionalSpecFns;
use vstd::arithmetic::power2::{lemma2_to64, lemma2_to64_rest, lemma_pow2_unfold, pow2};
use vstd::utf8::{decode_utf8, valid_utf8};

use crate::error::{Error, Result};
use crate::parser::{
    blank_end, digits_end, digits_value, lemma_digits_end_ge, ident_end, is_digit, is_ident_delimiter, is_ident_start,
    is_number_delimiter, matches_at, number_body_start, number_scan, quote_scan_end, spaces_end,
    Parser,
};
use crate::nodes::joined;
use crate::text::{
    ascii_chars, blank_text, decimal_chars, decimal_string, is_blank_text, push_char, push_str,
    utf8_str,
};
use crate::receivers::{receivers_parse, ReceiverSet};
use crate::{validate_name, Receivers, MAX_NAME_SIZE, SG_};

verus! {

/// How a signal's bits are laid out in the message data.
#[derive(Debug, Clone, Copy, PartialEq, Eq, Hash, Structural)]
pub enum ByteOrder {
    /// Intel order: the start bit is the least significant bit and the
    /// value's bits follow in increasing bit positions.
    LittleEndian,
    /// Motorola order: the start bit is the most significant bit and the
    /// value's bits follow downwards within a byte, then from the top bit of
    /// the next byte.
    BigEndian,
}

// ---------------------------------------------------------------------------
// Decimal number text
// ---------------------------------------------------------------------------

/// Some byte of `t` in `[a, b)` is a decimal digit.
pub open spec fn has_digit_in(t: Seq<u8>, a: int, b: int) -> bool {
    exists|k: int| a <= k < b && 0 <= k < t.len() && #[trigger] is_digit(t[k])
}

/// The position of the first `e` or `E` at or after `i`, or the length of `t`.
pub open spec fn exponent_at(t: Seq<u8>, i: int) -> int
    decreases t.len() - i,
{
    if i < 0 || i >= t.len() || t[i] == 101 || t[i] == 69 {
        i
    } else {
        exponent_at(t, i + 1)
    }
}

/// The text of a scanned number is a complete decimal number: its mantissa
/// holds a digit, and an exponent, if there is one, holds a digit too.
pub open spec fn decimal_text_ok(t: Seq<u8>) -> bool {
    let e = exponent_at(t, 0);
    &&& has_digit_in(t, 0, e)
    &&& (e < t.len() ==> has_digit_in(t, e + 1, t.len() as int))
}

/// Checks `decimal_text_ok`.
pub fn decimal_text_check(t: &[u8]) -> (r: bool)
    ensures
        r == decimal_text_ok(t@),
{
    let n = t.len();
    let mut i: usize = 0;
    let mut mantissa_digit = false;
    while i < n && t[i] != 101u8 && t[i] != 69u8
        invariant
            n == t@.len(),
            0 <= i <= n,
            exponent_at(t@, 0) == exponent_at(t@, i as int),
            mantissa_digit == has_digit_in(t@, 0, i as int),
        decreases n - i,
    {
        if 48u8 <= t[i] && t[i] <= 57u8 {
            mantissa_digit = true;
        }
        proof {
            if !mantissa_digit {
                assert forall|k: int| 0 <= k < i + 1 && 0 <= k < t@.len() implies !is_digit(
                    t@[k],
                ) by {
                    if k < i {
                        assert(!has_digit_in(t@, 0, i as int));
                    }
                }
            } else if !has_digit_in(t@, 0, i as int) {
                assert(is_digit(t@[i as int]));
            }
        }
        i = i + 1;
    }
    let e = i;
    proof {
        assert(exponent_at(t@, e as int) == e);
    }
    if !mantissa_digit {
        return false;
    }
    if e == n {
        return true;
    }
    let mut j: usize = e + 1;
    let mut exponent_digit = false;
    while j < n
        invariant
            n == t@.len(),
            e < n,
            e + 1 <= j <= n,
            exponent_digit == has_digit_in(t@, e + 1, j as int),
        decreases n - j,
    {
        if 48u8 <= t[j] && t[j] <= 57u8 {
            exponent_digit = true;
        }
        proof {
            if !exponent_digit {
                assert forall|k: int| e + 1 <= k < j + 1 && 0 <= k < t@.len() implies !is_digit(
                    t@[k],
                ) by {
                    if k < j {
                        assert(!has_digit_in(t@, e + 1, j as int));
                    }
                }
            } else if !has_digit_in(t@, e + 1, j as int) {
                assert(is_digit(t@[j as int]));
            }
        }
        j = j + 1;
    }
    exponent_digit
}

/// Reading an optional number at `p`: nothing at the end of input or at a
/// number delimiter (`Ok(None)`, nothing consumed), and otherwise the text
/// of a number, which fails with `Expected(EXPECTED_NUMBER)` when it does not
/// scan and with `Expected(INVALID_NUMBER_FORMAT)` when it is incomplete.
/// Yields where reading stopped.
pub open spec fn optional_number(s: Seq<u8>, p: int) -> (Result<Option<Seq<char>>>, int) {
    let (q, ok) = number_scan(s, number_body_start(s, p), false, false);
    if p >= s.len() || is_number_delimiter(s[p]) {
        (Ok(None), p)
    } else if !ok {
        (Err(Error::Expected(Error::EXPECTED_NUMBER)), q)
    } else if !decimal_text_ok(s.subrange(p, q)) {
        (Err(Error::Expected(Error::INVALID_NUMBER_FORMAT)), q)
    } else {
        (Ok(Some(ascii_chars(s.subrange(p, q)))), q)
    }
}

/// Reads an optional number as `optional_number` says.
pub(crate) fn read_optional_number_exact(parser: &mut Parser) -> (r: Result<Option<String>>)
    requires
        old(parser).well_formed(),
    ensures
        final(parser).well_formed(),
        final(parser).input == old(parser).input,
        final(parser).line == old(parser).line,
        ({
            let (o, q) = optional_number(old(parser).input@, old(parser).pos as int);
            &&& (o is Err ==> r is Err && r->Err_0 == o->Err_0)
            &&& (o matches Ok(None) ==> r matches Ok(None))
            &&& (o matches Ok(Some(t)) ==> (r matches Ok(Some(x)) && x@ == t))
            &&& r is Ok ==> final(parser).pos == q
        }),
{
    match parser.scan_number_opt() {
        Ok(None) => Ok(None),
        Ok(Some(t)) => {
            if decimal_text_check(t.as_bytes()) {
                Ok(Some(t.to_owned()))
            } else {
                Err(Error::Expected(Error::INVALID_NUMBER_FORMAT))
            }
        },
        Err(_) => Err(Error::Expected(Error::EXPECTED_NUMBER)),
    }
}

/// Reads an optional number as `optional_number` says, failing with `err`.
fn read_optional_number(parser: &mut Parser, err: Error) -> (r: Result<Option<String>>)
    requires
        old(parser).well_formed(),
    ensures
        final(parser).well_formed(),
        final(parser).input == old(parser).input,
        final(parser).line == old(parser).line,
        ({
            let (o, q) = optional_number(old(parser).input@, old(parser).pos as int);
            &&& o is Err ==> r == Err::<Option<String>, Error>(err)
            &&& (o matches Ok(None) ==> r matches Ok(None))
            &&& (o matches Ok(Some(t)) ==> (r matches Ok(Some(x)) && x@ == t))
            &&& o is Ok ==> final(parser).pos == q
        }),
{
    match read_optional_number_exact(parser) {
        Ok(v) => Ok(v),
        Err(_) => Err(err),
    }
}

/// Reading a pair of optional numbers at `p`: `open`, blanks, a number, `sep`,
/// blanks, a number, blanks and `close`. A missing `open` or `close` fails
/// with `Expected(open_msg)` or `Expected(close_msg)`, a missing `sep` with
/// `Expected(EXPECTED_PATTERN)`, and a malformed number with `err_a` or
/// `err_b`. Yields where reading stopped.
pub open spec fn number_pair(
    s: Seq<u8>,
    p: int,
    open: u8,
    sep: u8,
    close: u8,
    open_msg: &'static str,
    close_msg: &'static str,
    err_a: Error,
    err_b: Error,
) -> (Result<(Option<Seq<char>>, Option<Seq<char>>)>, int) {
    if !(0 <= p < s.len() && s[p] == open) {
        (Err(Error::Expected(open_msg)), p)
    } else {
        let a0 = blank_end(s, p + 1);
        let (ra, ae) = optional_number(s, a0);
        match ra {
            Err(_) => (Err(err_a), ae),
            Ok(a) => if !(ae < s.len() && s[ae] == sep) {
                (Err(Error::Expected(Error::EXPECTED_PATTERN)), ae)
            } else {
                let b0 = blank_end(s, ae + 1);
                let (rb, be) = optional_number(s, b0);
                match rb {
                    Err(_) => (Err(err_b), be),
                    Ok(b) => {
                        let c = blank_end(s, be);
                        if !(c < s.len() && s[c] == close) {
                            (Err(Error::Expected(close_msg)), c)
                        } else {
                            (Ok((a, b)), c + 1)
                        }
                    },
                }
            },
        }
    }
}

/// A pair of optional number texts, seen through their characters.
pub open spec fn pair_view(r: Result<(Option<String>, Option<String>)>) -> Result<
    (Option<Seq<char>>, Option<Seq<char>>),
> {
    match r {
        Ok((a, b)) => Ok((opt_view(a), opt_view(b))),
        Err(e) => Err(e),
    }
}

/// An optional string, seen through its characters.
pub open spec fn opt_view(o: Option<String>) -> Option<Seq<char>> {
    match o {
        Some(x) => Some(x@),
        None => None,
    }
}

/// Reads a pair of optional numbers as `number_pair` says.
fn read_number_pair(
    parser: &mut Parser,
    open: u8,
    sep: u8,
    close: u8,
    open_msg: &'static str,
    close_msg: &'static str,
    err_a: Error,
    err_b: Error,
) -> (r: Result<(Option<String>, Option<String>)>)
    requires
        old(parser).well_formed(),
        open != 10 && open != 13 && sep != 10 && sep != 13 && close != 10 && close != 13,
    ensures
        final(parser).well_formed(),
        final(parser).input == old(parser).input,
        ({
            let (o, q) = number_pair(
                old(parser).input@,
                old(parser).pos as int,
                open,
                sep,
                close,
                open_msg,
                close_msg,
                err_a,
                err_b,
            );
            &&& pair_view(r) == o
            &&& r is Ok ==> final(parser).pos == q
        }),
{
    if !parser.accept_byte(open) {
        return Err(Error::Expected(open_msg));
    }
    parser.skip_newlines_and_spaces();
    let a = read_optional_number(parser, err_a)?;
    if !parser.accept_byte(sep) {
        return Err(Error::Expected(Error::EXPECTED_PATTERN));
    }
    parser.skip_newlines_and_spaces();
    let b = read_optional_number(parser, err_b)?;
    parser.skip_newlines_and_spaces();
    if !parser.accept_byte(close) {
        return Err(Error::Expected(close_msg));
    }
    Ok((a, b))
}

/// Reading `start_bit|length@` followed by the byte order (`0` big-endian,
/// `1` little-endian) and the sign (`+` unsigned, `-` signed) at `p`. Both
/// numbers are read as `u32`; a start bit past 511 is refused, and a length
/// past 65535 is kept as 65535 (which the length check then refuses as too
/// large), so neither number wraps into range. Yields where reading stopped.
pub open spec fn signal_position(s: Seq<u8>, p: int) -> (
    Result<(u16, u16, ByteOrder, bool)>,
    int,
) {
    let e1 = digits_end(s, p);
    let v1 = digits_value(s.subrange(p, e1));
    if e1 == p || v1 > 511 {
        (Err(Error::Signal(Error::SIGNAL_PARSE_INVALID_START_BIT)), e1)
    } else if !(e1 < s.len() && s[e1] == 124) {
        (Err(Error::Expected("Expected pipe")), e1)
    } else {
        let p2 = e1 + 1;
        let e2 = digits_end(s, p2);
        let v2 = digits_value(s.subrange(p2, e2));
        if e2 == p2 || v2 > u32::MAX {
            (Err(Error::Signal(Error::SIGNAL_PARSE_INVALID_LENGTH)), e2)
        } else if !(e2 < s.len() && s[e2] == 64) {
            (Err(Error::Expected("Expected @")), e2)
        } else {
            let p3 = e2 + 1;
            if !(p3 < s.len() && (s[p3] == 48 || s[p3] == 49)) {
                (Err(Error::Expected("Expected byte order")), p3)
            } else {
                let p4 = p3 + 1;
                if !(p4 < s.len() && (s[p4] == 43 || s[p4] == 45)) {
                    (Err(Error::Expected("Expected sign (+ or -)")), p4)
                } else {
                    (
                        Ok(
                            (
                                v1 as u16,
                                if v2 > u16::MAX {
                                    u16::MAX
                                } else {
                                    v2 as u16
                                },
                                if s[p3] == 48 {
                                    ByteOrder::BigEndian
                                } else {
                                    ByteOrder::LittleEndian
                                },
                                s[p4] == 43,
                            ),
                        ),
                        p4 + 1,
                    )
                }
            }
        }
    }
}

/// Reads a signal's position as `signal_position` says.
fn read_position(parser: &mut Parser) -> (r: Result<(u16, u16, ByteOrder, bool)>)
    requires
        old(parser).well_formed(),
    ensures
        final(parser).well_formed(),
        final(parser).input == old(parser).input,
        final(parser).line == old(parser).line,
        r == signal_position(old(parser).input@, old(parser).pos as int).0,
        r is Ok ==> final(parser).pos == signal_position(
            old(parser).input@,
            old(parser).pos as int,
        ).1,
{
    proof {
        lemma_digits_end_ge(parser.input@, parser.pos as int);
    }
    let start = match parser.parse_u32() {
        Ok(v) => v,
        Err(_) => {
            return Err(Error::Signal(Error::SIGNAL_PARSE_INVALID_START_BIT));
        },
    };
    if start > 511 {
        return Err(Error::Signal(Error::SIGNAL_PARSE_INVALID_START_BIT));
    }
    let start_bit = start as u16;
    if !parser.accept_byte(124u8) {
        return Err(Error::Expected("Expected pipe"));
    }
    proof {
        lemma_digits_end_ge(parser.input@, parser.pos as int);
    }
    let length = match parser.parse_u32() {
        Ok(v) => if v > 65535 {
            65535u16
        } else {
            v as u16
        },
        Err(_) => {
            return Err(Error::Signal(Error::SIGNAL_PARSE_INVALID_LENGTH));
        },
    };
    if !parser.accept_byte(64u8) {
        return Err(Error::Expected("Expected @"));
    }
    let byte_order = if parser.accept_byte(48u8) {
        ByteOrder::BigEndian
    } else if parser.accept_byte(49u8) {
        ByteOrder::LittleEndian
    } else {
        return Err(Error::Expected("Expected byte order"));
    };
    let unsigned = if parser.accept_byte(43u8) {
        true
    } else if parser.accept_byte(45u8) {
        false
    } else {
        return Err(Error::Expected("Expected sign (+ or -)"));
    };
    Ok((start_bit, length, byte_order, unsigned))
}

/// Reading the multiplexer indicator at `p`: `M` marks a multiplexer switch,
/// `m` with optional digits a multiplexed signal with its switch value, and
/// anything else neither; blanks after an indicator are skipped. Digits too
/// large for a `u64` fail with `Signal(SIGNAL_ERROR_PREFIX)`. Yields where
/// reading stopped.
pub open spec fn multiplexer_indicator(s: Seq<u8>, p: int) -> (Result<(bool, Option<u64>)>, int) {
    if 0 <= p < s.len() && s[p] == 77 {
        (Ok((true, None)), blank_end(s, p + 1))
    } else if 0 <= p < s.len() && s[p] == 109 {
        let e = digits_end(s, p + 1);
        let v = digits_value(s.subrange(p + 1, e));
        if e == p + 1 {
            (Ok((false, None)), blank_end(s, e))
        } else if v > u64::MAX {
            (Err(Error::Signal(Error::SIGNAL_ERROR_PREFIX)), e)
        } else {
            (Ok((false, Some(v as u64))), blank_end(s, e))
        }
    } else {
        (Ok((false, None)), p)
    }
}

/// Reads the multiplexer indicator as `multiplexer_indicator` says.
fn read_multiplexer_indicator(parser: &mut Parser) -> (r: Result<(bool, Option<u64>)>)
    requires
        old(parser).well_formed(),
    ensures
        final(parser).well_formed(),
        final(parser).input == old(parser).input,
        r == multiplexer_indicator(old(parser).input@, old(parser).pos as int).0,
        r is Ok ==> final(parser).pos == multiplexer_indicator(
            old(parser).input@,
            old(parser).pos as int,
        ).1,
{
    if parser.accept_byte(77u8) {
        parser.skip_newlines_and_spaces();
        return Ok((true, None));
    }
    if parser.accept_byte(109u8) {
        let before = parser.pos();
        proof {
            lemma_digits_end_ge(parser.input@, parser.pos as int);
        }
        let value = match parser.parse_u64() {
            Ok(v) => Some(v),
            Err(_) => {
                if parser.pos() != before {
                    return Err(Error::Signal(Error::SIGNAL_ERROR_PREFIX));
                }
                None
            },
        };
        parser.skip_newlines_and_spaces();
        return Ok((false, value));
    }
    Ok((false, None))
}

/// Reading a quoted unit at `p`: a double quote, at most `MAX_NAME_SIZE`
/// bytes of printable text, and a closing quote. An empty unit is none.
/// Yields where reading stopped.
pub open spec fn signal_unit(s: Seq<u8>, p: int) -> (Result<Option<Seq<char>>>, int) {
    if !(0 <= p < s.len() && s[p] == 34) {
        (Err(Error::Expected("Expected opening quote")), p)
    } else {
        let q = quote_scan_end(s, p + 1, p + 1, false, MAX_NAME_SIZE as int);
        let bytes = s.subrange(p + 1, q);
        if q >= s.len() {
            (Err(Error::Expected("Expected closing quote")), q)
        } else if q - (p + 1) > MAX_NAME_SIZE {
            (Err(Error::Signal(Error::SIGNAL_PARSE_UNIT_TOO_LONG)), q)
        } else if s[q] != 34 {
            (Err(Error::Expected("Expected closing quote")), q)
        } else if !valid_utf8(bytes) {
            (Err(Error::Expected(Error::INVALID_UTF8)), q + 1)
        } else if bytes.len() == 0 {
            (Ok(None), q + 1)
        } else {
            (Ok(Some(decode_utf8(bytes))), q + 1)
        }
    }
}

/// Reads a quoted unit as `signal_unit` says.
fn read_unit(parser: &mut Parser) -> (r: Result<Option<String>>)
    requires
        old(parser).well_formed(),
    ensures
        final(parser).well_formed(),
        final(parser).input == old(parser).input,
        ({
            let (o, q) = signal_unit(old(parser).input@, old(parser).pos as int);
            &&& (o is Err ==> r is Err && r->Err_0 == o->Err_0)
            &&& (o matches Ok(None) ==> r matches Ok(None))
            &&& (o matches Ok(Some(t)) ==> (r matches Ok(Some(x)) && x@ == t))
            &&& r is Ok ==> final(parser).pos == q
        }),
{
    if !parser.accept_byte(34u8) {
        return Err(Error::Expected("Expected opening quote"));
    }
    let bytes = match parser.take_until_quote(false, MAX_NAME_SIZE) {
        Ok(b) => b,
        Err(Error::MaxStrLength(_)) => {
            return Err(Error::Signal(Error::SIGNAL_PARSE_UNIT_TOO_LONG));
        },
        Err(_) => {
            return Err(Error::Expected("Expected closing quote"));
        },
    };
    let unit = match utf8_str(bytes) {
        Some(u) => u,
        None => {
            return Err(Error::Expected(Error::INVALID_UTF8));
        },
    };
    if bytes.len() == 0 {
        Ok(None)
    } else {
        Ok(Some(unit.to_owned()))
    }
}

/// What a signal definition says, its scaling numbers kept as text (`None`
/// for an empty field, which reads as zero).
pub struct RawSignalView {
    pub name: Seq<char>,
    pub start_bit: u16,
    pub length: u16,
    pub byte_order: ByteOrder,
    pub unsigned: bool,
    pub factor: Option<Seq<char>>,
    pub offset: Option<Seq<char>>,
    pub min: Option<Seq<char>>,
    pub max: Option<Seq<char>>,
    pub unit: Option<Seq<char>>,
    pub receivers: ReceiverSet,
    pub is_multiplexer_switch: bool,
    pub multiplexer_switch_value: Option<u64>,
}

/// A signal definition as read from an `SG_` line, before its scaling
/// numbers are turned into binary floating point.
#[derive(Debug, Clone)]
pub struct RawSignal {
    pub name: String,
    pub start_bit: u16,
    pub length: u16,
    pub byte_order: ByteOrder,
    pub unsigned: bool,
    /// Text of the factor, if written.
    pub factor: Option<String>,
    /// Text of the offset, if written.
    pub offset: Option<String>,
    /// Text of the minimum, if written.
    pub min: Option<String>,
    /// Text of the maximum, if written.
    pub max: Option<String>,
    pub unit: Option<String>,
    pub receivers: Receivers,
    pub is_multiplexer_switch: bool,
    pub multiplexer_switch_value: Option<u64>,
}

impl View for RawSignal {
    type V = RawSignalView;

    open spec fn view(&self) -> RawSignalView {
        RawSignalView {
            name: self.name@,
            start_bit: self.start_bit,
            length: self.length,
            byte_order: self.byte_order,
            unsigned: self.unsigned,
            factor: opt_view(self.factor),
            offset: opt_view(self.offset),
            min: opt_view(self.min),
            max: opt_view(self.max),
            unit: opt_view(self.unit),
            receivers: self.receivers@,
            is_multiplexer_switch: self.is_multiplexer_switch,
            multiplexer_switch_value: self.multiplexer_switch_value,
        }
    }
}

/// What checking a signal's name and length finds wrong, if anything: a
/// blank name, then a length of 0, then a length over 512 bits.
pub open spec fn signal_fields_problem(name: Seq<char>, length: u16) -> Option<&'static str> {
    if is_blank_text(name) {
        Some(Error::SIGNAL_NAME_EMPTY)
    } else if length == 0 {
        Some(Error::SIGNAL_LENGTH_TOO_SMALL)
    } else if length > 512 {
        Some(Error::SIGNAL_LENGTH_TOO_LARGE)
    } else {
        None
    }
}

/// Checks a signal's name and length: `Validation` with the detail that
/// `signal_fields_problem` gives. (A signal's range, `min <= max`, is checked
/// where its numbers are known.)
pub fn validate_signal_fields(name: &str, length: u16) -> (r: Result<()>)
    ensures
        r == (match signal_fields_problem(name@, length) {
            Some(m) => Err(Error::Validation(m)),
            None => Ok(()),
        }),
{
    if blank_text(name) {
        return Err(Error::Validation(Error::SIGNAL_NAME_EMPTY));
    }
    if length == 0 {
        return Err(Error::Validation(Error::SIGNAL_LENGTH_TOO_SMALL));
    }
    if length > 512 {
        return Err(Error::Validation(Error::SIGNAL_LENGTH_TOO_LARGE));
    }
    Ok(())
}

/// What a signal builder still lacks, if anything: the first missing field
/// in the order name, start bit, length, byte order, signedness, factor,
/// offset, minimum, maximum.
pub open spec fn missing_signal_field(
    name: bool,
    start_bit: bool,
    length: bool,
    byte_order: bool,
    unsigned: bool,
    factor: bool,
    offset: bool,
    min: bool,
    max: bool,
) -> Option<&'static str> {
    if !name {
        Some(Error::SIGNAL_NAME_EMPTY)
    } else if !start_bit {
        Some(Error::SIGNAL_START_BIT_REQUIRED)
    } else if !length {
        Some(Error::SIGNAL_LENGTH_REQUIRED)
    } else if !byte_order {
        Some("byte_order is required")
    } else if !unsigned {
        Some("unsigned is required")
    } else if !factor {
        Some("factor is required")
    } else if !offset {
        Some("offset is required")
    } else if !min {
        Some("min is required")
    } else if !max {
        Some("max is required")
    } else {
        None
    }
}

/// Checks that a signal builder has every field it needs (each flag says
/// whether that field was set): `Signal` with the detail that
/// `missing_signal_field` gives.
pub fn check_signal_builder_fields(
    name: bool,
    start_bit: bool,
    length: bool,
    byte_order: bool,
    unsigned: bool,
    factor: bool,
    offset: bool,
    min: bool,
    max: bool,
) -> (r: Result<()>)
    ensures
        r == (match missing_signal_field(
            name,
            start_bit,
            length,
            byte_order,
            unsigned,
            factor,
            offset,
            min,
            max,
        ) {
            Some(m) => Err(Error::Signal(m)),
            None => Ok(()),
        }),
{
    if !name {
        return Err(Error::Signal(Error::SIGNAL_NAME_EMPTY));
    }
    if !start_bit {
        return Err(Error::Signal(Error::SIGNAL_START_BIT_REQUIRED));
    }
    if !length {
        return Err(Error::Signal(Error::SIGNAL_LENGTH_REQUIRED));
    }
    if !byte_order {
        return Err(Error::Signal("byte_order is required"));
    }
    if !unsigned {
        return Err(Error::Signal("unsigned is required"));
    }
    if !factor {
        return Err(Error::Signal("factor is required"));
    }
    if !offset {
        return Err(Error::Signal("offset is required"));
    }
    if !min {
        return Err(Error::Signal("min is required"));
    }
    if !max {
        return Err(Error::Signal("max is required"));
    }
    Ok(())
}

/// Checks where a built signal lies: a start bit past 511 fails with
/// `Signal(SIGNAL_PARSE_INVALID_START_BIT)`, a length of 0 (a signal with no
/// last bit) with `Signal(SIGNAL_LENGTH_TOO_SMALL)`, and a last bit
/// (`start_bit + length - 1`, computed without overflow) at or past 512 with
/// `Signal(SIGNAL_EXTENDS_BEYOND_MESSAGE)`.
pub fn check_builder_position(start_bit: u16, length: u16) -> (r: Result<()>)
    ensures
        r == (if start_bit > 511 {
            Err(Error::Signal(Error::SIGNAL_PARSE_INVALID_START_BIT))
        } else if length == 0 {
            Err(Error::Signal(Error::SIGNAL_LENGTH_TOO_SMALL))
        } else if start_bit + length - 1 >= 512 {
            Err(Error::Signal(Error::SIGNAL_EXTENDS_BEYOND_MESSAGE))
        } else {
            Ok(())
        }),
{
    if start_bit > 511 {
        return Err(Error::Signal(Error::SIGNAL_PARSE_INVALID_START_BIT));
    }
    if length == 0 {
        return Err(Error::Signal(Error::SIGNAL_LENGTH_TOO_SMALL));
    }
    let end_bit: u32 = start_bit as u32 + length as u32 - 1;
    if end_bit >= 512 {
        return Err(Error::Signal(Error::SIGNAL_EXTENDS_BEYOND_MESSAGE));
    }
    Ok(())
}

/// Reading a signal definition at `p`: `SG_`, blanks, the name, the
/// multiplexer indicator, a colon, then (each after blanks) the position,
/// `(factor,offset)`, `[min|max]` and the quoted unit, then (after spaces)
/// the receivers; the length must lie in 1..=512. Yields where reading stopped.
pub open spec fn signal_line(s: Seq<u8>, p: int) -> (Result<RawSignalView>, int) {
    let kw = SG_.spec_bytes();
    if !matches_at(s, p, kw) {
        (Err(Error::Expected("Expected SG_ keyword")), p)
    } else {
        let n0 = blank_end(s, p + kw.len());
        let ne = ident_end(s, n0 + 1);
        if !(0 <= n0 < s.len() && is_ident_start(s[n0]) && (ne >= s.len() || is_ident_delimiter(
            s[ne],
        ))) {
            (Err(Error::Signal(Error::SIGNAL_NAME_EMPTY)), n0)
        } else {
            let name = ascii_chars(s.subrange(n0, ne));
            let (mux, m1) = multiplexer_indicator(s, blank_end(s, ne));
            match mux {
                Err(e) => (Err(e), m1),
                Ok((switch, switch_value)) => if !(0 <= m1 < s.len() && s[m1] == 58) {
                    (Err(Error::Expected("Expected colon")), m1)
                } else {
                    let (position, pe) = signal_position(s, blank_end(s, m1 + 1));
                    match position {
                        Err(e) => (Err(e), pe),
                        Ok((start_bit, length, byte_order, unsigned)) => {
                            let (fo, fe) = number_pair(
                                s,
                                blank_end(s, pe),
                                40,
                                44,
                                41,
                                "Expected opening parenthesis",
                                "Expected closing parenthesis",
                                Error::Signal(Error::SIGNAL_PARSE_INVALID_FACTOR),
                                Error::Signal(Error::SIGNAL_PARSE_INVALID_OFFSET),
                            );
                            match fo {
                                Err(e) => (Err(e), fe),
                                Ok((factor, offset)) => {
                                    let (mm, me) = number_pair(
                                        s,
                                        blank_end(s, fe),
                                        91,
                                        124,
                                        93,
                                        "Expected opening bracket",
                                        "Expected closing bracket",
                                        Error::Signal(Error::SIGNAL_PARSE_INVALID_MIN),
                                        Error::Signal(Error::SIGNAL_PARSE_INVALID_MAX),
                                    );
                                    match mm {
                                        Err(e) => (Err(e), me),
                                        Ok((min, max)) => {
                                            let (u, ue) = signal_unit(s, blank_end(s, me));
                                            match u {
                                                Err(e) => (Err(e), ue),
                                                Ok(unit) => {
                                                    let (rc, re) = receivers_parse(
                                                        s,
                                                        spaces_end(s, ue),
                                                    );
                                                    match rc {
                                                        Err(e) => (Err(e), re),
                                                        Ok(receivers) => match signal_fields_problem(
                                                            name,
                                                            length,
                                                        ) {
                                                            Some(m) => (Err(Error::Signal(m)), re),
                                                            None => (
                                                                Ok(
                                                                    RawSignalView {
                                                                        name,
                                                                        start_bit,
                                                                        length,
                                                                        byte_order,
                                                                        unsigned,
                                                                        factor,
                                                                        offset,
                                                                        min,
                                                                        max,
                                                                        unit,
                                                                        receivers,
                                                                        is_multiplexer_switch: switch,
                                                                        multiplexer_switch_value: switch_value,
                                                                    },
                                                                ),
                                                                re,
                                                            ),
                                                        },
                                                    }
                                                },
                                            }
                                        },
                                    }
                                },
                            }
                        },
                    }
                },
            }
        }
    }
}

/// A result carrying a signal definition, seen through what it says.
pub open spec fn raw_signal_result_view(r: Result<RawSignal>) -> Result<RawSignalView> {
    match r {
        Ok(v) => Ok(v@),
        Err(e) => Err(e),
    }
}

/// `Signal(SIGNAL_NAME_EMPTY)`, for a definition without a name.
fn signal_name_error() -> (r: Error)
    ensures
        r == Error::Signal(Error::SIGNAL_NAME_EMPTY),
{
    Error::Signal(Error::SIGNAL_NAME_EMPTY)
}

impl RawSignal {
    /// Reads a signal definition as `signal_line` says.
    ///
    /// The range is not yet held to `min <= max`, which needs the numbers'
    /// values (known once the texts are turned into floating point); the name
    /// is held to `MAX_NAME_SIZE` after that check, so that a signal failing
    /// both is refused for its range first.
    pub fn parse(parser: &mut Parser) -> (r: Result<RawSignal>)
        requires
            old(parser).well_formed(),
        ensures
            final(parser).well_formed(),
            final(parser).input == old(parser).input,
            raw_signal_result_view(r) == signal_line(old(parser).input@, old(parser).pos as int).0,
            r is Ok ==> final(parser).pos == signal_line(
                old(parser).input@,
                old(parser).pos as int,
            ).1,
    {
        let ghost s = parser.input@;
        parser.expect_keyword_then_skip(SG_.as_bytes(), "Expected SG_ keyword")?;
        let ghost n0 = parser.pos as int;
        let name = match parser.parse_identifier_with_error(signal_name_error) {
            Ok(n) => n,
            Err(e) => {
                proof {
                    assert(e == Error::Signal(Error::SIGNAL_NAME_EMPTY));
                    assert(n0 == blank_end(s, old(parser).pos + SG_.spec_bytes().len()));
                }
                return Err(e);
            },
        };
        let ghost ne = parser.pos as int;
        parser.skip_newlines_and_spaces();
        let ghost m0 = parser.pos as int;
        let (is_multiplexer_switch, multiplexer_switch_value) = match read_multiplexer_indicator(
            parser,
        ) {
            Ok(m) => m,
            Err(e) => {
                proof {
                    assert(m0 == blank_end(s, ne));
                    assert(multiplexer_indicator(s, m0).0 == Err::<(bool, Option<u64>), Error>(e));
                }
                return Err(e);
            },
        };
        if !parser.accept_byte(58u8) {
            return Err(Error::Expected("Expected colon"));
        }
        parser.skip_newlines_and_spaces();
        let (start_bit, length, byte_order, unsigned) = read_position(parser)?;
        parser.skip_newlines_and_spaces();
        let (factor, offset) = read_number_pair(
            parser,
            40u8,
            44u8,
            41u8,
            "Expected opening parenthesis",
            "Expected closing parenthesis",
            Error::Signal(Error::SIGNAL_PARSE_INVALID_FACTOR),
            Error::Signal(Error::SIGNAL_PARSE_INVALID_OFFSET),
        )?;
        parser.skip_newlines_and_spaces();
        let (min, max) = read_number_pair(
            parser,
            91u8,
            124u8,
            93u8,
            "Expected opening bracket",
            "Expected closing bracket",
            Error::Signal(Error::SIGNAL_PARSE_INVALID_MIN),
            Error::Signal(Error::SIGNAL_PARSE_INVALID_MAX),
        )?;
        parser.skip_newlines_and_spaces();
        let unit = read_unit(parser)?;
        parser.skip_whitespace_optional();
        let receivers = Receivers::parse(parser)?;
        match validate_signal_fields(name, length) {
            Ok(()) => {},
            Err(Error::Validation(m)) => {
                return Err(Error::Signal(m));
            },
            Err(_) => {
                return Err(Error::Signal(Error::SIGNAL_ERROR_PREFIX));
            },
        }
        Ok(
            RawSignal {
                name: name.to_owned(),
                start_bit,
                length,
                byte_order,
                unsigned,
                factor,
                offset,
                min,
                max,
                unit,
                receivers,
                is_multiplexer_switch,
                multiplexer_switch_value,
            },
        )
    }
}

// ---------------------------------------------------------------------------
// Raw values
// ---------------------------------------------------------------------------

/// Bit `i` of `data`, bit 0 being the least significant bit of byte 0; a
/// bit past the data reads as 0.
pub open spec fn data_bit(data: Seq<u8>, i: int) -> nat {
    if 0 <= i && i / 8 < data.len() {
        ((data[i / 8] >> ((i % 8) as u8)) & 1u8) as nat
    } else {
        0
    }
}

/// The value of bits `a..b` in Intel order: bit `a` is worth 1, bit `a + 1`
/// is worth 2, and so on.
pub open spec fn little_endian_value(data: Seq<u8>, a: int, b: int) -> nat
    decreases b - a,
{
    if a >= b {
        0
    } else {
        data_bit(data, a) + 2 * little_endian_value(data, a + 1, b)
    }
}

/// The bit that follows bit `p` in Motorola order: the next lower bit of the
/// same byte, or after bit 0 of a byte the top bit of the next byte.
pub open spec fn motorola_next(p: int) -> int {
    if p % 8 == 0 {
        p + 15
    } else {
        p - 1
    }
}

/// `acc` followed by `n` bits in Motorola order from bit `p`, most
/// significant first.
pub open spec fn big_endian_value(data: Seq<u8>, p: int, n: nat, acc: nat) -> nat
    decreases n,
{
    if n == 0 {
        acc
    } else {
        big_endian_value(data, motorola_next(p), (n - 1) as nat, 2 * acc + data_bit(data, p))
    }
}

/// The unsigned value of a signal's `length` bits from `start_bit`.
pub open spec fn raw_bits(byte_order: ByteOrder, data: Seq<u8>, start_bit: int, length: nat) -> nat {
    match byte_order {
        ByteOrder::LittleEndian => little_endian_value(data, start_bit, start_bit + length),
        ByteOrder::BigEndian => big_endian_value(data, start_bit, length, 0),
    }
}

/// A bit of data is 0 or 1.
proof fn lemma_data_bit(data: Seq<u8>, i: int)
    ensures
        data_bit(data, i) <= 1,
{
    if 0 <= i && i / 8 < data.len() {
        let b = data[i / 8];
        let k = (i % 8) as u8;
        assert((b >> k) & 1u8 <= 1u8) by (bit_vector);
    }
}

/// Reads bit `i` of `data` (0 past the data).
fn read_bit(data: &[u8], i: usize) -> (r: u64)
    ensures
        r == data_bit(data@, i as int),
        r <= 1,
{
    proof {
        lemma_data_bit(data@, i as int);
    }
    if i / 8 < data.len() {
        ((data[i / 8] >> ((i % 8) as u8)) & 1u8) as u64
    } else {
        0
    }
}

/// The value of bits `a..b` in Intel order is below `2^(b - a)`.
proof fn lemma_little_endian_bound(data: Seq<u8>, a: int, b: int)
    requires
        a <= b,
    ensures
        little_endian_value(data, a, b) < pow2((b - a) as nat),
    decreases b - a,
{
    if a < b {
        lemma_little_endian_bound(data, a + 1, b);
        lemma_data_bit(data, a);
        lemma_pow2_unfold((b - a) as nat);
    } else {
        lemma2_to64();
    }
}

/// Motorola-order bits accumulated onto `acc` stay below `2^(k + n)` when
/// `acc` is below `2^k`.
proof fn lemma_big_endian_bound(data: Seq<u8>, p: int, n: nat, acc: nat, k: nat)
    requires
        acc < pow2(k),
    ensures
        big_endian_value(data, p, n, acc) < pow2(k + n),
    decreases n,
{
    if n > 0 {
        lemma_data_bit(data, p);
        lemma_pow2_unfold(k + 1);
        lemma_big_endian_bound(data, motorola_next(p), (n - 1) as nat, 2 * acc + data_bit(data, p), k + 1);
        assert(k + 1 + (n - 1) == k + n);
    }
}

/// The unsigned value of `length` bits is below `2^length`, in either byte order.
pub proof fn lemma_raw_bits_bound(byte_order: ByteOrder, data: Seq<u8>, start_bit: int, length: nat)
    ensures
        raw_bits(byte_order, data, start_bit, length) < pow2(length),
{
    match byte_order {
        ByteOrder::LittleEndian => {
            lemma_little_endian_bound(data, start_bit, start_bit + length);
        },
        ByteOrder::BigEndian => {
            lemma2_to64();
            lemma_big_endian_bound(data, start_bit, length, 0, 0);
        },
    }
}

/// A signed raw value of `length` bits (fewer than 64) lies in
/// `-2^(length-1) .. 2^(length-1)`.
pub proof fn lemma_signed_value_range(raw: nat, length: nat)
    requires
        1 <= length,
        raw < pow2(length),
    ensures
        -pow2((length - 1) as nat) <= signed_value(raw, length, false) < pow2((length - 1) as nat),
{
    lemma_pow2_unfold(length);
}

impl ByteOrder {
    /// The unsigned value of `length` bits from `start_bit`, as `raw_bits`
    /// says; bits past the data read as 0.
    pub fn extract_bits(&self, data: &[u8], start_bit: usize, length: usize) -> (r: u64)
        requires
            length <= 64,
            start_bit + 16 * length + 16 <= usize::MAX,
        ensures
            r == raw_bits(*self, data@, start_bit as int, length as nat),
    {
        proof {
            lemma2_to64();
            lemma2_to64_rest();
        }
        match self {
            ByteOrder::LittleEndian => {
                let mut acc: u64 = 0;
                let mut i: usize = start_bit + length;
                proof {
                    lemma2_to64();
                }
                while i > start_bit
                    invariant
                        start_bit <= i <= start_bit + length,
                        length <= 64,
                        start_bit + 16 * length + 16 <= usize::MAX,
                        acc == little_endian_value(data@, i as int, start_bit + length),
                        acc < pow2((start_bit + length - i) as nat),
                        pow2(64) == 0x1_0000_0000_0000_0000,
                    decreases i - start_bit,
                {
                    let ghost k = (start_bit + length - i) as nat;
                    proof {
                        lemma_pow2_unfold(k + 1);
                        if k + 1 < 64 {
                            vstd::arithmetic::power2::lemma_pow2_strictly_increases(k + 1, 64);
                        }
                        assert(2 * acc + 1 < pow2(k + 1) <= pow2(64));
                    }
                    i = i - 1;
                    let bit = read_bit(data, i);
                    acc = 2 * acc + bit;
                }
                acc
            },
            ByteOrder::BigEndian => {
                let mut acc: u64 = 0;
                let mut p: usize = start_bit;
                let mut n: usize = length;
                proof {
                    lemma2_to64();
                }
                while n > 0
                    invariant
                        n <= length <= 64,
                        p <= start_bit + 16 * (length - n),
                        start_bit + 16 * length + 16 <= usize::MAX,
                        big_endian_value(data@, start_bit as int, length as nat, 0) == big_endian_value(
                            data@,
                            p as int,
                            n as nat,
                            acc as nat,
                        ),
                        acc < pow2((length - n) as nat),
                        pow2(64) == 0x1_0000_0000_0000_0000,
                    decreases n,
                {
                    let ghost k = (length - n) as nat;
                    proof {
                        lemma_pow2_unfold(k + 1);
                        if k + 1 < 64 {
                            vstd::arithmetic::power2::lemma_pow2_strictly_increases(k + 1, 64);
                        }
                        assert(2 * acc + 1 < pow2(k + 1) <= pow2(64));
                    }
                    let bit = read_bit(data, p);
                    acc = 2 * acc + bit;
                    if p % 8 == 0 {
                        p = p + 15;
                    } else {
                        p = p - 1;
                    }
                    n = n - 1;
                }
                acc
            },
        }
    }
}

/// A raw value read as a signed number when `unsigned` is false: values at
/// or above `2^(length - 1)` stand for negative numbers (two's complement).
/// An unsigned raw value is kept as it is, read as a 64-bit signed integer.
pub open spec fn signed_value(raw: nat, length: nat, unsigned: bool) -> int {
    if unsigned {
        (raw as u64) as i64 as int
    } else if raw >= pow2((length - 1) as nat) {
        raw - pow2(length)
    } else {
        raw as int
    }
}

/// The last byte that a signal's bits reach, counting from its start bit
/// upwards.
pub open spec fn signal_end_byte(start_bit: int, length: int) -> int {
    (start_bit + length - 1) / 8
}

/// Reads a signal's raw value from a message's data: `length` bits from
/// `start_bit` in `byte_order`, as a signed or unsigned number.
///
/// Fails with `Decoding(SIGNAL_EXTENDS_BEYOND_DATA)` when the byte that
/// holds bit `start_bit + length - 1` lies past the data.
pub fn decode_raw_value(
    byte_order: ByteOrder,
    unsigned: bool,
    start_bit: u16,
    length: u16,
    data: &[u8],
) -> (r: Result<i64>)
    requires
        1 <= length <= 64,
    ensures
        signal_end_byte(start_bit as int, length as int) >= data@.len() ==> r == Err::<i64, Error>(
            Error::Decoding(Error::SIGNAL_EXTENDS_BEYOND_DATA),
        ),
        signal_end_byte(start_bit as int, length as int) < data@.len() ==> r == Ok::<i64, Error>(
            signed_value(
                raw_bits(byte_order, data@, start_bit as int, length as nat),
                length as nat,
                unsigned,
            ) as i64,
        ),
{
    let start = start_bit as usize;
    let len = length as usize;
    let end_byte = (start + len - 1) / 8;
    if end_byte >= data.len() {
        return Err(Error::Decoding(Error::SIGNAL_EXTENDS_BEYOND_DATA));
    }
    let raw = byte_order.extract_bits(data, start, len);
    if unsigned {
        return Ok(raw as i64);
    }
    let mut half: u64 = 1;
    let mut k: u16 = 1;
    proof {
        lemma2_to64();
    }
    while k < length
        invariant
            1 <= k <= length <= 64,
            half == pow2((k - 1) as nat),
        decreases length - k,
    {
        proof {
            lemma_pow2_unfold(k as nat);
            vstd::arithmetic::power2::lemma_pow2_strictly_increases(k as nat, 64);
            lemma2_to64();
        }
        half = half * 2;
        k = k + 1;
    }
    proof {
        lemma_pow2_unfold(length as nat);
        let ghost v = raw_bits(byte_order, data@, start_bit as int, length as nat);
        assert(raw == v);
    }
    if raw >= half {
        let full: i128 = 2 * (half as i128);
        Ok(((raw as i128) - full) as i64)
    } else {
        Ok(raw as i64)
    }
}

// ---------------------------------------------------------------------------
// Writing a signal definition
// ---------------------------------------------------------------------------

/// How receivers end a signal definition: ` *` for broadcast, a space and
/// the names separated by spaces, or nothing.
pub open spec fn receivers_text(r: ReceiverSet) -> Seq<char> {
    match r {
        ReceiverSet::Broadcast => seq![' ', '*'],
        ReceiverSet::Nodes(names) => if names.len() == 0 {
            Seq::empty()
        } else {
            seq![' '] + joined(names)
        },
        ReceiverSet::Unspecified => Seq::empty(),
    }
}

/// The digit that stands for a byte order: `0` for big-endian, `1` for little-endian.
pub open spec fn byte_order_char(b: ByteOrder) -> char {
    match b {
        ByteOrder::BigEndian => '0',
        ByteOrder::LittleEndian => '1',
    }
}

/// The head of a signal definition: ` SG_ name : start|length@order sign`.
pub open spec fn signal_head_text(
    name: Seq<char>,
    start_bit: u16,
    length: u16,
    byte_order: ByteOrder,
    unsigned: bool,
) -> Seq<char> {
    " SG_ "@ + name + " : "@ + decimal_chars(start_bit as nat) + seq!['|'] + decimal_chars(
        length as nat,
    ) + seq!['@', byte_order_char(byte_order), if unsigned {
        '+'
    } else {
        '-'
    }]
}

/// The scaling of a signal definition: ` (factor,offset) [min|max]`.
pub open spec fn signal_scaling_text(
    factor: Seq<char>,
    offset: Seq<char>,
    min: Seq<char>,
    max: Seq<char>,
) -> Seq<char> {
    " ("@ + factor + seq![','] + offset + seq![')'] + " ["@ + min + seq!['|'] + max + seq![']']
}

/// The unit of a signal definition: a space and the unit in double quotes
/// (empty quotes for none).
pub open spec fn signal_unit_text(unit: Option<Seq<char>>) -> Seq<char> {
    seq![' ', '"'] + match unit {
        Some(u) => u,
        None => Seq::empty(),
    } + seq!['"']
}

/// The text of a signal definition, ` SG_ name : start|length@order sign
/// (factor,offset) [min|max] "unit" receivers`, given the texts of its four
/// numbers.
pub open spec fn signal_line_text(
    name: Seq<char>,
    start_bit: u16,
    length: u16,
    byte_order: ByteOrder,
    unsigned: bool,
    factor: Seq<char>,
    offset: Seq<char>,
    min: Seq<char>,
    max: Seq<char>,
    unit: Option<Seq<char>>,
    receivers: ReceiverSet,
) -> Seq<char> {
    signal_head_text(name, start_bit, length, byte_order, unsigned) + signal_scaling_text(
        factor,
        offset,
        min,
        max,
    ) + signal_unit_text(unit) + receivers_text(receivers)
}

/// Appends the head of a signal definition.
fn push_signal_head(
    s: &mut String,
    name: &str,
    start_bit: u16,
    length: u16,
    byte_order: ByteOrder,
    unsigned: bool,
)
    ensures
        final(s)@ == old(s)@ + signal_head_text(name@, start_bit, length, byte_order, unsigned),
{
    let ghost s0 = s@;
    push_str(s, " SG_ ");
    push_str(s, name);
    push_str(s, " : ");
    let t = decimal_string(start_bit as u64);
    push_str(s, t.as_str());
    push_char(s, '|');
    let t = decimal_string(length as u64);
    push_str(s, t.as_str());
    push_char(s, '@');
    match byte_order {
        ByteOrder::BigEndian => push_char(s, '0'),
        ByteOrder::LittleEndian => push_char(s, '1'),
    }
    if unsigned {
        push_char(s, '+');
    } else {
        push_char(s, '-');
    }
    proof {
        assert(s@ =~= s0 + signal_head_text(name@, start_bit, length, byte_order, unsigned));
    }
}

/// Appends the scaling of a signal definition.
fn push_signal_scaling(s: &mut String, factor: &str, offset: &str, min: &str, max: &str)
    ensures
        final(s)@ == old(s)@ + signal_scaling_text(factor@, offset@, min@, max@),
{
    let ghost s0 = s@;
    push_str(s, " (");
    push_str(s, factor);
    push_char(s, ',');
    push_str(s, offset);
    push_char(s, ')');
    push_str(s, " [");
    push_str(s, min);
    push_char(s, '|');
    push_str(s, max);
    push_char(s, ']');
    proof {
        assert(s@ =~= s0 + signal_scaling_text(factor@, offset@, min@, max@));
    }
}

/// Appends the unit of a signal definition.
fn push_signal_unit(s: &mut String, unit: Option<&str>)
    ensures
        final(s)@ == old(s)@ + signal_unit_text(
            match unit {
                Some(u) => Some(u@),
                None => None,
            },
        ),
{
    let ghost s0 = s@;
    push_char(s, ' ');
    push_char(s, '"');
    match unit {
        Some(u) => push_str(s, u),
        None => {},
    }
    push_char(s, '"');
    proof {
        assert(s@ =~= s0 + signal_unit_text(
            match unit {
                Some(u) => Some(u@),
                None => None,
            },
        ));
    }
}

/// Appends how receivers end a signal definition.
fn push_receivers(s: &mut String, receivers: &Receivers)
    ensures
        final(s)@ == old(s)@ + receivers_text(receivers@),
{
    let ghost s0 = s@;
    match receivers {
        Receivers::Broadcast => {
            push_char(s, ' ');
            push_char(s, '*');
            proof {
                assert(s@ =~= s0 + receivers_text(receivers@));
            }
        },
        Receivers::Nodes(nodes) => {
            if nodes.len() > 0 {
                push_char(s, ' ');
                let mut i: usize = 0;
                let ghost names = crate::nodes::string_views(nodes@);
                let ghost head = s@;
                proof {
                    assert(joined(names.take(0)) =~= Seq::<char>::empty());
                    assert(head + joined(names.take(0)) =~= head);
                }
                while i < nodes.len()
                    invariant
                        names == crate::nodes::string_views(nodes@),
                        0 <= i <= nodes@.len(),
                        s@ == head + joined(names.take(i as int)),
                    decreases nodes@.len() - i,
                {
                    if i > 0 {
                        push_char(s, ' ');
                    }
                    push_str(s, nodes[i].as_str());
                    i = i + 1;
                    proof {
                        assert(names.take(i as int).drop_last() =~= names.take(i - 1));
                        if i == 1 {
                            assert(joined(names.take(i - 1)) =~= Seq::<char>::empty());
                        }
                        assert(s@ =~= head + joined(names.take(i as int)));
                    }
                }
                proof {
                    assert(names.take(i as int) =~= names);
                    assert(s@ =~= s0 + receivers_text(receivers@));
                }
            } else {
                proof {
                    assert(s@ =~= s0 + receivers_text(receivers@));
                }
            }
        },
        Receivers::Unspecified => {
            proof {
                assert(s@ =~= s0 + receivers_text(receivers@));
            }
        },
    }
}

/// Writes a signal definition as `signal_line_text` says; the numbers come
/// as the text they are to be written as.
pub fn format_signal_line(
    name: &str,
    start_bit: u16,
    length: u16,
    byte_order: ByteOrder,
    unsigned: bool,
    factor: &str,
    offset: &str,
    min: &str,
    max: &str,
    unit: Option<&str>,
    receivers: &Receivers,
) -> (s: String)
    ensures
        s@ == signal_line_text(
            name@,
            start_bit,
            length,
            byte_order,
            unsigned,
            factor@,
            offset@,
            min@,
            max@,
            match unit {
                Some(u) => Some(u@),
                None => None,
            },
            receivers@,
        ),
{
    let mut s = String::new();
    push_signal_head(&mut s, name, start_bit, length, byte_order, unsigned);
    push_signal_scaling(&mut s, factor, offset, min, max);
    push_signal_unit(&mut s, unit);
    push_receivers(&mut s, receivers);
    proof {
        assert(s@ =~= signal_line_text(
            name@,
            start_bit,
            length,
            byte_order,
            unsigned,
            factor@,
            offset@,
            min@,
            max@,
            match unit {
                Some(u) => Some(u@),
                None => None,
            },
            receivers@,
        ));
    }
    s
}

} // verus!
