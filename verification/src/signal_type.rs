//! Signal types (`SGTYPE_`): named templates of a signal's layout and
//! scaling, read with their scaling numbers kept as text.
use vstd::prelude::*;
use vstd::string::StringSliceAdditionalSpecFns;
use vstd::utf8::{decode_utf8, valid_utf8};

use crate::error::{Error, Result};
use crate::message::name_at;
use crate::parser::{
    blank_end, digits_end, digits_value, lemma_digits_end_ge, lemma_ident_end_ge,
    number_body_start, number_scan, quote_scan_end, Parser,
};
use crate::signal::{
    decimal_text_check, decimal_text_ok, opt_view, optional_number, read_optional_number_exact,
    ByteOrder,
};
use crate::text::{ascii_chars, utf8_str};
use crate::{validate_name, MAX_NAME_SIZE};

verus! {

/// Reading the optional `@order sign` of a signal type at `p` (blanks after
/// it skipped); without it the type is little-endian and unsigned. Yields
/// where reading stopped.
pub open spec fn type_byte_order(s: Seq<u8>, p: int) -> (Result<(ByteOrder, bool)>, int) {
    if !(0 <= p < s.len() && s[p] == 64) {
        (Ok((ByteOrder::LittleEndian, true)), p)
    } else if !(p + 1 < s.len() && (s[p + 1] == 48 || s[p + 1] == 49)) {
        (Err(Error::Expected("Expected byte order (0 or 1)")), p + 1)
    } else if !(p + 2 < s.len() && (s[p + 2] == 43 || s[p + 2] == 45)) {
        (Err(Error::Expected("Expected value type (+ or -)")), p + 2)
    } else {
        (
            Ok(
                (
                    if s[p + 1] == 48 {
                        ByteOrder::BigEndian
                    } else {
                        ByteOrder::LittleEndian
                    },
                    s[p + 2] == 43,
                ),
            ),
            blank_end(s, p + 3),
        )
    }
}

/// Reading an optional bracketed pair `open a sep b close` at `p` (blanks
/// around the numbers and after the pair skipped): `None` when `open` is not
/// next; a missing `sep` or `close` fails with `Expected(EXPECTED_PATTERN)`
/// and a malformed number as `optional_number` says. Yields where reading stopped.
pub open spec fn optional_pair(s: Seq<u8>, p: int, open: u8, sep: u8, close: u8) -> (
    Result<Option<(Option<Seq<char>>, Option<Seq<char>>)>>,
    int,
) {
    if !(0 <= p < s.len() && s[p] == open) {
        (Ok(None), p)
    } else {
        let (ra, ae) = optional_number(s, blank_end(s, p + 1));
        match ra {
            Err(e) => (Err(e), ae),
            Ok(a) => if !(ae < s.len() && s[ae] == sep) {
                (Err(Error::Expected(Error::EXPECTED_PATTERN)), ae)
            } else {
                let (rb, be) = optional_number(s, blank_end(s, ae + 1));
                match rb {
                    Err(e) => (Err(e), be),
                    Ok(b) => {
                        let c = blank_end(s, be);
                        if !(c < s.len() && s[c] == close) {
                            (Err(Error::Expected(Error::EXPECTED_PATTERN)), c)
                        } else {
                            (Ok(Some((a, b))), blank_end(s, c + 1))
                        }
                    },
                }
            },
        }
    }
}

/// Reading an optional quoted text at `p` (after its opening quote was
/// found at `p - 1`): at most `MAX_NAME_SIZE` bytes up to the closing quote;
/// too long fails with `Signal(SIGNAL_PARSE_UNIT_TOO_LONG)`, a missing
/// closing quote or a byte that may not stand there with
/// `Expected("Expected closing quote")`, and bytes that are not UTF-8 with
/// `Expected(INVALID_UTF8)`. Empty text is none. Yields where reading stopped.
pub open spec fn quoted_text(s: Seq<u8>, p: int) -> (Result<Option<Seq<char>>>, int) {
    let q = quote_scan_end(s, p, p, false, MAX_NAME_SIZE as int);
    let bytes = s.subrange(p, q);
    if q >= s.len() {
        (Err(Error::Expected("Expected closing quote")), q)
    } else if q - p > MAX_NAME_SIZE {
        (Err(Error::Signal(Error::SIGNAL_PARSE_UNIT_TOO_LONG)), q)
    } else if s[q] != 34 {
        (Err(Error::Expected("Expected closing quote")), q)
    } else if !valid_utf8(bytes) {
        (Err(Error::Expected(Error::INVALID_UTF8)), q + 1)
    } else if bytes.len() == 0 {
        (Ok(None), q + 1)
    } else {
        (Ok(Some(decode_utf8(bytes))), q + 1)
    }
}

/// Reads quoted text as `quoted_text` says; the opening quote has been read.
fn read_quoted_text(parser: &mut Parser) -> (r: Result<Option<String>>)
    requires
        old(parser).well_formed(),
    ensures
        final(parser).well_formed(),
        final(parser).input == old(parser).input,
        ({
            let (o, q) = quoted_text(old(parser).input@, old(parser).pos as int);
            &&& (o is Err ==> r is Err && r->Err_0 == o->Err_0)
            &&& (o matches Ok(None) ==> r matches Ok(None))
            &&& (o matches Ok(Some(t)) ==> (r matches Ok(Some(x)) && x@ == t))
            &&& r is Ok ==> final(parser).pos == q
        }),
{
    let bytes = match parser.take_until_quote(false, MAX_NAME_SIZE) {
        Ok(b) => b,
        Err(Error::MaxStrLength(_)) => {
            return Err(Error::Signal(Error::SIGNAL_PARSE_UNIT_TOO_LONG));
        },
        Err(_) => {
            return Err(Error::Expected("Expected closing quote"));
        },
    };
    let text = match utf8_str(bytes) {
        Some(t) => t,
        None => {
            return Err(Error::Expected(Error::INVALID_UTF8));
        },
    };
    if bytes.len() == 0 {
        Ok(None)
    } else {
        Ok(Some(text.to_owned()))
    }
}

/// Reading the optional default value at `p`: the text of a number when a
/// complete one is there, and none otherwise; reading stops where the
/// number's scan stopped.
pub open spec fn default_value_at(s: Seq<u8>, p: int) -> (Option<Seq<char>>, int) {
    let (q, ok) = number_scan(s, number_body_start(s, p), false, false);
    if ok && q != p && decimal_text_ok(s.subrange(p, q)) {
        (Some(ascii_chars(s.subrange(p, q))), q)
    } else {
        (None, q)
    }
}

/// Reading the optional value table at `p`: after a comma and blanks, a
/// quoted name (as `quoted_text` says) or an identifier, which may not be
/// longer than `MAX_NAME_SIZE` bytes (`Version(MAX_NAME_SIZE_EXCEEDED)`).
/// Yields where reading stopped.
pub open spec fn value_table_at(s: Seq<u8>, p: int) -> (Result<Option<Seq<char>>>, int) {
    if !(0 <= p < s.len() && s[p] == 44) {
        (Ok(None), p)
    } else {
        let c = blank_end(s, p + 1);
        if c < s.len() && s[c] == 34 {
            quoted_text(s, c + 1)
        } else {
            let (has_name, e) = name_at(s, c);
            if !has_name {
                (Ok(None), if 0 <= c < s.len() && crate::parser::is_ident_start(s[c]) {
                    e
                } else {
                    c
                })
            } else if e - c > MAX_NAME_SIZE {
                (Err(Error::Version(Error::MAX_NAME_SIZE_EXCEEDED)), e)
            } else {
                (Ok(Some(ascii_chars(s.subrange(c, e)))), e)
            }
        }
    }
}

/// What a signal type says, its numbers kept as text (`None` where a
/// number is left out and its default applies: factor 1, offset, minimum and
/// maximum 0, no default value).
pub struct RawSignalTypeView {
    pub name: Seq<char>,
    pub size: u8,
    pub byte_order: ByteOrder,
    pub unsigned: bool,
    pub factor: Option<Seq<char>>,
    pub offset: Option<Seq<char>>,
    pub min: Option<Seq<char>>,
    pub max: Option<Seq<char>>,
    pub unit: Option<Seq<char>>,
    pub default_value: Option<Seq<char>>,
    pub value_table: Option<Seq<char>>,
}

/// The numbers of an optional pair, or none of them when the pair is absent.
pub open spec fn pair_parts(o: Option<(Option<Seq<char>>, Option<Seq<char>>)>) -> (
    Option<Seq<char>>,
    Option<Seq<char>>,
) {
    match o {
        Some(p) => p,
        None => (None, None),
    }
}

/// Reading a signal type at `p` (after its keyword), each part after
/// optional blanks: the name, a colon, the size (a `u32` kept as its low
/// 8 bits), the optional `@order sign`, the optional `(factor,offset)`, the
/// optional `[min|max]`, the optional quoted unit, the optional default
/// value, the optional value table, and an optional semicolon. Yields where
/// reading stopped.
pub open spec fn signal_type_entry(s: Seq<u8>, p: int) -> (Result<RawSignalTypeView>, int) {
    let a = blank_end(s, p);
    let e = crate::parser::ident_end(s, a + 1);
    if !(0 <= a < s.len() && crate::parser::is_ident_start(s[a])) {
        (Err(
            if a < s.len() && crate::parser::is_ident_absent(s[a]) || a >= s.len() {
                Error::Expected(Error::EXPECTED_IDENTIFIER)
            } else {
                Error::InvalidChar(s[a] as char)
            },
        ), a)
    } else if e < s.len() && !crate::parser::is_ident_delimiter(s[e]) {
        (Err(Error::InvalidChar(s[e] as char)), e)
    } else if e - a > MAX_NAME_SIZE {
        (Err(Error::Expected(Error::MAX_NAME_SIZE_EXCEEDED)), e)
    } else {
        let name = ascii_chars(s.subrange(a, e));
        let c = blank_end(s, e);
        if !(c < s.len() && s[c] == 58) {
            (Err(Error::Expected(Error::EXPECTED_PATTERN)), c)
        } else {
            let d = blank_end(s, c + 1);
            let de = digits_end(s, d);
            let dv = digits_value(s.subrange(d, de));
            if de == d {
                (Err(Error::Expected(Error::EXPECTED_NUMBER)), de)
            } else if dv > u32::MAX {
                (Err(Error::Expected(Error::INVALID_NUMBER_FORMAT)), de)
            } else {
                let size = (dv as u32) as u8;
                let (bo, boe) = type_byte_order(s, blank_end(s, de));
                match bo {
                    Err(err) => (Err(err), boe),
                    Ok((byte_order, unsigned)) => {
                        let (fo, foe) = optional_pair(s, boe, 40, 44, 41);
                        match fo {
                            Err(err) => (Err(err), foe),
                            Ok(fo) => {
                                let (mm, mme) = optional_pair(s, foe, 91, 124, 93);
                                match mm {
                                    Err(err) => (Err(err), mme),
                                    Ok(mm) => {
                                        let (unit, ue) = if mme < s.len() && s[mme] == 34 {
                                            quoted_text(s, mme + 1)
                                        } else {
                                            (Ok(None), mme)
                                        };
                                        match unit {
                                            Err(err) => (Err(err), ue),
                                            Ok(unit) => {
                                                let (dflt, dfe) = default_value_at(
                                                    s,
                                                    blank_end(s, ue),
                                                );
                                                let (vt, vte) = value_table_at(
                                                    s,
                                                    blank_end(s, dfe),
                                                );
                                                match vt {
                                                    Err(err) => (Err(err), vte),
                                                    Ok(value_table) => {
                                                        let f = blank_end(s, vte);
                                                        let end = if f < s.len() && s[f] == 59 {
                                                            f + 1
                                                        } else {
                                                            f
                                                        };
                                                        (
                                                            Ok(
                                                                RawSignalTypeView {
                                                                    name,
                                                                    size,
                                                                    byte_order,
                                                                    unsigned,
                                                                    factor: pair_parts(fo).0,
                                                                    offset: pair_parts(fo).1,
                                                                    min: pair_parts(mm).0,
                                                                    max: pair_parts(mm).1,
                                                                    unit,
                                                                    default_value: dflt,
                                                                    value_table,
                                                                },
                                                            ),
                                                            end,
                                                        )
                                                    },
                                                }
                                            },
                                        }
                                    },
                                }
                            },
                        }
                    },
                }
            }
        }
    }
}

/// A signal type as read from an `SGTYPE_` entry, before its numbers are
/// turned into binary floating point.
#[derive(Debug, Clone)]
pub struct RawSignalType {
    pub name: String,
    pub size: u8,
    pub byte_order: ByteOrder,
    pub unsigned: bool,
    pub factor: Option<String>,
    pub offset: Option<String>,
    pub min: Option<String>,
    pub max: Option<String>,
    pub unit: Option<String>,
    pub default_value: Option<String>,
    pub value_table: Option<String>,
}

impl View for RawSignalType {
    type V = RawSignalTypeView;

    open spec fn view(&self) -> RawSignalTypeView {
        RawSignalTypeView {
            name: self.name@,
            size: self.size,
            byte_order: self.byte_order,
            unsigned: self.unsigned,
            factor: opt_view(self.factor),
            offset: opt_view(self.offset),
            min: opt_view(self.min),
            max: opt_view(self.max),
            unit: opt_view(self.unit),
            default_value: opt_view(self.default_value),
            value_table: opt_view(self.value_table),
        }
    }
}

/// A result carrying a signal type, seen through what it says.
pub open spec fn raw_signal_type_result_view(r: Result<RawSignalType>) -> Result<RawSignalTypeView> {
    match r {
        Ok(v) => Ok(v@),
        Err(e) => Err(e),
    }
}

/// Reads the optional `@order sign` as `type_byte_order` says.
fn read_type_byte_order(parser: &mut Parser) -> (r: Result<(ByteOrder, bool)>)
    requires
        old(parser).well_formed(),
    ensures
        final(parser).well_formed(),
        final(parser).input == old(parser).input,
        r == type_byte_order(old(parser).input@, old(parser).pos as int).0,
        r is Ok ==> final(parser).pos == type_byte_order(
            old(parser).input@,
            old(parser).pos as int,
        ).1,
{
    if !parser.accept_byte(64u8) {
        return Ok((ByteOrder::LittleEndian, true));
    }
    let byte_order = if parser.accept_byte(48u8) {
        ByteOrder::BigEndian
    } else if parser.accept_byte(49u8) {
        ByteOrder::LittleEndian
    } else {
        return Err(Error::Expected("Expected byte order (0 or 1)"));
    };
    let unsigned = if parser.accept_byte(43u8) {
        true
    } else if parser.accept_byte(45u8) {
        false
    } else {
        return Err(Error::Expected("Expected value type (+ or -)"));
    };
    parser.skip_newlines_and_spaces();
    Ok((byte_order, unsigned))
}

/// An optional pair of optional number texts, seen through their characters.
pub open spec fn opt_pair_view(o: Option<(Option<String>, Option<String>)>) -> Option<
    (Option<Seq<char>>, Option<Seq<char>>),
> {
    match o {
        Some((a, b)) => Some((opt_view(a), opt_view(b))),
        None => None,
    }
}

/// Reads an optional bracketed pair as `optional_pair` says.
fn read_optional_pair(parser: &mut Parser, open: u8, sep: u8, close: u8) -> (r: Result<
    Option<(Option<String>, Option<String>)>,
>)
    requires
        old(parser).well_formed(),
        open != 10 && open != 13 && sep != 10 && sep != 13 && close != 10 && close != 13,
    ensures
        final(parser).well_formed(),
        final(parser).input == old(parser).input,
        ({
            let (o, q) = optional_pair(old(parser).input@, old(parser).pos as int, open, sep, close);
            &&& (o is Err ==> r is Err && r->Err_0 == o->Err_0)
            &&& (o matches Ok(x) ==> r matches Ok(y) && opt_pair_view(y) == x)
            &&& r is Ok ==> final(parser).pos == q
        }),
{
    if !parser.accept_byte(open) {
        return Ok(None);
    }
    parser.skip_newlines_and_spaces();
    let a = read_optional_number_exact(parser)?;
    if !parser.accept_byte(sep) {
        return Err(Error::Expected(Error::EXPECTED_PATTERN));
    }
    parser.skip_newlines_and_spaces();
    let b = read_optional_number_exact(parser)?;
    parser.skip_newlines_and_spaces();
    if !parser.accept_byte(close) {
        return Err(Error::Expected(Error::EXPECTED_PATTERN));
    }
    parser.skip_newlines_and_spaces();
    Ok(Some((a, b)))
}

/// Reads the optional default value as `default_value_at` says.
fn read_default_value(parser: &mut Parser) -> (r: Option<String>)
    requires
        old(parser).well_formed(),
    ensures
        final(parser).well_formed(),
        final(parser).input == old(parser).input,
        opt_view(r) == default_value_at(old(parser).input@, old(parser).pos as int).0,
        final(parser).pos == default_value_at(old(parser).input@, old(parser).pos as int).1,
{
    match parser.scan_number() {
        Ok(t) => {
            if decimal_text_check(t.as_bytes()) {
                Some(t.to_owned())
            } else {
                None
            }
        },
        Err(_) => None,
    }
}

/// Reads the optional value table as `value_table_at` says.
fn read_value_table(parser: &mut Parser) -> (r: Result<Option<String>>)
    requires
        old(parser).well_formed(),
    ensures
        final(parser).well_formed(),
        final(parser).input == old(parser).input,
        ({
            let (o, q) = value_table_at(old(parser).input@, old(parser).pos as int);
            &&& (o is Err ==> r is Err && r->Err_0 == o->Err_0)
            &&& (o matches Ok(x) ==> r matches Ok(y) && opt_view(y) == x)
            &&& r is Ok ==> final(parser).pos == q
        }),
{
    if !parser.accept_byte(44u8) {
        return Ok(None);
    }
    parser.skip_newlines_and_spaces();
    if parser.accept_byte(34u8) {
        return read_quoted_text(parser);
    }
    proof {
        lemma_ident_end_ge(parser.input@, parser.pos + 1);
    }
    match parser.parse_identifier() {
        Ok(id) => {
            if id.as_bytes().len() > MAX_NAME_SIZE {
                return Err(Error::Version(Error::MAX_NAME_SIZE_EXCEEDED));
            }
            Ok(Some(id.to_owned()))
        },
        Err(_) => Ok(None),
    }
}

impl RawSignalType {
    /// Reads a signal type as `signal_type_entry` says.
    pub fn parse(parser: &mut Parser) -> (r: Result<RawSignalType>)
        requires
            old(parser).well_formed(),
        ensures
            final(parser).well_formed(),
            final(parser).input == old(parser).input,
            raw_signal_type_result_view(r) == signal_type_entry(
                old(parser).input@,
                old(parser).pos as int,
            ).0,
            r is Ok ==> final(parser).pos == signal_type_entry(
                old(parser).input@,
                old(parser).pos as int,
            ).1,
    {
        let ghost s = parser.input@;
        parser.skip_newlines_and_spaces();
        proof {
            lemma_ident_end_ge(s, parser.pos + 1);
        }
        let name = match parser.parse_identifier() {
            Ok(n) => n,
            Err(e) => {
                return Err(e);
            },
        };
        let name = match validate_name(name) {
            Ok(n) => n,
            Err(e) => {
                return Err(e);
            },
        };
        parser.skip_newlines_and_spaces();
        if !parser.accept_byte(58u8) {
            return Err(Error::Expected(Error::EXPECTED_PATTERN));
        }
        parser.skip_newlines_and_spaces();
        proof {
            lemma_digits_end_ge(s, parser.pos as int);
        }
        let size = match parser.parse_u32() {
            Ok(v) => v as u8,
            Err(e) => {
                return Err(e);
            },
        };
        parser.skip_newlines_and_spaces();
        let (byte_order, unsigned) = match read_type_byte_order(parser) {
            Ok(x) => x,
            Err(e) => {
                return Err(e);
            },
        };
        let scaling = match read_optional_pair(parser, 40u8, 44u8, 41u8) {
            Ok(x) => x,
            Err(e) => {
                return Err(e);
            },
        };
        let range = match read_optional_pair(parser, 91u8, 124u8, 93u8) {
            Ok(x) => x,
            Err(e) => {
                return Err(e);
            },
        };
        let unit = if parser.accept_byte(34u8) {
            match read_quoted_text(parser) {
                Ok(u) => u,
                Err(e) => {
                    return Err(e);
                },
            }
        } else {
            None
        };
        parser.skip_newlines_and_spaces();
        let default_value = read_default_value(parser);
        parser.skip_newlines_and_spaces();
        let value_table = match read_value_table(parser) {
            Ok(v) => v,
            Err(e) => {
                return Err(e);
            },
        };
        parser.skip_newlines_and_spaces();
        parser.accept_byte(59u8);
        let (factor, offset) = match scaling {
            Some(p) => p,
            None => (None, None),
        };
        let (min, max) = match range {
            Some(p) => p,
            None => (None, None),
        };
        Ok(
            RawSignalType {
                name,
                size,
                byte_order,
                unsigned,
                factor,
                offset,
                min,
                max,
                unit,
                default_value,
                value_table,
            },
        )
    }
}

} // verus!
