//! Extended multiplexing (`SG_MUL_VAL_`): which values of a multiplexer
//! switch make a multiplexed signal present.
use vstd::prelude::*;
use vstd::string::StringSliceAdditionalSpecFns;

use crate::error::{Error, Result};
use crate::message::name_at;
use crate::parser::{
    blank_end, digits_end, digits_value, lemma_blank_end_ge, lemma_digits_end_ge,
    lemma_ident_end_ge, Parser,
};
use crate::text::ascii_chars;
use crate::{validate_name, MAX_NAME_SIZE};

verus! {

/// Most value ranges one entry holds.
pub const MAX_VALUE_RANGES: usize = 64;

/// Reads value ranges `min-max`, separated by commas and ended by a
/// semicolon, from position `i` after the ranges `acc`. A bound that is not
/// a `u32` makes the entry unreadable (`None`); the list ends early where no
/// `-` follows a bound, past `MAX_VALUE_RANGES` ranges, or where neither a
/// comma nor a semicolon follows a range. Yields where reading stopped.
pub open spec fn value_ranges_from(s: Seq<u8>, i: int, acc: Seq<(u64, u64)>) -> (
    Option<Seq<(u64, u64)>>,
    int,
)
    decreases s.len() - i,
{
    let a = blank_end(s, i);
    let e1 = digits_end(s, a);
    let v1 = digits_value(s.subrange(a, e1));
    if i < 0 || a < i || e1 <= a || v1 > u32::MAX {
        (None, e1)
    } else {
        let b = blank_end(s, e1);
        if !(b < s.len() && s[b] == 45) {
            (Some(acc), b)
        } else {
            let c = blank_end(s, b + 1);
            let e2 = digits_end(s, c);
            let v2 = digits_value(s.subrange(c, e2));
            if e2 <= c || v2 > u32::MAX {
                (None, e2)
            } else if acc.len() >= MAX_VALUE_RANGES {
                (Some(acc), e2)
            } else {
                let acc2 = acc.push((v1 as u64, v2 as u64));
                let d = blank_end(s, e2);
                if d < s.len() && s[d] == 44 {
                    proof {
                        lemma_blank_end_ge(s, e2);
                        lemma_blank_end_ge(s, b + 1);
                        lemma_blank_end_ge(s, e1);
                    }
                    value_ranges_from(s, d + 1, acc2)
                } else if d < s.len() && s[d] == 59 {
                    (Some(acc2), d + 1)
                } else {
                    (Some(acc2), d)
                }
            }
        }
    }
}

/// What an extended multiplexing entry says: message, signal, switch and ranges.
pub type ExtendedMultiplexingView = (u32, Seq<char>, Seq<char>, Seq<(u64, u64)>);

/// Reading an extended multiplexing entry at `p` (after its keyword): the
/// message identifier, the signal's name, the switch's name (each name at
/// most `MAX_NAME_SIZE` bytes) and at least one value range, each item after
/// optional blanks. `None` when the entry cannot be read.
pub open spec fn extended_multiplexing_entry(s: Seq<u8>, p: int) -> (
    Option<ExtendedMultiplexingView>,
    int,
) {
    let a = blank_end(s, p);
    let e1 = digits_end(s, a);
    let v1 = digits_value(s.subrange(a, e1));
    if e1 == a || v1 > u32::MAX {
        (None, e1)
    } else {
        let b = blank_end(s, e1);
        let (has_signal, ne) = name_at(s, b);
        if !has_signal || ne - b > MAX_NAME_SIZE {
            (None, ne)
        } else {
            let c = blank_end(s, ne);
            let (has_switch, se) = name_at(s, c);
            if !has_switch || se - c > MAX_NAME_SIZE {
                (None, se)
            } else {
                let (ranges, end) = value_ranges_from(s, blank_end(s, se), Seq::empty());
                match ranges {
                    None => (None, end),
                    Some(r) => if r.len() == 0 {
                        (None, end)
                    } else {
                        (
                            Some(
                                (
                                    v1 as u32,
                                    ascii_chars(s.subrange(b, ne)),
                                    ascii_chars(s.subrange(c, se)),
                                    r,
                                ),
                            ),
                            end,
                        )
                    },
                }
            }
        }
    }
}

/// An entry with the given parts, when ranges were read and there is one at least.
pub open spec fn entry_with_ranges(
    id: u32,
    signal: Seq<char>,
    switch: Seq<char>,
    ranges: Option<Seq<(u64, u64)>>,
) -> Option<ExtendedMultiplexingView> {
    match ranges {
        None => None,
        Some(r) => if r.len() == 0 {
            None
        } else {
            Some((id, signal, switch, r))
        },
    }
}

/// Which values of a multiplexer switch make a multiplexed signal present.
#[derive(Debug, Clone, PartialEq)]
pub struct ExtendedMultiplexing {
    message_id: u32,
    signal_name: String,
    multiplexer_switch: String,
    value_ranges: Vec<(u64, u64)>,
}

impl View for ExtendedMultiplexing {
    type V = ExtendedMultiplexingView;

    closed spec fn view(&self) -> ExtendedMultiplexingView {
        (self.message_id, self.signal_name@, self.multiplexer_switch@, self.value_ranges@)
    }
}

/// An optional entry, seen through what it says.
pub open spec fn entry_view(o: Option<ExtendedMultiplexing>) -> Option<ExtendedMultiplexingView> {
    match o {
        Some(e) => Some(e@),
        None => None,
    }
}

/// Reads one `u32` bound of a value range, as `None` when there is none.
fn read_bound(parser: &mut Parser) -> (r: Option<u64>)
    requires
        old(parser).well_formed(),
    ensures
        final(parser).well_formed(),
        final(parser).input == old(parser).input,
        ({
            let s = old(parser).input@;
            let p = old(parser).pos as int;
            let e = digits_end(s, p);
            let v = digits_value(s.subrange(p, e));
            &&& (e == p || v > u32::MAX) <==> r is None
            &&& r matches Some(x) ==> x == (v as u32) as u64 && final(parser).pos == e && e > p
        }),
{
    proof {
        lemma_digits_end_ge(parser.input@, parser.pos as int);
    }
    match parser.parse_u32() {
        Ok(v) => Some(v as u64),
        Err(_) => None,
    }
}

impl ExtendedMultiplexing {
    /// An entry for `signal_name` of message `message_id`, present while
    /// `multiplexer_switch` holds a value in one of `value_ranges`.
    pub fn new(
        message_id: u32,
        signal_name: String,
        multiplexer_switch: String,
        value_ranges: Vec<(u64, u64)>,
    ) -> (r: Self)
        requires
            value_ranges@.len() <= MAX_VALUE_RANGES,
        ensures
            r@ == (message_id, signal_name@, multiplexer_switch@, value_ranges@),
    {
        ExtendedMultiplexing { message_id, signal_name, multiplexer_switch, value_ranges }
    }

    /// Reads an entry as `extended_multiplexing_entry` says; `None` when it
    /// cannot be read.
    pub fn parse(parser: &mut Parser) -> (r: Option<ExtendedMultiplexing>)
        requires
            old(parser).well_formed(),
        ensures
            final(parser).well_formed(),
            final(parser).input == old(parser).input,
            entry_view(r) == extended_multiplexing_entry(
                old(parser).input@,
                old(parser).pos as int,
            ).0,
            r is Some ==> final(parser).pos == extended_multiplexing_entry(
                old(parser).input@,
                old(parser).pos as int,
            ).1,
    {
        let ghost s = parser.input@;
        parser.skip_newlines_and_spaces();
        proof {
            lemma_digits_end_ge(s, parser.pos as int);
        }
        let message_id = match parser.parse_u32() {
            Ok(v) => v,
            Err(_) => {
                return None;
            },
        };
        parser.skip_newlines_and_spaces();
        proof {
            lemma_ident_end_ge(s, parser.pos + 1);
        }
        let signal_name = match parser.parse_identifier() {
            Ok(n) => n,
            Err(_) => {
                return None;
            },
        };
        let signal_name = match validate_name(signal_name) {
            Ok(n) => n,
            Err(_) => {
                return None;
            },
        };
        parser.skip_newlines_and_spaces();
        proof {
            lemma_ident_end_ge(s, parser.pos + 1);
        }
        let multiplexer_switch = match parser.parse_identifier() {
            Ok(n) => n,
            Err(_) => {
                return None;
            },
        };
        let multiplexer_switch = match validate_name(multiplexer_switch) {
            Ok(n) => n,
            Err(_) => {
                return None;
            },
        };
        parser.skip_newlines_and_spaces();
        let ghost start = parser.pos as int;
        let ghost p0 = old(parser).pos as int;
        proof {
            assert(extended_multiplexing_entry(s, p0).0 == entry_with_ranges(message_id, signal_name@, multiplexer_switch@, value_ranges_from(s, start, Seq::empty()).0));
            assert(extended_multiplexing_entry(s, p0).1 == value_ranges_from(
                s,
                start,
                Seq::empty(),
            ).1);
        }
        let mut value_ranges: Vec<(u64, u64)> = Vec::new();
        let mut done = false;
        while !done
            invariant
                p0 == old(parser).pos,
                extended_multiplexing_entry(s, p0).0 == entry_with_ranges(message_id, signal_name@, multiplexer_switch@, value_ranges_from(s, start, Seq::empty()).0),
                extended_multiplexing_entry(s, p0).1 == value_ranges_from(
                    s,
                    start,
                    Seq::empty(),
                ).1,
                parser.well_formed(),
                parser.input == old(parser).input,
                s == parser.input@,
                start <= parser.pos <= s.len(),
                value_ranges@.len() <= MAX_VALUE_RANGES,
                !done ==> value_ranges_from(s, start, Seq::empty()) == value_ranges_from(
                    s,
                    parser.pos as int,
                    value_ranges@,
                ),
                done ==> value_ranges_from(s, start, Seq::empty()) == (
                    Some(value_ranges@),
                    parser.pos as int,
                ),
            decreases s.len() - parser.pos + if done {
                0int
            } else {
                1int
            },
        {
            let ghost i = parser.pos as int;
            proof {
                lemma_blank_end_ge(s, i);
            }
            parser.skip_newlines_and_spaces();
            let min = match read_bound(parser) {
                Some(v) => v,
                None => {
                    proof {
                        assert(value_ranges_from(s, i, value_ranges@).0 is None);
                        assert(value_ranges_from(s, start, Seq::empty()).0 is None);
                        assert(entry_with_ranges(message_id, signal_name@, multiplexer_switch@, None) is None);
                        assert(extended_multiplexing_entry(s, p0).0 is None);
                    }
                    return None;
                },
            };
            let ghost e1 = parser.pos as int;
            proof {
                lemma_blank_end_ge(s, e1);
            }
            parser.skip_newlines_and_spaces();
            if !parser.accept_byte(45u8) {
                proof {
                    assert(value_ranges_from(s, i, value_ranges@) == (
                        Some(value_ranges@),
                        parser.pos as int,
                    ));
                }
                done = true;
            } else {
                let ghost b = parser.pos as int - 1;
                proof {
                    lemma_blank_end_ge(s, b + 1);
                }
                parser.skip_newlines_and_spaces();
                let max = match read_bound(parser) {
                    Some(v) => v,
                    None => {
                        proof {
                            assert(value_ranges_from(s, i, value_ranges@).0 is None);
                            assert(entry_with_ranges(message_id, signal_name@, multiplexer_switch@, None) is None);
                        }
                        return None;
                    },
                };
                if value_ranges.len() >= MAX_VALUE_RANGES {
                    done = true;
                } else {
                    value_ranges.push((min, max));
                    let ghost e2 = parser.pos as int;
                    proof {
                        lemma_blank_end_ge(s, e2);
                    }
                    parser.skip_newlines_and_spaces();
                    if parser.accept_byte(44u8) {
                    } else if parser.accept_byte(59u8) {
                        done = true;
                    } else {
                        done = true;
                    }
                }
            }
        }
        if value_ranges.len() == 0 {
            return None;
        }
        Some(ExtendedMultiplexing { message_id, signal_name, multiplexer_switch, value_ranges })
    }

    /// The message the multiplexed signal belongs to.
    pub fn message_id(&self) -> (r: u32)
        ensures
            r == self@.0,
    {
        self.message_id
    }

    /// The multiplexed signal's name.
    pub fn signal_name(&self) -> (r: &str)
        ensures
            r@ == self@.1,
    {
        self.signal_name.as_str()
    }

    /// The multiplexer switch's name.
    pub fn multiplexer_switch(&self) -> (r: &str)
        ensures
            r@ == self@.2,
    {
        self.multiplexer_switch.as_str()
    }

    /// The switch values, as inclusive ranges, under which the signal is present.
    pub fn value_ranges(&self) -> (r: &[(u64, u64)])
        ensures
            r@ == self@.3,
    {
        self.value_ranges.as_slice()
    }
}

/// Collects the parts of an extended multiplexing entry and checks them when built.
#[derive(Debug, Clone)]
pub struct ExtendedMultiplexingBuilder {
    message_id: Option<u32>,
    signal_name: Option<String>,
    multiplexer_switch: Option<String>,
    value_ranges: Vec<(u64, u64)>,
}

/// What a builder holds: message, signal name, switch name and ranges, each
/// of the first three possibly missing.
pub type ExtendedMultiplexingBuilderView = (
    Option<u32>,
    Option<Seq<char>>,
    Option<Seq<char>>,
    Seq<(u64, u64)>,
);

/// An optional string, seen through its characters.
pub open spec fn opt_chars(o: Option<String>) -> Option<Seq<char>> {
    match o {
        Some(x) => Some(x@),
        None => None,
    }
}

impl View for ExtendedMultiplexingBuilder {
    type V = ExtendedMultiplexingBuilderView;

    closed spec fn view(&self) -> ExtendedMultiplexingBuilderView {
        (
            self.message_id,
            opt_chars(self.signal_name),
            opt_chars(self.multiplexer_switch),
            self.value_ranges@,
        )
    }
}

/// A name longer than `MAX_NAME_SIZE` bytes in UTF-8.
pub open spec fn name_too_long(n: Seq<char>) -> bool {
    vstd::utf8::encode_utf8(n).len() > MAX_NAME_SIZE
}

/// What building an entry from `b` gives: each missing part is an
/// `Expected` error naming it, in the order message, signal, switch; a name
/// longer than `MAX_NAME_SIZE` bytes is `Expected(MAX_NAME_SIZE_EXCEEDED)`; no
/// range, or more than `MAX_VALUE_RANGES`, is refused too.
pub open spec fn extended_multiplexing_build(b: ExtendedMultiplexingBuilderView) -> Result<
    ExtendedMultiplexingView,
> {
    match b.0 {
        None => Err(Error::Expected("message_id is required")),
        Some(id) => match b.1 {
            None => Err(Error::Expected("signal_name is required")),
            Some(signal) => if name_too_long(signal) {
                Err(Error::Expected(Error::MAX_NAME_SIZE_EXCEEDED))
            } else {
                match b.2 {
                    None => Err(Error::Expected("multiplexer_switch is required")),
                    Some(switch) => if name_too_long(switch) {
                        Err(Error::Expected(Error::MAX_NAME_SIZE_EXCEEDED))
                    } else if b.3.len() == 0 {
                        Err(Error::Expected("at least one value range is required"))
                    } else if b.3.len() > MAX_VALUE_RANGES {
                        Err(Error::Expected("too many value ranges (maximum 64)"))
                    } else {
                        Ok((id, signal, switch, b.3))
                    },
                }
            },
        },
    }
}

/// A built entry, seen through what it says.
pub open spec fn entry_result_view(r: Result<ExtendedMultiplexing>) -> Result<
    ExtendedMultiplexingView,
> {
    match r {
        Ok(e) => Ok(e@),
        Err(e) => Err(e),
    }
}

impl Default for ExtendedMultiplexingBuilder {
    fn default() -> (r: Self)
        ensures
            r@ == (None::<u32>, None::<Seq<char>>, None::<Seq<char>>, Seq::<(u64, u64)>::empty()),
    {
        ExtendedMultiplexingBuilder::new()
    }
}

/// Checks a name's length, as `validate_name` does.
fn checked_name(name: &String) -> (r: Result<String>)
    ensures
        name_too_long(name@) ==> r == Err::<String, Error>(
            Error::Expected(Error::MAX_NAME_SIZE_EXCEEDED),
        ),
        !name_too_long(name@) ==> (r matches Ok(s) && s@ == name@),
{
    match validate_name(name.as_str()) {
        Ok(s) => Ok(s),
        Err(_) => Err(Error::Expected(Error::MAX_NAME_SIZE_EXCEEDED)),
    }
}

impl ExtendedMultiplexingBuilder {
    /// A builder with nothing set.
    pub fn new() -> (b: Self)
        ensures
            b@ == (None::<u32>, None::<Seq<char>>, None::<Seq<char>>, Seq::<(u64, u64)>::empty()),
    {
        ExtendedMultiplexingBuilder {
            message_id: None,
            signal_name: None,
            multiplexer_switch: None,
            value_ranges: Vec::new(),
        }
    }

    /// Sets the message identifier.
    pub fn message_id(self, message_id: u32) -> (b: Self)
        ensures
            b@ == (Some(message_id), self@.1, self@.2, self@.3),
    {
        ExtendedMultiplexingBuilder { message_id: Some(message_id), ..self }
    }

    /// Sets the multiplexed signal's name.
    pub fn signal_name(self, signal_name: &str) -> (b: Self)
        ensures
            b@ == (self@.0, Some(signal_name@), self@.2, self@.3),
    {
        ExtendedMultiplexingBuilder { signal_name: Some(signal_name.to_owned()), ..self }
    }

    /// Sets the multiplexer switch's name.
    pub fn multiplexer_switch(self, multiplexer_switch: &str) -> (b: Self)
        ensures
            b@ == (self@.0, self@.1, Some(multiplexer_switch@), self@.3),
    {
        ExtendedMultiplexingBuilder {
            multiplexer_switch: Some(multiplexer_switch.to_owned()),
            ..self
        }
    }

    /// Appends the inclusive range `min..=max` of switch values.
    pub fn add_value_range(self, min: u64, max: u64) -> (b: Self)
        ensures
            b@ == (self@.0, self@.1, self@.2, self@.3.push((min, max))),
    {
        let mut value_ranges = self.value_ranges;
        value_ranges.push((min, max));
        ExtendedMultiplexingBuilder { value_ranges, ..self }
    }

    /// Builds the entry as `extended_multiplexing_build` says.
    pub fn build(self) -> (r: Result<ExtendedMultiplexing>)
        ensures
            entry_result_view(r) == extended_multiplexing_build(self@),
    {
        let message_id = match self.message_id {
            Some(id) => id,
            None => {
                return Err(Error::Expected("message_id is required"));
            },
        };
        let signal_name = match &self.signal_name {
            Some(n) => checked_name(n)?,
            None => {
                return Err(Error::Expected("signal_name is required"));
            },
        };
        let multiplexer_switch = match &self.multiplexer_switch {
            Some(n) => checked_name(n)?,
            None => {
                return Err(Error::Expected("multiplexer_switch is required"));
            },
        };
        if self.value_ranges.len() == 0 {
            return Err(Error::Expected("at least one value range is required"));
        }
        if self.value_ranges.len() > MAX_VALUE_RANGES {
            return Err(Error::Expected("too many value ranges (maximum 64)"));
        }
        Ok(
            ExtendedMultiplexing {
                message_id,
                signal_name,
                multiplexer_switch,
                value_ranges: self.value_ranges,
            },
        )
    }
}

} // verus!
