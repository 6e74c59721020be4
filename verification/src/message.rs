//! Messages (`BO_` lines): the bits their signals occupy, the rules a
//! message and its signals must keep, and how a message's header is read
//! and written.
use vstd::prelude::*;
use vstd::string::StringSliceAdditionalSpecFns;

use crate::error::{map_val_error, Error, Result};
use crate::parser::{
    blank_end, digits_end, digits_value, ident_end, is_ident_delimiter, is_ident_start,
    lemma_digits_end_ge, matches_at, Parser,
};
use crate::signal::ByteOrder;
use crate::text::{
    ascii_chars, blank_text, decimal_chars, decimal_string, is_blank_text, push_char, push_str,
};
use crate::{validate_name, BO_, MAX_SIGNALS_PER_MESSAGE};

verus! {

/// Largest extended (29-bit) CAN identifier.
pub const MAX_EXTENDED_ID: u32 = 0x1FFF_FFFF;

/// Where a signal lies in its message: what message checks need to know of it.
#[derive(Debug, Clone, Copy, PartialEq, Eq, Structural)]
pub struct SignalLayout {
    pub start_bit: u16,
    pub length: u16,
    pub byte_order: ByteOrder,
    /// The multiplexer value under which the signal is present, if it is multiplexed.
    pub multiplexer_switch_value: Option<u64>,
}

/// The bit of the data that big-endian bit number `n` names: the bits of
/// each byte are numbered from its most significant bit down.
pub open spec fn physical_bit(n: int) -> int {
    (n / 8) * 8 + (7 - n % 8)
}

/// The lowest and highest data bits named by big-endian bit numbers
/// `a..b`, folded into `(lo, hi)`.
pub open spec fn big_endian_span(a: int, b: int, lo: int, hi: int) -> (int, int)
    decreases b - a,
{
    if a >= b {
        (lo, hi)
    } else {
        let p = physical_bit(a);
        big_endian_span(
            a + 1,
            b,
            if p < lo {
                p
            } else {
                lo
            },
            if p > hi {
                p
            } else {
                hi
            },
        )
    }
}

/// The lowest and highest data bits a signal occupies: for little-endian
/// `start..=start + length - 1`; for big-endian the extremes of the data bits
/// its big-endian bit numbers `start..start + length` name.
pub open spec fn bit_span(start_bit: u16, length: u16, byte_order: ByteOrder) -> (int, int) {
    match byte_order {
        ByteOrder::LittleEndian => (start_bit as int, start_bit + length - 1),
        ByteOrder::BigEndian => big_endian_span(
            start_bit as int,
            start_bit + length,
            u16::MAX as int,
            0,
        ),
    }
}

/// A data bit never lies far from the big-endian bit number that names it.
proof fn lemma_physical_bit(n: int)
    requires
        0 <= n,
    ensures
        n - 7 <= physical_bit(n) <= n + 7,
        physical_bit(n) >= 0,
{
}

/// The lowest and highest data bits a signal occupies, as `bit_span` says.
pub fn bit_range(start_bit: u16, length: u16, byte_order: ByteOrder) -> (r: (u16, u16))
    requires
        length >= 1,
        start_bit + length <= u16::MAX,
    ensures
        (r.0 as int, r.1 as int) == bit_span(start_bit, length, byte_order),
{
    match byte_order {
        ByteOrder::LittleEndian => (start_bit, start_bit + length - 1),
        ByteOrder::BigEndian => {
            let mut lo: u16 = u16::MAX;
            let mut hi: u16 = 0;
            let mut n: u16 = start_bit;
            let end = start_bit + length;
            while n < end
                invariant
                    start_bit <= n <= end,
                    end == start_bit + length,
                    end <= u16::MAX,
                    big_endian_span(start_bit as int, end as int, u16::MAX as int, 0)
                        == big_endian_span(n as int, end as int, lo as int, hi as int),
                decreases end - n,
            {
                proof {
                    lemma_physical_bit(n as int);
                }
                let p = (n / 8) * 8 + (7 - n % 8);
                if p < lo {
                    lo = p;
                }
                if p > hi {
                    hi = p;
                }
                n = n + 1;
            }
            (lo, hi)
        },
    }
}

/// A signal's highest data bit.
pub open spec fn span_top(s: SignalLayout) -> int {
    let (lo, hi) = bit_span(s.start_bit, s.length, s.byte_order);
    if lo > hi {
        lo
    } else {
        hi
    }
}

/// Two signals share a data bit, and not both of them are multiplexed.
pub open spec fn signals_clash(a: SignalLayout, b: SignalLayout) -> bool {
    let (alo, ahi) = bit_span(a.start_bit, a.length, a.byte_order);
    let (blo, bhi) = bit_span(b.start_bit, b.length, b.byte_order);
    &&& alo <= bhi && blo <= ahi
    &&& !(a.multiplexer_switch_value is Some && b.multiplexer_switch_value is Some)
}

/// A signal's bit span can be computed without overflow.
pub open spec fn layout_computable(s: SignalLayout) -> bool {
    s.length >= 1 && s.start_bit + s.length <= u16::MAX
}

/// What a message is refused for, if anything, in this order: more than
/// `MAX_SIGNALS_PER_MESSAGE` signals, a blank name, a blank sender, a DLC of
/// 0 or over 64 bytes, an identifier past 29 bits, a signal reaching past
/// the DLC's bits, and two signals sharing a bit where not both are multiplexed.
pub open spec fn message_problem(
    id: u32,
    name: Seq<char>,
    dlc: u8,
    sender: Seq<char>,
    signals: Seq<SignalLayout>,
) -> Option<&'static str> {
    if signals.len() > MAX_SIGNALS_PER_MESSAGE {
        Some(Error::MESSAGE_TOO_MANY_SIGNALS)
    } else if is_blank_text(name) {
        Some(Error::MESSAGE_NAME_EMPTY)
    } else if is_blank_text(sender) {
        Some(Error::MESSAGE_SENDER_EMPTY)
    } else if dlc == 0 {
        Some(Error::MESSAGE_DLC_TOO_SMALL)
    } else if dlc > 64 {
        Some(Error::MESSAGE_DLC_TOO_LARGE)
    } else if id > MAX_EXTENDED_ID {
        Some(Error::MESSAGE_ID_OUT_OF_RANGE)
    } else if exists|i: int| 0 <= i < signals.len() && #[trigger] span_top(signals[i]) >= dlc * 8 {
        Some(Error::SIGNAL_EXTENDS_BEYOND_MESSAGE)
    } else if exists|i: int, j: int|
        0 <= i < j < signals.len() && #[trigger] signals_clash(signals[i], signals[j]) {
        Some(Error::SIGNAL_OVERLAP)
    } else {
        None
    }
}

/// A big-endian span never ends below where it starts once it holds a bit.
proof fn lemma_big_endian_span_ordered(a: int, b: int, lo: int, hi: int)
    requires
        0 <= a,
        a < b || lo <= hi,
    ensures
        big_endian_span(a, b, lo, hi).0 <= big_endian_span(a, b, lo, hi).1,
    decreases b - a,
{
    if a < b {
        let p = physical_bit(a);
        let lo2 = if p < lo {
            p
        } else {
            lo
        };
        let hi2 = if p > hi {
            p
        } else {
            hi
        };
        lemma_big_endian_span_ordered(a + 1, b, lo2, hi2);
    }
}

/// Every signal of at least one bit occupies an ordered span of data bits;
/// a little-endian signal of `length` bits spans exactly `length` bits.
pub proof fn lemma_bit_span_ordered(start_bit: u16, length: u16, byte_order: ByteOrder)
    requires
        length >= 1,
    ensures
        bit_span(start_bit, length, byte_order).0 <= bit_span(start_bit, length, byte_order).1,
        byte_order == ByteOrder::LittleEndian ==> bit_span(start_bit, length, byte_order).1
            - bit_span(start_bit, length, byte_order).0 + 1 == length,
{
    if byte_order == ByteOrder::BigEndian {
        lemma_big_endian_span_ordered(start_bit as int, start_bit + length, u16::MAX as int, 0);
    }
}

/// A message that passes its checks has every signal within its DLC's
/// bits, and no two signals that share a bit unless both are multiplexed.
pub proof fn lemma_valid_message_layout(
    id: u32,
    name: Seq<char>,
    dlc: u8,
    sender: Seq<char>,
    signals: Seq<SignalLayout>,
)
    requires
        message_problem(id, name, dlc, sender, signals) is None,
    ensures
        1 <= dlc <= 64,
        id <= MAX_EXTENDED_ID,
        signals.len() <= MAX_SIGNALS_PER_MESSAGE,
        forall|i: int| 0 <= i < signals.len() ==> #[trigger] span_top(signals[i]) < dlc * 8,
        forall|i: int, j: int|
            0 <= i < j < signals.len() ==> !#[trigger] signals_clash(signals[i], signals[j]),
{
}

/// What a message builder still lacks, if anything: the first missing field
/// in the order id, name, DLC, sender.
pub open spec fn missing_message_field(id: bool, name: bool, dlc: bool, sender: bool) -> Option<
    &'static str,
> {
    if !id {
        Some(Error::MESSAGE_ID_REQUIRED)
    } else if !name {
        Some(Error::MESSAGE_NAME_EMPTY)
    } else if !dlc {
        Some(Error::MESSAGE_DLC_REQUIRED)
    } else if !sender {
        Some(Error::MESSAGE_SENDER_EMPTY)
    } else {
        None
    }
}

/// Checks that a message builder has every field it needs (each flag says
/// whether that field was set): `Message` with the detail that
/// `missing_message_field` gives.
pub fn check_message_builder_fields(id: bool, name: bool, dlc: bool, sender: bool) -> (r: Result<
    (),
>)
    ensures
        r == (match missing_message_field(id, name, dlc, sender) {
            Some(m) => Err(Error::Message(m)),
            None => Ok(()),
        }),
{
    if !id {
        return Err(Error::Message(Error::MESSAGE_ID_REQUIRED));
    }
    if !name {
        return Err(Error::Message(Error::MESSAGE_NAME_EMPTY));
    }
    if !dlc {
        return Err(Error::Message(Error::MESSAGE_DLC_REQUIRED));
    }
    if !sender {
        return Err(Error::Message(Error::MESSAGE_SENDER_EMPTY));
    }
    Ok(())
}

/// Checks a message as `message_problem` says, failing with `Validation`
/// and the detail found.
pub fn validate_message(
    id: u32,
    name: &str,
    dlc: u8,
    sender: &str,
    signals: &[SignalLayout],
) -> (r: Result<()>)
    requires
        forall|i: int| 0 <= i < signals@.len() ==> #[trigger] layout_computable(signals@[i]),
    ensures
        r == (match message_problem(id, name@, dlc, sender@, signals@) {
            Some(m) => Err(Error::Validation(m)),
            None => Ok(()),
        }),
{
    if signals.len() > MAX_SIGNALS_PER_MESSAGE {
        return Err(Error::Validation(Error::MESSAGE_TOO_MANY_SIGNALS));
    }
    if blank_text(name) {
        return Err(Error::Validation(Error::MESSAGE_NAME_EMPTY));
    }
    if blank_text(sender) {
        return Err(Error::Validation(Error::MESSAGE_SENDER_EMPTY));
    }
    if dlc == 0 {
        return Err(Error::Validation(Error::MESSAGE_DLC_TOO_SMALL));
    }
    if dlc > 64 {
        return Err(Error::Validation(Error::MESSAGE_DLC_TOO_LARGE));
    }
    if id > MAX_EXTENDED_ID {
        return Err(Error::Validation(Error::MESSAGE_ID_OUT_OF_RANGE));
    }
    let max_bits: u16 = (dlc as u16) * 8;
    let n = signals.len();
    let mut i: usize = 0;
    while i < n
        invariant
            signals@.len() <= MAX_SIGNALS_PER_MESSAGE,
            !is_blank_text(name@),
            !is_blank_text(sender@),
            1 <= dlc <= 64,
            id <= MAX_EXTENDED_ID,
            n == signals@.len(),
            0 <= i <= n,
            max_bits == dlc * 8,
            forall|k: int| 0 <= k < n ==> #[trigger] layout_computable(signals@[k]),
            forall|k: int| 0 <= k < i ==> #[trigger] span_top(signals@[k]) < dlc * 8,
        decreases n - i,
    {
        let sig = signals[i];
        proof {
            assert(layout_computable(signals@[i as int]));
        }
        let (lsb, msb) = bit_range(sig.start_bit, sig.length, sig.byte_order);
        let top = if lsb > msb {
            lsb
        } else {
            msb
        };
        if top >= max_bits {
            proof {
                assert(span_top(signals@[i as int]) >= dlc * 8);
            }
            return Err(Error::Validation(Error::SIGNAL_EXTENDS_BEYOND_MESSAGE));
        }
        i = i + 1;
    }
    let mut a: usize = 0;
    while a < n
        invariant
            signals@.len() <= MAX_SIGNALS_PER_MESSAGE,
            !is_blank_text(name@),
            !is_blank_text(sender@),
            1 <= dlc <= 64,
            id <= MAX_EXTENDED_ID,
            forall|k: int| 0 <= k < n ==> #[trigger] span_top(signals@[k]) < dlc * 8,
            n == signals@.len(),
            0 <= a <= n,
            forall|k: int| 0 <= k < n ==> #[trigger] layout_computable(signals@[k]),
            forall|x: int, y: int|
                0 <= x < y < n && x < a ==> !#[trigger] signals_clash(signals@[x], signals@[y]),
        decreases n - a,
    {
        let s1 = signals[a];
        proof {
            assert(layout_computable(signals@[a as int]));
        }
        let (lsb1, msb1) = bit_range(s1.start_bit, s1.length, s1.byte_order);
        let mut b: usize = a + 1;
        while b < n
            invariant
                signals@.len() <= MAX_SIGNALS_PER_MESSAGE,
                !is_blank_text(name@),
                !is_blank_text(sender@),
                1 <= dlc <= 64,
                id <= MAX_EXTENDED_ID,
                forall|k: int| 0 <= k < n ==> #[trigger] span_top(signals@[k]) < dlc * 8,
                n == signals@.len(),
                0 <= a < n,
                a + 1 <= b <= n,
                s1 == signals@[a as int],
                (lsb1 as int, msb1 as int) == bit_span(s1.start_bit, s1.length, s1.byte_order),
                forall|k: int| 0 <= k < n ==> #[trigger] layout_computable(signals@[k]),
                forall|x: int, y: int|
                    0 <= x < y < n && x < a ==> !#[trigger] signals_clash(signals@[x], signals@[y]),
                forall|y: int| a < y < b ==> !#[trigger] signals_clash(signals@[a as int], signals@[y]),
            decreases n - b,
        {
            let s2 = signals[b];
            proof {
                assert(layout_computable(signals@[b as int]));
            }
            let (lsb2, msb2) = bit_range(s2.start_bit, s2.length, s2.byte_order);
            if lsb1 <= msb2 && lsb2 <= msb1 {
                let both_multiplexed = s1.multiplexer_switch_value.is_some()
                    && s2.multiplexer_switch_value.is_some();
                if !both_multiplexed {
                    proof {
                        assert(signals_clash(signals@[a as int], signals@[b as int]));
                    }
                    return Err(Error::Validation(Error::SIGNAL_OVERLAP));
                }
            }
            b = b + 1;
        }
        a = a + 1;
    }
    Ok(())
}

/// What a message header says: identifier, name, DLC and sender.
pub open spec fn header_view(h: MessageHeader) -> (u32, Seq<char>, u8, Seq<char>) {
    (h.id, h.name@, h.dlc, h.sender@)
}

/// A result carrying a message header, seen through what it says.
pub open spec fn header_result_view(r: Result<MessageHeader>) -> Result<(u32, Seq<char>, u8, Seq<char>)> {
    match r {
        Ok(h) => Ok(header_view(h)),
        Err(e) => Err(e),
    }
}

/// The identifier at `p` is followed by a name at `q`: where the name ends,
/// and whether one is there (a letter or underscore, then identifier
/// characters up to a delimiter or the end of input).
pub open spec fn name_at(s: Seq<u8>, q: int) -> (bool, int) {
    let e = ident_end(s, q + 1);
    (0 <= q < s.len() && is_ident_start(s[q]) && (e >= s.len() || is_ident_delimiter(s[e])), e)
}

/// Reading a message header at `p`: `BO_`, spaces, the identifier (a `u32`),
/// at least one space, the name, spaces, a colon, spaces, the DLC (a `u8`),
/// at least one space and the sender; nothing but blanks may follow. The
/// message, with its signals `signals`, must keep the rules of
/// `message_problem`, and its name and sender must fit in `MAX_NAME_SIZE`
/// bytes.
pub open spec fn message_header(s: Seq<u8>, p: int, signals: Seq<SignalLayout>) -> Result<
    (u32, Seq<char>, u8, Seq<char>),
> {
    let kw = BO_.spec_bytes();
    if !matches_at(s, p, kw) {
        Err(Error::Expected("Expected BO_ keyword"))
    } else {
        let a = crate::parser::spaces_end(s, p + kw.len());
        let e1 = digits_end(s, a);
        let v1 = digits_value(s.subrange(a, e1));
        if e1 == a || v1 > u32::MAX {
            Err(Error::Message(Error::MESSAGE_INVALID_ID))
        } else if !(e1 < s.len() && s[e1] == 32) {
            Err(Error::Expected("Expected whitespace"))
        } else {
            let b = crate::parser::spaces_end(s, e1);
            let (has_name, ne) = name_at(s, b);
            if !has_name {
                Err(Error::Message(Error::MESSAGE_NAME_EMPTY))
            } else {
                let c = crate::parser::spaces_end(s, ne);
                if !(c < s.len() && s[c] == 58) {
                    Err(Error::Expected("Expected colon"))
                } else {
                    let d = crate::parser::spaces_end(s, c + 1);
                    let e2 = digits_end(s, d);
                    let v2 = digits_value(s.subrange(d, e2));
                    if e2 == d || v2 > u8::MAX {
                        Err(Error::Message(Error::MESSAGE_INVALID_DLC))
                    } else if !(e2 < s.len() && s[e2] == 32) {
                        Err(Error::Expected("Expected whitespace"))
                    } else {
                        let f = crate::parser::spaces_end(s, e2);
                        let (has_sender, se) = name_at(s, f);
                        if !has_sender {
                            Err(Error::Message(Error::MESSAGE_SENDER_EMPTY))
                        } else if blank_end(s, se) < s.len() {
                            Err(Error::Expected("Unexpected content after message sender"))
                        } else {
                            let id = v1 as u32;
                            let name = ascii_chars(s.subrange(b, ne));
                            let dlc = v2 as u8;
                            let sender = ascii_chars(s.subrange(f, se));
                            match message_problem(id, name, dlc, sender, signals) {
                                Some(m) => Err(Error::Message(m)),
                                None => if ne - b > crate::MAX_NAME_SIZE || se - f
                                    > crate::MAX_NAME_SIZE {
                                    Err(Error::Expected(Error::MAX_NAME_SIZE_EXCEEDED))
                                } else {
                                    Ok((id, name, dlc, sender))
                                },
                            }
                        }
                    }
                }
            }
        }
    }
}

/// The identifier, name, DLC and sender of a message.
#[derive(Debug, Clone, PartialEq, Eq)]
pub struct MessageHeader {
    pub id: u32,
    pub name: String,
    pub dlc: u8,
    pub sender: String,
}

/// `Message(MESSAGE_NAME_EMPTY)`, for a header without a name.
fn message_name_error() -> (r: Error)
    ensures
        r == Error::Message(Error::MESSAGE_NAME_EMPTY),
{
    Error::Message(Error::MESSAGE_NAME_EMPTY)
}

/// `Message(MESSAGE_SENDER_EMPTY)`, for a header without a sender.
fn message_sender_error() -> (r: Error)
    ensures
        r == Error::Message(Error::MESSAGE_SENDER_EMPTY),
{
    Error::Message(Error::MESSAGE_SENDER_EMPTY)
}

/// `Message(msg)`.
fn message_error(msg: &'static str) -> (r: Error)
    ensures
        r == Error::Message(msg),
{
    Error::Message(msg)
}

/// `Message(MESSAGE_ERROR_PREFIX)`, for an error that names no detail.
fn message_error_fallback() -> (r: Error)
    ensures
        r == Error::Message(Error::MESSAGE_ERROR_PREFIX),
{
    Error::Message(Error::MESSAGE_ERROR_PREFIX)
}

impl MessageHeader {
    /// Reads a message header as `message_header` says, checking the message
    /// with the signals `signals` that belong to it.
    pub fn parse(parser: &mut Parser, signals: &[SignalLayout]) -> (r: Result<MessageHeader>)
        requires
            old(parser).well_formed(),
            forall|i: int| 0 <= i < signals@.len() ==> #[trigger] layout_computable(signals@[i]),
        ensures
            final(parser).well_formed(),
            final(parser).input == old(parser).input,
            header_result_view(r) == message_header(
                old(parser).input@,
                old(parser).pos as int,
                signals@,
            ),
    {
        let ghost s = parser.input@;
        if parser.expect_bytes(BO_.as_bytes()).is_err() {
            return Err(Error::Expected("Expected BO_ keyword"));
        }
        parser.skip_whitespace_optional();
        proof {
            lemma_digits_end_ge(s, parser.pos as int);
        }
        let id = match parser.parse_u32() {
            Ok(v) => v,
            Err(_) => {
                return Err(Error::Message(Error::MESSAGE_INVALID_ID));
            },
        };
        let ghost e1 = parser.pos as int;
        if parser.skip_spaces().is_err() {
            return Err(Error::Expected("Expected whitespace"));
        }
        proof {
            crate::parser::lemma_spaces_end(s, e1, parser.pos as int);
        }
        proof {
            crate::parser::lemma_ident_end_ge(s, parser.pos + 1);
        }
        let name = match parser.parse_identifier_with_error(message_name_error) {
            Ok(n) => n,
            Err(e) => {
                return Err(e);
            },
        };
        parser.skip_whitespace_optional();
        if !parser.accept_byte(58u8) {
            return Err(Error::Expected("Expected colon"));
        }
        parser.skip_whitespace_optional();
        proof {
            lemma_digits_end_ge(s, parser.pos as int);
        }
        let dlc = match parser.parse_u8() {
            Ok(v) => v,
            Err(_) => {
                return Err(Error::Message(Error::MESSAGE_INVALID_DLC));
            },
        };
        let ghost e2 = parser.pos as int;
        if parser.skip_spaces().is_err() {
            return Err(Error::Expected("Expected whitespace"));
        }
        proof {
            crate::parser::lemma_spaces_end(s, e2, parser.pos as int);
        }
        proof {
            crate::parser::lemma_ident_end_ge(s, parser.pos + 1);
        }
        let sender = match parser.parse_identifier_with_error(message_sender_error) {
            Ok(n) => n,
            Err(e) => {
                return Err(e);
            },
        };
        parser.skip_newlines_and_spaces();
        if !parser.is_empty() {
            return Err(Error::Expected("Unexpected content after message sender"));
        }
        match validate_message(id, name, dlc, sender, signals) {
            Ok(()) => {},
            Err(e) => {
                return Err(map_val_error(e, message_error, message_error_fallback));
            },
        }
        let name = match validate_name(name) {
            Ok(n) => n,
            Err(e) => {
                return Err(e);
            },
        };
        let sender = match validate_name(sender) {
            Ok(n) => n,
            Err(e) => {
                return Err(e);
            },
        };
        Ok(MessageHeader { id, name, dlc, sender })
    }
}

/// The text of a message header: `BO_ id name : dlc sender`.
pub open spec fn message_header_text(id: u32, name: Seq<char>, dlc: u8, sender: Seq<char>) -> Seq<
    char,
> {
    BO_@ + seq![' '] + decimal_chars(id as nat) + seq![' '] + name + " : "@ + decimal_chars(
        dlc as nat,
    ) + seq![' '] + sender
}

/// Writes a message header as `message_header_text` says.
pub fn format_message_header(id: u32, name: &str, dlc: u8, sender: &str) -> (s: String)
    ensures
        s@ == message_header_text(id, name@, dlc, sender@),
{
    let mut s = String::new();
    push_str(&mut s, BO_);
    push_char(&mut s, ' ');
    let t = decimal_string(id as u64);
    push_str(&mut s, t.as_str());
    push_char(&mut s, ' ');
    push_str(&mut s, name);
    push_str(&mut s, " : ");
    let t = decimal_string(dlc as u64);
    push_str(&mut s, t.as_str());
    push_char(&mut s, ' ');
    push_str(&mut s, sender);
    proof {
        assert(s@ =~= message_header_text(id, name@, dlc, sender@));
    }
    s
}

/// Lines, each followed by a line feed.
pub open spec fn lines_text(lines: Seq<Seq<char>>) -> Seq<char>
    decreases lines.len(),
{
    if lines.len() == 0 {
        Seq::empty()
    } else {
        lines_text(lines.drop_last()) + lines.last() + seq!['\n']
    }
}

/// Writes a message in full: its header line, then one line per signal,
/// each line followed by a line feed.
pub fn format_message_full(header: &str, signal_lines: &[String]) -> (s: String)
    ensures
        s@ == header@ + seq!['\n'] + lines_text(crate::nodes::string_views(signal_lines@)),
{
    let mut s = String::new();
    push_str(&mut s, header);
    push_char(&mut s, '\n');
    let ghost head = s@;
    let ghost lines = crate::nodes::string_views(signal_lines@);
    let mut i: usize = 0;
    proof {
        assert(lines.take(0) =~= Seq::<Seq<char>>::empty());
        assert(head + lines_text(lines.take(0)) =~= head);
    }
    while i < signal_lines.len()
        invariant
            lines == crate::nodes::string_views(signal_lines@),
            0 <= i <= signal_lines@.len(),
            s@ == head + lines_text(lines.take(i as int)),
        decreases signal_lines@.len() - i,
    {
        push_str(&mut s, signal_lines[i].as_str());
        push_char(&mut s, '\n');
        i = i + 1;
        proof {
            assert(lines.take(i as int).drop_last() =~= lines.take(i - 1));
            assert(s@ =~= head + lines_text(lines.take(i as int)));
        }
    }
    proof {
        assert(lines.take(i as int) =~= lines);
    }
    s
}

} // verus!
