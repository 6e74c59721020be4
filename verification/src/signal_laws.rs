//! What writing a signal definition and reading it back gives.
use vstd::prelude::*;
use vstd::string::StringSliceAdditionalSpecFns;
use vstd::utf8::{
    char_is_scalar, encode_scalar, encode_utf8, encode_utf8_decode_utf8, encode_utf8_valid_utf8,
    has_width_1_encoding, is_ascii_chars, is_ascii_chars_encode_utf8, is_ascii_chars_nat_bound,
    leading_byte_width_1,
};

use crate::error::Error;
use crate::parser::{ident_end, is_ident_delimiter, is_ident_start, is_ident_char, spaces_end, quote_scan_end, quoted_byte_ok, digits_end, digits_value, is_digit, is_number_delimiter, is_space_or_newline, matches_at, number_body_start, number_scan, blank_end};
use crate::signal::{signal_fields_problem, multiplexer_indicator, signal_head_text, signal_scaling_text, signal_unit_text, signal_line, signal_line_text, RawSignalView, receivers_text, byte_order_char, decimal_text_ok, number_pair, optional_number, signal_position, signal_unit, ByteOrder};
use crate::nodes::joined;
use crate::nodes_laws::{
    is_identifier_text, lemma_ascii_char_byte, lemma_ident_end_run, lemma_joined_layout,
    lemma_joined_ascii, lemma_name_offset_grows, lemma_name_offset_nonneg, name_offset,
};
use crate::receivers::{blanks_end, receiver_names_from, receivers_parse, ReceiverSet};
use crate::{MAX_NAME_SIZE, MAX_NODES, SG_};
use crate::text::{is_blank_text, is_white_space, ascii_chars, decimal_chars, digit_char};

verus! {

/// The bytes of ASCII text, one per character.
pub open spec fn ascii_bytes(t: Seq<char>) -> Seq<u8> {
    Seq::new(t.len(), |i: int| t[i] as u8)
}

/// ASCII text survives the trip to bytes and back, and its UTF-8 encoding is
/// its bytes.
pub(crate) proof fn lemma_ascii_bytes(t: Seq<char>)
    requires
        is_ascii_chars(t),
    ensures
        ascii_chars(ascii_bytes(t)) == t,
        encode_utf8(t) == ascii_bytes(t),
        forall|i: int| 0 <= i < t.len() ==> #[trigger] ascii_bytes(t)[i] < 128,
{
    is_ascii_chars_nat_bound(t);
    is_ascii_chars_encode_utf8(t);
    assert(ascii_chars(ascii_bytes(t)) =~= t) by {
        assert forall|i: int| 0 <= i < t.len() implies #[trigger] ascii_chars(ascii_bytes(t))[i]
            == t[i] by {
            assert((t[i] as int) < 128);
        }
    }
    assert(encode_utf8(t) =~= ascii_bytes(t));
    assert forall|i: int| 0 <= i < t.len() implies #[trigger] ascii_bytes(t)[i] < 128 by {
        assert((t[i] as int) < 128);
    }
}

/// The bytes of two texts written one after the other.
pub(crate) proof fn lemma_ascii_bytes_concat(a: Seq<char>, b: Seq<char>)
    ensures
        ascii_bytes(a + b) == ascii_bytes(a) + ascii_bytes(b),
{
    assert(ascii_bytes(a + b) =~= ascii_bytes(a) + ascii_bytes(b));
}

/// UTF-8 encodes a concatenation piece by piece.
pub(crate) proof fn lemma_encode_concat(a: Seq<char>, b: Seq<char>)
    ensures
        encode_utf8(a + b) == encode_utf8(a) + encode_utf8(b),
    decreases a.len(),
{
    if a.len() == 0 {
        assert(a + b =~= b);
        assert(encode_utf8(a) =~= Seq::<u8>::empty());
        assert(encode_utf8(a) + encode_utf8(b) =~= encode_utf8(b));
    } else {
        assert((a + b).drop_first() =~= a.drop_first() + b);
        assert((a + b)[0] == a[0]);
        lemma_encode_concat(a.drop_first(), b);
        assert(encode_utf8(a + b) =~= encode_utf8(a) + encode_utf8(b));
    }
}

/// A number as the reader takes it: ASCII, an optional sign, then digits
/// with at most one decimal point and at most one exponent (itself with an
/// optional sign), a digit in the mantissa and one in any exponent.
pub open spec fn is_number_text(t: Seq<char>) -> bool {
    let b = ascii_bytes(t);
    &&& t.len() > 0
    &&& is_ascii_chars(t)
    &&& number_scan(b, number_body_start(b, 0), false, false) == (b.len() as int, true)
    &&& decimal_text_ok(b)
}

/// Scanning the bytes `b` of a number that stand at `p` of `s`, followed by a
/// delimiter, stops where they end.
proof fn lemma_number_scan_shift(s: Seq<u8>, p: int, b: Seq<u8>, i: int, d: bool, e: bool)
    requires
        matches_at(s, p, b),
        p + b.len() < s.len(),
        is_number_delimiter(s[p + b.len()]),
        0 <= i <= b.len(),
        number_scan(b, i, d, e) == (b.len() as int, true),
    ensures
        number_scan(s, p + i, d, e) == (p + b.len(), true),
    decreases b.len() - i,
{
    let n = b.len() as int;
    if i < n {
        assert(s[p + i] == s.subrange(p, p + n)[i]);
        let c = b[i];
        if is_digit(c) {
            lemma_number_scan_shift(s, p, b, i + 1, d, e);
        } else if c == 46 && !d && !e {
            lemma_number_scan_shift(s, p, b, i + 1, true, e);
        } else if (c == 101 || c == 69) && !e {
            if i + 1 < n {
                assert(s[p + i + 1] == s.subrange(p, p + n)[i + 1]);
            }
            if i + 1 < n && (b[i + 1] == 43 || b[i + 1] == 45) {
                lemma_number_scan_shift(s, p, b, i + 2, d, true);
            } else {
                lemma_number_scan_shift(s, p, b, i + 1, d, true);
            }
        }
    }
}

/// A number written at `p` of `s` and followed by a delimiter reads back as
/// its own text, ending where it ends.
pub(crate) proof fn lemma_number_read(s: Seq<u8>, p: int, t: Seq<char>)
    requires
        is_number_text(t),
        matches_at(s, p, ascii_bytes(t)),
        p + t.len() < s.len(),
        is_number_delimiter(s[p + t.len()]),
    ensures
        optional_number(s, p) == (
            Ok::<Option<Seq<char>>, Error>(Some(t)),
            p + t.len(),
        ),
        !is_space_or_newline(s[p]),
        blank_end(s, p) == p,
{
    let b = ascii_bytes(t);
    let n = b.len() as int;
    lemma_ascii_bytes(t);
    assert(s[p] == s.subrange(p, p + n)[0]);
    assert(s.subrange(p, p + n) == b);
    let k = number_body_start(b, 0);
    assert(number_body_start(s, p) == p + k);
    lemma_number_scan_shift(s, p, b, k, false, false);
    if is_number_delimiter(b[0]) {
        assert(k == 0);
        assert(number_scan(b, 0, false, false) == (0int, true));
        assert(false);
    }
}

/// Bytes that stand at `p` as a concatenation: each part stands where the
/// parts before it end.
pub(crate) proof fn lemma_matches_split(s: Seq<u8>, p: int, x: Seq<u8>, y: Seq<u8>)
    requires
        matches_at(s, p, x + y),
    ensures
        matches_at(s, p, x),
        matches_at(s, p + x.len(), y),
{
    let w = s.subrange(p, p + x.len() + y.len());
    assert(w == x + y);
    assert forall|i: int| 0 <= i < x.len() implies #[trigger] s.subrange(p, p + x.len())[i]
        == x[i] by {
        assert(w[i] == (x + y)[i]);
    }
    assert(s.subrange(p, p + x.len()) =~= x);
    assert forall|i: int| 0 <= i < y.len() implies #[trigger] s.subrange(
        p + x.len(),
        p + x.len() + y.len(),
    )[i] == y[i] by {
        assert(w[x.len() + i] == (x + y)[x.len() + i]);
    }
    assert(s.subrange(p + x.len(), p + x.len() + y.len()) =~= y);
}

/// The byte at offset `i` of bytes that stand at `p`.
pub(crate) proof fn lemma_matches_index(s: Seq<u8>, p: int, x: Seq<u8>, i: int)
    requires
        matches_at(s, p, x),
        0 <= i < x.len(),
    ensures
        s[p + i] == x[i],
{
    assert(s[p + i] == s.subrange(p, p + x.len())[i]);
}

/// A pair of numbers written as `open`, the first, `sep`, the second and
/// `close` reads back as the two texts.
pub(crate) proof fn lemma_number_pair_read(
    s: Seq<u8>,
    p: int,
    open: u8,
    sep: u8,
    close: u8,
    open_msg: &'static str,
    close_msg: &'static str,
    err_a: Error,
    err_b: Error,
    a: Seq<char>,
    b: Seq<char>,
)
    requires
        is_number_text(a),
        is_number_text(b),
        is_number_delimiter(sep),
        is_number_delimiter(close),
        !is_space_or_newline(close),
        matches_at(
            s,
            p,
            seq![open] + ascii_bytes(a) + seq![sep] + ascii_bytes(b) + seq![close],
        ),
    ensures
        number_pair(s, p, open, sep, close, open_msg, close_msg, err_a, err_b) == (
            Ok::<(Option<Seq<char>>, Option<Seq<char>>), Error>((Some(a), Some(b))),
            p + a.len() + b.len() + 3,
        ),
{
    let ba = ascii_bytes(a);
    let bb = ascii_bytes(b);
    let whole = seq![open] + ba + seq![sep] + bb + seq![close];
    lemma_matches_split(s, p, seq![open] + ba + seq![sep] + bb, seq![close]);
    lemma_matches_split(s, p, seq![open] + ba + seq![sep], bb);
    lemma_matches_split(s, p, seq![open] + ba, seq![sep]);
    lemma_matches_split(s, p, seq![open], ba);
    lemma_matches_index(s, p, seq![open], 0);
    let ae = p + 1 + a.len();
    lemma_matches_index(s, ae, seq![sep], 0);
    let be = ae + 1 + b.len();
    lemma_matches_index(s, be, seq![close], 0);
    assert(be < s.len());
    lemma_number_read(s, p + 1, a);
    lemma_number_read(s, ae + 1, b);
    assert(blank_end(s, be) == be);
}

/// The decimal digits of `n` are ASCII digits whose value is `n`.
pub(crate) proof fn lemma_decimal_digits(n: nat)
    ensures
        decimal_chars(n).len() >= 1,
        is_ascii_chars(decimal_chars(n)),
        forall|i: int|
            0 <= i < decimal_chars(n).len() ==> is_digit(#[trigger] ascii_bytes(decimal_chars(n))[i]),
        digits_value(ascii_bytes(decimal_chars(n))) == n,
    decreases n,
{
    let d = n % 10;
    assert(digit_char(d) as u8 == 48 + d && '\0' <= digit_char(d) <= '\u{7f}') by {
        if d == 0 {
        } else if d == 1 {
        } else if d == 2 {
        } else if d == 3 {
        } else if d == 4 {
        } else if d == 5 {
        } else if d == 6 {
        } else if d == 7 {
        } else if d == 8 {
        } else {
            assert(d == 9);
        }
    }
    if n < 10 {
        let b = ascii_bytes(decimal_chars(n));
        assert(b.drop_last() =~= Seq::<u8>::empty());
        assert(digits_value(b.drop_last()) == 0);
    } else {
        lemma_decimal_digits(n / 10);
        let c = decimal_chars(n);
        let prev = decimal_chars(n / 10);
        assert(c == prev.push(digit_char(d)));
        let b = ascii_bytes(c);
        assert(b.drop_last() =~= ascii_bytes(prev));
        assert(b.last() == 48 + d);
        assert(is_ascii_chars(c)) by {
            assert forall|i: int| 0 <= i < c.len() implies '\0' <= #[trigger] c[i] <= '\u{7f}' by {
                if i < prev.len() {
                    assert(c[i] == prev[i]);
                }
            }
        }
        assert forall|i: int| 0 <= i < c.len() implies is_digit(#[trigger] b[i]) by {
            if i < prev.len() {
                assert(b[i] == ascii_bytes(prev)[i]);
            }
        }
        assert(digits_value(b) == digits_value(b.drop_last()) * 10 + (b.last() - 48) as nat);
        assert(n == (n / 10) * 10 + d);
    }
}

/// A run of digits from `i` that stops at `j` ends at `digits_end(s, i)`.
proof fn lemma_digits_end_run(s: Seq<u8>, i: int, j: int)
    requires
        0 <= i <= j <= s.len(),
        forall|k: int| i <= k < j ==> is_digit(#[trigger] s[k]),
        j < s.len() ==> !is_digit(s[j]),
    ensures
        digits_end(s, i) == j,
    decreases j - i,
{
    if i < j {
        lemma_digits_end_run(s, i + 1, j);
    }
}

/// The decimal digits of `n` written at `p` of `s` and followed by a
/// non-digit read back as `n`, ending where they end.
pub(crate) proof fn lemma_decimal_read(s: Seq<u8>, p: int, n: nat)
    requires
        matches_at(s, p, ascii_bytes(decimal_chars(n))),
        p + decimal_chars(n).len() < s.len(),
        !is_digit(s[p + decimal_chars(n).len()]),
    ensures
        digits_end(s, p) == p + decimal_chars(n).len(),
        digits_value(s.subrange(p, p + decimal_chars(n).len())) == n,
{
    lemma_decimal_digits(n);
    let b = ascii_bytes(decimal_chars(n));
    assert forall|k: int| p <= k < p + b.len() implies is_digit(#[trigger] s[k]) by {
        lemma_matches_index(s, p, b, k - p);
    }
    lemma_digits_end_run(s, p, p + b.len());
}

/// A signal's position, `start|length@order sign`.
pub open spec fn position_text(start_bit: u16, length: u16, byte_order: ByteOrder, unsigned: bool) -> Seq<char> {
    decimal_chars(start_bit as nat) + seq!['|'] + decimal_chars(length as nat) + seq![
        '@',
        byte_order_char(byte_order),
        if unsigned {
            '+'
        } else {
            '-'
        },
    ]
}

/// A position written at `p` reads back as itself.
pub(crate) proof fn lemma_position_read(
    s: Seq<u8>,
    p: int,
    start_bit: u16,
    length: u16,
    byte_order: ByteOrder,
    unsigned: bool,
)
    requires
        start_bit <= 511,
        matches_at(s, p, ascii_bytes(position_text(start_bit, length, byte_order, unsigned))),
    ensures
        signal_position(s, p) == (
            Ok::<(u16, u16, ByteOrder, bool), Error>((start_bit, length, byte_order, unsigned)),
            p + position_text(start_bit, length, byte_order, unsigned).len(),
        ),
{
    let d1 = decimal_chars(start_bit as nat);
    let d2 = decimal_chars(length as nat);
    let o = byte_order_char(byte_order);
    let sg = if unsigned {
        '+'
    } else {
        '-'
    };
    let tail = seq!['@', o, sg];
    let t = position_text(start_bit, length, byte_order, unsigned);
    assert(t == d1 + seq!['|'] + d2 + tail);
    lemma_ascii_bytes_concat(d1 + seq!['|'] + d2, tail);
    lemma_ascii_bytes_concat(d1 + seq!['|'], d2);
    lemma_ascii_bytes_concat(d1, seq!['|']);
    lemma_matches_split(s, p, ascii_bytes(d1 + seq!['|'] + d2), ascii_bytes(tail));
    lemma_matches_split(s, p, ascii_bytes(d1 + seq!['|']), ascii_bytes(d2));
    lemma_matches_split(s, p, ascii_bytes(d1), ascii_bytes(seq!['|']));
    let e1 = p + d1.len();
    let e2 = e1 + 1 + d2.len();
    lemma_matches_index(s, e1, ascii_bytes(seq!['|']), 0);
    assert(s[e1] == 124);
    lemma_matches_index(s, e2, ascii_bytes(tail), 0);
    lemma_matches_index(s, e2, ascii_bytes(tail), 1);
    lemma_matches_index(s, e2, ascii_bytes(tail), 2);
    assert(s[e2] == 64);
    lemma_decimal_read(s, p, start_bit as nat);
    lemma_decimal_read(s, e1 + 1, length as nat);
    assert(start_bit as int as u16 == start_bit);
    assert(length as int as u16 == length);
    match byte_order {
        ByteOrder::BigEndian => assert(s[e2 + 1] == 48),
        ByteOrder::LittleEndian => assert(s[e2 + 1] == 49),
    }
    if unsigned {
        assert(s[e2 + 2] == 43);
    } else {
        assert(s[e2 + 2] == 45);
    }
}

/// May stand in a written unit: printable, and neither a double quote nor a
/// backslash.
pub open spec fn is_unit_char(c: char) -> bool {
    c != '"' && c != '\\' && ' ' <= c && c != '\u{7f}'
}

/// A unit that reads back as itself: not empty, of characters that may stand
/// in it, and at most `MAX_NAME_SIZE` bytes long.
pub open spec fn is_unit_text(u: Seq<char>) -> bool {
    &&& u.len() > 0
    &&& forall|i: int| 0 <= i < u.len() ==> is_unit_char(#[trigger] u[i])
    &&& encode_utf8(u).len() <= MAX_NAME_SIZE
}

/// May stand between the quotes of a unit as the reader scans it.
pub open spec fn is_unit_byte(b: u8) -> bool {
    b != 34 && quoted_byte_ok(false, false, b) && quoted_byte_ok(false, true, b)
}

/// Every byte of the UTF-8 encoding of a unit character may stand in a unit.
proof fn lemma_unit_char_bytes(c: char)
    requires
        is_unit_char(c),
    ensures
        forall|i: int|
            0 <= i < encode_scalar(c as u32).len() ==> is_unit_byte(
                #[trigger] encode_scalar(c as u32)[i],
            ),
{
    let v = c as u32;
    char_is_scalar(c);
    if has_width_1_encoding(v) {
        assert(leading_byte_width_1(v) == v as u8) by (bit_vector)
            requires
                v <= 0x7f,
        ;
        assert(v != 34 && v != 92 && v >= 32 && v != 127);
    } else {
        assert forall|y: u8| #[trigger] (0xC0u8 | y) >= 128 by {
            assert((0xC0u8 | y) >= 128) by (bit_vector);
        }
        assert forall|y: u8| #[trigger] (0xE0u8 | y) >= 128 by {
            assert((0xE0u8 | y) >= 128) by (bit_vector);
        }
        assert forall|y: u8| #[trigger] (0xF0u8 | y) >= 128 by {
            assert((0xF0u8 | y) >= 128) by (bit_vector);
        }
        assert forall|y: u8| #[trigger] (0x80u8 | y) >= 128 by {
            assert((0x80u8 | y) >= 128) by (bit_vector);
        }
    }
}

/// Every byte of the UTF-8 encoding of a unit may stand in a unit.
proof fn lemma_unit_bytes(u: Seq<char>)
    requires
        forall|i: int| 0 <= i < u.len() ==> is_unit_char(#[trigger] u[i]),
    ensures
        forall|i: int| 0 <= i < encode_utf8(u).len() ==> is_unit_byte(#[trigger] encode_utf8(u)[i]),
    decreases u.len(),
{
    if u.len() > 0 {
        let rest = u.drop_first();
        assert forall|i: int| 0 <= i < rest.len() implies is_unit_char(#[trigger] rest[i]) by {
            assert(rest[i] == u[i + 1]);
        }
        lemma_unit_bytes(rest);
        lemma_unit_char_bytes(u[0]);
        let head = encode_scalar(u[0] as u32);
        assert(encode_utf8(u) == head + encode_utf8(rest));
        assert forall|i: int| 0 <= i < encode_utf8(u).len() implies is_unit_byte(
            #[trigger] encode_utf8(u)[i],
        ) by {
            if i < head.len() {
                assert(encode_utf8(u)[i] == head[i]);
            } else {
                assert(encode_utf8(u)[i] == encode_utf8(rest)[i - head.len()]);
            }
        }
    }
}

/// Scanning a unit's bytes from `i` stops at the closing quote.
proof fn lemma_quote_scan_unit(s: Seq<u8>, start: int, b: Seq<u8>, i: int)
    requires
        matches_at(s, start, b),
        b.len() <= MAX_NAME_SIZE,
        start + b.len() < s.len(),
        s[start + b.len()] == 34,
        forall|k: int| 0 <= k < b.len() ==> is_unit_byte(#[trigger] b[k]),
        start <= i <= start + b.len(),
    ensures
        quote_scan_end(s, start, i, false, MAX_NAME_SIZE as int) == start + b.len(),
    decreases start + b.len() - i,
{
    if i < start + b.len() {
        lemma_matches_index(s, start, b, i - start);
        assert(is_unit_byte(b[i - start]));
        lemma_quote_scan_unit(s, start, b, i + 1);
    }
}

/// The written unit, `"` and the unit's bytes and `"`, reads back as the unit
/// (an empty one as none).
pub(crate) proof fn lemma_unit_read(s: Seq<u8>, p: int, unit: Option<Seq<char>>)
    requires
        unit matches Some(u) ==> is_unit_text(u),
        matches_at(
            s,
            p,
            seq![34u8] + encode_utf8(
                match unit {
                    Some(u) => u,
                    None => Seq::empty(),
                },
            ) + seq![34u8],
        ),
    ensures
        signal_unit(s, p) == (
            Ok::<Option<Seq<char>>, Error>(unit),
            p + encode_utf8(
                match unit {
                    Some(u) => u,
                    None => Seq::empty(),
                },
            ).len() + 2,
        ),
{
    let u = match unit {
        Some(u) => u,
        None => Seq::<char>::empty(),
    };
    let b = encode_utf8(u);
    lemma_matches_split(s, p, seq![34u8] + b, seq![34u8]);
    lemma_matches_split(s, p, seq![34u8], b);
    lemma_matches_index(s, p, seq![34u8], 0);
    let q = p + 1 + b.len();
    lemma_matches_index(s, q, seq![34u8], 0);
    lemma_unit_bytes(u);
    lemma_quote_scan_unit(s, p + 1, b, p + 1);
    assert(s.subrange(p + 1, q) == b);
    encode_utf8_valid_utf8(u);
    encode_utf8_decode_utf8(u);
    if unit is None {
        assert(b =~= Seq::<u8>::empty());
    } else {
        assert(b.len() > 0) by {
            assert(u.len() > 0);
            assert(b == encode_scalar(u[0] as u32) + encode_utf8(u.drop_first()));
        }
    }
}

/// Receivers that read back as themselves: broadcast, none, or between one
/// and `MAX_NODES - 1` identifiers of at most `MAX_NAME_SIZE` bytes each.
pub open spec fn is_receivers_text_ok(r: ReceiverSet) -> bool {
    match r {
        ReceiverSet::Nodes(names) => {
            &&& 1 <= names.len() <= MAX_NODES - 1
            &&& forall|i: int| 0 <= i < names.len() ==> #[trigger] is_identifier_text(names[i])
            &&& forall|i: int| 0 <= i < names.len() ==> #[trigger] names[i].len() <= MAX_NAME_SIZE
        },
        _ => true,
    }
}

/// Reading receiver names from the start of the list (`k == 0`) or from the
/// end of name `k - 1` of names laid out from `base` to the end of `s` gives
/// every name.
proof fn lemma_read_receivers(s: Seq<u8>, base: int, names: Seq<Seq<char>>, k: int)
    requires
        0 <= k < names.len(),
        names.len() <= MAX_NODES - 1,
        base >= 0,
        forall|i: int| 0 <= i < names.len() ==> #[trigger] is_identifier_text(names[i]),
        forall|i: int| 0 <= i < names.len() ==> #[trigger] names[i].len() <= MAX_NAME_SIZE,
        s.len() == base + name_offset(names, names.len() as int) - 1,
        forall|j: int, i: int|
            0 <= j < names.len() && 0 <= i < names[j].len() ==> s[base + name_offset(names, j) + i]
                == (#[trigger] names[j][i]) as u8,
        forall|j: int|
            0 <= j < names.len() - 1 ==> s[base + #[trigger] name_offset(names, j)
                + names[j].len()] == 32,
    ensures
        receiver_names_from(
            s,
            if k == 0 {
                base
            } else {
                base + name_offset(names, k) - 1
            },
            names.take(k),
        ) == (Ok::<Seq<Seq<char>>, Error>(names), s.len() as int),
    decreases names.len() - k,
{
    let len = names.len() as int;
    let i = if k == 0 {
        base
    } else {
        base + name_offset(names, k) - 1
    };
    let q = base + name_offset(names, k);
    let n = names[k];
    lemma_name_offset_grows(names, k, len);
    lemma_name_offset_nonneg(names, k);
    assert(is_identifier_text(n));
    assert(s[q + 0] == n[0] as u8);
    if k > 0 {
        lemma_name_offset_nonneg(names, k - 1);
        assert(name_offset(names, k) == name_offset(names, k - 1) + names[k - 1].len() + 1);
        assert(s[base + name_offset(names, k - 1) + names[k - 1].len()] == 32);
        assert(blanks_end(s, i + 1) == q);
        assert(blanks_end(s, i) == q);
    } else {
        assert(blanks_end(s, i) == q);
    }
    let e = q + n.len();
    assert forall|m: int| q + 1 <= m < e implies is_ident_char(s[m]) by {
        assert(s[base + name_offset(names, k) + (m - q)] == n[m - q] as u8);
        assert(is_ident_char(n[m - q] as u8));
    }
    if k + 1 < len {
        assert(s[base + name_offset(names, k) + names[k].len()] == 32);
        lemma_name_offset_grows(names, k + 1, len);
        assert(name_offset(names, k + 1) == name_offset(names, k) + names[k].len() + 1);
    } else {
        assert(name_offset(names, k + 1) == name_offset(names, k) + names[k].len() + 1);
        assert(e == s.len());
    }
    lemma_ident_end_run(s, q + 1, e);
    assert(ascii_chars(s.subrange(q, e)) =~= n) by {
        assert forall|m: int| 0 <= m < n.len() implies #[trigger] ascii_chars(s.subrange(q, e))[m]
            == n[m] by {
            assert(s[base + name_offset(names, k) + m] == n[m] as u8);
            is_ascii_chars_nat_bound(n);
            lemma_ascii_char_byte(n[m]);
        }
    }
    assert(names.take(k).push(n) =~= names.take(k + 1));
    if k + 1 < len {
        lemma_read_receivers(s, base, names, k + 1);
    } else {
        assert(names.take(k + 1) =~= names);
    }
}

/// Receivers written at `p` to the end of `s` read back as themselves.
pub(crate) proof fn lemma_receivers_read(s: Seq<u8>, p: int, r: ReceiverSet)
    requires
        is_receivers_text_ok(r),
        0 <= p,
        matches_at(s, p, ascii_bytes(receivers_text(r))),
        p + receivers_text(r).len() == s.len(),
    ensures
        receivers_parse(s, spaces_end(s, p)) == (Ok::<ReceiverSet, Error>(r), s.len() as int),
{
    let t = receivers_text(r);
    match r {
        ReceiverSet::Broadcast => {
            lemma_matches_index(s, p, ascii_bytes(t), 0);
            lemma_matches_index(s, p, ascii_bytes(t), 1);
            assert(s[p] == 32 && s[p + 1] == 42);
            assert(spaces_end(s, p + 1) == p + 1);
            assert(blanks_end(s, p + 1) == p + 1);
        },
        ReceiverSet::Unspecified => {
            assert(spaces_end(s, p) == p);
            assert(blanks_end(s, p) == p);
        },
        ReceiverSet::Nodes(names) => {
            let len = names.len() as int;
            let jn = joined(names);
            lemma_joined_layout(names, len);
            assert(names.take(len) =~= names);
            assert(joined(names.take(len)) == jn);
            assert(t == seq![' '] + jn);
            let base = p + 1;
            assert forall|x: int| 0 <= x < jn.len() implies s[base + x] == (#[trigger] jn[x]) as u8 by {
                lemma_matches_index(s, p, ascii_bytes(t), x + 1);
                assert(t[x + 1] == jn[x]);
            }
            assert forall|j: int, i: int|
                0 <= j < len && 0 <= i < names[j].len() implies s[base + name_offset(names, j)
                + i] == (#[trigger] names[j][i]) as u8 by {
                lemma_name_offset_grows(names, j, len);
                let x = name_offset(names, j) + i;
                assert(0 <= x < jn.len());
                assert(jn[x] == names[j][i]);
            }
            assert forall|j: int| 0 <= j < len - 1 implies s[base + #[trigger] name_offset(
                names,
                j,
            ) + names[j].len()] == 32 by {
                lemma_name_offset_nonneg(names, j);
                lemma_name_offset_grows(names, j + 1, len);
                assert(name_offset(names, j + 1) == name_offset(names, j) + names[j].len() + 1);
                let x = name_offset(names, j) + names[j].len();
                assert(0 <= x < jn.len());
                assert(jn[x] == ' ');
            }
            lemma_matches_index(s, p, ascii_bytes(t), 0);
            assert(s[p] == 32);
            assert(is_identifier_text(names[0]));
            lemma_name_offset_nonneg(names, 0);
            assert(s[base + name_offset(names, 0) + 0] == names[0][0] as u8);
            assert(spaces_end(s, p + 1) == p + 1);
            assert(spaces_end(s, p) == p + 1);
            assert(blanks_end(s, p + 1) == p + 1);
            assert(names.take(0) =~= Seq::<Seq<char>>::empty());
            lemma_read_receivers(s, base, names, 0);
        },
    }
}

/// Text that stands at `p` as a concatenation: each part stands where the
/// parts before it end.
pub(crate) proof fn lemma_matches_chars_split(s: Seq<u8>, p: int, x: Seq<char>, y: Seq<char>)
    requires
        matches_at(s, p, ascii_bytes(x + y)),
    ensures
        matches_at(s, p, ascii_bytes(x)),
        matches_at(s, p + x.len(), ascii_bytes(y)),
{
    lemma_ascii_bytes_concat(x, y);
    lemma_matches_split(s, p, ascii_bytes(x), ascii_bytes(y));
}

/// The head of a written signal definition: ` SG_ name : `.
pub open spec fn line_head(name: Seq<char>) -> Seq<char> {
    seq![' ', 'S', 'G', '_', ' '] + name + seq![' ', ':', ' ']
}

/// The position and scaling of a written signal definition, up to its
/// unit's opening quote: `position (factor,offset) [min|max] `.
pub open spec fn line_scaling(
    start_bit: u16,
    length: u16,
    byte_order: ByteOrder,
    unsigned: bool,
    factor: Seq<char>,
    offset: Seq<char>,
    min: Seq<char>,
    max: Seq<char>,
) -> Seq<char> {
    position_text(start_bit, length, byte_order, unsigned) + seq![' '] + (seq!['('] + factor
        + seq![','] + offset + seq![')']) + seq![' '] + (seq!['['] + min + seq!['|'] + max + seq![
        ']',
    ]) + seq![' ']
}

/// The part of a written signal definition before its unit's opening quote.
pub open spec fn line_front(
    name: Seq<char>,
    start_bit: u16,
    length: u16,
    byte_order: ByteOrder,
    unsigned: bool,
    factor: Seq<char>,
    offset: Seq<char>,
    min: Seq<char>,
    max: Seq<char>,
) -> Seq<char> {
    line_head(name) + line_scaling(start_bit, length, byte_order, unsigned, factor, offset, min, max)
}

/// A written signal definition is its front, its quoted unit and its receivers.
proof fn lemma_line_parts(
    name: Seq<char>,
    start_bit: u16,
    length: u16,
    byte_order: ByteOrder,
    unsigned: bool,
    factor: Seq<char>,
    offset: Seq<char>,
    min: Seq<char>,
    max: Seq<char>,
    unit: Option<Seq<char>>,
    receivers: ReceiverSet,
)
    ensures
        signal_line_text(
            name,
            start_bit,
            length,
            byte_order,
            unsigned,
            factor,
            offset,
            min,
            max,
            unit,
            receivers,
        ) == line_front(name, start_bit, length, byte_order, unsigned, factor, offset, min, max)
            + (seq!['"'] + match unit {
            Some(u) => u,
            None => Seq::<char>::empty(),
        } + seq!['"']) + receivers_text(receivers),
{
    reveal_strlit(" SG_ ");
    reveal_strlit(" : ");
    reveal_strlit(" (");
    reveal_strlit(" [");
    assert(signal_head_text(name, start_bit, length, byte_order, unsigned) =~= seq![
        ' ',
        'S',
        'G',
        '_',
        ' ',
    ] + name + seq![' ', ':', ' '] + position_text(start_bit, length, byte_order, unsigned));
    assert(signal_scaling_text(factor, offset, min, max) =~= seq![' '] + (seq!['('] + factor
        + seq![','] + offset + seq![')']) + seq![' '] + (seq!['['] + min + seq!['|'] + max + seq![
        ']',
    ]));
    let u = match unit {
        Some(u) => u,
        None => Seq::<char>::empty(),
    };
    assert(signal_unit_text(unit) =~= seq![' '] + (seq!['"'] + u + seq!['"']));
    assert(signal_line_text(
        name,
        start_bit,
        length,
        byte_order,
        unsigned,
        factor,
        offset,
        min,
        max,
        unit,
        receivers,
    ) =~= line_front(name, start_bit, length, byte_order, unsigned, factor, offset, min, max) + (
    seq!['"'] + u + seq!['"']) + receivers_text(receivers));
}


/// Two ASCII texts written one after the other are ASCII.
pub(crate) proof fn lemma_ascii_concat(a: Seq<char>, b: Seq<char>)
    requires
        is_ascii_chars(a),
        is_ascii_chars(b),
    ensures
        is_ascii_chars(a + b),
{
    assert forall|i: int| 0 <= i < (a + b).len() implies '\0' <= #[trigger] (a + b)[i]
        <= '\u{7f}' by {
        if i < a.len() {
            assert((a + b)[i] == a[i]);
        } else {
            assert((a + b)[i] == b[i - a.len()]);
        }
    }
}

/// The front of a written signal definition is ASCII.
proof fn lemma_front_ascii(
    name: Seq<char>,
    start_bit: u16,
    length: u16,
    byte_order: ByteOrder,
    unsigned: bool,
    factor: Seq<char>,
    offset: Seq<char>,
    min: Seq<char>,
    max: Seq<char>,
)
    requires
        is_ascii_chars(name),
        is_ascii_chars(factor),
        is_ascii_chars(offset),
        is_ascii_chars(min),
        is_ascii_chars(max),
    ensures
        is_ascii_chars(line_front(name, start_bit, length, byte_order, unsigned, factor, offset, min, max)),
{
    lemma_decimal_digits(start_bit as nat);
    lemma_decimal_digits(length as nat);
    let d1 = decimal_chars(start_bit as nat);
    let d2 = decimal_chars(length as nat);
    let tail = seq![
        '@',
        byte_order_char(byte_order),
        if unsigned {
            '+'
        } else {
            '-'
        },
    ];
    assert(is_ascii_chars(tail)) by {
        assert forall|i: int| 0 <= i < tail.len() implies '\0' <= #[trigger] tail[i] <= '\u{7f}' by {
            match byte_order {
                ByteOrder::BigEndian => {},
                ByteOrder::LittleEndian => {},
            }
        }
    }
    let bar = seq!['|'];
    assert(is_ascii_chars(bar));
    lemma_ascii_concat(d1, bar);
    lemma_ascii_concat(d1 + bar, d2);
    lemma_ascii_concat(d1 + bar + d2, tail);
    let pos = position_text(start_bit, length, byte_order, unsigned);
    assert(pos == d1 + bar + d2 + tail);
    let c1 = seq![' ', 'S', 'G', '_', ' '];
    let c2 = seq![' ', ':', ' '];
    let sp = seq![' '];
    assert(is_ascii_chars(c1));
    assert(is_ascii_chars(c2));
    assert(is_ascii_chars(sp));
    assert(is_ascii_chars(seq!['(']));
    assert(is_ascii_chars(seq![',']));
    assert(is_ascii_chars(seq![')']));
    assert(is_ascii_chars(seq!['[']));
    assert(is_ascii_chars(seq![']']));
    lemma_ascii_concat(seq!['('], factor);
    lemma_ascii_concat(seq!['('] + factor, seq![',']);
    lemma_ascii_concat(seq!['('] + factor + seq![','], offset);
    lemma_ascii_concat(seq!['('] + factor + seq![','] + offset, seq![')']);
    let fo = seq!['('] + factor + seq![','] + offset + seq![')'];
    lemma_ascii_concat(seq!['['], min);
    lemma_ascii_concat(seq!['['] + min, bar);
    lemma_ascii_concat(seq!['['] + min + bar, max);
    lemma_ascii_concat(seq!['['] + min + bar + max, seq![']']);
    let mm = seq!['['] + min + seq!['|'] + max + seq![']'];
    lemma_ascii_concat(c1, name);
    lemma_ascii_concat(c1 + name, c2);
    lemma_ascii_concat(pos, sp);
    lemma_ascii_concat(pos + sp, fo);
    lemma_ascii_concat(pos + sp + fo, sp);
    lemma_ascii_concat(pos + sp + fo + sp, mm);
    lemma_ascii_concat(pos + sp + fo + sp + mm, sp);
    lemma_ascii_concat(
        line_head(name),
        line_scaling(start_bit, length, byte_order, unsigned, factor, offset, min, max),
    );
}

/// Written receivers are ASCII.
proof fn lemma_receivers_ascii(r: ReceiverSet)
    requires
        is_receivers_text_ok(r),
    ensures
        is_ascii_chars(receivers_text(r)),
{
    let rt = receivers_text(r);
    match r {
        ReceiverSet::Nodes(names) => {
            lemma_joined_ascii(names);
            lemma_ascii_concat(seq![' '], joined(names));
        },
        _ => {},
    }
}


/// Reading the head of a written signal definition, up to its position:
/// `SG_`, the name, no multiplexer indicator, the colon.
proof fn lemma_head_read(s: Seq<u8>, name: Seq<char>)
    requires
        is_identifier_text(name),
        matches_at(s, 0, ascii_bytes(line_head(name))),
        s.len() > 8 + (name.len() as int),
        is_digit(s[8 + (name.len() as int)]),
    ensures
        matches_at(s, 1, SG_.spec_bytes()),
        blank_end(s, 1 + SG_.spec_bytes().len() as int) == 5,
        is_ident_start(s[5]),
        ident_end(s, 6) == 5 + (name.len() as int),
        is_ident_delimiter(s[5 + (name.len() as int)]),
        ascii_chars(s.subrange(5, 5 + (name.len() as int))) == name,
        blank_end(s, 5 + (name.len() as int)) == 6 + (name.len() as int),
        multiplexer_indicator(s, 6 + (name.len() as int)) == (
            Ok::<(bool, Option<u64>), Error>((false, None)),
            6 + (name.len() as int),
        ),
        s[6 + (name.len() as int)] == 58,
        blank_end(s, 7 + (name.len() as int)) == 8 + (name.len() as int),
{
    reveal_strlit("SG_");
    let c1 = seq![' ', 'S', 'G', '_', ' '];
    let c2 = seq![' ', ':', ' '];
    lemma_matches_chars_split(s, 0, c1 + name, c2);
    lemma_matches_chars_split(s, 0, c1, name);
    let n = name.len() as int;
    assert(is_ascii_chars(SG_@));
    is_ascii_chars_encode_utf8(SG_@);
    assert(SG_.spec_bytes() =~= seq![83u8, 71u8, 95u8]);
    lemma_matches_index(s, 0, ascii_bytes(c1), 1);
    lemma_matches_index(s, 0, ascii_bytes(c1), 2);
    lemma_matches_index(s, 0, ascii_bytes(c1), 3);
    lemma_matches_index(s, 0, ascii_bytes(c1), 4);
    assert(s.subrange(1, 4) =~= SG_.spec_bytes());
    lemma_matches_index(s, 5, ascii_bytes(name), 0);
    assert(s[5] == name[0] as u8);
    assert(blank_end(s, 5) == 5);
    assert(blank_end(s, 4) == 5);
    lemma_matches_index(s, 5 + n, ascii_bytes(c2), 0);
    lemma_matches_index(s, 5 + n, ascii_bytes(c2), 1);
    lemma_matches_index(s, 5 + n, ascii_bytes(c2), 2);
    assert(s[5 + n] == 32 && s[6 + n] == 58 && s[7 + n] == 32);
    assert forall|m: int| 6 <= m < 5 + n implies is_ident_char(s[m]) by {
        lemma_matches_index(s, 5, ascii_bytes(name), m - 5);
        assert(is_ident_char(name[m - 5] as u8));
    }
    lemma_ident_end_run(s, 6, 5 + n);
    assert(ascii_chars(s.subrange(5, 5 + n)) =~= name) by {
        assert forall|m: int| 0 <= m < n implies #[trigger] ascii_chars(s.subrange(5, 5 + n))[m]
            == name[m] by {
            lemma_matches_index(s, 5, ascii_bytes(name), m);
            is_ascii_chars_nat_bound(name);
            lemma_ascii_char_byte(name[m]);
        }
    }
    assert(blank_end(s, 6 + n) == 6 + n);
    assert(blank_end(s, 8 + n) == 8 + n);
}


/// The bytes of `open`, a text, `sep`, a text and `close`.
proof fn lemma_pair_bytes(open: char, a: Seq<char>, sep: char, b: Seq<char>, close: char)
    ensures
        ascii_bytes(seq![open] + a + seq![sep] + b + seq![close]) == seq![open as u8] + ascii_bytes(a)
            + seq![sep as u8] + ascii_bytes(b) + seq![close as u8],
{
    lemma_ascii_bytes_concat(seq![open] + a + seq![sep] + b, seq![close]);
    lemma_ascii_bytes_concat(seq![open] + a + seq![sep], b);
    lemma_ascii_bytes_concat(seq![open] + a, seq![sep]);
    lemma_ascii_bytes_concat(seq![open], a);
    assert(ascii_bytes(seq![open]) =~= seq![open as u8]);
    assert(ascii_bytes(seq![sep]) =~= seq![sep as u8]);
    assert(ascii_bytes(seq![close]) =~= seq![close as u8]);
}

/// Reading the position and scaling of a written signal definition, up to
/// its unit.
proof fn lemma_scaling_read(
    s: Seq<u8>,
    p: int,
    start_bit: u16,
    length: u16,
    byte_order: ByteOrder,
    unsigned: bool,
    factor: Seq<char>,
    offset: Seq<char>,
    min: Seq<char>,
    max: Seq<char>,
)
    requires
        start_bit <= 511,
        is_number_text(factor),
        is_number_text(offset),
        is_number_text(min),
        is_number_text(max),
        p >= 0,
        matches_at(
            s,
            p,
            ascii_bytes(
                line_scaling(start_bit, length, byte_order, unsigned, factor, offset, min, max),
            ),
        ),
        ({
            let e = p + position_text(start_bit, length, byte_order, unsigned).len() + factor.len()
                + offset.len() + min.len() + max.len() + 9;
            e < s.len() && s[e] == 34
        }),
    ensures
        ({
            let pe = p + position_text(start_bit, length, byte_order, unsigned).len();
            let fe = pe + 1 + factor.len() + offset.len() + 3;
            let me = fe + 1 + min.len() + max.len() + 3;
            &&& signal_position(s, p) == (
                Ok::<(u16, u16, ByteOrder, bool), Error>(
                    (start_bit, length, byte_order, unsigned),
                ),
                pe,
            )
            &&& blank_end(s, pe) == pe + 1
            &&& number_pair(
                s,
                pe + 1,
                40,
                44,
                41,
                "Expected opening parenthesis",
                "Expected closing parenthesis",
                Error::Signal(Error::SIGNAL_PARSE_INVALID_FACTOR),
                Error::Signal(Error::SIGNAL_PARSE_INVALID_OFFSET),
            ) == (
                Ok::<(Option<Seq<char>>, Option<Seq<char>>), Error>(
                    (Some(factor), Some(offset)),
                ),
                fe,
            )
            &&& blank_end(s, fe) == fe + 1
            &&& number_pair(
                s,
                fe + 1,
                91,
                124,
                93,
                "Expected opening bracket",
                "Expected closing bracket",
                Error::Signal(Error::SIGNAL_PARSE_INVALID_MIN),
                Error::Signal(Error::SIGNAL_PARSE_INVALID_MAX),
            ) == (Ok::<(Option<Seq<char>>, Option<Seq<char>>), Error>((Some(min), Some(max))), me)
            &&& blank_end(s, me) == me + 1
        }),
{
    let pos = position_text(start_bit, length, byte_order, unsigned);
    let sp = seq![' '];
    let fo = seq!['('] + factor + seq![','] + offset + seq![')'];
    let mm = seq!['['] + min + seq!['|'] + max + seq![']'];
    lemma_matches_chars_split(s, p, pos + sp + fo + sp + mm, sp);
    lemma_matches_chars_split(s, p, pos + sp + fo + sp, mm);
    lemma_matches_chars_split(s, p, pos + sp + fo, sp);
    lemma_matches_chars_split(s, p, pos + sp, fo);
    lemma_matches_chars_split(s, p, pos, sp);
    let pe = p + pos.len();
    let fe = pe + 1 + fo.len();
    let me = fe + 1 + mm.len();
    lemma_position_read(s, p, start_bit, length, byte_order, unsigned);
    lemma_matches_index(s, pe, ascii_bytes(sp), 0);
    lemma_matches_index(s, fe, ascii_bytes(sp), 0);
    lemma_matches_index(s, me, ascii_bytes(sp), 0);
    lemma_matches_index(s, pe + 1, ascii_bytes(fo), 0);
    lemma_matches_index(s, fe + 1, ascii_bytes(mm), 0);
    assert(s[pe] == 32 && s[pe + 1] == 40);
    assert(s[fe] == 32 && s[fe + 1] == 91);
    assert(s[me] == 32 && s[me + 1] == 34);
    assert(blank_end(s, pe + 1) == pe + 1);
    assert(blank_end(s, fe + 1) == fe + 1);
    assert(blank_end(s, me + 1) == me + 1);
    lemma_pair_bytes('(', factor, ',', offset, ')');
    lemma_pair_bytes('[', min, '|', max, ']');
    lemma_number_pair_read(
        s,
        pe + 1,
        40,
        44,
        41,
        "Expected opening parenthesis",
        "Expected closing parenthesis",
        Error::Signal(Error::SIGNAL_PARSE_INVALID_FACTOR),
        Error::Signal(Error::SIGNAL_PARSE_INVALID_OFFSET),
        factor,
        offset,
    );
    lemma_number_pair_read(
        s,
        fe + 1,
        91,
        124,
        93,
        "Expected opening bracket",
        "Expected closing bracket",
        Error::Signal(Error::SIGNAL_PARSE_INVALID_MIN),
        Error::Signal(Error::SIGNAL_PARSE_INVALID_MAX),
        min,
        max,
    );
}


/// The bytes of a written signal definition: its ASCII front, its unit
/// between quotes, and its ASCII receivers.
proof fn lemma_written_bytes(
    name: Seq<char>,
    start_bit: u16,
    length: u16,
    byte_order: ByteOrder,
    unsigned: bool,
    factor: Seq<char>,
    offset: Seq<char>,
    min: Seq<char>,
    max: Seq<char>,
    unit: Option<Seq<char>>,
    receivers: ReceiverSet,
)
    requires
        is_identifier_text(name),
        is_number_text(factor),
        is_number_text(offset),
        is_number_text(min),
        is_number_text(max),
        is_receivers_text_ok(receivers),
    ensures
        encode_utf8(
            signal_line_text(
                name,
                start_bit,
                length,
                byte_order,
                unsigned,
                factor,
                offset,
                min,
                max,
                unit,
                receivers,
            ),
        ) == ascii_bytes(
            line_front(name, start_bit, length, byte_order, unsigned, factor, offset, min, max),
        ) + (seq![34u8] + encode_utf8(
            match unit {
                Some(u) => u,
                None => Seq::<char>::empty(),
            },
        ) + seq![34u8]) + ascii_bytes(receivers_text(receivers)),
{
    let t = signal_line_text(
        name,
        start_bit,
        length,
        byte_order,
        unsigned,
        factor,
        offset,
        min,
        max,
        unit,
        receivers,
    );
    let u = match unit {
        Some(u) => u,
        None => Seq::<char>::empty(),
    };
    let front = line_front(name, start_bit, length, byte_order, unsigned, factor, offset, min, max);
    let qu = seq!['"'] + u + seq!['"'];
    let rt = receivers_text(receivers);
    lemma_line_parts(
        name,
        start_bit,
        length,
        byte_order,
        unsigned,
        factor,
        offset,
        min,
        max,
        unit,
        receivers,
    );
    lemma_front_ascii(name, start_bit, length, byte_order, unsigned, factor, offset, min, max);
    lemma_receivers_ascii(receivers);
    lemma_ascii_bytes(front);
    lemma_ascii_bytes(rt);
    lemma_encode_concat(front + qu, rt);
    lemma_encode_concat(front, qu);
    lemma_encode_concat(seq!['"'] + u, seq!['"']);
    lemma_encode_concat(seq!['"'], u);
    assert(is_ascii_chars(seq!['"']));
    lemma_ascii_bytes(seq!['"']);
    assert(ascii_bytes(seq!['"']) =~= seq![34u8]);
}

/// Where the parts of a written signal definition stand in its bytes.
proof fn lemma_written_layout(
    s: Seq<u8>,
    name: Seq<char>,
    start_bit: u16,
    length: u16,
    byte_order: ByteOrder,
    unsigned: bool,
    factor: Seq<char>,
    offset: Seq<char>,
    min: Seq<char>,
    max: Seq<char>,
    unit: Option<Seq<char>>,
    receivers: ReceiverSet,
)
    requires
        s == ascii_bytes(
                line_front(name, start_bit, length, byte_order, unsigned, factor, offset, min, max),
            ) + (seq![34u8] + encode_utf8(
                match unit {
                    Some(u) => u,
                    None => Seq::<char>::empty(),
                },
            ) + seq![34u8]) + ascii_bytes(receivers_text(receivers)),
    ensures
        ({
            let u = match unit {
                Some(u) => u,
                None => Seq::<char>::empty(),
            };
            let scaling = line_scaling(
                start_bit,
                length,
                byte_order,
                unsigned,
                factor,
                offset,
                min,
                max,
            );
            let q = 8 + name.len() as int + scaling.len();
            let ue = q + encode_utf8(u).len() + 2;
            &&& matches_at(s, 0, ascii_bytes(line_head(name)))
            &&& matches_at(s, 8 + name.len() as int, ascii_bytes(scaling))
            &&& scaling.len() == position_text(start_bit, length, byte_order, unsigned).len()
                + factor.len() + offset.len() + min.len() + max.len() + 9
            &&& q < s.len()
            &&& s[q] == 34
            &&& matches_at(s, q, seq![34u8] + encode_utf8(u) + seq![34u8])
            &&& matches_at(s, ue, ascii_bytes(receivers_text(receivers)))
            &&& ue + receivers_text(receivers).len() == s.len()
        }),
{
    let u = match unit {
        Some(u) => u,
        None => Seq::<char>::empty(),
    };
    let eu = encode_utf8(u);
    let front = line_front(name, start_bit, length, byte_order, unsigned, factor, offset, min, max);
    let rt = receivers_text(receivers);
    let bf = ascii_bytes(front);
    let bq = seq![34u8] + eu + seq![34u8];
    assert(s.subrange(0, s.len() as int) =~= s);
    lemma_matches_split(s, 0, bf + bq, ascii_bytes(rt));
    lemma_matches_split(s, 0, bf, bq);
    lemma_matches_index(s, bf.len() as int, bq, 0);
    let scaling = line_scaling(start_bit, length, byte_order, unsigned, factor, offset, min, max);
    lemma_matches_chars_split(s, 0, line_head(name), scaling);
}

/// The first byte of a written position is a digit.
proof fn lemma_position_starts_with_digit(
    s: Seq<u8>,
    p: int,
    start_bit: u16,
    length: u16,
    byte_order: ByteOrder,
    unsigned: bool,
    factor: Seq<char>,
    offset: Seq<char>,
    min: Seq<char>,
    max: Seq<char>,
)
    requires
        matches_at(
            s,
            p,
            ascii_bytes(
                line_scaling(start_bit, length, byte_order, unsigned, factor, offset, min, max),
            ),
        ),
    ensures
        is_digit(s[p]),
{
    let pos = position_text(start_bit, length, byte_order, unsigned);
    let scaling = line_scaling(start_bit, length, byte_order, unsigned, factor, offset, min, max);
    lemma_decimal_digits(start_bit as nat);
    lemma_matches_index(s, p, ascii_bytes(scaling), 0);
    assert(scaling[0] == pos[0]);
    assert(pos[0] == decimal_chars(start_bit as nat)[0]);
    assert(is_digit(ascii_bytes(decimal_chars(start_bit as nat))[0]));
}

/// What reading each part of the bytes of a written signal definition gives.
#[verifier::rlimit(30)]
proof fn lemma_read_facts(
    s: Seq<u8>,
    name: Seq<char>,
    start_bit: u16,
    length: u16,
    byte_order: ByteOrder,
    unsigned: bool,
    factor: Seq<char>,
    offset: Seq<char>,
    min: Seq<char>,
    max: Seq<char>,
    unit: Option<Seq<char>>,
    receivers: ReceiverSet,
)
    requires
        is_identifier_text(name),
        start_bit <= 511,
        1 <= length <= 512,
        is_number_text(factor),
        is_number_text(offset),
        is_number_text(min),
        is_number_text(max),
        unit matches Some(u) ==> is_unit_text(u),
        is_receivers_text_ok(receivers),
        ({
            let u = match unit {
                Some(u) => u,
                None => Seq::<char>::empty(),
            };
            let scaling = line_scaling(
                start_bit,
                length,
                byte_order,
                unsigned,
                factor,
                offset,
                min,
                max,
            );
            let q = 8 + name.len() as int + scaling.len();
            let ue = q + encode_utf8(u).len() + 2;
            &&& matches_at(s, 0, ascii_bytes(line_head(name)))
            &&& matches_at(s, 8 + name.len() as int, ascii_bytes(scaling))
            &&& scaling.len() == position_text(start_bit, length, byte_order, unsigned).len()
                + factor.len() + offset.len() + min.len() + max.len() + 9
            &&& q < s.len()
            &&& s[q] == 34
            &&& matches_at(s, q, seq![34u8] + encode_utf8(u) + seq![34u8])
            &&& matches_at(s, ue, ascii_bytes(receivers_text(receivers)))
            &&& ue + receivers_text(receivers).len() == s.len()
        }),
    ensures
        ({
            let u = match unit {
                Some(u) => u,
                None => Seq::<char>::empty(),
            };
            let pe = 8 + name.len() as int + position_text(start_bit, length, byte_order, unsigned).len();
            let fe = pe + 1 + factor.len() + offset.len() + 3;
            let me = fe + 1 + min.len() + max.len() + 3;
            let ue = me + 1 + encode_utf8(u).len() + 2;
            &&& matches_at(s, 1, SG_.spec_bytes())
            &&& blank_end(s, 1 + SG_.spec_bytes().len() as int) == 5
            &&& is_ident_start(s[5])
            &&& ident_end(s, 6) == 5 + (name.len() as int)
            &&& is_ident_delimiter(s[5 + (name.len() as int)])
            &&& ascii_chars(s.subrange(5, 5 + (name.len() as int))) == name
            &&& blank_end(s, 5 + (name.len() as int)) == 6 + (name.len() as int)
            &&& multiplexer_indicator(s, 6 + (name.len() as int)) == (
                Ok::<(bool, Option<u64>), Error>((false, None)),
                6 + (name.len() as int),
            )
            &&& s[6 + (name.len() as int)] == 58
            &&& blank_end(s, 7 + (name.len() as int)) == 8 + (name.len() as int)
            &&& signal_position(s, 8 + (name.len() as int)) == (
                Ok::<(u16, u16, ByteOrder, bool), Error>((start_bit, length, byte_order, unsigned)),
                pe,
            )
            &&& blank_end(s, pe) == pe + 1
            &&& number_pair(
                s,
                pe + 1,
                40,
                44,
                41,
                "Expected opening parenthesis",
                "Expected closing parenthesis",
                Error::Signal(Error::SIGNAL_PARSE_INVALID_FACTOR),
                Error::Signal(Error::SIGNAL_PARSE_INVALID_OFFSET),
            ) == (
                Ok::<(Option<Seq<char>>, Option<Seq<char>>), Error>((Some(factor), Some(offset))),
                fe,
            )
            &&& blank_end(s, fe) == fe + 1
            &&& number_pair(
                s,
                fe + 1,
                91,
                124,
                93,
                "Expected opening bracket",
                "Expected closing bracket",
                Error::Signal(Error::SIGNAL_PARSE_INVALID_MIN),
                Error::Signal(Error::SIGNAL_PARSE_INVALID_MAX),
            ) == (Ok::<(Option<Seq<char>>, Option<Seq<char>>), Error>((Some(min), Some(max))), me)
            &&& blank_end(s, me) == me + 1
            &&& signal_unit(s, me + 1) == (Ok::<Option<Seq<char>>, Error>(unit), ue)
            &&& receivers_parse(s, spaces_end(s, ue)) == (
                Ok::<ReceiverSet, Error>(receivers),
                s.len() as int,
            )
            &&& signal_fields_problem(name, length) is None
        }),
{
    let u = match unit {
        Some(u) => u,
        None => Seq::<char>::empty(),
    };
    let n = name.len() as int;
    let p0 = 8 + n;
    let pos = position_text(start_bit, length, byte_order, unsigned);
    lemma_position_starts_with_digit(
        s,
        p0,
        start_bit,
        length,
        byte_order,
        unsigned,
        factor,
        offset,
        min,
        max,
    );
    lemma_head_read(s, name);
    lemma_scaling_read(s, p0, start_bit, length, byte_order, unsigned, factor, offset, min, max);
    let pe = p0 + pos.len();
    let fe = pe + 1 + factor.len() + offset.len() + 3;
    let me = fe + 1 + min.len() + max.len() + 3;
    lemma_unit_read(s, me + 1, unit);
    let ue = me + 1 + encode_utf8(u).len() + 2;
    lemma_receivers_read(s, ue, receivers);
    lemma_identifier_not_blank(name);
}

/// Reading the bytes of a written signal definition.
proof fn lemma_read_written(
    s: Seq<u8>,
    name: Seq<char>,
    start_bit: u16,
    length: u16,
    byte_order: ByteOrder,
    unsigned: bool,
    factor: Seq<char>,
    offset: Seq<char>,
    min: Seq<char>,
    max: Seq<char>,
    unit: Option<Seq<char>>,
    receivers: ReceiverSet,
)
    requires
        is_identifier_text(name),
        start_bit <= 511,
        1 <= length <= 512,
        is_number_text(factor),
        is_number_text(offset),
        is_number_text(min),
        is_number_text(max),
        unit matches Some(u) ==> is_unit_text(u),
        is_receivers_text_ok(receivers),
        s == ascii_bytes(
                line_front(name, start_bit, length, byte_order, unsigned, factor, offset, min, max),
            ) + (seq![34u8] + encode_utf8(
                match unit {
                    Some(u) => u,
                    None => Seq::<char>::empty(),
                },
            ) + seq![34u8]) + ascii_bytes(receivers_text(receivers)),
    ensures
        signal_line(s, 1) == (
            Ok::<RawSignalView, Error>(
                RawSignalView {
                    name,
                    start_bit,
                    length,
                    byte_order,
                    unsigned,
                    factor: Some(factor),
                    offset: Some(offset),
                    min: Some(min),
                    max: Some(max),
                    unit,
                    receivers,
                    is_multiplexer_switch: false,
                    multiplexer_switch_value: None,
                },
            ),
            s.len() as int,
        ),
{
    let u = match unit {
        Some(u) => u,
        None => Seq::<char>::empty(),
    };
    lemma_written_layout(
        s,
        name,
        start_bit,
        length,
        byte_order,
        unsigned,
        factor,
        offset,
        min,
        max,
        unit,
        receivers,
    );
    lemma_read_facts(
        s,
        name,
        start_bit,
        length,
        byte_order,
        unsigned,
        factor,
        offset,
        min,
        max,
        unit,
        receivers,
    );
    let pe = 8 + name.len() as int + position_text(start_bit, length, byte_order, unsigned).len();
    let fe = pe + 1 + factor.len() + offset.len() + 3;
    let me = fe + 1 + min.len() + max.len() + 3;
    let ue = me + 1 + encode_utf8(u).len() + 2;
    lemma_line_steps(
        s,
        name,
        start_bit,
        length,
        byte_order,
        unsigned,
        factor,
        offset,
        min,
        max,
        unit,
        receivers,
        pe,
        fe,
        me,
        ue,
    );
}

/// How reading a signal definition goes, given how each of its parts reads.
#[verifier::rlimit(40)]
proof fn lemma_line_steps(
    s: Seq<u8>,
    name: Seq<char>,
    start_bit: u16,
    length: u16,
    byte_order: ByteOrder,
    unsigned: bool,
    factor: Seq<char>,
    offset: Seq<char>,
    min: Seq<char>,
    max: Seq<char>,
    unit: Option<Seq<char>>,
    receivers: ReceiverSet,
    pe: int,
    fe: int,
    me: int,
    ue: int,
)
    requires
        matches_at(s, 1, SG_.spec_bytes()),
        blank_end(s, 1 + SG_.spec_bytes().len() as int) == 5,
        is_ident_start(s[5]),
        ident_end(s, 6) == 5 + (name.len() as int),
        is_ident_delimiter(s[5 + (name.len() as int)]),
        ascii_chars(s.subrange(5, 5 + (name.len() as int))) == name,
        blank_end(s, 5 + (name.len() as int)) == 6 + (name.len() as int),
        multiplexer_indicator(s, 6 + (name.len() as int)) == (
            Ok::<(bool, Option<u64>), Error>((false, None)),
            6 + (name.len() as int),
        ),
        s[6 + (name.len() as int)] == 58,
        blank_end(s, 7 + (name.len() as int)) == 8 + (name.len() as int),
        signal_position(s, 8 + (name.len() as int)) == (
            Ok::<(u16, u16, ByteOrder, bool), Error>((start_bit, length, byte_order, unsigned)),
            pe,
        ),
        blank_end(s, pe) == pe + 1,
        number_pair(
            s,
            pe + 1,
            40,
            44,
            41,
            "Expected opening parenthesis",
            "Expected closing parenthesis",
            Error::Signal(Error::SIGNAL_PARSE_INVALID_FACTOR),
            Error::Signal(Error::SIGNAL_PARSE_INVALID_OFFSET),
        ) == (Ok::<(Option<Seq<char>>, Option<Seq<char>>), Error>((Some(factor), Some(offset))), fe),
        blank_end(s, fe) == fe + 1,
        number_pair(
            s,
            fe + 1,
            91,
            124,
            93,
            "Expected opening bracket",
            "Expected closing bracket",
            Error::Signal(Error::SIGNAL_PARSE_INVALID_MIN),
            Error::Signal(Error::SIGNAL_PARSE_INVALID_MAX),
        ) == (Ok::<(Option<Seq<char>>, Option<Seq<char>>), Error>((Some(min), Some(max))), me),
        blank_end(s, me) == me + 1,
        signal_unit(s, me + 1) == (Ok::<Option<Seq<char>>, Error>(unit), ue),
        receivers_parse(s, spaces_end(s, ue)) == (Ok::<ReceiverSet, Error>(receivers), s.len() as int),
        signal_fields_problem(name, length) is None,
    ensures
        signal_line(s, 1) == (
            Ok::<RawSignalView, Error>(
                RawSignalView {
                    name,
                    start_bit,
                    length,
                    byte_order,
                    unsigned,
                    factor: Some(factor),
                    offset: Some(offset),
                    min: Some(min),
                    max: Some(max),
                    unit,
                    receivers,
                    is_multiplexer_switch: false,
                    multiplexer_switch_value: None,
                },
            ),
            s.len() as int,
        ),
{
}

/// A signal definition, as `format_signal_line` writes it, reads back (after
/// its leading space) as the same definition, when its name is an
/// identifier, its start bit at most 511, its length in 1..=512, its four
/// numbers well-formed number texts, its unit (if any) one that reads back as
/// itself, and its receivers ones that read back as themselves. The reading
/// consumes the whole text; a written definition carries no multiplexer
/// indicator.
pub proof fn lemma_signal_round_trip(
    name: Seq<char>,
    start_bit: u16,
    length: u16,
    byte_order: ByteOrder,
    unsigned: bool,
    factor: Seq<char>,
    offset: Seq<char>,
    min: Seq<char>,
    max: Seq<char>,
    unit: Option<Seq<char>>,
    receivers: ReceiverSet,
)
    requires
        is_identifier_text(name),
        start_bit <= 511,
        1 <= length <= 512,
        is_number_text(factor),
        is_number_text(offset),
        is_number_text(min),
        is_number_text(max),
        unit matches Some(u) ==> is_unit_text(u),
        is_receivers_text_ok(receivers),
    ensures
        ({
            let s = encode_utf8(
                signal_line_text(
                    name,
                    start_bit,
                    length,
                    byte_order,
                    unsigned,
                    factor,
                    offset,
                    min,
                    max,
                    unit,
                    receivers,
                ),
            );
            signal_line(s, 1) == (
                Ok::<RawSignalView, Error>(
                    RawSignalView {
                        name,
                        start_bit,
                        length,
                        byte_order,
                        unsigned,
                        factor: Some(factor),
                        offset: Some(offset),
                        min: Some(min),
                        max: Some(max),
                        unit,
                        receivers,
                        is_multiplexer_switch: false,
                        multiplexer_switch_value: None,
                    },
                ),
                s.len() as int,
            )
        }),
{
    lemma_written_bytes(
        name,
        start_bit,
        length,
        byte_order,
        unsigned,
        factor,
        offset,
        min,
        max,
        unit,
        receivers,
    );
    let s = encode_utf8(
        signal_line_text(
            name,
            start_bit,
            length,
            byte_order,
            unsigned,
            factor,
            offset,
            min,
            max,
            unit,
            receivers,
        ),
    );
    lemma_read_written(
        s,
        name,
        start_bit,
        length,
        byte_order,
        unsigned,
        factor,
        offset,
        min,
        max,
        unit,
        receivers,
    );
}


/// An identifier is not blank.
proof fn lemma_identifier_not_blank(name: Seq<char>)
    requires
        is_identifier_text(name),
    ensures
        !is_blank_text(name),
{
    is_ascii_chars_nat_bound(name);
    assert(is_ident_start(name[0] as u8));
    assert(!is_white_space(name[0]));
}


/// A multiplexed signal's indicator, `m` followed by the decimal digits of any
/// switch value `v` and then by no further digit, reads as the switch value
/// `v`; reading goes on after the blanks that follow the digits.
pub proof fn lemma_multiplexer_indicator_value(s: Seq<u8>, p: int, v: u64)
    requires
        matches_at(s, p, ascii_bytes(seq!['m'] + decimal_chars(v as nat))),
        p + 1 + decimal_chars(v as nat).len() < s.len() ==> !is_digit(
            s[p + 1 + decimal_chars(v as nat).len()],
        ),
    ensures
        multiplexer_indicator(s, p) == (
            Ok::<(bool, Option<u64>), Error>((false, Some(v))),
            blank_end(s, p + 1 + decimal_chars(v as nat).len()),
        ),
{
    let d = decimal_chars(v as nat);
    let b = ascii_bytes(d);
    let e = p + 1 + d.len();
    lemma_matches_chars_split(s, p, seq!['m'], d);
    lemma_matches_index(s, p, ascii_bytes(seq!['m']), 0);
    assert(s[p] == 109);
    lemma_decimal_digits(v as nat);
    assert forall|k: int| p + 1 <= k < e implies is_digit(#[trigger] s[k]) by {
        lemma_matches_index(s, p + 1, b, k - (p + 1));
    }
    lemma_digits_end_run(s, p + 1, e);
    assert(s.subrange(p + 1, e) == b);
    assert(digits_value(s.subrange(p + 1, e)) == v as nat);
}


/// The other indicator forms: `M` marks a multiplexer switch, carrying no
/// switch value, whatever follows it; `m` with no digit after it marks no
/// switch and carries no value. Either way reading goes on after the blanks
/// that follow the letter.
pub proof fn lemma_multiplexer_indicator_marks(s: Seq<u8>, p: int)
    requires
        0 <= p < s.len(),
    ensures
        s[p] == 'M' as u8 ==> multiplexer_indicator(s, p) == (
            Ok::<(bool, Option<u64>), Error>((true, None)),
            blank_end(s, p + 1),
        ),
        s[p] == 'm' as u8 && (p + 1 == s.len() || !is_digit(s[p + 1])) ==> multiplexer_indicator(
            s,
            p,
        ) == (Ok::<(bool, Option<u64>), Error>((false, None)), blank_end(s, p + 1)),
{
    assert('M' as u8 == 77 && 'm' as u8 == 109);
}

} // verus!
