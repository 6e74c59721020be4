//! What writing a message header and reading it back gives.
use vstd::prelude::*;
use vstd::string::StringSliceAdditionalSpecFns;
use vstd::utf8::{encode_utf8, is_ascii_chars, is_ascii_chars_encode_utf8, is_ascii_chars_nat_bound};

use crate::error::Error;
use crate::message::{
    bit_span, message_header, message_header_text, message_problem, name_at, span_top,
    SignalLayout, MAX_EXTENDED_ID,
};
use crate::nodes_laws::{is_identifier_text, lemma_ascii_char_byte, lemma_ident_end_run};
use crate::parser::{
    blank_end, digits_end, digits_value, ident_end, is_digit, is_ident_char, matches_at,
    spaces_end,
};
use crate::signal_laws::{
    ascii_bytes, lemma_ascii_bytes, lemma_ascii_concat, lemma_decimal_digits, lemma_decimal_read,
    lemma_matches_chars_split, lemma_matches_index,
};
use crate::text::{ascii_chars, decimal_chars, is_blank_text};
use crate::{BO_, MAX_NAME_SIZE, MAX_SIGNALS_PER_MESSAGE};

verus! {

/// An identifier written at `p` of `s` and followed by a delimiter or the end
/// of `s` is a name there, and reads back as itself.
proof fn lemma_name_read(s: Seq<u8>, p: int, name: Seq<char>)
    requires
        is_identifier_text(name),
        0 <= p,
        matches_at(s, p, ascii_bytes(name)),
        p + name.len() < s.len() ==> s[p + name.len()] == 32,
    ensures
        name_at(s, p) == (true, p + name.len()),
        ascii_chars(s.subrange(p, p + name.len())) == name,
        spaces_end(s, p) == p,
{
    let n = name.len() as int;
    lemma_matches_index(s, p, ascii_bytes(name), 0);
    assert forall|m: int| p + 1 <= m < p + n implies is_ident_char(s[m]) by {
        lemma_matches_index(s, p, ascii_bytes(name), m - p);
        assert(is_ident_char(name[m - p] as u8));
    }
    lemma_ident_end_run(s, p + 1, p + n);
    assert(ascii_chars(s.subrange(p, p + n)) =~= name) by {
        assert forall|m: int| 0 <= m < n implies #[trigger] ascii_chars(s.subrange(p, p + n))[m]
            == name[m] by {
            lemma_matches_index(s, p, ascii_bytes(name), m);
            is_ascii_chars_nat_bound(name);
            lemma_ascii_char_byte(name[m]);
        }
    }
}

/// The text of a message header, in the pieces it is read by.
spec fn header_pieces(id: u32, name: Seq<char>, dlc: u8, sender: Seq<char>) -> Seq<char> {
    seq!['B', 'O', '_', ' '] + decimal_chars(id as nat) + seq![' '] + name + seq![' ', ':', ' ']
        + decimal_chars(dlc as nat) + seq![' '] + sender
}

/// Where each part of a written message header stands, and how it reads.
#[verifier::rlimit(40)]
proof fn lemma_header_layout(s: Seq<u8>, id: u32, name: Seq<char>, dlc: u8, sender: Seq<char>)
    requires
        is_identifier_text(name),
        is_identifier_text(sender),
        s == ascii_bytes(header_pieces(id, name, dlc, sender)),
    ensures
        ({
            let n1 = decimal_chars(id as nat).len() as int;
            let n2 = decimal_chars(dlc as nat).len() as int;
            let nn = name.len() as int;
            &&& BO_.spec_bytes() == seq![66u8, 79u8, 95u8]
            &&& matches_at(s, 0, BO_.spec_bytes())
            &&& spaces_end(s, 3) == 4
            &&& digits_end(s, 4) == 4 + n1
            &&& digits_value(s.subrange(4, 4 + n1)) == id
            &&& s[4 + n1] == 32
            &&& spaces_end(s, 4 + n1) == 5 + n1
            &&& name_at(s, 5 + n1) == (true, 5 + n1 + nn)
            &&& ascii_chars(s.subrange(5 + n1, 5 + n1 + nn)) == name
            &&& spaces_end(s, 5 + n1 + nn) == 6 + n1 + nn
            &&& s[6 + n1 + nn] == 58
            &&& spaces_end(s, 7 + n1 + nn) == 8 + n1 + nn
            &&& digits_end(s, 8 + n1 + nn) == 8 + n1 + nn + n2
            &&& digits_value(
                s.subrange(
                    8 + n1 + nn,
                    8 + n1 + nn + n2,
                ),
            ) == dlc
            &&& s[8 + n1 + nn + n2] == 32
            &&& spaces_end(s, 8 + n1 + nn + n2) == 9 + n1 + nn
                + n2
            &&& name_at(s, 9 + n1 + nn + n2) == (true, s.len() as int)
            &&& ascii_chars(s.subrange(9 + n1 + nn + n2, s.len() as int))
                == sender
            &&& s.len() == 9 + n1 + nn + n2 + (sender.len() as int)
            &&& blank_end(s, s.len() as int) == s.len()
        }),
{
    reveal_strlit("BO_");
    let d1 = decimal_chars(id as nat);
    let d2 = decimal_chars(dlc as nat);
    let c0 = seq!['B', 'O', '_', ' '];
    let sp = seq![' '];
    let c2 = seq![' ', ':', ' '];
    lemma_decimal_digits(id as nat);
    lemma_decimal_digits(dlc as nat);
    assert(s.subrange(0, s.len() as int) =~= s);
    lemma_matches_chars_split(s, 0, c0 + d1 + sp + name + c2 + d2 + sp, sender);
    lemma_matches_chars_split(s, 0, c0 + d1 + sp + name + c2 + d2, sp);
    lemma_matches_chars_split(s, 0, c0 + d1 + sp + name + c2, d2);
    lemma_matches_chars_split(s, 0, c0 + d1 + sp + name, c2);
    lemma_matches_chars_split(s, 0, c0 + d1 + sp, name);
    lemma_matches_chars_split(s, 0, c0 + d1, sp);
    lemma_matches_chars_split(s, 0, c0, d1);
    let a = 4int;
    let e1 = a + d1.len();
    let b = e1 + 1;
    let ne = b + name.len();
    let c = ne + 1;
    let d = c + 2;
    let e2 = d + d2.len();
    let f = e2 + 1;
    let se = f + sender.len();
    assert(se == s.len());
    assert(is_ascii_chars(BO_@));
    is_ascii_chars_encode_utf8(BO_@);
    assert(BO_.spec_bytes() =~= seq![66u8, 79u8, 95u8]);
    lemma_matches_index(s, 0, ascii_bytes(c0), 0);
    lemma_matches_index(s, 0, ascii_bytes(c0), 1);
    lemma_matches_index(s, 0, ascii_bytes(c0), 2);
    lemma_matches_index(s, 0, ascii_bytes(c0), 3);
    assert(s.subrange(0, 3) =~= BO_.spec_bytes());
    lemma_matches_index(s, a, ascii_bytes(d1), 0);
    assert(spaces_end(s, a) == a);
    assert(spaces_end(s, 3) == a);
    lemma_matches_index(s, e1, ascii_bytes(sp), 0);
    lemma_decimal_read(s, a, id as nat);
    lemma_matches_index(s, ne, ascii_bytes(c2), 0);
    lemma_matches_index(s, ne, ascii_bytes(c2), 1);
    lemma_matches_index(s, ne, ascii_bytes(c2), 2);
    lemma_name_read(s, b, name);
    assert(spaces_end(s, e1) == b);
    assert(spaces_end(s, c) == c);
    assert(spaces_end(s, ne) == c);
    lemma_matches_index(s, d, ascii_bytes(d2), 0);
    assert(spaces_end(s, d) == d);
    assert(spaces_end(s, c + 1) == d);
    lemma_matches_index(s, e2, ascii_bytes(sp), 0);
    lemma_decimal_read(s, d, dlc as nat);
    lemma_name_read(s, f, sender);
    assert(spaces_end(s, e2) == f);
}

/// How reading a message header goes, given how each of its parts reads.
proof fn lemma_header_steps(
    s: Seq<u8>,
    id: u32,
    name: Seq<char>,
    dlc: u8,
    sender: Seq<char>,
    signals: Seq<SignalLayout>,
)
    requires
        name.len() <= MAX_NAME_SIZE,
        sender.len() <= MAX_NAME_SIZE,
        message_problem(id, name, dlc, sender, signals) is None,
        ({
            let n1 = decimal_chars(id as nat).len() as int;
            let n2 = decimal_chars(dlc as nat).len() as int;
            let nn = name.len() as int;
            &&& BO_.spec_bytes() == seq![66u8, 79u8, 95u8]
            &&& matches_at(s, 0, BO_.spec_bytes())
            &&& spaces_end(s, 3) == 4
            &&& digits_end(s, 4) == 4 + n1
            &&& digits_value(s.subrange(4, 4 + n1)) == id
            &&& s[4 + n1] == 32
            &&& spaces_end(s, 4 + n1) == 5 + n1
            &&& name_at(s, 5 + n1) == (true, 5 + n1 + nn)
            &&& ascii_chars(s.subrange(5 + n1, 5 + n1 + nn)) == name
            &&& spaces_end(s, 5 + n1 + nn) == 6 + n1 + nn
            &&& s[6 + n1 + nn] == 58
            &&& spaces_end(s, 7 + n1 + nn) == 8 + n1 + nn
            &&& digits_end(s, 8 + n1 + nn) == 8 + n1 + nn + n2
            &&& digits_value(
                s.subrange(
                    8 + n1 + nn,
                    8 + n1 + nn + n2,
                ),
            ) == dlc
            &&& s[8 + n1 + nn + n2] == 32
            &&& spaces_end(s, 8 + n1 + nn + n2) == 9 + n1 + nn
                + n2
            &&& name_at(s, 9 + n1 + nn + n2) == (true, s.len() as int)
            &&& ascii_chars(s.subrange(9 + n1 + nn + n2, s.len() as int))
                == sender
            &&& s.len() == 9 + n1 + nn + n2 + (sender.len() as int)
            &&& blank_end(s, s.len() as int) == s.len()
        }),
    ensures
        message_header(s, 0, signals) == Ok::<(u32, Seq<char>, u8, Seq<char>), Error>(
            (id, name, dlc, sender),
        ),
{
}

/// A message header, as `format_message_header` writes it, reads back as the
/// same identifier, name, DLC and sender, when name and sender are
/// identifiers of at most `MAX_NAME_SIZE` bytes and the message, with its
/// signals, keeps the rules of `message_problem`.
pub proof fn lemma_message_header_round_trip(
    id: u32,
    name: Seq<char>,
    dlc: u8,
    sender: Seq<char>,
    signals: Seq<SignalLayout>,
)
    requires
        is_identifier_text(name),
        name.len() <= MAX_NAME_SIZE,
        is_identifier_text(sender),
        sender.len() <= MAX_NAME_SIZE,
        message_problem(id, name, dlc, sender, signals) is None,
    ensures
        message_header(encode_utf8(message_header_text(id, name, dlc, sender)), 0, signals) == Ok::<
            (u32, Seq<char>, u8, Seq<char>),
            Error,
        >((id, name, dlc, sender)),
{
    reveal_strlit("BO_");
    reveal_strlit(" : ");
    let d1 = decimal_chars(id as nat);
    let d2 = decimal_chars(dlc as nat);
    let c0 = seq!['B', 'O', '_', ' '];
    let sp = seq![' '];
    let c2 = seq![' ', ':', ' '];
    let t = message_header_text(id, name, dlc, sender);
    assert(t =~= header_pieces(id, name, dlc, sender));
    lemma_decimal_digits(id as nat);
    lemma_decimal_digits(dlc as nat);
    assert(is_ascii_chars(c0));
    assert(is_ascii_chars(sp));
    assert(is_ascii_chars(c2));
    lemma_ascii_concat(c0, d1);
    lemma_ascii_concat(c0 + d1, sp);
    lemma_ascii_concat(c0 + d1 + sp, name);
    lemma_ascii_concat(c0 + d1 + sp + name, c2);
    lemma_ascii_concat(c0 + d1 + sp + name + c2, d2);
    lemma_ascii_concat(c0 + d1 + sp + name + c2 + d2, sp);
    lemma_ascii_concat(c0 + d1 + sp + name + c2 + d2 + sp, sender);
    lemma_ascii_bytes(t);
    let s = encode_utf8(t);
    lemma_header_layout(s, id, name, dlc, sender);
    lemma_header_steps(s, id, name, dlc, sender, signals);
}


/// Two signals share a data bit: the lowest and highest bits each occupies
/// leave no gap between them.
pub open spec fn spans_intersect(a: SignalLayout, b: SignalLayout) -> bool {
    &&& bit_span(a.start_bit, a.length, a.byte_order).0 <= bit_span(
        b.start_bit,
        b.length,
        b.byte_order,
    ).1
    &&& bit_span(b.start_bit, b.length, b.byte_order).0 <= bit_span(
        a.start_bit,
        a.length,
        a.byte_order,
    ).1
}

/// A message that passes its checks has no two signals sharing a data bit
/// unless both of them carry a multiplexer switch value.
pub proof fn lemma_accepted_overlap_is_multiplexed(
    id: u32,
    name: Seq<char>,
    dlc: u8,
    sender: Seq<char>,
    signals: Seq<SignalLayout>,
)
    requires
        message_problem(id, name, dlc, sender, signals) is None,
    ensures
        forall|i: int, j: int|
            0 <= i < signals.len() && 0 <= j < signals.len() && i != j
                && #[trigger] spans_intersect(signals[i], signals[j])
                ==> signals[i].multiplexer_switch_value is Some
                && signals[j].multiplexer_switch_value is Some,
{
    assert forall|i: int, j: int|
        0 <= i < signals.len() && 0 <= j < signals.len() && i != j
            && #[trigger] spans_intersect(signals[i], signals[j])
        implies signals[i].multiplexer_switch_value is Some
        && signals[j].multiplexer_switch_value is Some by {
        if i < j {
            assert(!crate::message::signals_clash(signals[i], signals[j]));
        } else {
            assert(!crate::message::signals_clash(signals[j], signals[i]));
        }
    }
}

/// A message whose other checks pass, with two signals that share a data bit
/// where at least one of them is not multiplexed, is refused with
/// `SIGNAL_OVERLAP`.
pub proof fn lemma_unmultiplexed_overlap_refused(
    id: u32,
    name: Seq<char>,
    dlc: u8,
    sender: Seq<char>,
    signals: Seq<SignalLayout>,
    i: int,
    j: int,
)
    requires
        signals.len() <= MAX_SIGNALS_PER_MESSAGE,
        !is_blank_text(name),
        !is_blank_text(sender),
        1 <= dlc <= 64,
        id <= MAX_EXTENDED_ID,
        forall|k: int| 0 <= k < signals.len() ==> #[trigger] span_top(signals[k]) < dlc * 8,
        0 <= i < signals.len(),
        0 <= j < signals.len(),
        i != j,
        spans_intersect(signals[i], signals[j]),
        signals[i].multiplexer_switch_value is None || signals[j].multiplexer_switch_value
            is None,
    ensures
        message_problem(id, name, dlc, sender, signals) == Some(Error::SIGNAL_OVERLAP),
{
    if i < j {
        assert(crate::message::signals_clash(signals[i], signals[j]));
    } else {
        assert(crate::message::signals_clash(signals[j], signals[i]));
    }
}


/// A message that passes its checks keeps every data bit of every signal
/// inside its DLC's bytes; a message whose earlier checks pass and one of
/// whose signals reaches a data bit at or past `dlc * 8` is refused with
/// `SIGNAL_EXTENDS_BEYOND_MESSAGE`.
pub proof fn lemma_signals_inside_dlc(
    id: u32,
    name: Seq<char>,
    dlc: u8,
    sender: Seq<char>,
    signals: Seq<SignalLayout>,
    i: int,
)
    requires
        0 <= i < signals.len(),
    ensures
        message_problem(id, name, dlc, sender, signals) is None ==> bit_span(
            signals[i].start_bit,
            signals[i].length,
            signals[i].byte_order,
        ).1 < dlc * 8,
        signals.len() <= MAX_SIGNALS_PER_MESSAGE && !is_blank_text(name) && !is_blank_text(sender)
            && 1 <= dlc <= 64 && id <= MAX_EXTENDED_ID && bit_span(
            signals[i].start_bit,
            signals[i].length,
            signals[i].byte_order,
        ).1 >= dlc * 8 ==> message_problem(id, name, dlc, sender, signals) == Some(
            Error::SIGNAL_EXTENDS_BEYOND_MESSAGE,
        ),
{
    assert(span_top(signals[i]) >= bit_span(
        signals[i].start_bit,
        signals[i].length,
        signals[i].byte_order,
    ).1);
}

} // verus!
