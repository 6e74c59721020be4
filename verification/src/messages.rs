//! Texts of detailed error messages: templates with `{}` placeholders filled
//! in with the details, and the numbers written the way the messages show them.
use vstd::prelude::*;

use crate::nodes::str_views;
use crate::text::{decimal_chars, decimal_string, hex_chars, hex_string, push_char, push_str};

verus! {

/// Category label of invalid-data errors.
pub const INVALID_DATA_CATEGORY: &'static str = "Data Error";
/// Category label of signal errors.
pub const SIGNAL_ERROR_CATEGORY: &'static str = "Signal Error";
/// Category label of message errors.
pub const MESSAGE_ERROR_CATEGORY: &'static str = "Message Error";
/// Category label of DBC file errors.
pub const DBC_ERROR_CATEGORY: &'static str = "DBC Error";
/// Category label of version errors.
pub const VERSION_ERROR_CATEGORY: &'static str = "Version Error";
/// Category label of node list errors.
pub const NODES_ERROR_CATEGORY: &'static str = "Nodes Error";

/// Template: a message identifier used twice, and the two messages.
pub const FORMAT_DUPLICATE_MESSAGE_ID: &'static str =
    "Duplicate message ID: {} (messages '{}' and '{}')";
/// Template: a message whose sender is not a node.
pub const FORMAT_SENDER_NOT_IN_NODES: &'static str =
    "Message '{}' has sender '{}' which is not in the nodes list";
/// Template: a signal that reaches past its message.
pub const FORMAT_SIGNAL_EXTENDS_BEYOND_MESSAGE: &'static str =
    "Signal '{}' extends beyond message boundary: start_bit {} + length {} = {} > {} (DLC {} bytes)";
/// Template: a number that could not be read.
pub const FORMAT_PARSE_NUMBER_FAILED: &'static str = "Failed to parse number: {}";
/// Template: bytes that are not UTF-8.
pub const FORMAT_INVALID_UTF8: &'static str = "Invalid UTF-8: {}";
/// Template: input that could not be read.
pub const FORMAT_READ_FAILED: &'static str = "Failed to read: {}";
/// Template: a message identifier past 29 bits.
pub const FORMAT_MESSAGE_ID_OUT_OF_RANGE: &'static str =
    "Message ID {} is out of valid range (standard 11-bit: 0-2047, extended 29-bit: 2048-536870911)";
/// Template: two signals sharing bits.
pub const FORMAT_SIGNAL_OVERLAP: &'static str = "Signals '{}' and '{}' overlap in message '{}'";

/// `fmt` with each `{}` replaced, in order, by the next of `args`; a `{}`
/// left over when the arguments run out stays as it is, and arguments left
/// over are dropped.
pub open spec fn filled(fmt: Seq<char>, args: Seq<Seq<char>>) -> Seq<char>
    decreases fmt.len(),
{
    if fmt.len() == 0 {
        Seq::empty()
    } else if fmt.len() >= 2 && fmt[0] == '{' && fmt[1] == '}' {
        if args.len() > 0 {
            args[0] + filled(fmt.subrange(2, fmt.len() as int), args.subrange(1, args.len() as int))
        } else {
            seq!['{', '}'] + filled(fmt.subrange(2, fmt.len() as int), args)
        }
    } else {
        seq![fmt[0]] + filled(fmt.subrange(1, fmt.len() as int), args)
    }
}

/// The characters of `t`, one by one.
fn chars_of(t: &str) -> (v: Vec<char>)
    ensures
        v@ == t@,
{
    let mut v: Vec<char> = Vec::new();
    proof {
        broadcast use vstd::string::axiom_spec_iter;
    }
    for c in it: t.chars()
        invariant
            it.seq() == t@,
            v@ == it.seq().take(it.index()),
    {
        v.push(c);
    }
    proof {
        assert(v@ =~= t@);
    }
    v
}

/// Fills the template `fmt` with `args`, as `filled` says.
pub fn replace_placeholders(fmt: &str, args: &[&str]) -> (s: String)
    ensures
        s@ == filled(fmt@, str_views(args@)),
{
    let cs = chars_of(fmt);
    let ghost all_args = str_views(args@);
    let n = cs.len();
    let mut out = String::new();
    let mut i: usize = 0;
    let mut k: usize = 0;
    proof {
        assert(cs@.subrange(0, n as int) =~= cs@);
        assert(all_args.subrange(0, all_args.len() as int) =~= all_args);
        assert(out@ =~= Seq::<char>::empty());
    }
    while i < n
        invariant
            n == cs@.len(),
            cs@ == fmt@,
            all_args == str_views(args@),
            0 <= i <= n,
            0 <= k <= args@.len(),
            out@ + filled(cs@.subrange(i as int, n as int), all_args.subrange(
                k as int,
                all_args.len() as int,
            )) == filled(fmt@, all_args),
        decreases n - i,
    {
        let ghost rest = cs@.subrange(i as int, n as int);
        let ghost rest_args = all_args.subrange(k as int, all_args.len() as int);
        if cs[i] == '{' && i + 1 < n && cs[i + 1] == '}' {
            proof {
                assert(rest.subrange(2, rest.len() as int) =~= cs@.subrange(i + 2, n as int));
            }
            if k < args.len() {
                let ghost before = out@;
                push_str(&mut out, args[k]);
                proof {
                    assert(rest_args.subrange(1, rest_args.len() as int) =~= all_args.subrange(
                        k + 1,
                        all_args.len() as int,
                    ));
                    assert(rest_args[0] == args@[k as int]@);
                    assert(before + filled(rest, rest_args) =~= out@ + filled(
                        cs@.subrange(i + 2, n as int),
                        all_args.subrange(k + 1, all_args.len() as int),
                    ));
                }
                k = k + 1;
            } else {
                let ghost before = out@;
                push_char(&mut out, '{');
                push_char(&mut out, '}');
                proof {
                    assert(before + filled(rest, rest_args) =~= out@ + filled(
                        cs@.subrange(i + 2, n as int),
                        rest_args,
                    ));
                }
            }
            i = i + 2;
        } else {
            let ghost before = out@;
            push_char(&mut out, cs[i]);
            proof {
                assert(rest.subrange(1, rest.len() as int) =~= cs@.subrange(i + 1, n as int));
                assert(before + filled(rest, rest_args) =~= out@ + filled(
                    cs@.subrange(i + 1, n as int),
                    rest_args,
                ));
            }
            i = i + 1;
        }
    }
    proof {
        assert(cs@.subrange(i as int, n as int) =~= Seq::<char>::empty());
        assert(out@ + Seq::<char>::empty() =~= out@);
    }
    out
}

/// `category: details`.
fn categorized(category: &str, details: &str) -> (s: String)
    ensures
        s@ == category@ + ": "@ + details@,
{
    let mut s = String::new();
    push_str(&mut s, category);
    push_str(&mut s, ": ");
    push_str(&mut s, details);
    proof {
        assert(s@ =~= category@ + ": "@ + details@);
    }
    s
}

/// An invalid-data error text: `Data Error: details`.
pub fn format_invalid_data(details: &str) -> (s: String)
    ensures
        s@ == INVALID_DATA_CATEGORY@ + ": "@ + details@,
{
    categorized(INVALID_DATA_CATEGORY, details)
}

/// A signal error text: `Signal Error: details`.
pub fn format_signal_error(details: &str) -> (s: String)
    ensures
        s@ == SIGNAL_ERROR_CATEGORY@ + ": "@ + details@,
{
    categorized(SIGNAL_ERROR_CATEGORY, details)
}

/// A message error text: `Message Error: details`.
pub fn format_message_error(details: &str) -> (s: String)
    ensures
        s@ == MESSAGE_ERROR_CATEGORY@ + ": "@ + details@,
{
    categorized(MESSAGE_ERROR_CATEGORY, details)
}

/// A DBC file error text: `DBC Error: details`.
pub fn format_dbc_error(details: &str) -> (s: String)
    ensures
        s@ == DBC_ERROR_CATEGORY@ + ": "@ + details@,
{
    categorized(DBC_ERROR_CATEGORY, details)
}

/// A version error text: `Version Error: details`.
pub fn format_version_error(details: &str) -> (s: String)
    ensures
        s@ == VERSION_ERROR_CATEGORY@ + ": "@ + details@,
{
    categorized(VERSION_ERROR_CATEGORY, details)
}

/// A node list error text: `Nodes Error: details`.
pub fn format_nodes_error(details: &str) -> (s: String)
    ensures
        s@ == NODES_ERROR_CATEGORY@ + ": "@ + details@,
{
    categorized(NODES_ERROR_CATEGORY, details)
}

/// The text of a duplicated message identifier and the two messages that share it.
pub fn duplicate_message_id(id: u32, msg1: &str, msg2: &str) -> (s: String)
    ensures
        s@ == filled(FORMAT_DUPLICATE_MESSAGE_ID@, seq![decimal_chars(id as nat), msg1@, msg2@]),
{
    let d = decimal_string(id as u64);
    let args = [d.as_str(), msg1, msg2];
    let s = replace_placeholders(FORMAT_DUPLICATE_MESSAGE_ID, &args);
    proof {
        assert(str_views(args@) =~= seq![decimal_chars(id as nat), msg1@, msg2@]);
    }
    s
}

/// The text of a message whose sender is not one of the nodes.
pub fn sender_not_in_nodes(msg_name: &str, sender: &str) -> (s: String)
    ensures
        s@ == filled(FORMAT_SENDER_NOT_IN_NODES@, seq![msg_name@, sender@]),
{
    let args = [msg_name, sender];
    let s = replace_placeholders(FORMAT_SENDER_NOT_IN_NODES, &args);
    proof {
        assert(str_views(args@) =~= seq![msg_name@, sender@]);
    }
    s
}

/// The text of a signal that reaches past its message: its name, start bit,
/// length, end bit, the message's bit count and its DLC.
pub fn signal_extends_beyond_message(
    signal_name: &str,
    start_bit: u16,
    length: u16,
    end_bit: u16,
    max_bits: u16,
    dlc: u8,
) -> (s: String)
    ensures
        s@ == filled(
            FORMAT_SIGNAL_EXTENDS_BEYOND_MESSAGE@,
            seq![
                signal_name@,
                decimal_chars(start_bit as nat),
                decimal_chars(length as nat),
                decimal_chars(end_bit as nat),
                decimal_chars(max_bits as nat),
                decimal_chars(dlc as nat),
            ],
        ),
{
    let a = decimal_string(start_bit as u64);
    let b = decimal_string(length as u64);
    let c = decimal_string(end_bit as u64);
    let d = decimal_string(max_bits as u64);
    let e = decimal_string(dlc as u64);
    let args = [signal_name, a.as_str(), b.as_str(), c.as_str(), d.as_str(), e.as_str()];
    let s = replace_placeholders(FORMAT_SIGNAL_EXTENDS_BEYOND_MESSAGE, &args);
    proof {
        assert(str_views(args@) =~= seq![
            signal_name@,
            decimal_chars(start_bit as nat),
            decimal_chars(length as nat),
            decimal_chars(end_bit as nat),
            decimal_chars(max_bits as nat),
            decimal_chars(dlc as nat),
        ]);
    }
    s
}

/// The text of a number that could not be read, with the reason.
pub fn parse_number_failed(err: &str) -> (s: String)
    ensures
        s@ == filled(FORMAT_PARSE_NUMBER_FAILED@, seq![err@]),
{
    let args = [err];
    let s = replace_placeholders(FORMAT_PARSE_NUMBER_FAILED, &args);
    proof {
        assert(str_views(args@) =~= seq![err@]);
    }
    s
}

/// The text of bytes that are not UTF-8, with the reason.
pub fn invalid_utf8(err: &str) -> (s: String)
    ensures
        s@ == filled(FORMAT_INVALID_UTF8@, seq![err@]),
{
    let args = [err];
    let s = replace_placeholders(FORMAT_INVALID_UTF8, &args);
    proof {
        assert(str_views(args@) =~= seq![err@]);
    }
    s
}

/// The text of input that could not be read, with the reason.
pub fn read_failed(err: &str) -> (s: String)
    ensures
        s@ == filled(FORMAT_READ_FAILED@, seq![err@]),
{
    let args = [err];
    let s = replace_placeholders(FORMAT_READ_FAILED, &args);
    proof {
        assert(str_views(args@) =~= seq![err@]);
    }
    s
}

/// The text of two signals that share bits in a message.
pub fn signal_overlap(signal1: &str, signal2: &str, message: &str) -> (s: String)
    ensures
        s@ == filled(FORMAT_SIGNAL_OVERLAP@, seq![signal1@, signal2@, message@]),
{
    let args = [signal1, signal2, message];
    let s = replace_placeholders(FORMAT_SIGNAL_OVERLAP, &args);
    proof {
        assert(str_views(args@) =~= seq![signal1@, signal2@, message@]);
    }
    s
}

/// The first `i` digits of `d` with a comma before each digit that starts
/// a group of three counted from the right (never before the first).
pub open spec fn with_commas(d: Seq<char>, i: int) -> Seq<char>
    decreases i,
{
    if i <= 0 {
        Seq::empty()
    } else {
        with_commas(d, i - 1) + if i - 1 > 0 && (d.len() - (i - 1)) % 3 == 0 {
            seq![',']
        } else {
            Seq::empty()
        } + seq![d[i - 1]]
    }
}

/// Groups the digits of `s` by threes from the right with commas, as
/// `with_commas` says.
pub fn format_number_with_commas(s: &str) -> (r: String)
    ensures
        r@ == with_commas(s@, s@.len() as int),
{
    let cs = chars_of(s);
    let n = cs.len();
    let mut r = String::new();
    let mut i: usize = 0;
    while i < n
        invariant
            n == cs@.len(),
            cs@ == s@,
            0 <= i <= n,
            r@ == with_commas(s@, i as int),
        decreases n - i,
    {
        if i > 0 && (n - i) % 3 == 0 {
            push_char(&mut r, ',');
        }
        push_char(&mut r, cs[i]);
        i = i + 1;
        proof {
            assert(r@ =~= with_commas(s@, i as int));
        }
    }
    r
}

/// The hexadecimal form of a message identifier: `0x`, four digits, `_`,
/// four digits (eight upper-case digits in all).
pub open spec fn hex_id_text(id: u32) -> Seq<char> {
    let h = hex_chars(id as nat, 8);
    seq!['0', 'x'] + h.subrange(0, 4) + seq!['_'] + h.subrange(4, 8)
}

/// The text of a message identifier past 29 bits. The template shows the
/// identifier in hexadecimal, as `hex_id_text` writes it.
pub fn message_id_out_of_range(id: u32) -> (s: String)
    ensures
        s@ == filled(
            FORMAT_MESSAGE_ID_OUT_OF_RANGE@,
            seq![hex_id_text(id), with_commas(decimal_chars(id as nat), decimal_chars(id as nat).len() as int)],
        ),
{
    let hex = hex_string(id as u64, 8);
    let hs = chars_of(hex.as_str());
    let mut hex_id = String::new();
    push_char(&mut hex_id, '0');
    push_char(&mut hex_id, 'x');
    let mut i: usize = 0;
    proof {
        assert(hs@.len() == 8) by {
            lemma_hex_chars_len(id as nat, 8);
        }
    }
    while i < 8
        invariant
            hs@.len() == 8,
            0 <= i <= 8,
            hex_id@ == seq!['0', 'x'] + hs@.subrange(0, if i < 4 { i as int } else { 4 }) + if i
                > 4 {
                seq!['_'] + hs@.subrange(4, i as int)
            } else {
                Seq::empty()
            },
        decreases 8 - i,
    {
        if i == 4 {
            push_char(&mut hex_id, '_');
        }
        push_char(&mut hex_id, hs[i]);
        i = i + 1;
        proof {
            if i <= 4 {
                assert(hex_id@ =~= seq!['0', 'x'] + hs@.subrange(0, i as int));
            } else {
                assert(hex_id@ =~= seq!['0', 'x'] + hs@.subrange(0, 4) + seq!['_'] + hs@.subrange(
                    4,
                    i as int,
                ));
            }
        }
    }
    proof {
        assert(hex_id@ =~= hex_id_text(id));
    }
    let decimal = decimal_string(id as u64);
    let decimal_id = format_number_with_commas(decimal.as_str());
    let args = [hex_id.as_str(), decimal_id.as_str()];
    let s = replace_placeholders(FORMAT_MESSAGE_ID_OUT_OF_RANGE, &args);
    proof {
        assert(str_views(args@) =~= seq![
            hex_id_text(id),
            with_commas(decimal_chars(id as nat), decimal_chars(id as nat).len() as int),
        ]);
    }
    s
}

/// `hex_chars` gives exactly `width` digits.
proof fn lemma_hex_chars_len(n: nat, width: nat)
    ensures
        hex_chars(n, width).len() == width,
    decreases width,
{
    if width > 0 {
        lemma_hex_chars_len(n / 16, (width - 1) as nat);
    }
}

} // verus!
