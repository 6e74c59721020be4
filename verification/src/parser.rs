//! A byte-level cursor over DBC text, with line tracking.
use vstd::prelude::*;

use crate::error::{Error, Result};
use vstd::string::StringSliceAdditionalSpecFns;
use crate::text::{all_ascii, ascii_chars, ascii_str};

verus! {

/// Space, tab, line feed or carriage return.
pub open spec fn is_space_or_newline(b: u8) -> bool {
    b == 32 || b == 9 || b == 10 || b == 13
}

/// Line feed or carriage return.
pub open spec fn is_newline(b: u8) -> bool {
    b == 10 || b == 13
}

/// Position `i` of `s` starts a new line: a carriage return, or a line feed
/// that does not complete a carriage return / line feed pair.
pub open spec fn breaks_at(s: Seq<u8>, i: int) -> bool {
    s[i] == 13 || (s[i] == 10 && !(i > 0 && s[i - 1] == 13))
}

/// Number of line breaks in `s`, a CR LF pair counting once.
pub open spec fn line_breaks(s: Seq<u8>) -> nat
    decreases s.len(),
{
    if s.len() == 0 {
        0
    } else {
        line_breaks(s.drop_last()) + if breaks_at(s, s.len() - 1) {
            1nat
        } else {
            0nat
        }
    }
}

/// A run of bytes contains at most as many line breaks as bytes.
pub(crate) proof fn lemma_line_breaks_bound(s: Seq<u8>)
    ensures
        line_breaks(s) <= s.len(),
    decreases s.len(),
{
    if s.len() > 0 {
        lemma_line_breaks_bound(s.drop_last());
    }
}

/// Line breaks of `s[a..b+1]` are those of `s[a..b]` plus one when `b` breaks a line there.
pub(crate) proof fn lemma_line_breaks_extend(s: Seq<u8>, a: int, b: int)
    requires
        0 <= a <= b < s.len(),
    ensures
        line_breaks(s.subrange(a, b + 1)) == line_breaks(s.subrange(a, b)) + if breaks_at(
            s.subrange(a, b + 1),
            b - a,
        ) {
            1nat
        } else {
            0nat
        },
        breaks_at(s.subrange(a, b + 1), b - a) <==> (s[b] == 13 || (s[b] == 10 && !(b > a && s[b
            - 1] == 13))),
{
    assert(s.subrange(a, b + 1).drop_last() =~= s.subrange(a, b));
}

/// The bytes hold no carriage return.
pub open spec fn no_carriage_return(s: Seq<u8>) -> bool {
    forall|i: int| 0 <= i < s.len() ==> s[i] != 13
}

/// Without carriage returns, the line breaks of `s[a..c]` are those of
/// `s[a..b]` and of `s[b..c]` together.
pub(crate) proof fn lemma_line_breaks_split(s: Seq<u8>, a: int, b: int, c: int)
    requires
        no_carriage_return(s),
        0 <= a <= b <= c <= s.len(),
    ensures
        line_breaks(s.subrange(a, c)) == line_breaks(s.subrange(a, b)) + line_breaks(
            s.subrange(b, c),
        ),
    decreases c - b,
{
    if c == b {
        assert(s.subrange(b, b) =~= Seq::<u8>::empty());
    } else {
        lemma_line_breaks_split(s, a, b, c - 1);
        lemma_line_breaks_extend(s, a, c - 1);
        lemma_line_breaks_extend(s, b, c - 1);
        if c - 1 > a {
            assert(s[c - 2] != 13);
        }
    }
}

/// A run of bytes with no line break holds no line break.
pub(crate) proof fn lemma_line_breaks_none(s: Seq<u8>, a: int, b: int)
    requires
        0 <= a <= b <= s.len(),
        forall|k: int| a <= k < b ==> !is_newline(#[trigger] s[k]),
    ensures
        line_breaks(s.subrange(a, b)) == 0,
    decreases b - a,
{
    if b == a {
        assert(s.subrange(a, a) =~= Seq::<u8>::empty());
    } else {
        lemma_line_breaks_none(s, a, b - 1);
        lemma_line_breaks_extend(s, a, b - 1);
    }
}

/// Moving from `before` to `after` while counting the line breaks passed
/// keeps the line counter telling the line of the position.
pub(crate) proof fn lemma_counts_lines_advance<'a>(before: Parser<'a>, after: Parser<'a>)
    requires
        after.input == before.input,
        before.pos <= after.pos <= before.input@.len(),
        after.line == before.line + line_breaks(
            before.input@.subrange(before.pos as int, after.pos as int),
        ),
    ensures
        before.counts_lines() ==> after.counts_lines(),
{
    if no_carriage_return(before.input@) {
        lemma_line_breaks_split(before.input@, 0, before.pos as int, after.pos as int);
    }
}

/// Moving over bytes that hold no line break, with the line counter left
/// alone, keeps it telling the line of the position.
pub(crate) proof fn lemma_counts_lines_no_break<'a>(before: Parser<'a>, after: Parser<'a>)
    requires
        after.input == before.input,
        after.line == before.line,
        before.pos <= after.pos <= before.input@.len(),
        forall|k: int| before.pos <= k < after.pos ==> !is_newline(#[trigger] before.input@[k]),
    ensures
        before.counts_lines() ==> after.counts_lines(),
{
    lemma_line_breaks_none(before.input@, before.pos as int, after.pos as int);
    lemma_counts_lines_advance(before, after);
}

/// The first position at or after `i` that holds a line break, or the length of `s`.
pub open spec fn line_end(s: Seq<u8>, i: int) -> int
    decreases s.len() - i,
{
    if i < 0 || i >= s.len() || is_newline(s[i]) {
        i
    } else {
        line_end(s, i + 1)
    }
}

/// The first position at or after `i` that holds no space, tab or line break.
pub open spec fn blank_end(s: Seq<u8>, i: int) -> int
    decreases s.len() - i,
{
    if 0 <= i < s.len() && is_space_or_newline(s[i]) {
        blank_end(s, i + 1)
    } else {
        i
    }
}

/// The first position at or after `i` that holds no space.
pub open spec fn spaces_end(s: Seq<u8>, i: int) -> int
    decreases s.len() - i,
{
    if 0 <= i < s.len() && s[i] == 32 {
        spaces_end(s, i + 1)
    } else {
        i
    }
}

/// `blank_end` never moves backwards, nor past the end of `s`.
pub proof fn lemma_blank_end_ge(s: Seq<u8>, i: int)
    ensures
        blank_end(s, i) >= i,
        i <= s.len() ==> blank_end(s, i) <= s.len(),
    decreases s.len() - i,
{
    if 0 <= i < s.len() && is_space_or_newline(s[i]) {
        lemma_blank_end_ge(s, i + 1);
    }
}

/// A run of blanks from `i` that stops at `j` ends at `blank_end(s, i)`.
pub(crate) proof fn lemma_blank_end(s: Seq<u8>, i: int, j: int)
    requires
        0 <= i <= j <= s.len(),
        forall|k: int| i <= k < j ==> is_space_or_newline(s[k]),
        j < s.len() ==> !is_space_or_newline(s[j]),
    ensures
        blank_end(s, i) == j,
    decreases j - i,
{
    if i < j {
        lemma_blank_end(s, i + 1, j);
    }
}

/// A run of spaces from `i` that stops at `j` ends at `spaces_end(s, i)`.
pub(crate) proof fn lemma_spaces_end(s: Seq<u8>, i: int, j: int)
    requires
        0 <= i <= j <= s.len(),
        forall|k: int| i <= k < j ==> s[k] == 32,
        j < s.len() ==> s[j] != 32,
    ensures
        spaces_end(s, i) == j,
    decreases j - i,
{
    if i < j {
        lemma_spaces_end(s, i + 1, j);
    }
}

/// `spaces_end` never moves backwards.
pub(crate) proof fn lemma_spaces_end_ge(s: Seq<u8>, i: int)
    ensures
        spaces_end(s, i) >= i,
    decreases s.len() - i,
{
    if 0 <= i < s.len() && s[i] == 32 {
        lemma_spaces_end_ge(s, i + 1);
    }
}

/// `digits_end` never moves backwards, nor past the end of `s`.
pub(crate) proof fn lemma_digits_end_ge(s: Seq<u8>, i: int)
    ensures
        digits_end(s, i) >= i,
        i <= s.len() ==> digits_end(s, i) <= s.len(),
    decreases s.len() - i,
{
    if 0 <= i < s.len() && is_digit(s[i]) {
        lemma_digits_end_ge(s, i + 1);
    }
}

/// `ident_end` never moves backwards, nor past the end of `s`.
pub proof fn lemma_ident_end_ge(s: Seq<u8>, i: int)
    ensures
        ident_end(s, i) >= i,
        i <= s.len() ==> ident_end(s, i) <= s.len(),
    decreases s.len() - i,
{
    if 0 <= i < s.len() && is_ident_char(s[i]) {
        lemma_ident_end_ge(s, i + 1);
    }
}

/// ASCII letter.
pub open spec fn is_alpha(b: u8) -> bool {
    (65 <= b <= 90) || (97 <= b <= 122)
}

/// ASCII decimal digit.
pub open spec fn is_digit(b: u8) -> bool {
    48 <= b <= 57
}

/// May start a C identifier: a letter or an underscore.
pub open spec fn is_ident_start(b: u8) -> bool {
    is_alpha(b) || b == 95
}

/// May continue a C identifier: a letter, a digit or an underscore.
pub open spec fn is_ident_char(b: u8) -> bool {
    is_ident_start(b) || is_digit(b)
}

/// Ends an identifier: space, tab, line break, colon, semicolon or comma.
pub open spec fn is_ident_delimiter(b: u8) -> bool {
    b == 32 || b == 9 || b == 10 || b == 13 || b == 58 || b == 59 || b == 44
}

/// Stands where an identifier was expected and means that none is there:
/// space, tab, line break, colon or semicolon.
pub open spec fn is_ident_absent(b: u8) -> bool {
    b == 32 || b == 9 || b == 10 || b == 13 || b == 58 || b == 59
}

/// The first position at or after `i` that does not hold an identifier character.
pub open spec fn ident_end(s: Seq<u8>, i: int) -> int
    decreases s.len() - i,
{
    if 0 <= i < s.len() && is_ident_char(s[i]) {
        ident_end(s, i + 1)
    } else {
        i
    }
}

/// The first position at or after `i` that does not hold a decimal digit.
pub open spec fn digits_end(s: Seq<u8>, i: int) -> int
    decreases s.len() - i,
{
    if 0 <= i < s.len() && is_digit(s[i]) {
        digits_end(s, i + 1)
    } else {
        i
    }
}

/// The value of a run of decimal digits, most significant first.
pub open spec fn digits_value(s: Seq<u8>) -> nat
    decreases s.len(),
{
    if s.len() == 0 {
        0
    } else {
        digits_value(s.drop_last()) * 10 + (s.last() - 48) as nat
    }
}

/// May stand in a quoted string: no backslash, tab or line break; for a C
/// identifier a letter or underscore first and then letters, digits and
/// underscores; otherwise no control character and no DEL.
pub open spec fn quoted_byte_ok(c_identifier: bool, first: bool, b: u8) -> bool {
    &&& b != 92 && b != 9 && b != 10 && b != 13
    &&& if c_identifier {
        if first {
            is_ident_start(b)
        } else {
            is_ident_char(b)
        }
    } else {
        b >= 32 && b != 127
    }
}

/// Where scanning a quoted string that starts at `start` stops, having
/// reached `i`: at the end of input, past `max` bytes, at the closing quote
/// or at a byte that may not stand in the string.
pub open spec fn quote_scan_end(s: Seq<u8>, start: int, i: int, c_identifier: bool, max: int) -> int
    decreases s.len() - i,
{
    if 0 <= i < s.len() && i - start <= max && s[i] != 34 && quoted_byte_ok(
        c_identifier,
        i == start,
        s[i],
    ) {
        quote_scan_end(s, start, i + 1, c_identifier, max)
    } else {
        i
    }
}

/// Ends a number: space, tab, line break, colon, comma, closing parenthesis,
/// closing bracket or pipe.
pub open spec fn is_number_delimiter(b: u8) -> bool {
    b == 32 || b == 9 || b == 10 || b == 13 || b == 58 || b == 44 || b == 41 || b == 93 || b
        == 124
}

/// Scans the body of a number from `i` (after any leading sign): digits, at
/// most one decimal point before the exponent, and at most one exponent
/// marker `e` or `E` with an optional sign. Returns where the scan stopped
/// and whether it stopped at the end of input or at a delimiter.
pub open spec fn number_scan(s: Seq<u8>, i: int, has_dot: bool, has_e: bool) -> (int, bool)
    decreases s.len() - i,
{
    if i < 0 || i >= s.len() {
        (i, true)
    } else if is_digit(s[i]) {
        number_scan(s, i + 1, has_dot, has_e)
    } else if s[i] == 46 && !has_dot && !has_e {
        number_scan(s, i + 1, true, has_e)
    } else if (s[i] == 101 || s[i] == 69) && !has_e {
        if i + 1 < s.len() && (s[i + 1] == 43 || s[i + 1] == 45) {
            number_scan(s, i + 2, has_dot, true)
        } else {
            number_scan(s, i + 1, has_dot, true)
        }
    } else if is_number_delimiter(s[i]) {
        (i, true)
    } else {
        (i, false)
    }
}

/// Where the body of a number starting at `i` begins: after a leading `+` or `-`.
pub open spec fn number_body_start(s: Seq<u8>, i: int) -> int {
    if 0 <= i < s.len() && (s[i] == 43 || s[i] == 45) {
        i + 1
    } else {
        i
    }
}

/// May follow a keyword: space, tab, colon or line break.
pub open spec fn is_keyword_delimiter(b: u8) -> bool {
    b == 32 || b == 9 || b == 58 || b == 10 || b == 13
}

/// The keyword `kw` stands in `s` at `pos`, followed by a delimiter or the end of input.
pub open spec fn keyword_at(s: Seq<u8>, pos: int, kw: Seq<u8>) -> bool {
    &&& matches_at(s, pos, kw)
    &&& (pos + kw.len() < s.len() ==> is_keyword_delimiter(s[pos + kw.len()]))
}

/// Number of DBC keywords.
pub const KEYWORD_COUNT: usize = 36;

/// The DBC keywords, longer ones before the keywords they start with.
pub open spec fn spec_dbc_keyword(i: int) -> &'static str {
    if i == 0 { "VECTOR__INDEPENDENT_SIG_MSG" }
    else if i == 1 { "VECTOR__XXX" }
    else if i == 2 { "BA_DEF_DEF_REL_" }
    else if i == 3 { "BA_DEF_SGTYPE_" }
    else if i == 4 { "SIGTYPE_VALTYPE_" }
    else if i == 5 { "ENVVAR_DATA_" }
    else if i == 6 { "SIG_TYPE_REF_" }
    else if i == 7 { "NS_DESC_" }
    else if i == 8 { "BA_DEF_REL_" }
    else if i == 9 { "BA_SGTYPE_" }
    else if i == 10 { "SGTYPE_VAL_" }
    else if i == 11 { "VAL_TABLE_" }
    else if i == 12 { "SIG_GROUP_" }
    else if i == 13 { "SIG_VALTYPE_" }
    else if i == 14 { "BO_TX_BU_" }
    else if i == 15 { "BU_SG_REL_" }
    else if i == 16 { "BU_EV_REL_" }
    else if i == 17 { "BU_BO_REL_" }
    else if i == 18 { "SG_MUL_VAL_" }
    else if i == 19 { "BA_DEF_DEF_" }
    else if i == 20 { "BA_DEF_" }
    else if i == 21 { "BA_REL_" }
    else if i == 22 { "CAT_DEF_" }
    else if i == 23 { "EV_DATA_" }
    else if i == 24 { "BA_" }
    else if i == 25 { "VAL_" }
    else if i == 26 { "CM_" }
    else if i == 27 { "CAT_" }
    else if i == 28 { "NS_" }
    else if i == 29 { "BS_" }
    else if i == 30 { "BU_" }
    else if i == 31 { "BO_" }
    else if i == 32 { "SG_" }
    else if i == 33 { "EV_" }
    else if i == 34 { "VERSION" }
    else { "FILTER" }
}

/// The keyword at index `i` of the keyword table.
pub fn dbc_keyword(i: usize) -> (k: &'static str)
    requires
        i < KEYWORD_COUNT,
    ensures
        k == spec_dbc_keyword(i as int),
{
    if i == 0 { "VECTOR__INDEPENDENT_SIG_MSG" }
    else if i == 1 { "VECTOR__XXX" }
    else if i == 2 { "BA_DEF_DEF_REL_" }
    else if i == 3 { "BA_DEF_SGTYPE_" }
    else if i == 4 { "SIGTYPE_VALTYPE_" }
    else if i == 5 { "ENVVAR_DATA_" }
    else if i == 6 { "SIG_TYPE_REF_" }
    else if i == 7 { "NS_DESC_" }
    else if i == 8 { "BA_DEF_REL_" }
    else if i == 9 { "BA_SGTYPE_" }
    else if i == 10 { "SGTYPE_VAL_" }
    else if i == 11 { "VAL_TABLE_" }
    else if i == 12 { "SIG_GROUP_" }
    else if i == 13 { "SIG_VALTYPE_" }
    else if i == 14 { "BO_TX_BU_" }
    else if i == 15 { "BU_SG_REL_" }
    else if i == 16 { "BU_EV_REL_" }
    else if i == 17 { "BU_BO_REL_" }
    else if i == 18 { "SG_MUL_VAL_" }
    else if i == 19 { "BA_DEF_DEF_" }
    else if i == 20 { "BA_DEF_" }
    else if i == 21 { "BA_REL_" }
    else if i == 22 { "CAT_DEF_" }
    else if i == 23 { "EV_DATA_" }
    else if i == 24 { "BA_" }
    else if i == 25 { "VAL_" }
    else if i == 26 { "CM_" }
    else if i == 27 { "CAT_" }
    else if i == 28 { "NS_" }
    else if i == 29 { "BS_" }
    else if i == 30 { "BU_" }
    else if i == 31 { "BO_" }
    else if i == 32 { "SG_" }
    else if i == 33 { "EV_" }
    else if i == 34 { "VERSION" }
    else { "FILTER" }
}

/// The index of the first keyword of the table that stands in `s` at `pos`,
/// or `KEYWORD_COUNT` when none does.
pub open spec fn first_keyword_at(s: Seq<u8>, pos: int) -> int {
    first_keyword_from(s, pos, 0)
}

/// As `first_keyword_at`, looking at the table from index `i` on.
pub open spec fn first_keyword_from(s: Seq<u8>, pos: int, i: int) -> int
    decreases KEYWORD_COUNT - i,
{
    if i < 0 || i >= KEYWORD_COUNT {
        KEYWORD_COUNT as int
    } else if keyword_at(s, pos, spec_dbc_keyword(i).spec_bytes()) {
        i
    } else {
        first_keyword_from(s, pos, i + 1)
    }
}

/// A number scan never moves backwards.
pub(crate) proof fn lemma_number_scan_advances(s: Seq<u8>, i: int, has_dot: bool, has_e: bool)
    ensures
        number_scan(s, i, has_dot, has_e).0 >= i,
    decreases s.len() - i,
{
    if 0 <= i < s.len() {
        if is_digit(s[i]) {
            lemma_number_scan_advances(s, i + 1, has_dot, has_e);
        } else if s[i] == 46 && !has_dot && !has_e {
            lemma_number_scan_advances(s, i + 1, true, has_e);
        } else if (s[i] == 101 || s[i] == 69) && !has_e {
            if i + 1 < s.len() && (s[i + 1] == 43 || s[i + 1] == 45) {
                lemma_number_scan_advances(s, i + 2, has_dot, true);
            } else {
                lemma_number_scan_advances(s, i + 1, has_dot, true);
            }
        }
    }
}

/// The keyword that `first_keyword_from` names stands at `pos`.
pub(crate) proof fn lemma_first_keyword(s: Seq<u8>, pos: int, i: int)
    requires
        0 <= i,
    ensures
        first_keyword_from(s, pos, i) <= KEYWORD_COUNT,
        first_keyword_from(s, pos, i) < KEYWORD_COUNT ==> keyword_at(
            s,
            pos,
            spec_dbc_keyword(first_keyword_from(s, pos, i)).spec_bytes(),
        ),
    decreases KEYWORD_COUNT - i,
{
    if i < KEYWORD_COUNT && !keyword_at(s, pos, spec_dbc_keyword(i).spec_bytes()) {
        lemma_first_keyword(s, pos, i + 1);
    }
}

/// `pat` occurs in `s` at position `pos`.
pub open spec fn matches_at(s: Seq<u8>, pos: int, pat: Seq<u8>) -> bool {
    0 <= pos && pos + pat.len() <= s.len() && s.subrange(pos, pos + pat.len()) == pat
}

/// A cursor over DBC input bytes.
///
/// `pos` is the index of the next byte to read and `line` the 1-based line
/// number at that position.
#[derive(Debug)]
pub struct Parser<'a> {
    pub input: &'a [u8],
    pub pos: usize,
    pub line: usize,
}

impl<'a> Parser<'a> {
    /// The line counter tells on which line the position lies: when the
    /// input holds no carriage return, it is one more than the line feeds
    /// before the position. A new parser starts so, and skipping blanks,
    /// spaces or the rest of a line, matching a pattern, reading a keyword,
    /// a quoted text or an identifier keep it so.
    pub open spec fn counts_lines(&self) -> bool {
        no_carriage_return(self.input@) ==> self.line == 1 + line_breaks(
            self.input@.subrange(0, self.pos as int),
        )
    }

    /// The position lies within the input, and the line counter has room for
    /// every line break that the rest of the input can hold.
    pub open spec fn well_formed(&self) -> bool {
        &&& self.pos <= self.input@.len()
        &&& self.line + (self.input@.len() - self.pos) <= usize::MAX
    }

    /// Creates a parser at the start of `input`; an empty input is refused.
    pub fn new(input: &'a [u8]) -> (r: Result<Self>)
        requires
            input@.len() < usize::MAX,
        ensures
            input@.len() == 0 ==> r == Err::<Self, Error>(Error::UnexpectedEof),
            input@.len() > 0 ==> (r matches Ok(p) && p.input@ == input@ && p.pos == 0 && p.line
                == 1),
            r matches Ok(p) ==> p.well_formed(),
            r matches Ok(p) ==> p.counts_lines(),
    {
        if input.len() == 0 {
            return Err(Error::UnexpectedEof);
        }
        let p = Parser { input, pos: 0, line: 1 };
        proof {
            assert(p.input@.subrange(0, 0) =~= Seq::<u8>::empty());
        }
        Ok(p)
    }

    /// The current position.
    pub fn pos(&self) -> (r: usize)
        ensures
            r == self.pos,
    {
        self.pos
    }

    /// The current line number (1-based).
    pub fn line(&self) -> (r: usize)
        ensures
            r == self.line,
    {
        self.line
    }

    /// True when nothing has been read yet.
    pub fn is_at_start(&self) -> (r: bool)
        ensures
            r == (self.pos == 0),
    {
        self.pos == 0
    }

    /// The bytes not read yet.
    pub fn remaining(&self) -> (r: &'a [u8])
        requires
            self.well_formed(),
        ensures
            r@ == self.input@.subrange(self.pos as int, self.input@.len() as int),
    {
        &self.input[self.pos..self.input.len()]
    }

    /// True when every byte has been read.
    pub fn is_empty(&self) -> (r: bool)
        requires
            self.well_formed(),
        ensures
            r == (self.pos == self.input@.len()),
    {
        self.pos == self.input.len()
    }

    /// True when every byte has been read (or the position lies past the end).
    pub fn eof(&self) -> (r: bool)
        ensures
            r == (self.pos >= self.input@.len()),
    {
        self.pos >= self.input.len()
    }

    /// The byte at the current position, if any.
    pub fn current_byte(&self) -> (r: Option<u8>)
        ensures
            r == (if self.pos < self.input@.len() {
                Some(self.input@[self.pos as int])
            } else {
                None::<u8>
            }),
    {
        if self.pos < self.input.len() {
            Some(self.input[self.pos])
        } else {
            None
        }
    }

    /// True when the byte at the current position is a line feed or carriage return.
    pub fn at_newline(&self) -> (r: bool)
        ensures
            r == (self.pos < self.input@.len() && is_newline(self.input@[self.pos as int])),
    {
        self.pos < self.input.len() && (self.input[self.pos] == 10u8 || self.input[self.pos]
            == 13u8)
    }

    /// Consumes the byte `b` (not a line break) if it is next.
    pub fn accept_byte(&mut self, b: u8) -> (r: bool)
        requires
            old(self).well_formed(),
            !is_newline(b),
        ensures
            final(self).well_formed(),
            final(self).input == old(self).input,
            final(self).line == old(self).line,
            r == (old(self).pos < old(self).input@.len() && old(self).input@[old(self).pos as int]
                == b),
            final(self).pos == if r {
                old(self).pos + 1
            } else {
                old(self).pos as int
            },
    {
        if self.pos < self.input.len() && self.input[self.pos] == b {
            self.pos = self.pos + 1;
            true
        } else {
            false
        }
    }

    /// Moves one byte forward, without counting lines; does nothing at the end.
    pub fn advance_one(&mut self)
        ensures
            final(self).input == old(self).input,
            final(self).line == old(self).line,
            final(self).pos == if old(self).pos < old(self).input@.len() {
                old(self).pos + 1
            } else {
                old(self).pos as int
            },
    {
        if self.pos < self.input.len() {
            self.pos = self.pos + 1;
        }
    }

    /// True when the unread bytes start with `pattern`.
    pub fn starts_with(&self, pattern: &[u8]) -> (r: bool)
        requires
            self.well_formed(),
        ensures
            r == matches_at(self.input@, self.pos as int, pattern@),
    {
        let n = pattern.len();
        let len = self.input.len();
        if len - self.pos < n {
            return false;
        }
        let mut i: usize = 0;
        while i < n
            invariant
                self.well_formed(),
                n == pattern@.len(),
                len == self.input@.len(),
                self.pos + n <= len,
                0 <= i <= n,
                forall|k: int| 0 <= k < i ==> self.input@[self.pos + k] == pattern@[k],
            decreases n - i,
        {
            if self.input[self.pos + i] != pattern[i] {
                proof {
                    assert(self.input@.subrange(self.pos as int, self.pos + n)[i as int]
                        != pattern@[i as int]);
                }
                return false;
            }
            i = i + 1;
        }
        proof {
            assert(self.input@.subrange(self.pos as int, self.pos + n) =~= pattern@);
        }
        true
    }

    /// The byte `offset` positions after the current one, if any.
    pub fn peek_byte_at(&self, offset: usize) -> (r: Option<u8>)
        requires
            self.pos + offset <= usize::MAX,
        ensures
            r == (if self.pos + offset < self.input@.len() {
                Some(self.input@[self.pos + offset])
            } else {
                None::<u8>
            }),
    {
        let p = self.pos + offset;
        if p < self.input.len() {
            Some(self.input[p])
        } else {
            None
        }
    }

    /// Skips one or more spaces; succeeds exactly when the next byte is a
    /// space.
    ///
    /// Fails with `UnexpectedEof` at the end of input and with
    /// `Expected(EXPECTED_WHITESPACE)` when the next byte is not a space; the
    /// parser is unchanged on failure.
    pub fn skip_whitespace(&mut self) -> (r: Result<&mut Self>)
        requires
            old(self).well_formed(),
        ensures
            old(self).pos >= old(self).input@.len() ==> (r matches Err(e) && e
                == Error::UnexpectedEof),
            old(self).pos < old(self).input@.len() && old(self).input@[old(self).pos as int] != 32
                ==> (r matches Err(e) && e == Error::Expected(Error::EXPECTED_WHITESPACE)),
            r is Ok <==> (old(self).pos < old(self).input@.len() && old(self).input@[old(
                self,
            ).pos as int] == 32),
            r is Err ==> *final(self) == *old(self),
            r matches Ok(p) ==> {
                &&& old(self).pos < old(self).input@.len()
                &&& old(self).input@[old(self).pos as int] == 32
                &&& p.spaces_skipped_from(*old(self))
                &&& *final(self) == *final(p)
            },
            r matches Ok(p) ==> (old(self).counts_lines() ==> p.counts_lines()),
    {
        let ghost before = *self;
        match self.skip_spaces() {
            Ok(()) => {
                proof {
                    lemma_counts_lines_no_break(before, *self);
                }
                Ok(self)
            },
            Err(e) => Err(e),
        }
    }

    /// `self` is `before` moved past the run of spaces at its position.
    pub open spec fn spaces_skipped_from(&self, before: Self) -> bool {
        &&& self.input == before.input
        &&& self.line == before.line
        &&& before.pos < self.pos <= self.input@.len()
        &&& forall|k: int| before.pos <= k < self.pos ==> self.input@[k] == 32
        &&& (self.pos < self.input@.len() ==> self.input@[self.pos as int] != 32)
    }

    /// As `skip_whitespace`, without handing the parser back.
    pub fn skip_spaces(&mut self) -> (r: Result<()>)
        requires
            old(self).well_formed(),
        ensures
            final(self).well_formed(),
            old(self).pos >= old(self).input@.len() ==> r == Err::<(), Error>(Error::UnexpectedEof),
            old(self).pos < old(self).input@.len() && old(self).input@[old(self).pos as int] != 32
                ==> r == Err::<(), Error>(Error::Expected(Error::EXPECTED_WHITESPACE)),
            r is Err ==> *final(self) == *old(self),
            r is Ok <==> old(self).pos < old(self).input@.len() && old(self).input@[old(self).pos as int] == 32,
            r is Ok ==> final(self).spaces_skipped_from(*old(self)),
    {
        let len = self.input.len();
        if self.pos >= len {
            return Err(Error::UnexpectedEof);
        }
        if self.input[self.pos] == 32u8 {
            let ghost start = self.pos;
            while self.pos + 1 < len && self.input[self.pos + 1] == 32u8
                invariant
                    self.input == old(self).input,
                    self.line == old(self).line,
                    len == self.input@.len(),
                    start == old(self).pos,
                    start <= self.pos < len,
                    forall|k: int| start <= k <= self.pos ==> self.input@[k] == 32,
                decreases len - self.pos,
            {
                self.pos = self.pos + 1;
            }
            self.pos = self.pos + 1;
            Ok(())
        } else {
            Err(Error::Expected(Error::EXPECTED_WHITESPACE))
        }
    }

    /// Skips spaces if there are any; never fails.
    pub fn skip_whitespace_optional(&mut self)
        requires
            old(self).well_formed(),
        ensures
            final(self).well_formed(),
            final(self).input == old(self).input,
            final(self).line == old(self).line,
            old(self).pos <= final(self).pos <= old(self).input@.len(),
            forall|k: int| old(self).pos <= k < final(self).pos ==> old(self).input@[k] == 32,
            final(self).pos < old(self).input@.len() ==> old(self).input@[final(self).pos as int]
                != 32,
            final(self).pos == spaces_end(old(self).input@, old(self).pos as int),
    {
        let _ = self.skip_spaces();
        proof {
            lemma_spaces_end(self.input@, old(self).pos as int, self.pos as int);
        }
    }

    /// `self` is `before` moved past the run of spaces, tabs and line breaks
    /// at its position, with the line breaks counted.
    pub open spec fn blank_skipped_from(&self, before: Self) -> bool {
        &&& self.input == before.input
        &&& before.pos <= self.pos <= self.input@.len()
        &&& forall|k: int| before.pos <= k < self.pos ==> is_space_or_newline(self.input@[k])
        &&& (self.pos < self.input@.len() ==> !is_space_or_newline(self.input@[self.pos as int]))
        &&& self.line == before.line + line_breaks(
            self.input@.subrange(before.pos as int, self.pos as int),
        )
    }

    /// Skips spaces, tabs and line breaks, counting the line breaks.
    pub fn skip_newlines_and_spaces(&mut self)
        requires
            old(self).well_formed(),
        ensures
            final(self).well_formed(),
            final(self).blank_skipped_from(*old(self)),
            final(self).pos == blank_end(old(self).input@, old(self).pos as int),
            old(self).counts_lines() ==> final(self).counts_lines(),
    {
        let ghost before = *self;
        let len = self.input.len();
        let ghost start = self.pos;
        let ghost line0 = self.line;
        proof {
            assert(self.input@.subrange(start as int, start as int) =~= Seq::<u8>::empty());
        }
        while self.pos < len && (self.input[self.pos] == 10u8 || self.input[self.pos] == 13u8
            || self.input[self.pos] == 32u8 || self.input[self.pos] == 9u8)
            invariant
                self.input == old(self).input,
                len == self.input@.len(),
                start == old(self).pos,
                line0 == old(self).line,
                old(self).well_formed(),
                start <= self.pos <= len,
                forall|k: int| start <= k < self.pos ==> is_space_or_newline(self.input@[k]),
                self.line == line0 + line_breaks(self.input@.subrange(start as int, self.pos as int)),
                self.pos > start && self.input@[self.pos - 1] == 13 && self.pos < len
                    ==> self.input@[self.pos as int] != 10,
            decreases len - self.pos,
        {
            let b = self.input[self.pos];
            proof {
                lemma_line_breaks_bound(self.input@.subrange(start as int, self.pos as int));
                lemma_line_breaks_extend(self.input@, start as int, self.pos as int);
            }
            if b == 10u8 {
                self.pos = self.pos + 1;
                self.line = self.line + 1;
            } else if b == 13u8 {
                self.pos = self.pos + 1;
                if self.pos < len && self.input[self.pos] == 10u8 {
                    proof {
                        lemma_line_breaks_extend(self.input@, start as int, self.pos as int);
                    }
                    self.pos = self.pos + 1;
                }
                self.line = self.line + 1;
            } else {
                self.pos = self.pos + 1;
            }
        }
        proof {
            lemma_line_breaks_bound(self.input@.subrange(start as int, self.pos as int));
            lemma_blank_end(self.input@, start as int, self.pos as int);
            lemma_counts_lines_advance(before, *self);
        }
    }

    /// Skips to just after the next line break (a CR LF pair counts as one),
    /// or to the end of input.
    pub fn skip_to_end_of_line(&mut self)
        requires
            old(self).well_formed(),
        ensures
            final(self).well_formed(),
            final(self).input == old(self).input,
            ({
                let s = old(self).input@;
                let e = line_end(s, old(self).pos as int);
                &&& e == s.len() ==> final(self).pos == s.len() && final(self).line == old(self).line
                &&& e < s.len() && s[e] == 10 ==> final(self).pos == e + 1 && final(self).line
                    == old(self).line + 1
                &&& e < s.len() && s[e] == 13 ==> final(self).pos == (if e + 1 < s.len() && s[e
                    + 1] as int == 10 {
                    e + 2
                } else {
                    e + 1
                }) && final(self).line == old(self).line + 1
            }),
            old(self).counts_lines() ==> final(self).counts_lines(),
    {
        let ghost before = *self;
        let len = self.input.len();
        let ghost start = self.pos;
        while self.pos < len && self.input[self.pos] != 10u8 && self.input[self.pos] != 13u8
            invariant
                self.input == old(self).input,
                len == self.input@.len(),
                start == old(self).pos,
                old(self).well_formed(),
                start <= self.pos <= len,
                self.line == old(self).line,
                line_end(self.input@, start as int) == line_end(self.input@, self.pos as int),
                forall|k: int| start <= k < self.pos ==> !is_newline(#[trigger] self.input@[k]),
            decreases len - self.pos,
        {
            self.pos = self.pos + 1;
        }
        let ghost e = self.pos as int;
        proof {
            lemma_line_breaks_none(self.input@, start as int, e);
        }
        if self.pos < len {
            if self.input[self.pos] == 10u8 {
                self.pos = self.pos + 1;
            } else {
                self.pos = self.pos + 1;
                if self.pos < len && self.input[self.pos] == 10u8 {
                    self.pos = self.pos + 1;
                }
            }
            self.line = self.line + 1;
        }
        proof {
            let s = self.input@;
            if no_carriage_return(s) {
                if e < s.len() {
                    assert(s[e] == 10);
                    lemma_line_breaks_extend(s, start as int, e);
                    if e > start {
                        assert(s[e - 1] != 13);
                    }
                }
                lemma_counts_lines_advance(before, *self);
            }
        }
    }

    /// `self` is `before` moved `n` bytes forward, with the line breaks in
    /// those bytes counted.
    pub open spec fn advanced_from(&self, before: Self, n: int) -> bool {
        &&& self.input == before.input
        &&& self.pos == before.pos + n
        &&& self.line == before.line + line_breaks(
            before.input@.subrange(before.pos as int, before.pos + n),
        )
    }

    /// Consumes `expected` if the unread bytes start with it.
    ///
    /// An empty pattern always succeeds and consumes nothing. Otherwise the
    /// parser is unchanged and the error is `Expected(EXPECTED_PATTERN)` when
    /// the bytes do not match.
    pub fn expect(&mut self, expected: &[u8]) -> (r: Result<&mut Self>)
        requires
            old(self).well_formed(),
        ensures
            r is Ok <==> matches_at(old(self).input@, old(self).pos as int, expected@),
            r matches Err(e) ==> e == Error::Expected(Error::EXPECTED_PATTERN) && *final(self)
                == *old(self),
            r matches Ok(p) ==> p.advanced_from(*old(self), expected@.len() as int)
                && p.well_formed() && *final(self) == *final(p),
            r matches Ok(p) ==> (old(self).counts_lines() ==> p.counts_lines()),
    {
        let ghost before = *self;
        match self.expect_bytes(expected) {
            Ok(()) => {
                proof {
                    lemma_counts_lines_advance(before, *self);
                }
                Ok(self)
            },
            Err(e) => Err(e),
        }
    }

    /// As `expect`, without handing the parser back.
    pub fn expect_bytes(&mut self, expected: &[u8]) -> (r: Result<()>)
        requires
            old(self).well_formed(),
        ensures
            final(self).well_formed(),
            r is Ok <==> matches_at(old(self).input@, old(self).pos as int, expected@),
            r is Err ==> r == Err::<(), Error>(Error::Expected(Error::EXPECTED_PATTERN))
                && *final(self) == *old(self),
            r is Ok ==> final(self).advanced_from(*old(self), expected@.len() as int),
    {
        let n = expected.len();
        if n == 0 {
            proof {
                assert(self.input@.subrange(self.pos as int, self.pos as int) =~= expected@);
            }
            return Ok(());
        }
        let len = self.input.len();
        if len - self.pos < n {
            return Err(Error::Expected(Error::EXPECTED_PATTERN));
        }
        if !self.starts_with(expected) {
            return Err(Error::Expected(Error::EXPECTED_PATTERN));
        }
        let start = self.pos;
        let end = start + n;
        let mut i = start;
        proof {
            assert(self.input@.subrange(start as int, start as int) =~= Seq::<u8>::empty());
        }
        while i < end
            invariant
                self.input == old(self).input,
                self.pos == start,
                start == old(self).pos,
                old(self).well_formed(),
                len == self.input@.len(),
                end == start + n,
                end <= len,
                start <= i <= end,
                self.line == old(self).line + line_breaks(self.input@.subrange(start as int, i as int)),
                i > start && self.input@[i - 1] == 13 && i < end ==> self.input@[i as int] != 10,
            decreases end - i,
        {
            proof {
                lemma_line_breaks_bound(self.input@.subrange(start as int, i as int));
                lemma_line_breaks_extend(self.input@, start as int, i as int);
            }
            let b = self.input[i];
            if b == 10u8 {
                self.line = self.line + 1;
                i = i + 1;
            } else if b == 13u8 {
                if i + 1 < end && self.input[i + 1] == 10u8 {
                    proof {
                        lemma_line_breaks_extend(self.input@, start as int, i + 1);
                    }
                    i = i + 2;
                } else {
                    i = i + 1;
                }
                self.line = self.line + 1;
            } else {
                i = i + 1;
            }
        }
        proof {
            lemma_line_breaks_bound(self.input@.subrange(start as int, end as int));
        }
        self.pos = end;
        Ok(())
    }

    /// Consumes `expected`, then skips spaces, tabs and line breaks.
    pub fn expect_then_skip(&mut self, expected: &[u8]) -> (r: Result<()>)
        requires
            old(self).well_formed(),
        ensures
            final(self).well_formed(),
            r is Ok <==> matches_at(old(self).input@, old(self).pos as int, expected@),
            r is Err ==> r == Err::<(), Error>(Error::Expected(Error::EXPECTED_PATTERN))
                && *final(self) == *old(self),
            r is Ok ==> exists|mid: Self|
                mid.advanced_from(*old(self), expected@.len() as int) && final(self).blank_skipped_from(mid),
            r is Ok ==> final(self).pos == blank_end(
                old(self).input@,
                old(self).pos + expected@.len(),
            ),
    {
        self.expect_bytes(expected)?;
        self.skip_newlines_and_spaces();
        Ok(())
    }

    /// Consumes `expected`; on a mismatch fails with `Expected(msg)` instead.
    pub fn expect_with_msg(&mut self, expected: &[u8], msg: &'static str) -> (r: Result<()>)
        requires
            old(self).well_formed(),
        ensures
            final(self).well_formed(),
            r is Ok <==> matches_at(old(self).input@, old(self).pos as int, expected@),
            r is Err ==> r == Err::<(), Error>(Error::Expected(msg)) && *final(self) == *old(self),
            r is Ok ==> final(self).advanced_from(*old(self), expected@.len() as int),
    {
        match self.expect_bytes(expected) {
            Ok(()) => Ok(()),
            Err(_) => Err(Error::Expected(msg)),
        }
    }

    /// Consumes `keyword` (failing with `Expected(error_msg)`), then skips
    /// spaces, tabs and line breaks.
    pub fn expect_keyword_then_skip(&mut self, keyword: &[u8], error_msg: &'static str) -> (r:
        Result<()>)
        requires
            old(self).well_formed(),
        ensures
            final(self).well_formed(),
            r is Ok <==> matches_at(old(self).input@, old(self).pos as int, keyword@),
            r is Err ==> r == Err::<(), Error>(Error::Expected(error_msg)) && *final(self) == *old(self),
            r is Ok ==> exists|mid: Self|
                mid.advanced_from(*old(self), keyword@.len() as int) && final(self).blank_skipped_from(mid),
            r is Ok ==> final(self).pos == blank_end(
                old(self).input@,
                old(self).pos + keyword@.len(),
            ),
    {
        self.expect_with_msg(keyword, error_msg)?;
        self.skip_newlines_and_spaces();
        Ok(())
    }

    /// Reads the bytes up to the next double quote and moves past the quote.
    ///
    /// With `c_identifier` the bytes must form a C identifier; otherwise any
    /// byte but a control character, DEL or backslash may stand there. More
    /// than `max_str_length` bytes fail with `MaxStrLength`, a byte that may
    /// not stand there with `InvalidChar`, and the end of input with
    /// `UnexpectedEof`; on failure the position is left at the byte that
    /// stopped the scan.
    pub fn take_until_quote(&mut self, c_identifier: bool, max_str_length: usize) -> (r: Result<
        &'a [u8],
    >)
        requires
            old(self).well_formed(),
        ensures
            final(self).well_formed(),
            final(self).input == old(self).input,
            final(self).line == old(self).line,
            ({
                let s = old(self).input@;
                let p = old(self).pos as int;
                let q = quote_scan_end(s, p, p, c_identifier, max_str_length as int);
                &&& q >= s.len() ==> r == Err::<&'a [u8], Error>(Error::UnexpectedEof)
                    && final(self).pos == q
                &&& q < s.len() && q - p > max_str_length ==> r == Err::<&'a [u8], Error>(
                    Error::MaxStrLength(max_str_length),
                ) && final(self).pos == q
                &&& q < s.len() && q - p <= max_str_length && s[q] == 34 ==> (r matches Ok(b)
                    && b@ == s.subrange(p, q) && final(self).pos == q + 1)
                &&& q < s.len() && q - p <= max_str_length && s[q] != 34 ==> r == Err::<
                    &'a [u8],
                    Error,
                >(Error::InvalidChar(s[q] as char)) && final(self).pos == q
            }),
            old(self).counts_lines() ==> final(self).counts_lines(),
    {
        let ghost before = *self;
        let start = self.pos;
        let len = self.input.len();
        while self.pos < len
            invariant
                self.input == old(self).input,
                self.line == old(self).line,
                old(self).well_formed(),
                len == self.input@.len(),
                start == old(self).pos,
                start <= self.pos <= len,
                quote_scan_end(self.input@, start as int, start as int, c_identifier, max_str_length as int)
                    == quote_scan_end(self.input@, start as int, self.pos as int, c_identifier, max_str_length as int),
                before == *old(self),
                forall|k: int| start <= k < self.pos ==> !is_newline(#[trigger] self.input@[k]),
            decreases len - self.pos,
        {
            if self.pos - start > max_str_length {
                proof {
                    lemma_counts_lines_no_break(before, *self);
                }
                return Err(Error::MaxStrLength(max_str_length));
            }
            let b = self.input[self.pos];
            if b == 34u8 {
                let slice = &self.input[start..self.pos];
                self.pos = self.pos + 1;
                proof {
                    lemma_counts_lines_no_break(before, *self);
                }
                return Ok(slice);
            }
            let ok = b != 92u8 && b != 9u8 && b != 10u8 && b != 13u8 && if c_identifier {
                if self.pos == start {
                    (65u8 <= b && b <= 90u8) || (97u8 <= b && b <= 122u8) || b == 95u8
                } else {
                    (65u8 <= b && b <= 90u8) || (97u8 <= b && b <= 122u8) || b == 95u8 || (48u8
                        <= b && b <= 57u8)
                }
            } else {
                b >= 32u8 && b != 127u8
            };
            if !ok {
                proof {
                    lemma_counts_lines_no_break(before, *self);
                }
                return Err(Error::InvalidChar(b as char));
            }
            self.pos = self.pos + 1;
        }
        proof {
            lemma_counts_lines_no_break(before, *self);
        }
        Err(Error::UnexpectedEof)
    }

    /// Reads a C identifier: a letter or underscore, then letters, digits and
    /// underscores, ending at a space, tab, line break, colon, semicolon,
    /// comma or the end of input.
    ///
    /// Fails with `Expected(EXPECTED_IDENTIFIER)` when no identifier starts
    /// here (end of input, or a space, tab, line break, colon or semicolon),
    /// and with `InvalidChar` at any other byte that may not stand in an
    /// identifier; the position is then left at that byte.
    pub fn parse_identifier(&mut self) -> (r: Result<&'a str>)
        requires
            old(self).well_formed(),
        ensures
            final(self).well_formed(),
            final(self).input == old(self).input,
            final(self).line == old(self).line,
            ({
                let s = old(self).input@;
                let p = old(self).pos as int;
                let e = ident_end(s, p + 1);
                &&& p >= s.len() ==> r == Err::<&'a str, Error>(
                    Error::Expected(Error::EXPECTED_IDENTIFIER),
                ) && final(self).pos == p
                &&& p < s.len() && !is_ident_start(s[p]) ==> final(self).pos == p && r == Err::<
                    &'a str,
                    Error,
                >(
                    if is_ident_absent(s[p]) {
                        Error::Expected(Error::EXPECTED_IDENTIFIER)
                    } else {
                        Error::InvalidChar(s[p] as char)
                    },
                )
                &&& p < s.len() && is_ident_start(s[p]) && e < s.len() && !is_ident_delimiter(s[e])
                    ==> final(self).pos == e && r == Err::<&'a str, Error>(
                    Error::InvalidChar(s[e] as char),
                )
                &&& p < s.len() && is_ident_start(s[p]) && (e >= s.len() || is_ident_delimiter(
                    s[e],
                )) ==> final(self).pos == e && (r matches Ok(id) && id@ == ascii_chars(
                    s.subrange(p, e),
                ) && id.spec_bytes() == s.subrange(p, e))
            }),
            old(self).counts_lines() ==> final(self).counts_lines(),
    {
        let ghost before = *self;
        let start = self.pos;
        let len = self.input.len();
        if self.pos >= len {
            return Err(Error::Expected(Error::EXPECTED_IDENTIFIER));
        }
        let first = self.input[self.pos];
        if !((65u8 <= first && first <= 90u8) || (97u8 <= first && first <= 122u8) || first
            == 95u8) {
            if first == 32u8 || first == 9u8 || first == 10u8 || first == 13u8 || first == 58u8
                || first == 59u8 {
                return Err(Error::Expected(Error::EXPECTED_IDENTIFIER));
            }
            return Err(Error::InvalidChar(first as char));
        }
        self.pos = self.pos + 1;
        while self.pos < len && ((65u8 <= self.input[self.pos] && self.input[self.pos] <= 90u8)
            || (97u8 <= self.input[self.pos] && self.input[self.pos] <= 122u8) || self.input[self.pos]
            == 95u8 || (48u8 <= self.input[self.pos] && self.input[self.pos] <= 57u8))
            invariant
                self.input == old(self).input,
                self.line == old(self).line,
                old(self).well_formed(),
                len == self.input@.len(),
                start == old(self).pos,
                start < self.pos <= len,
                ident_end(self.input@, start + 1) == ident_end(self.input@, self.pos as int),
                forall|k: int| start <= k < self.pos ==> is_ident_char(self.input@[k]),
            decreases len - self.pos,
        {
            self.pos = self.pos + 1;
        }
        proof {
            assert(ident_end(self.input@, self.pos as int) == self.pos as int);
            assert forall|k: int| before.pos <= k < self.pos implies !is_newline(
                #[trigger] before.input@[k],
            ) by {
                assert(is_ident_char(self.input@[k]));
            }
            lemma_counts_lines_no_break(before, *self);
        }
        if self.pos < len {
            let b = self.input[self.pos];
            if !(b == 32u8 || b == 9u8 || b == 10u8 || b == 13u8 || b == 58u8 || b == 59u8 || b
                == 44u8) {
                return Err(Error::InvalidChar(b as char));
            }
        }
        let bytes = &self.input[start..self.pos];
        proof {
            assert forall|k: int| 0 <= k < bytes@.len() implies #[trigger] bytes@[k] < 128 by {
                assert(bytes@[k] == self.input@[start + k]);
            }
        }
        Ok(ascii_str(bytes))
    }

    /// As `parse_identifier`, replacing any error with `map_error()`.
    pub fn parse_identifier_with_error<F>(&mut self, map_error: F) -> (r: Result<&'a str>) where
        F: FnOnce() -> Error,

        requires
            old(self).well_formed(),
            map_error.requires(()),
        ensures
            final(self).well_formed(),
            final(self).input == old(self).input,
            final(self).line == old(self).line,
            r matches Err(e) ==> map_error.ensures((), e),
            ({
                let s = old(self).input@;
                let p = old(self).pos as int;
                let e = ident_end(s, p + 1);
                &&& r is Ok <==> p < s.len() && is_ident_start(s[p]) && (e >= s.len()
                    || is_ident_delimiter(s[e]))
                &&& r matches Ok(id) ==> id@ == ascii_chars(s.subrange(p, e)) && id.spec_bytes()
                    == s.subrange(p, e) && final(self).pos == e
            }),
    {
        match self.parse_identifier() {
            Ok(id) => Ok(id),
            Err(_) => Err(map_error()),
        }
    }

    /// Reads a run of decimal digits as a number no greater than `max`.
    ///
    /// Fails with `Expected(EXPECTED_NUMBER)`, consuming nothing, when no digit
    /// is next, and with `Expected(INVALID_NUMBER_FORMAT)`, after the digits,
    /// when their value exceeds `max`.
    pub fn parse_decimal(&mut self, max: u64) -> (r: Result<u64>)
        requires
            old(self).well_formed(),
            max >= 9,
        ensures
            final(self).well_formed(),
            final(self).input == old(self).input,
            final(self).line == old(self).line,
            ({
                let s = old(self).input@;
                let p = old(self).pos as int;
                let e = digits_end(s, p);
                let v = digits_value(s.subrange(p, e));
                &&& e == p ==> r == Err::<u64, Error>(Error::Expected(Error::EXPECTED_NUMBER))
                    && final(self).pos == p
                &&& e > p && v > max ==> r == Err::<u64, Error>(
                    Error::Expected(Error::INVALID_NUMBER_FORMAT),
                ) && final(self).pos == e
                &&& e > p && v <= max ==> r == Ok::<u64, Error>(v as u64) && final(self).pos == e
            }),
    {
        let start = self.pos;
        let len = self.input.len();
        let mut acc: u64 = 0;
        let mut overflow = false;
        proof {
            assert(self.input@.subrange(start as int, start as int) =~= Seq::<u8>::empty());
        }
        while self.pos < len && 48u8 <= self.input[self.pos] && self.input[self.pos] <= 57u8
            invariant
                self.input == old(self).input,
                self.line == old(self).line,
                old(self).well_formed(),
                len == self.input@.len(),
                start == old(self).pos,
                start <= self.pos <= len,
                max >= 9,
                digits_end(self.input@, start as int) == digits_end(self.input@, self.pos as int),
                !overflow ==> acc == digits_value(self.input@.subrange(start as int, self.pos as int))
                    && acc <= max,
                overflow ==> digits_value(self.input@.subrange(start as int, self.pos as int)) > max,
            decreases len - self.pos,
        {
            let d = (self.input[self.pos] - 48u8) as u64;
            let ghost before = digits_value(self.input@.subrange(start as int, self.pos as int));
            proof {
                assert(self.input@.subrange(start as int, self.pos + 1).drop_last() =~= self.input@.subrange(
                    start as int,
                    self.pos as int,
                ));
            }
            let ghost after = digits_value(self.input@.subrange(start as int, self.pos + 1));
            assert(after == before * 10 + d);
            if !overflow {
                if acc > (max - d) / 10 {
                    assert(acc * 10 + d > max) by (nonlinear_arith)
                        requires
                            acc > (max - d) / 10,
                            d <= 9,
                            max >= 9,
                    ;
                    overflow = true;
                } else {
                    assert(acc * 10 + d <= max) by (nonlinear_arith)
                        requires
                            acc <= (max - d) / 10,
                            d <= 9,
                            max >= 9,
                    ;
                    acc = acc * 10 + d;
                }
            } else {
                assert(before * 10 + d > max) by (nonlinear_arith)
                    requires
                        before > max,
                ;
            }
            self.pos = self.pos + 1;
        }
        proof {
            assert(digits_end(self.input@, self.pos as int) == self.pos as int);
        }
        if self.pos == start {
            return Err(Error::Expected(Error::EXPECTED_NUMBER));
        }
        if overflow {
            return Err(Error::Expected(Error::INVALID_NUMBER_FORMAT));
        }
        Ok(acc)
    }

    /// Reads a run of decimal digits as a `u8` (see `parse_decimal`).
    pub fn parse_u8(&mut self) -> (r: Result<u8>)
        requires
            old(self).well_formed(),
        ensures
            final(self).well_formed(),
            final(self).input == old(self).input,
            final(self).line == old(self).line,
            ({
                let s = old(self).input@;
                let p = old(self).pos as int;
                let e = digits_end(s, p);
                let v = digits_value(s.subrange(p, e));
                &&& e == p ==> r == Err::<u8, Error>(Error::Expected(Error::EXPECTED_NUMBER))
                    && final(self).pos == p
                &&& e > p && v > u8::MAX ==> r == Err::<u8, Error>(
                    Error::Expected(Error::INVALID_NUMBER_FORMAT),
                ) && final(self).pos == e
                &&& e > p && v <= u8::MAX ==> r == Ok::<u8, Error>(v as u8) && final(self).pos == e
            }),
    {
        let v = self.parse_decimal(255)?;
        Ok(v as u8)
    }

    /// Reads a run of decimal digits as a `u32` (see `parse_decimal`).
    pub fn parse_u32(&mut self) -> (r: Result<u32>)
        requires
            old(self).well_formed(),
        ensures
            final(self).well_formed(),
            final(self).input == old(self).input,
            final(self).line == old(self).line,
            ({
                let s = old(self).input@;
                let p = old(self).pos as int;
                let e = digits_end(s, p);
                let v = digits_value(s.subrange(p, e));
                &&& e == p ==> r == Err::<u32, Error>(Error::Expected(Error::EXPECTED_NUMBER))
                    && final(self).pos == p
                &&& e > p && v > u32::MAX ==> r == Err::<u32, Error>(
                    Error::Expected(Error::INVALID_NUMBER_FORMAT),
                ) && final(self).pos == e
                &&& e > p && v <= u32::MAX ==> r == Ok::<u32, Error>(v as u32) && final(self).pos
                    == e
            }),
    {
        let v = self.parse_decimal(4294967295)?;
        Ok(v as u32)
    }

    /// Reads a run of decimal digits as a `u64` (see `parse_decimal`).
    pub fn parse_u64(&mut self) -> (r: Result<u64>)
        requires
            old(self).well_formed(),
        ensures
            final(self).well_formed(),
            final(self).input == old(self).input,
            final(self).line == old(self).line,
            ({
                let s = old(self).input@;
                let p = old(self).pos as int;
                let e = digits_end(s, p);
                let v = digits_value(s.subrange(p, e));
                &&& e == p ==> r == Err::<u64, Error>(Error::Expected(Error::EXPECTED_NUMBER))
                    && final(self).pos == p
                &&& e > p && v > u64::MAX ==> r == Err::<u64, Error>(
                    Error::Expected(Error::INVALID_NUMBER_FORMAT),
                ) && final(self).pos == e
                &&& e > p && v <= u64::MAX ==> r == Ok::<u64, Error>(v as u64) && final(self).pos
                    == e
            }),
    {
        self.parse_decimal(18446744073709551615)
    }

    /// Reads the text of a decimal number: an optional sign, digits with at
    /// most one decimal point, and an optional exponent (`e` or `E`, an
    /// optional sign, digits). The number ends at a space, tab, line break,
    /// colon, comma, `)`, `]`, `|` or the end of input.
    ///
    /// Fails with `Expected(EXPECTED_NUMBER)`: at any other byte (the
    /// position is left there), or when nothing could be read.
    pub fn scan_number(&mut self) -> (r: Result<&'a str>)
        requires
            old(self).well_formed(),
        ensures
            final(self).well_formed(),
            final(self).input == old(self).input,
            final(self).line == old(self).line,
            ({
                let s = old(self).input@;
                let p = old(self).pos as int;
                let (q, ok) = number_scan(s, number_body_start(s, p), false, false);
                &&& !ok ==> r == Err::<&'a str, Error>(Error::Expected(Error::EXPECTED_NUMBER))
                    && final(self).pos == q
                &&& ok && q == p ==> r == Err::<&'a str, Error>(
                    Error::Expected(Error::EXPECTED_NUMBER),
                ) && final(self).pos == p
                &&& ok && q != p ==> (r matches Ok(t) && t@ == ascii_chars(s.subrange(p, q))
                    && t.spec_bytes() == s.subrange(p, q) && final(self).pos == q)
            }),
    {
        let start = self.pos;
        let len = self.input.len();
        if self.pos < len && (self.input[self.pos] == 43u8 || self.input[self.pos] == 45u8) {
            self.pos = self.pos + 1;
        }
        let ghost body = self.pos as int;
        let mut has_dot = false;
        let mut has_e = false;
        let mut stop = false;
        while self.pos < len && !stop
            invariant
                self.input == old(self).input,
                self.line == old(self).line,
                old(self).well_formed(),
                len == self.input@.len(),
                start == old(self).pos,
                body == number_body_start(self.input@, start as int),
                start <= body <= self.pos <= len,
                number_scan(self.input@, body, false, false) == number_scan(
                    self.input@,
                    self.pos as int,
                    has_dot,
                    has_e,
                ),
                stop ==> self.pos < len && is_number_delimiter(self.input@[self.pos as int]),
                forall|k: int| start <= k < self.pos ==> self.input@[k] < 128,
            decreases len - self.pos, if stop {
                0int
            } else {
                1int
            },
        {
            let b = self.input[self.pos];
            if 48u8 <= b && b <= 57u8 {
                self.pos = self.pos + 1;
            } else if b == 46u8 && !has_dot && !has_e {
                has_dot = true;
                self.pos = self.pos + 1;
            } else if (b == 101u8 || b == 69u8) && !has_e {
                has_e = true;
                self.pos = self.pos + 1;
                if self.pos < len && (self.input[self.pos] == 43u8 || self.input[self.pos] == 45u8) {
                    self.pos = self.pos + 1;
                }
            } else if b == 32u8 || b == 9u8 || b == 10u8 || b == 13u8 || b == 58u8 || b == 44u8
                || b == 41u8 || b == 93u8 || b == 124u8 {
                stop = true;
            } else {
                return Err(Error::Expected(Error::EXPECTED_NUMBER));
            }
        }
        if self.pos == start {
            return Err(Error::Expected(Error::EXPECTED_NUMBER));
        }
        let bytes = &self.input[start..self.pos];
        proof {
            assert forall|k: int| 0 <= k < bytes@.len() implies #[trigger] bytes@[k] < 128 by {
                assert(bytes@[k] == self.input@[start + k]);
            }
        }
        Ok(ascii_str(bytes))
    }

    /// As `scan_number`, but an empty field (the end of input or a number
    /// delimiter next) gives `None` and consumes nothing.
    pub fn scan_number_opt(&mut self) -> (r: Result<Option<&'a str>>)
        requires
            old(self).well_formed(),
        ensures
            final(self).well_formed(),
            final(self).input == old(self).input,
            final(self).line == old(self).line,
            ({
                let s = old(self).input@;
                let p = old(self).pos as int;
                let (q, ok) = number_scan(s, number_body_start(s, p), false, false);
                &&& (p >= s.len() || is_number_delimiter(s[p])) ==> r == Ok::<
                    Option<&'a str>,
                    Error,
                >(None) && final(self).pos == p
                &&& p < s.len() && !is_number_delimiter(s[p]) && !ok ==> r == Err::<
                    Option<&'a str>,
                    Error,
                >(Error::Expected(Error::EXPECTED_NUMBER)) && final(self).pos == q
                &&& p < s.len() && !is_number_delimiter(s[p]) && ok ==> (r matches Ok(Some(t))
                    && t@ == ascii_chars(s.subrange(p, q)) && t.spec_bytes() == s.subrange(p, q)
                    && final(self).pos == q)
            }),
    {
        if self.pos >= self.input.len() {
            return Ok(None);
        }
        let b = self.input[self.pos];
        if b == 32u8 || b == 9u8 || b == 10u8 || b == 13u8 || b == 58u8 || b == 44u8 || b == 41u8
            || b == 93u8 || b == 124u8 {
            return Ok(None);
        }
        proof {
            let s = self.input@;
            let p = self.pos as int;
            let body = number_body_start(s, p);
            lemma_number_scan_advances(s, body, false, false);
            if body == p {
                if is_digit(s[p]) {
                    lemma_number_scan_advances(s, p + 1, false, false);
                } else if s[p] == 46 {
                    lemma_number_scan_advances(s, p + 1, true, false);
                } else if s[p] == 101 || s[p] == 69 {
                    lemma_number_scan_advances(s, p + 1, false, true);
                    lemma_number_scan_advances(s, p + 2, false, true);
                }
            } else {
                lemma_number_scan_advances(s, p + 1, false, false);
            }
        }
        let t = self.scan_number()?;
        Ok(Some(t))
    }

    /// Skips spaces, tabs and line breaks, then names the keyword that stands
    /// there, without consuming it: the first keyword of the table that the
    /// input starts with and that a delimiter or the end of input follows.
    pub fn peek_next_keyword(&mut self) -> (r: Result<&'static str>)
        requires
            old(self).well_formed(),
        ensures
            final(self).well_formed(),
            final(self).blank_skipped_from(*old(self)),
            ({
                let s = final(self).input@;
                let p = final(self).pos as int;
                let i = first_keyword_at(s, p);
                &&& p >= s.len() ==> r == Err::<&'static str, Error>(Error::UnexpectedEof)
                &&& p < s.len() && i == KEYWORD_COUNT ==> r == Err::<&'static str, Error>(
                    Error::Expected(Error::EXPECTED_KEYWORD),
                )
                &&& p < s.len() && i < KEYWORD_COUNT ==> r == Ok::<&'static str, Error>(
                    spec_dbc_keyword(i),
                )
            }),
            old(self).counts_lines() ==> final(self).counts_lines(),
    {
        self.skip_newlines_and_spaces();
        let len = self.input.len();
        if self.pos >= len {
            return Err(Error::UnexpectedEof);
        }
        let mut i: usize = 0;
        while i < KEYWORD_COUNT
            invariant
                old(self).counts_lines() ==> self.counts_lines(),
                self.well_formed(),
                len == self.input@.len(),
                self.pos < len,
                self.blank_skipped_from(*old(self)),
                0 <= i <= KEYWORD_COUNT,
                first_keyword_at(self.input@, self.pos as int) == first_keyword_from(
                    self.input@,
                    self.pos as int,
                    i as int,
                ),
            decreases KEYWORD_COUNT - i,
        {
            let kw = dbc_keyword(i);
            let kb = kw.as_bytes();
            if self.starts_with(kb) {
                let n = self.pos + kb.len();
                if n >= len || self.input[n] == 32u8 || self.input[n] == 9u8 || self.input[n]
                    == 58u8 || self.input[n] == 10u8 || self.input[n] == 13u8 {
                    return Ok(kw);
                }
            }
            i = i + 1;
        }
        Err(Error::Expected(Error::EXPECTED_KEYWORD))
    }

    /// As `peek_next_keyword`, then consumes the keyword found.
    pub fn find_next_keyword(&mut self) -> (r: Result<&'static str>)
        requires
            old(self).well_formed(),
        ensures
            final(self).well_formed(),
            exists|mid: Self|
                #![trigger mid.blank_skipped_from(*old(self))]
                {
                    let s = mid.input@;
                    let p = mid.pos as int;
                    let i = first_keyword_at(s, p);
                    &&& mid.blank_skipped_from(*old(self))
                    &&& p >= s.len() ==> r == Err::<&'static str, Error>(Error::UnexpectedEof)
                        && *final(self) == mid
                    &&& p < s.len() && i == KEYWORD_COUNT ==> r == Err::<&'static str, Error>(
                        Error::Expected(Error::EXPECTED_KEYWORD),
                    ) && *final(self) == mid
                    &&& p < s.len() && i < KEYWORD_COUNT ==> r == Ok::<&'static str, Error>(
                        spec_dbc_keyword(i),
                    ) && final(self).advanced_from(mid, spec_dbc_keyword(i).spec_bytes().len() as int)
                },
    {
        let kw = self.peek_next_keyword()?;
        proof {
            lemma_first_keyword(self.input@, self.pos as int, 0);
        }
        let kb = kw.as_bytes();
        proof {
            let i = first_keyword_at(self.input@, self.pos as int);
            assert(i < KEYWORD_COUNT);
            assert(kw == spec_dbc_keyword(i));
            assert(matches_at(self.input@, self.pos as int, kb@));
        }
        let r = self.expect_bytes(kb);
        proof {
            assert(r is Ok);
        }
        Ok(kw)
    }
}


} // verus!
