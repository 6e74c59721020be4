//! What writing a node list and reading it back gives.
use vstd::prelude::*;
use vstd::string::StringSliceAdditionalSpecFns;
use vstd::utf8::{encode_utf8, is_ascii_chars, is_ascii_chars_encode_utf8, is_ascii_chars_nat_bound};

use crate::nodes::{joined, node_names_from, nodes_parse_result, nodes_problem, nodes_text};
use crate::parser::{
    blank_end, ident_end, is_ident_char, is_ident_delimiter, is_ident_start,
    is_space_or_newline, matches_at, spaces_end,
};
use crate::text::ascii_chars;
use crate::error::Error;
use crate::{BU_, MAX_NAME_SIZE, MAX_NODES};

verus! {

/// A C identifier written in ASCII: a letter or underscore, then letters,
/// digits and underscores.
pub open spec fn is_identifier_text(c: Seq<char>) -> bool {
    &&& c.len() > 0
    &&& is_ascii_chars(c)
    &&& is_ident_start(c[0] as u8)
    &&& forall|i: int| 0 <= i < c.len() ==> is_ident_char(#[trigger] c[i] as u8)
}

/// Where name `k` starts in `joined(names)`, counting one space after each
/// name before it.
pub open spec fn name_offset(names: Seq<Seq<char>>, k: int) -> int
    decreases k,
{
    if k <= 0 {
        0
    } else {
        name_offset(names, k - 1) + names[k - 1].len() + 1
    }
}

/// The first `k` names joined: its length, where each name stands, and the
/// spaces between them.
pub(crate) proof fn lemma_joined_layout(names: Seq<Seq<char>>, k: int)
    requires
        1 <= k <= names.len(),
    ensures
        joined(names.take(k)).len() == name_offset(names, k) - 1,
        forall|j: int, i: int|
            0 <= j < k && 0 <= i < names[j].len() ==> joined(names.take(k))[name_offset(names, j)
                + i] == #[trigger] names[j][i],
        forall|j: int|
            0 <= j < k - 1 ==> joined(names.take(k))[#[trigger] name_offset(names, j)
                + names[j].len()] == ' ',
    decreases k,
{
    if k == 1 {
        assert(names.take(1).len() == 1);
        assert(joined(names.take(1)) == names.take(1)[0]);
    } else {
        lemma_joined_layout(names, k - 1);
        let prev = joined(names.take(k - 1));
        assert(prev.len() == name_offset(names, k - 1) - 1);
        assert(forall|j: int, i: int|
            0 <= j < k - 1 && 0 <= i < names[j].len() ==> prev[name_offset(names, j) + i]
                == #[trigger] names[j][i]);
        assert(names.take(k).drop_last() =~= names.take(k - 1));
        assert(joined(names.take(k)) == prev + seq![' '] + names[k - 1]);
        assert forall|j: int, i: int|
            0 <= j < k && 0 <= i < names[j].len() implies joined(names.take(k))[name_offset(
            names,
            j,
        ) + i] == #[trigger] names[j][i] by {
            lemma_name_offset_nonneg(names, j);
            if j < k - 1 {
                lemma_name_offset_grows(names, j + 1, k - 1);
                assert(name_offset(names, j + 1) == name_offset(names, j) + names[j].len() + 1);
                let x = name_offset(names, j) + i;
                assert(x < prev.len());
                assert(prev[x] == names[j][i]);
                let whole = prev + seq![' '] + names[k - 1];
                assert(joined(names.take(k)) == whole);
            } else {
                assert(name_offset(names, k) == name_offset(names, k - 1) + names[k - 1].len() + 1);
                assert(j == k - 1);
                assert(name_offset(names, j) + i == prev.len() + 1 + i);
            }
        }
        assert forall|j: int| 0 <= j < k - 1 implies joined(names.take(k))[#[trigger] name_offset(
            names,
            j,
        ) + names[j].len()] == ' ' by {
            lemma_name_offset_nonneg(names, j);
            if j < k - 2 {
                lemma_name_offset_grows(names, j + 1, k - 1);
                assert(name_offset(names, j + 1) == name_offset(names, j) + names[j].len() + 1);
                assert(name_offset(names, j) + names[j].len() < prev.len());
                assert(prev[name_offset(names, j) + names[j].len()] == ' ');
            } else {
                assert(j == k - 2);
                assert(name_offset(names, k - 1) == name_offset(names, j) + names[j].len() + 1);
                assert(name_offset(names, j) + names[j].len() == prev.len());
            }
        }
    }
}

/// Offsets are never negative.
pub(crate) proof fn lemma_name_offset_nonneg(names: Seq<Seq<char>>, k: int)
    ensures
        name_offset(names, k) >= 0,
    decreases k,
{
    if k > 0 {
        lemma_name_offset_nonneg(names, k - 1);
    }
}

/// Offsets grow with the index.
pub(crate) proof fn lemma_name_offset_grows(names: Seq<Seq<char>>, a: int, b: int)
    requires
        0 <= a <= b <= names.len(),
    ensures
        0 <= name_offset(names, a) <= name_offset(names, b),
        a < b ==> name_offset(names, a) + names[a].len() + 1 <= name_offset(names, b),
    decreases b - a,
{
    lemma_name_offset_nonneg(names, a);
    if a < b {
        lemma_name_offset_grows(names, a, b - 1);
    }
}

/// A run of identifier characters from `i` that stops at `j` ends at `ident_end(s, i)`.
pub(crate) proof fn lemma_ident_end_run(s: Seq<u8>, i: int, j: int)
    requires
        0 <= i <= j <= s.len(),
        forall|k: int| i <= k < j ==> is_ident_char(s[k]),
        j < s.len() ==> !is_ident_char(s[j]),
    ensures
        ident_end(s, i) == j,
    decreases j - i,
{
    if i < j {
        lemma_ident_end_run(s, i + 1, j);
    }
}

/// An ASCII character survives the trip to a byte and back.
pub(crate) proof fn lemma_ascii_char_byte(c: char)
    requires
        (c as int) < 128,
    ensures
        (c as u8) as char == c,
{
}

/// Reading names from the end of name `k - 1` (or the start of the list)
/// of the bytes `s` of a `BU_` statement yields every name.
proof fn lemma_read_names(s: Seq<u8>, t: Seq<char>, names: Seq<Seq<char>>, k: int)
    requires
        0 <= k <= names.len(),
        names.len() >= 1,
        names.len() <= MAX_NODES,
        forall|i: int| 0 <= i < names.len() ==> #[trigger] is_identifier_text(names[i]),
        forall|i: int| 0 <= i < names.len() ==> #[trigger] names[i].len() <= MAX_NAME_SIZE,
        t.len() == 5 + name_offset(names, names.len() as int) - 1,
        s.len() == t.len(),
        forall|i: int| 0 <= i < t.len() ==> #[trigger] s[i] == t[i] as u8,
        forall|j: int, i: int|
            0 <= j < names.len() && 0 <= i < names[j].len() ==> t[5 + name_offset(names, j) + i]
                == #[trigger] names[j][i],
        forall|j: int|
            0 <= j < names.len() - 1 ==> t[5 + #[trigger] name_offset(names, j) + names[j].len()]
                == ' ',
    ensures
        node_names_from(
            s,
            if k == 0 {
                5
            } else {
                5 + name_offset(names, k) - 1
            },
            names.take(k),
        ).0 == Ok::<Seq<Seq<char>>, crate::error::Error>(names),
    decreases names.len() - k,
{
    let pos = if k == 0 {
        5
    } else {
        5 + name_offset(names, k) - 1
    };
    lemma_name_offset_grows(names, k, names.len() as int);
    if k > 0 {
        lemma_name_offset_nonneg(names, k - 1);
    }
    if k == names.len() {
        assert(spaces_end(s, pos) == pos);
        assert(names.take(k) =~= names);
    } else {
        let q = 5 + name_offset(names, k);
        let n = names[k];
        assert(is_identifier_text(n));
        assert(t[5 + name_offset(names, k) + 0] == names[k][0]);
        assert(q < t.len());
        assert(s[q] == t[q] as u8);
        assert(s[q] == n[0] as u8);
        if k > 0 {
            assert(name_offset(names, k) == name_offset(names, k - 1) + names[k - 1].len() + 1);
            assert(t[5 + name_offset(names, k - 1) + names[k - 1].len()] == ' ');
            assert(s[pos] == t[pos] as u8);
            assert(s[pos] == 32);
            assert(spaces_end(s, pos + 1) == q);
            assert(spaces_end(s, pos) == q);
        } else {
            assert(s[q] == n[0] as u8);
            assert(spaces_end(s, pos) == q);
        }
        let e = q + n.len();
        assert forall|m: int| q + 1 <= m < e implies is_ident_char(s[m]) by {
            assert(t[5 + name_offset(names, k) + (m - q)] == n[m - q]);
            assert(is_ident_char(n[m - q] as u8));
            assert(s[m] == t[m] as u8);
        }
        if e < s.len() {
            if k + 1 < names.len() {
                assert(t[5 + name_offset(names, k) + names[k].len()] == ' ');
                assert(s[e] == t[e] as u8);
                assert(s[e] == 32);
            } else {
                assert(name_offset(names, k + 1) == name_offset(names, k) + names[k].len() + 1);
                assert(false);
            }
        }
        lemma_ident_end_run(s, q + 1, e);
        assert(ident_end(s, q + 1) == e);
        assert(ascii_chars(s.subrange(q, e)) =~= n) by {
            assert forall|m: int| 0 <= m < n.len() implies #[trigger] ascii_chars(
                s.subrange(q, e),
            )[m] == n[m] by {
                assert(t[5 + name_offset(names, k) + m] == n[m]);
                assert(s[q + m] == t[q + m] as u8);
                is_ascii_chars_nat_bound(n);
                lemma_ascii_char_byte(n[m]);
            }
        }
        assert(names.take(k).push(n) =~= names.take(k + 1));
        lemma_read_names(s, t, names, k + 1);
    }
}

/// A node list written as a `BU_` statement reads back as the same list,
/// when every name is an identifier of at most `MAX_NAME_SIZE` bytes (and
/// the list is one a `Nodes` value can hold).
pub proof fn lemma_nodes_round_trip(names: Seq<Seq<char>>)
    requires
        nodes_problem(names) is None,
        forall|i: int| 0 <= i < names.len() ==> #[trigger] is_identifier_text(names[i]),
        forall|i: int| 0 <= i < names.len() ==> #[trigger] names[i].len() <= MAX_NAME_SIZE,
    ensures
        nodes_parse_result(encode_utf8(nodes_text(names)), 0) == Ok::<
            Seq<Seq<char>>,
            crate::error::Error,
        >(names),
{
    reveal_strlit("BU_");
    reveal_strlit(":");
    let t = nodes_text(names);
    assert(BU_@ =~= seq!['B', 'U', '_']);
    assert(is_ascii_chars(BU_@));
    is_ascii_chars_encode_utf8(BU_@);
    assert(BU_.spec_bytes() =~= seq![66u8, 85u8, 95u8]);
    assert(is_ascii_chars(":"@));
    is_ascii_chars_encode_utf8(":"@);
    assert(":".spec_bytes() =~= seq![58u8]);
    if names.len() > 0 {
        lemma_joined_layout(names, names.len() as int);
        assert(names.take(names.len() as int) =~= names);
    }
    assert(is_ascii_chars(t)) by {
        lemma_joined_ascii(names);
        let jn = joined(names);
        assert forall|i: int| 0 <= i < t.len() implies '\0' <= #[trigger] t[i] <= '\u{7f}' by {
            if i >= 5 {
                assert(t[i] == jn[i - 5]);
            }
        }
    }
    is_ascii_chars_encode_utf8(t);
    let s = encode_utf8(t);
    assert(s.subrange(0, 3) =~= BU_.spec_bytes());
    assert(matches_at(s, 0, BU_.spec_bytes()));
    assert(s.subrange(3, 4) =~= ":".spec_bytes());
    assert(matches_at(s, 3, ":".spec_bytes()));
    if names.len() == 0 {
        assert(blank_end(s, 4) == 4);
        assert(spaces_end(s, 4) == 4);
        assert(names =~= Seq::<Seq<char>>::empty());
    } else {
        let jn = joined(names);
        let len = names.len() as int;
        assert(names.take(len) =~= names);
        assert(joined(names.take(len)) == jn);
        assert(jn.len() == name_offset(names, len) - 1);
        assert(t =~= BU_@ + seq![':'] + (seq![' '] + jn));
        assert forall|x: int| 0 <= x < jn.len() implies t[5 + x] == #[trigger] jn[x] by {
        }
        assert forall|j: int, i: int|
            0 <= j < names.len() && 0 <= i < names[j].len() implies t[5 + name_offset(names, j)
            + i] == #[trigger] names[j][i] by {
            lemma_name_offset_grows(names, j, len);
            let x = name_offset(names, j) + i;
            assert(0 <= x < jn.len());
            assert(jn[x] == names[j][i]);
            assert(t[5 + x] == jn[x]);
        }
        assert forall|j: int| 0 <= j < names.len() - 1 implies t[5 + #[trigger] name_offset(
            names,
            j,
        ) + names[j].len()] == ' ' by {
            lemma_name_offset_nonneg(names, j);
            lemma_name_offset_grows(names, j + 1, len);
            assert(name_offset(names, j + 1) == name_offset(names, j) + names[j].len() + 1);
            let x = name_offset(names, j) + names[j].len();
            assert(0 <= x < jn.len());
            assert(jn[x] == ' ');
            assert(t[5 + x] == jn[x]);
        }
        assert(s[4] == t[4] as u8);
        assert(s[4] == 32);
        assert(is_identifier_text(names[0]));
        assert(t[5 + name_offset(names, 0) + 0] == names[0][0]);
        assert(s[5] == t[5] as u8);
        assert(!is_space_or_newline(s[5]));
        assert(blank_end(s, 5) == 5);
        assert(blank_end(s, 4) == 5);
        assert(names.take(0) =~= Seq::<Seq<char>>::empty());
        lemma_read_names(s, t, names, 0);
    }
}

/// A list of identifiers joined by spaces is ASCII text.
pub(crate) proof fn lemma_joined_ascii(names: Seq<Seq<char>>)
    requires
        forall|k: int| 0 <= k < names.len() ==> #[trigger] is_identifier_text(names[k]),
    ensures
        is_ascii_chars(joined(names)),
    decreases names.len(),
{
    if names.len() == 1 {
        assert(is_identifier_text(names[0]));
    } else if names.len() > 1 {
        let rest = names.drop_last();
        let last = names.last();
        assert forall|k: int| 0 <= k < rest.len() implies #[trigger] is_identifier_text(
            rest[k],
        ) by {
            assert(rest[k] == names[k]);
        }
        lemma_joined_ascii(rest);
        assert(is_identifier_text(names[names.len() - 1]));
        let jn = joined(names);
        assert(jn == joined(rest) + seq![' '] + last);
        assert(is_ascii_chars(jn)) by {
            assert forall|i: int| 0 <= i < jn.len() implies '\0' <= #[trigger] jn[i]
                <= '\u{7f}' by {
                let p = joined(rest);
                if i < p.len() {
                    assert(jn[i] == p[i]);
                } else if i == p.len() {
                    assert(jn[i] == ' ');
                } else {
                    assert(jn[i] == last[i - p.len() - 1]);
                }
            }
        }
    } else {
        assert(joined(names) =~= Seq::<char>::empty());
    }
}

/// The names after adding `xs` to `v` one at a time, in order, as a chain of
/// `add_node` calls does (each appends one name).
pub open spec fn added_one_by_one(v: Seq<Seq<char>>, xs: Seq<Seq<char>>) -> Seq<Seq<char>>
    decreases xs.len(),
{
    if xs.len() == 0 {
        v
    } else {
        added_one_by_one(v.push(xs[0]), xs.drop_first())
    }
}

/// Adding several names at once (`add_nodes`, which appends them all)
/// leaves a builder with the same names, in the same order, as adding them
/// one at a time with `add_node`; so both build the same node list.
pub proof fn lemma_add_nodes_as_single_adds(v: Seq<Seq<char>>, xs: Seq<Seq<char>>)
    ensures
        v + xs == added_one_by_one(v, xs),
        nodes_problem(v + xs) == nodes_problem(added_one_by_one(v, xs)),
    decreases xs.len(),
{
    if xs.len() == 0 {
        assert(v + xs =~= v);
    } else {
        lemma_add_nodes_as_single_adds(v.push(xs[0]), xs.drop_first());
        assert(v + xs =~= v.push(xs[0]) + xs.drop_first());
    }
}


/// A node list is accepted only when no name occurs at two positions, and a
/// list of at most `MAX_NODES` names in which some name occurs twice is
/// refused with `NODES_DUPLICATE_NAME`, wherever the two occurrences stand.
pub proof fn lemma_nodes_problem_duplicates(names: Seq<Seq<char>>)
    ensures
        nodes_problem(names) is None ==> names.len() <= MAX_NODES && forall|i: int, j: int|
            0 <= i < j < names.len() ==> names[i] != names[j],
        names.len() <= MAX_NODES && (exists|i: int, j: int|
            0 <= i < j < names.len() && names[i] == names[j]) ==> nodes_problem(names) == Some(
            Error::NODES_DUPLICATE_NAME,
        ),
{
}

} // verus!
