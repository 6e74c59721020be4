//! The receivers of a signal: `*` (broadcast), a list of node names, or
//! nothing at all; how they are read and how a builder makes them.
use vstd::prelude::*;
use vstd::std_specs::iter::IteratorSpec;
use vstd::std_specs::vec::axiom_spec_into_iter;
use vstd::string::StringSliceAdditionalSpecFns;
use vstd::utf8::encode_utf8;

use crate::error::{Error, Result};
use crate::nodes::{all_distinct, names_distinct, str_views, string_views};
use crate::parser::{
    ident_end, is_ident_delimiter, is_ident_start, is_newline, lemma_ident_end_ge, Parser,
};
use crate::receivers_laws::{receivers_after, receivers_step, ReceiversStep};
use crate::text::{ascii_chars, str_eq};
use crate::{validate_name, MAX_NAME_SIZE, MAX_NODES, MAX_RECEIVER_NODES};

verus! {

/// Space or tab.
pub open spec fn is_blank(b: u8) -> bool {
    b == 32 || b == 9
}

/// The first position at or after `i` that holds no space or tab.
pub open spec fn blanks_end(s: Seq<u8>, i: int) -> int
    decreases s.len() - i,
{
    if 0 <= i < s.len() && is_blank(s[i]) {
        blanks_end(s, i + 1)
    } else {
        i
    }
}

/// A run of spaces and tabs from `i` that stops at `j` ends at `blanks_end(s, i)`.
pub(crate) proof fn lemma_blanks_end(s: Seq<u8>, i: int, j: int)
    requires
        0 <= i <= j <= s.len(),
        forall|k: int| i <= k < j ==> is_blank(s[k]),
        j < s.len() ==> !is_blank(s[j]),
    ensures
        blanks_end(s, i) == j,
    decreases j - i,
{
    if i < j {
        lemma_blanks_end(s, i + 1, j);
    }
}

/// `blanks_end` never moves backwards.
pub(crate) proof fn lemma_blanks_end_ge(s: Seq<u8>, i: int)
    ensures
        blanks_end(s, i) >= i,
    decreases s.len() - i,
{
    if 0 <= i < s.len() && is_blank(s[i]) {
        lemma_blanks_end_ge(s, i + 1);
    }
}

/// What a signal's receivers stand for.
pub enum ReceiverSet {
    /// Every node on the bus.
    Broadcast,
    /// The named nodes, in order.
    Nodes(Seq<Seq<char>>),
    /// No receiver given.
    Unspecified,
}

/// Reads receiver names from position `i` of `s`, after the names `acc`:
/// spaces and tabs, then a name; the list ends at a line break, the end of
/// input, a byte that starts no name, or a name followed by neither a blank
/// nor a line break. Yields the names (or the error) and where reading stopped.
pub open spec fn receiver_names_from(s: Seq<u8>, i: int, acc: Seq<Seq<char>>) -> (
    Result<Seq<Seq<char>>>,
    int,
)
    decreases s.len() - i,
{
    let q = blanks_end(s, i);
    let e = ident_end(s, q + 1);
    if i < 0 || q < i || q >= s.len() || is_newline(s[q]) || !is_ident_start(s[q]) {
        (Ok(acc), q)
    } else if e < s.len() && !is_ident_delimiter(s[e]) {
        (Ok(acc), e)
    } else if acc.len() >= MAX_NODES - 1 {
        (Err(Error::Receivers(Error::SIGNAL_RECEIVERS_TOO_MANY)), e)
    } else if e - q > MAX_NAME_SIZE {
        (Err(Error::Expected(Error::MAX_NAME_SIZE_EXCEEDED)), e)
    } else if e < s.len() && is_blank(s[e]) {
        proof {
            lemma_ident_end_ge(s, q + 1);
        }
        receiver_names_from(s, e, acc.push(ascii_chars(s.subrange(q, e))))
    } else {
        (Ok(acc.push(ascii_chars(s.subrange(q, e)))), e)
    }
}

/// Reads the receivers at position `p` of `s`: after spaces and tabs, a line
/// break or the end of input means none, `*` means broadcast, and otherwise
/// names follow (none read means none). Yields the outcome and where reading
/// stopped.
pub open spec fn receivers_parse(s: Seq<u8>, p: int) -> (Result<ReceiverSet>, int) {
    let p1 = blanks_end(s, p);
    if p1 >= s.len() || is_newline(s[p1]) {
        (Ok(ReceiverSet::Unspecified), p1)
    } else if s[p1] == 42 {
        (Ok(ReceiverSet::Broadcast), p1 + 1)
    } else {
        let (r, end) = receiver_names_from(s, p1, Seq::empty());
        (
            match r {
                Err(e) => Err(e),
                Ok(names) => Ok(
                    if names.len() == 0 {
                        ReceiverSet::Unspecified
                    } else {
                        ReceiverSet::Nodes(names)
                    },
                ),
            },
            end,
        )
    }
}

/// A result carrying receivers, seen through what they stand for.
pub open spec fn receivers_result_view(r: Result<Receivers>) -> Result<ReceiverSet> {
    match r {
        Ok(v) => Ok(v@),
        Err(e) => Err(e),
    }
}

/// The receiver nodes of a signal.
#[derive(Debug, Clone, PartialEq, Eq, Hash)]
pub enum Receivers {
    /// Broadcast to every node (`*`).
    Broadcast,
    /// The named nodes.
    Nodes(Vec<String>),
    /// No receiver given (written as nothing at all).
    Unspecified,
}

impl View for Receivers {
    type V = ReceiverSet;

    open spec fn view(&self) -> ReceiverSet {
        match self {
            Receivers::Broadcast => ReceiverSet::Broadcast,
            Receivers::Nodes(v) => ReceiverSet::Nodes(string_views(v@)),
            Receivers::Unspecified => ReceiverSet::Unspecified,
        }
    }
}

/// The named receivers (none for broadcast or none).
pub open spec fn receiver_names(r: ReceiverSet) -> Seq<Seq<char>> {
    match r {
        ReceiverSet::Nodes(names) => names,
        _ => Seq::empty(),
    }
}

/// Skips spaces and tabs.
fn skip_blanks(parser: &mut Parser)
    requires
        old(parser).well_formed(),
    ensures
        final(parser).well_formed(),
        final(parser).input == old(parser).input,
        final(parser).line == old(parser).line,
        final(parser).pos == blanks_end(old(parser).input@, old(parser).pos as int),
{
    let ghost start = parser.pos as int;
    let mut done = false;
    while !done
        invariant
            parser.well_formed(),
            parser.input == old(parser).input,
            parser.line == old(parser).line,
            start == old(parser).pos,
            start <= parser.pos <= parser.input@.len(),
            forall|k: int| start <= k < parser.pos ==> is_blank(parser.input@[k]),
            done ==> parser.pos >= parser.input@.len() || !is_blank(
                parser.input@[parser.pos as int],
            ),
        decreases parser.input@.len() - parser.pos + if done {
            0int
        } else {
            1int
        },
    {
        if parser.eof() || parser.at_newline() {
            done = true;
        } else {
            match parser.current_byte() {
                Some(b) => {
                    if b == 32u8 || b == 9u8 {
                        parser.advance_one();
                    } else {
                        done = true;
                    }
                },
                None => {
                    done = true;
                },
            }
        }
    }
    proof {
        lemma_blanks_end(parser.input@, start, parser.pos as int);
    }
}

impl Receivers {
    /// Reads receivers as `receivers_parse` says: `*`, a list of names
    /// separated by spaces or tabs, or nothing up to the end of the line.
    ///
    /// Fails with `Receivers(SIGNAL_RECEIVERS_TOO_MANY)` past `MAX_NODES - 1`
    /// names and with `Expected(MAX_NAME_SIZE_EXCEEDED)` for a name longer
    /// than `MAX_NAME_SIZE` bytes.
    pub fn parse(parser: &mut Parser) -> (r: Result<Receivers>)
        requires
            old(parser).well_formed(),
        ensures
            final(parser).well_formed(),
            final(parser).input == old(parser).input,
            final(parser).line == old(parser).line,
            receivers_result_view(r) == receivers_parse(
                old(parser).input@,
                old(parser).pos as int,
            ).0,
            final(parser).pos == receivers_parse(old(parser).input@, old(parser).pos as int).1,
    {
        let ghost s = parser.input@;
        skip_blanks(parser);
        let ghost p1 = parser.pos as int;
        if parser.at_newline() || parser.eof() {
            return Ok(Receivers::Unspecified);
        }
        if parser.current_byte() == Some(42u8) {
            parser.advance_one();
            return Ok(Receivers::Broadcast);
        }
        let mut nodes: Vec<String> = Vec::new();
        let mut done = false;
        proof {
            assert(string_views(nodes@) =~= Seq::<Seq<char>>::empty());
        }
        while !done
            invariant
                parser.well_formed(),
                parser.input == old(parser).input,
                parser.line == old(parser).line,
                s == old(parser).input@,
                p1 == blanks_end(s, old(parser).pos as int),
                p1 < s.len() && !is_newline(s[p1]) && s[p1] != 42,
                p1 <= parser.pos <= s.len(),
                nodes@.len() < MAX_NODES,
                !done ==> receiver_names_from(s, p1, Seq::empty()) == receiver_names_from(
                    s,
                    parser.pos as int,
                    string_views(nodes@),
                ),
                done ==> receiver_names_from(s, p1, Seq::empty()) == (
                    Ok::<Seq<Seq<char>>, Error>(string_views(nodes@)),
                    parser.pos as int,
                ),
            decreases s.len() - parser.pos + if done {
                0int
            } else {
                1int
            },
        {
            let ghost i = parser.pos as int;
            let ghost views = string_views(nodes@);
            proof {
                lemma_blanks_end_ge(s, i);
            }
            skip_blanks(parser);
            let ghost q = parser.pos as int;
            proof {
                lemma_ident_end_ge(s, q + 1);
            }
            if parser.at_newline() || parser.eof() {
                done = true;
            } else {
                match parser.parse_identifier() {
                    Ok(id) => {
                        let ghost e = parser.pos as int;
                        proof {
                            assert(e == ident_end(s, q + 1));
                            assert(id.spec_bytes().len() == e - q);
                        }
                        if nodes.len() >= MAX_NODES - 1 {
                            proof {
                                assert(receiver_names_from(s, i, views).0 == Err::<
                                    Seq<Seq<char>>,
                                    Error,
                                >(Error::Receivers(Error::SIGNAL_RECEIVERS_TOO_MANY)));
                            }
                            return Err(Error::Receivers(Error::SIGNAL_RECEIVERS_TOO_MANY));
                        }
                        if id.as_bytes().len() > MAX_NAME_SIZE {
                            proof {
                                assert(receiver_names_from(s, i, views).0 == Err::<
                                    Seq<Seq<char>>,
                                    Error,
                                >(Error::Expected(Error::MAX_NAME_SIZE_EXCEEDED)));
                            }
                        }
                        let name = validate_name(id)?;
                        nodes.push(name);
                        proof {
                            assert(string_views(nodes@) =~= views.push(
                                ascii_chars(s.subrange(q, e)),
                            ));
                        }
                        if parser.at_newline() || parser.eof() {
                            done = true;
                        } else {
                            match parser.current_byte() {
                                Some(b) => {
                                    if !(b == 32u8 || b == 9u8) {
                                        done = true;
                                    }
                                },
                                None => {
                                    done = true;
                                },
                            }
                        }
                    },
                    Err(_) => {
                        done = true;
                    },
                }
            }
        }
        if nodes.len() == 0 {
            Ok(Receivers::Unspecified)
        } else {
            Ok(Receivers::Nodes(nodes))
        }
    }

    /// The named receivers, in order, as an iterator (empty for broadcast or none).
    pub fn iter(&self) -> (r: std::vec::IntoIter<&str>)
        ensures
            str_views(r.remaining()) == receiver_names(self@),
    {
        let mut v: Vec<&str> = Vec::new();
        match self {
            Receivers::Nodes(nodes) => {
                let mut i: usize = 0;
                while i < nodes.len()
                    invariant
                        0 <= i <= nodes@.len(),
                        v@.len() == i,
                        forall|k: int| 0 <= k < i ==> #[trigger] v@[k]@ == nodes@[k]@,
                    decreases nodes@.len() - i,
                {
                    v.push(nodes[i].as_str());
                    i = i + 1;
                }
                proof {
                    assert(str_views(v@) =~= string_views(nodes@));
                }
            },
            _ => {
                proof {
                    assert(str_views(v@) =~= Seq::<Seq<char>>::empty());
                }
            },
        }
        proof {
            broadcast use axiom_spec_into_iter;
        }
        v.into_iter()
    }

    /// The number of named receivers (0 for broadcast or none).
    pub fn len(&self) -> (r: usize)
        ensures
            r == receiver_names(self@).len(),
    {
        match self {
            Receivers::Nodes(nodes) => nodes.len(),
            _ => 0,
        }
    }

    /// Whether there is no named receiver.
    pub fn is_empty(&self) -> (r: bool)
        ensures
            r == (receiver_names(self@).len() == 0),
    {
        self.len() == 0
    }

    /// Whether `node` is one of the named receivers (case-sensitive).
    pub fn contains(&self, node: &str) -> (r: bool)
        ensures
            r == receiver_names(self@).contains(node@),
            !(self@ is Nodes) ==> !r,
    {
        match self {
            Receivers::Nodes(nodes) => {
                let ghost names = string_views(nodes@);
                let mut i: usize = 0;
                while i < nodes.len()
                    invariant
                        names == string_views(nodes@),
                        receiver_names(self@) == names,
                        0 <= i <= nodes@.len(),
                        forall|k: int| 0 <= k < i ==> names[k] != node@,
                    decreases nodes@.len() - i,
                {
                    if str_eq(nodes[i].as_str(), node) {
                        proof {
                            assert(names[i as int] == node@);
                        }
                        return true;
                    }
                    i = i + 1;
                }
                false
            },
            _ => false,
        }
    }

    /// The named receiver at `index`, or `None` past the end (always `None`
    /// for broadcast or none).
    pub fn at(&self, index: usize) -> (r: Option<&str>)
        ensures
            index < receiver_names(self@).len() ==> (r matches Some(n) && n@ == receiver_names(
                self@,
            )[index as int]),
            index >= receiver_names(self@).len() ==> r is None,
    {
        match self {
            Receivers::Nodes(nodes) => {
                if index < nodes.len() {
                    Some(nodes[index].as_str())
                } else {
                    None
                }
            },
            _ => None,
        }
    }
}

/// Some name is longer than `MAX_NAME_SIZE` bytes in UTF-8.
pub open spec fn some_name_too_long(names: Seq<Seq<char>>) -> bool {
    exists|i: int| 0 <= i < names.len() && #[trigger] encode_utf8(names[i]).len() > MAX_NAME_SIZE
}

/// What building receivers from `broadcast` and `names` gives: broadcast
/// when so marked, none without names, and otherwise the names, refused with
/// `Signal(SIGNAL_RECEIVERS_TOO_MANY)` past `MAX_RECEIVER_NODES` names, then
/// `Signal(RECEIVERS_DUPLICATE_NAME)` for a repeated name, then
/// `Signal(MAX_NAME_SIZE_EXCEEDED)` for a name longer than `MAX_NAME_SIZE` bytes.
pub open spec fn receivers_build_result(broadcast: bool, names: Seq<Seq<char>>) -> Result<
    ReceiverSet,
> {
    if broadcast {
        Ok(ReceiverSet::Broadcast)
    } else if names.len() == 0 {
        Ok(ReceiverSet::Unspecified)
    } else if names.len() > MAX_RECEIVER_NODES {
        Err(Error::Signal(Error::SIGNAL_RECEIVERS_TOO_MANY))
    } else if !names_distinct(names) {
        Err(Error::Signal(Error::RECEIVERS_DUPLICATE_NAME))
    } else if some_name_too_long(names) {
        Err(Error::Signal(Error::MAX_NAME_SIZE_EXCEEDED))
    } else {
        Ok(ReceiverSet::Nodes(names))
    }
}

/// Collects receivers: broadcast, or names, checked when built.
#[derive(Debug, Clone)]
pub struct ReceiversBuilder {
    is_broadcast: bool,
    nodes: Vec<String>,
}

impl View for ReceiversBuilder {
    type V = (bool, Seq<Seq<char>>);

    closed spec fn view(&self) -> (bool, Seq<Seq<char>>) {
        (self.is_broadcast, string_views(self.nodes@))
    }
}

impl Default for ReceiversBuilder {
    fn default() -> (r: Self)
        ensures
            r@ == (false, Seq::<Seq<char>>::empty()),
    {
        ReceiversBuilder::new()
    }
}

impl ReceiversBuilder {
    /// A builder with no receivers.
    pub fn new() -> (b: Self)
        ensures
            b@ == (false, Seq::<Seq<char>>::empty()),
            b@ == receivers_after(Seq::empty()),
    {
        let b = ReceiversBuilder { is_broadcast: false, nodes: Vec::new() };
        proof {
            assert(string_views(b.nodes@) =~= Seq::<Seq<char>>::empty());
        }
        b
    }

    /// Marks the receivers as broadcast, dropping any names.
    pub fn broadcast(self) -> (b: Self)
        ensures
            b@ == (true, Seq::<Seq<char>>::empty()),
            b@ == receivers_step(self@, ReceiversStep::Broadcast),
    {
        let b = ReceiversBuilder { is_broadcast: true, nodes: Vec::new() };
        proof {
            assert(string_views(b.nodes@) =~= Seq::<Seq<char>>::empty());
        }
        b
    }

    /// Marks the receivers as none, dropping any names.
    pub fn none(self) -> (b: Self)
        ensures
            b@ == (false, Seq::<Seq<char>>::empty()),
            b@ == receivers_step(self@, ReceiversStep::NoReceivers),
    {
        ReceiversBuilder::new()
    }

    /// Appends one name; the receivers are then no longer broadcast.
    pub fn add_node(self, node: &str) -> (b: Self)
        ensures
            b@ == (false, self@.1.push(node@)),
            b@ == receivers_step(self@, ReceiversStep::AddNode(node@)),
    {
        let mut nodes = self.nodes;
        nodes.push(node.to_owned());
        let b = ReceiversBuilder { is_broadcast: false, nodes };
        proof {
            assert(string_views(b.nodes@) =~= self@.1.push(node@));
        }
        b
    }

    /// Appends several names, in order, as `add_node` does for each.
    pub fn add_nodes(self, nodes: &[&str]) -> (b: Self)
        ensures
            b@ == (if nodes@.len() == 0 {
                self@.0
            } else {
                false
            }, self@.1 + str_views(nodes@)),
            b@ == receivers_step(self@, ReceiversStep::AddNodes(str_views(nodes@))),
    {
        let mut b = self;
        let mut i: usize = 0;
        proof {
            assert(self@.1 + str_views(nodes@).take(0) =~= self@.1);
        }
        while i < nodes.len()
            invariant
                0 <= i <= nodes@.len(),
                b@.1 == self@.1 + str_views(nodes@).take(i as int),
                b@.0 == if i == 0 {
                    self@.0
                } else {
                    false
                },
            decreases nodes@.len() - i,
        {
            let ghost before = b@.1;
            b = b.add_node(nodes[i]);
            i = i + 1;
            proof {
                assert(self@.1 + str_views(nodes@).take(i as int) =~= before.push(nodes@[i - 1]@));
            }
        }
        proof {
            assert(str_views(nodes@).take(i as int) =~= str_views(nodes@));
        }
        b
    }

    /// Drops every name and the broadcast mark.
    pub fn clear(self) -> (b: Self)
        ensures
            b@ == (false, Seq::<Seq<char>>::empty()),
            b@ == receivers_step(self@, ReceiversStep::Clear),
    {
        ReceiversBuilder::new()
    }

    /// Builds the receivers as `receivers_build_result` says.
    pub fn build(&self) -> (r: Result<Receivers>)
        ensures
            receivers_result_view(r) == receivers_build_result(self@.0, self@.1),
    {
        if self.is_broadcast {
            return Ok(Receivers::Broadcast);
        }
        if self.nodes.len() == 0 {
            return Ok(Receivers::Unspecified);
        }
        if self.nodes.len() > MAX_RECEIVER_NODES {
            return Err(Error::Signal(Error::SIGNAL_RECEIVERS_TOO_MANY));
        }
        if !all_distinct(self.nodes.as_slice()) {
            return Err(Error::Signal(Error::RECEIVERS_DUPLICATE_NAME));
        }
        let ghost names = string_views(self.nodes@);
        let mut i: usize = 0;
        while i < self.nodes.len()
            invariant
                names == string_views(self.nodes@),
                !self.is_broadcast,
                0 < self.nodes@.len() <= MAX_RECEIVER_NODES,
                names_distinct(names),
                0 <= i <= self.nodes@.len(),
                forall|k: int| 0 <= k < i ==> #[trigger] encode_utf8(names[k]).len()
                    <= MAX_NAME_SIZE,
            decreases self.nodes@.len() - i,
        {
            let text = self.nodes[i].as_str();
            let bytes = text.as_bytes();
            proof {
                assert(bytes@ == encode_utf8(names[i as int]));
            }
            if bytes.len() > MAX_NAME_SIZE {
                proof {
                    assert(some_name_too_long(names));
                }
                return Err(Error::Signal(Error::MAX_NAME_SIZE_EXCEEDED));
            }
            i = i + 1;
        }
        Ok(Receivers::Nodes(self.nodes.clone()))
    }
}

} // verus!
