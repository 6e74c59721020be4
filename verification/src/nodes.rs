//! The node (ECU) list of a DBC file, `BU_: ECM TCM BCM`, and its builder.
use vstd::prelude::*;
use vstd::std_specs::iter::IteratorSpec;
use vstd::std_specs::vec::axiom_spec_into_iter;
use vstd::string::StringSliceAdditionalSpecFns;

use crate::error::{map_val_error, Error, Result};
use crate::parser::{
    blank_end, ident_end, is_ident_delimiter, is_ident_start, lemma_ident_end_ge,
    lemma_spaces_end_ge, matches_at, spaces_end, Parser,
};
use crate::text::{ascii_chars, push_char, push_str, str_eq, string_from};
use crate::{validate_name, BU_, MAX_NAME_SIZE, MAX_NODES};

verus! {

/// The characters of each string.
pub open spec fn string_views(v: Seq<String>) -> Seq<Seq<char>> {
    Seq::new(v.len(), |i: int| v[i]@)
}

/// The characters of each string slice.
pub open spec fn str_views(v: Seq<&str>) -> Seq<Seq<char>> {
    Seq::new(v.len(), |i: int| v[i]@)
}

/// No name occurs twice (names are compared case-sensitively).
pub open spec fn names_distinct(names: Seq<Seq<char>>) -> bool {
    forall|i: int, j: int| 0 <= i < j < names.len() ==> names[i] != names[j]
}

/// Why a node list is refused, if it is: more than `MAX_NODES` names, checked
/// first, or a name that occurs twice.
pub open spec fn nodes_problem(names: Seq<Seq<char>>) -> Option<&'static str> {
    if names.len() > MAX_NODES {
        Some(Error::NODES_TOO_MANY)
    } else if !names_distinct(names) {
        Some(Error::NODES_DUPLICATE_NAME)
    } else {
        None
    }
}

/// The names joined by single spaces.
pub open spec fn joined(names: Seq<Seq<char>>) -> Seq<char>
    decreases names.len(),
{
    if names.len() == 0 {
        Seq::empty()
    } else if names.len() == 1 {
        names[0]
    } else {
        joined(names.drop_last()) + seq![' '] + names.last()
    }
}

/// The `BU_` statement that lists `names`.
pub open spec fn nodes_text(names: Seq<Seq<char>>) -> Seq<char> {
    BU_@ + seq![':'] + if names.len() == 0 {
        Seq::<char>::empty()
    } else {
        seq![' '] + joined(names)
    }
}

/// Reads node names from position `i` of `s`, after the names `acc` already
/// read: each name may be preceded by spaces, and the list ends where no
/// well-delimited identifier follows. Yields the names (or the error) and
/// the position where reading stopped.
pub open spec fn node_names_from(s: Seq<u8>, i: int, acc: Seq<Seq<char>>) -> (
    Result<Seq<Seq<char>>>,
    int,
)
    decreases s.len() - i,
{
    let q = spaces_end(s, i);
    let e = ident_end(s, q + 1);
    if i < 0 || q < i || q >= s.len() || !is_ident_start(s[q]) {
        (Ok(acc), q)
    } else if e < s.len() && !is_ident_delimiter(s[e]) {
        (Ok(acc), e)
    } else if acc.len() >= MAX_NODES {
        (Err(Error::Nodes(Error::NODES_TOO_MANY)), e)
    } else if e - q > MAX_NAME_SIZE {
        (Err(Error::Expected(Error::MAX_NAME_SIZE_EXCEEDED)), e)
    } else {
        proof {
            lemma_ident_end_ge(s, q + 1);
        }
        node_names_from(s, e, acc.push(ascii_chars(s.subrange(q, e))))
    }
}

/// The outcome of reading a `BU_` statement at position `p` of `s`: the
/// keyword, a colon, optional blanks, then the names; a list that repeats a
/// name is refused.
pub open spec fn nodes_parse_result(s: Seq<u8>, p: int) -> Result<Seq<Seq<char>>> {
    let kw = BU_.spec_bytes();
    let colon = ":".spec_bytes();
    if !matches_at(s, p, kw) {
        Err(Error::Expected("Expected BU_ keyword"))
    } else if !matches_at(s, p + kw.len(), colon) {
        Err(Error::Expected("Expected colon after BU_"))
    } else {
        match node_names_from(s, blank_end(s, p + kw.len() + colon.len()), Seq::empty()).0 {
            Err(e) => Err(e),
            Ok(names) => match nodes_problem(names) {
                Some(m) => Err(Error::Nodes(m)),
                None => Ok(names),
            },
        }
    }
}

/// Where reading a well-formed `BU_` statement at `p` stops.
pub open spec fn nodes_parse_end(s: Seq<u8>, p: int) -> int {
    let kw = BU_.spec_bytes();
    let colon = ":".spec_bytes();
    node_names_from(s, blank_end(s, p + kw.len() + colon.len()), Seq::empty()).1
}

/// A result carrying node lists, seen through the lists' names.
pub open spec fn nodes_result_view(r: Result<Nodes>) -> Result<Seq<Seq<char>>> {
    match r {
        Ok(n) => Ok(n@),
        Err(e) => Err(e),
    }
}

/// Whether no two of the strings hold the same characters.
pub(crate) fn all_distinct(names: &[String]) -> (r: bool)
    ensures
        r == names_distinct(string_views(names@)),
        r <==> forall|i: int, j: int|
            0 <= i < j < names@.len() ==> names@[i]@ != names@[j]@,
{
    let ghost views = string_views(names@);
    let n = names.len();
    let mut i: usize = 0;
    while i < n
        invariant
            n == names@.len(),
            views == string_views(names@),
            0 <= i <= n,
            forall|a: int, b: int| 0 <= a < b < n && a < i ==> views[a] != views[b],
        decreases n - i,
    {
        let mut j: usize = i + 1;
        while j < n
            invariant
                n == names@.len(),
                views == string_views(names@),
                0 <= i < n,
                i + 1 <= j <= n,
                forall|a: int, b: int| 0 <= a < b < n && a < i ==> views[a] != views[b],
                forall|b: int| i < b < j ==> views[i as int] != views[b],
            decreases n - j,
        {
            if names[i] == names[j] {
                proof {
                    assert(views[i as int] == views[j as int]);
                }
                return false;
            }
            j = j + 1;
        }
        i = i + 1;
    }
    assert forall|a: int, b: int| 0 <= a < b < n implies names@[a]@ != names@[b]@ by {
        assert(views[a] != views[b]);
    }
    true
}

/// Checks a node list: `Validation(NODES_TOO_MANY)` for more than
/// `MAX_NODES` names, else `Validation(NODES_DUPLICATE_NAME)` when a name
/// repeats.
pub(crate) fn check_nodes(nodes: &[String]) -> (r: Result<()>)
    ensures
        r == (match nodes_problem(string_views(nodes@)) {
            Some(m) => Err(Error::Validation(m)),
            None => Ok(()),
        }),
{
    if nodes.len() > MAX_NODES {
        return Err(Error::Validation(Error::NODES_TOO_MANY));
    }
    if !all_distinct(nodes) {
        return Err(Error::Validation(Error::NODES_DUPLICATE_NAME));
    }
    Ok(())
}

/// `Nodes(msg)`.
fn nodes_error(msg: &'static str) -> (r: Error)
    ensures
        r == Error::Nodes(msg),
{
    Error::Nodes(msg)
}

/// `Nodes(NODES_ERROR_PREFIX)`, for an error that names no detail.
fn nodes_error_fallback() -> (r: Error)
    ensures
        r == Error::Nodes(Error::NODES_ERROR_PREFIX),
{
    Error::Nodes(Error::NODES_ERROR_PREFIX)
}

/// Copies string slices into owned strings.
fn owned_names(nodes: &[&str]) -> (v: Vec<String>)
    ensures
        string_views(v@) == str_views(nodes@),
{
    let mut v: Vec<String> = Vec::new();
    let mut i: usize = 0;
    while i < nodes.len()
        invariant
            0 <= i <= nodes@.len(),
            v@.len() == i,
            forall|k: int| 0 <= k < i ==> #[trigger] v@[k]@ == nodes@[k]@,
        decreases nodes@.len() - i,
    {
        v.push(nodes[i].to_owned());
        i = i + 1;
    }
    proof {
        assert(string_views(v@) =~= str_views(nodes@));
    }
    v
}

/// The node names of a DBC file, in the order given.
///
/// Every list built by this library holds at most `MAX_NODES` names and no
/// name twice.
#[derive(Debug)]
pub struct Nodes {
    nodes: Vec<String>,
}

impl View for Nodes {
    type V = Seq<Seq<char>>;

    closed spec fn view(&self) -> Seq<Seq<char>> {
        string_views(self.nodes@)
    }
}

impl Default for Nodes {
    fn default() -> (r: Self)
        ensures
            r@ == Seq::<Seq<char>>::empty(),
    {
        let r = Nodes { nodes: Vec::new() };
        proof {
            assert(r@ =~= Seq::<Seq<char>>::empty());
        }
        r
    }
}

impl Nodes {
    /// A builder with no names.
    pub fn builder() -> (b: NodesBuilder)
        ensures
            b@ == Seq::<Seq<char>>::empty(),
    {
        NodesBuilder::new()
    }

    /// A node list holding `nodes`, refused with `Nodes(NODES_TOO_MANY)` or
    /// `Nodes(NODES_DUPLICATE_NAME)` as `nodes_problem` says.
    pub fn new(nodes: &[&str]) -> (r: Result<Nodes>)
        ensures
            nodes_result_view(r) == (match nodes_problem(str_views(nodes@)) {
                Some(m) => Err(Error::Nodes(m)),
                None => Ok(str_views(nodes@)),
            }),
            r matches Ok(n) ==> n@.len() <= MAX_NODES && forall|i: int, j: int|
                0 <= i < j < n@.len() ==> n@[i] != n@[j],
    {
        let v = owned_names(nodes);
        match check_nodes(v.as_slice()) {
            Ok(()) => Ok(Nodes { nodes: v }),
            Err(e) => Err(Error::Nodes(Nodes::problem_message(e))),
        }
    }

    /// The detail of a validation error.
    fn problem_message(e: Error) -> (m: &'static str)
        requires
            e is Validation,
        ensures
            e == Error::Validation(m),
    {
        match e {
            Error::Validation(m) => m,
            _ => Error::NODES_ERROR_PREFIX,
        }
    }

    /// Reads a `BU_` statement: `BU_`, a colon, optional blanks, then node
    /// names separated by spaces, up to the first place where no name follows.
    ///
    /// Fails with `Expected("Expected BU_ keyword")` or `Expected("Expected
    /// colon after BU_")`, with `Nodes(NODES_TOO_MANY)` past `MAX_NODES`
    /// names, with `Expected(MAX_NAME_SIZE_EXCEEDED)` for a name longer than
    /// `MAX_NAME_SIZE` bytes and with `Nodes(NODES_DUPLICATE_NAME)` when a
    /// name repeats.
    pub fn parse(parser: &mut Parser) -> (r: Result<Nodes>)
        requires
            old(parser).well_formed(),
        ensures
            final(parser).well_formed(),
            final(parser).input == old(parser).input,
            nodes_result_view(r) == nodes_parse_result(old(parser).input@, old(parser).pos as int),
            r matches Ok(n) ==> n@.len() <= MAX_NODES && forall|i: int, j: int|
                0 <= i < j < n@.len() ==> n@[i] != n@[j],
            r is Ok ==> final(parser).pos == nodes_parse_end(
                old(parser).input@,
                old(parser).pos as int,
            ),
    {
        let ghost s = parser.input@;
        let ghost p = parser.pos as int;
        if parser.expect_bytes(BU_.as_bytes()).is_err() {
            return Err(Error::Expected("Expected BU_ keyword"));
        }
        parser.expect_with_msg(":".as_bytes(), "Expected colon after BU_")?;
        parser.skip_newlines_and_spaces();
        let ghost start = parser.pos as int;
        let mut names: Vec<String> = Vec::new();
        let mut done = false;
        proof {
            assert(string_views(names@) =~= Seq::<Seq<char>>::empty());
        }
        while !done
            invariant
                parser.well_formed(),
                parser.input == old(parser).input,
                parser.input@ == s,
                s == old(parser).input@,
                p == old(parser).pos,
                matches_at(s, p, BU_.spec_bytes()),
                matches_at(s, p + BU_.spec_bytes().len(), ":".spec_bytes()),
                start == blank_end(s, p + BU_.spec_bytes().len() + ":".spec_bytes().len()),
                start <= parser.pos <= s.len(),
                names@.len() <= MAX_NODES,
                !done ==> node_names_from(s, start, Seq::empty()) == node_names_from(
                    s,
                    parser.pos as int,
                    string_views(names@),
                ),
                done ==> node_names_from(s, start, Seq::empty()) == (
                    Ok::<Seq<Seq<char>>, Error>(string_views(names@)),
                    parser.pos as int,
                ),
            decreases s.len() - parser.pos + if done {
                0int
            } else {
                1int
            },
        {
            let ghost i = parser.pos as int;
            let ghost views = string_views(names@);
            proof {
                lemma_spaces_end_ge(s, i);
            }
            parser.skip_whitespace_optional();
            let ghost q = parser.pos as int;
            proof {
                lemma_ident_end_ge(s, q + 1);
            }
            match parser.parse_identifier() {
                Ok(id) => {
                    let ghost e = parser.pos as int;
                    proof {
                        assert(q == spaces_end(s, i));
                        assert(e == ident_end(s, q + 1));
                        assert(id.spec_bytes().len() == e - q);
                    }
                    if names.len() > MAX_NODES - 1 {
                        proof {
                            assert(node_names_from(s, i, views).0 == Err::<Seq<Seq<char>>, Error>(
                                Error::Nodes(Error::NODES_TOO_MANY),
                            ));
                        }
                        return Err(Error::Nodes(Error::NODES_TOO_MANY));
                    }
                    if id.len() > MAX_NAME_SIZE {
                        proof {
                            assert(node_names_from(s, i, views).0 == Err::<Seq<Seq<char>>, Error>(
                                Error::Expected(Error::MAX_NAME_SIZE_EXCEEDED),
                            ));
                        }
                    }
                    let name = validate_name(id)?;
                    names.push(name);
                    proof {
                        assert(string_views(names@) =~= views.push(
                            ascii_chars(s.subrange(q, parser.pos as int)),
                        ));
                    }
                },
                Err(_) => {
                    done = true;
                },
            }
        }
        match check_nodes(names.as_slice()) {
            Ok(()) => Ok(Nodes { nodes: names }),
            Err(e) => Err(map_val_error(e, nodes_error, nodes_error_fallback)),
        }
    }

    /// The names, or `None` when there are none.
    pub fn nodes(&self) -> (r: Option<&[String]>)
        ensures
            self@.len() == 0 ==> r is None,
            self@.len() > 0 ==> (r matches Some(sl) && string_views(sl@) == self@),
    {
        if self.nodes.len() == 0 {
            None
        } else {
            Some(self.nodes.as_slice())
        }
    }

    /// The names, in order, as an iterator over string slices.
    pub fn iter(&self) -> (r: std::vec::IntoIter<&str>)
        ensures
            str_views(r.remaining()) == self@,
    {
        let mut v: Vec<&str> = Vec::new();
        let mut i: usize = 0;
        while i < self.nodes.len()
            invariant
                0 <= i <= self.nodes@.len(),
                v@.len() == i,
                forall|k: int| 0 <= k < i ==> #[trigger] v@[k]@ == self.nodes@[k]@,
            decreases self.nodes@.len() - i,
        {
            v.push(self.nodes[i].as_str());
            i = i + 1;
        }
        proof {
            assert(str_views(v@) =~= self@);
            broadcast use axiom_spec_into_iter;
        }
        v.into_iter()
    }

    /// Whether `node` is one of the names (case-sensitive).
    pub fn contains(&self, node: &str) -> (r: bool)
        ensures
            r == self@.contains(node@),
    {
        let mut i: usize = 0;
        while i < self.nodes.len()
            invariant
                0 <= i <= self.nodes@.len(),
                forall|k: int| 0 <= k < i ==> self@[k] != node@,
            decreases self.nodes@.len() - i,
        {
            if str_eq(self.nodes[i].as_str(), node) {
                proof {
                    assert(self@[i as int] == node@);
                }
                return true;
            }
            i = i + 1;
        }
        false
    }

    /// The number of names.
    pub fn len(&self) -> (r: usize)
        ensures
            r == self@.len(),
    {
        self.nodes.len()
    }

    /// Whether there are no names.
    pub fn is_empty(&self) -> (r: bool)
        ensures
            r == (self@.len() == 0),
    {
        self.nodes.len() == 0
    }

    /// The name at `index`, or `None` past the end.
    pub fn at(&self, index: usize) -> (r: Option<&str>)
        ensures
            index < self@.len() ==> (r matches Some(n) && n@ == self@[index as int]),
            index >= self@.len() ==> r is None,
    {
        if index < self.nodes.len() {
            Some(self.nodes[index].as_str())
        } else {
            None
        }
    }

    /// The names separated by single spaces (empty for no names).
    pub fn to_string(&self) -> (s: String)
        ensures
            s@ == joined(self@),
    {
        let mut s = String::new();
        let mut i: usize = 0;
        while i < self.nodes.len()
            invariant
                0 <= i <= self.nodes@.len(),
                s@ == joined(self@.take(i as int)),
            decreases self.nodes@.len() - i,
        {
            if i > 0 {
                push_char(&mut s, ' ');
            }
            push_str(&mut s, self.nodes[i].as_str());
            i = i + 1;
            proof {
                assert(self@.take(i as int).drop_last() =~= self@.take(i - 1));
                if i == 1 {
                    assert(joined(self@.take(i - 1)) =~= Seq::<char>::empty());
                }
            }
        }
        proof {
            assert(self@.take(i as int) =~= self@);
        }
        s
    }

    /// The `BU_` statement: `BU_:` followed by a space and the names, or
    /// `BU_:` alone for no names.
    pub fn to_dbc_string(&self) -> (s: String)
        ensures
            s@ == nodes_text(self@),
    {
        let mut s = string_from(BU_);
        push_char(&mut s, ':');
        if self.nodes.len() > 0 {
            push_char(&mut s, ' ');
            let names = self.to_string();
            push_str(&mut s, names.as_str());
        }
        s
    }
}

/// Collects node names and checks them when the list is built.
#[derive(Debug)]
pub struct NodesBuilder {
    nodes: Vec<String>,
}

impl View for NodesBuilder {
    type V = Seq<Seq<char>>;

    closed spec fn view(&self) -> Seq<Seq<char>> {
        string_views(self.nodes@)
    }
}

impl Default for NodesBuilder {
    fn default() -> (r: Self)
        ensures
            r@ == Seq::<Seq<char>>::empty(),
    {
        NodesBuilder::new()
    }
}

impl NodesBuilder {
    /// A builder with no names.
    pub fn new() -> (b: Self)
        ensures
            b@ == Seq::<Seq<char>>::empty(),
    {
        let b = NodesBuilder { nodes: Vec::new() };
        proof {
            assert(b@ =~= Seq::<Seq<char>>::empty());
        }
        b
    }

    /// Appends one name.
    pub fn add_node(self, node: &str) -> (b: Self)
        ensures
            b@ == self@.push(node@),
    {
        let mut nodes = self.nodes;
        nodes.push(node.to_owned());
        let b = NodesBuilder { nodes };
        proof {
            assert(b@ =~= self@.push(node@));
        }
        b
    }

    /// Appends several names, in order.
    pub fn add_nodes(self, nodes: &[&str]) -> (b: Self)
        ensures
            b@ == self@ + str_views(nodes@),
    {
        let mut all = self.nodes;
        let ghost before = all@;
        let mut i: usize = 0;
        while i < nodes.len()
            invariant
                0 <= i <= nodes@.len(),
                all@.len() == before.len() + i,
                forall|k: int| 0 <= k < before.len() ==> #[trigger] all@[k] == before[k],
                forall|k: int| 0 <= k < i ==> #[trigger] all@[before.len() + k]@ == nodes@[k]@,
            decreases nodes@.len() - i,
        {
            all.push(nodes[i].to_owned());
            i = i + 1;
        }
        proof {
            assert forall|k: int| 0 <= k < all@.len() implies #[trigger] string_views(all@)[k] == (
            self@ + str_views(nodes@))[k] by {
                if k >= before.len() {
                    assert(all@[before.len() + (k - before.len())]@ == nodes@[k - before.len()]@);
                }
            }
            assert(string_views(all@) =~= self@ + str_views(nodes@));
        }
        NodesBuilder { nodes: all }
    }

    /// Removes every name.
    pub fn clear(self) -> (b: Self)
        ensures
            b@ == Seq::<Seq<char>>::empty(),
    {
        NodesBuilder::new()
    }

    /// Checks the names collected so far and hands the builder back; fails
    /// with `Nodes(NODES_TOO_MANY)` or `Nodes(NODES_DUPLICATE_NAME)` as
    /// `nodes_problem` says.
    pub fn validate(self) -> (r: Result<Self>)
        ensures
            match nodes_problem(self@) {
                Some(m) => r == Err::<Self, Error>(Error::Nodes(m)),
                None => r matches Ok(b) && b@ == self@,
            },
    {
        match check_nodes(self.nodes.as_slice()) {
            Ok(()) => Ok(self),
            Err(e) => Err(Error::Nodes(Nodes::problem_message(e))),
        }
    }

    /// Builds the node list; fails as `validate` does.
    pub fn build(self) -> (r: Result<Nodes>)
        ensures
            nodes_result_view(r) == (match nodes_problem(self@) {
                Some(m) => Err(Error::Nodes(m)),
                None => Ok(self@),
            }),
            r matches Ok(n) ==> n@.len() <= MAX_NODES && forall|i: int, j: int|
                0 <= i < j < n@.len() ==> n@[i] != n@[j],
    {
        match check_nodes(self.nodes.as_slice()) {
            Ok(()) => Ok(Nodes { nodes: self.nodes }),
            Err(e) => Err(Error::Nodes(Nodes::problem_message(e))),
        }
    }
}

} // verus!
