//! Options that govern how strictly a DBC file is read.
use vstd::prelude::*;

verus! {

/// How strictly a DBC file is checked while it is read.
#[derive(Debug, Clone, Copy, PartialEq, Eq, Structural)]
pub struct ParseOptions {
    /// When set, a signal that extends past its message's data is an error;
    /// when clear, such signals are accepted.
    pub strict_boundary_check: bool,
}

impl Default for ParseOptions {
    /// The strict options, as `new` gives them.
    fn default() -> (r: Self)
        ensures
            r.strict_boundary_check,
    {
        ParseOptions { strict_boundary_check: true }
    }
}

impl ParseOptions {
    /// Strict checking: signals must lie within their message.
    pub fn new() -> (r: Self)
        ensures
            r.strict_boundary_check,
    {
        ParseOptions { strict_boundary_check: true }
    }

    /// Lenient checking: signals may extend past their message.
    pub fn lenient() -> (r: Self)
        ensures
            !r.strict_boundary_check,
    {
        ParseOptions { strict_boundary_check: false }
    }
}

} // verus!
