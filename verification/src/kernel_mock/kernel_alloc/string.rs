//! A growable string whose appends cannot fail.
use vstd::prelude::*;
use vstd::utf8::encode_utf8;

use super::{TryReserveError, TryReserveErrorKind};

verus! {

/// Asks the standard string for room for `additional` more bytes.
///
/// Calls `std::string::String::try_reserve`, which documents that it does
/// nothing when the capacity is already sufficient (so a request for no
/// more bytes succeeds) and fails when the capacity would overflow (a
/// string's bytes cannot pass `isize::MAX`). Otherwise whether it succeeds
/// depends on the allocator, which the contract leaves open; the text is
/// unchanged either way.
#[verifier::external_body]
fn reserve_more(s: &mut std::string::String, additional: usize) -> (ok: bool)
    ensures
        final(s)@ == old(s)@,
        additional == 0 ==> ok,
        encode_utf8(old(s)@).len() + additional > isize::MAX ==> !ok,
{
    s.try_reserve(additional).is_ok()
}

/// Asks the standard string for room for exactly `additional` more bytes.
///
/// Calls `std::string::String::try_reserve_exact`, which documents that it does
/// nothing when the capacity is already sufficient (so a request for no
/// more bytes succeeds) and fails when the capacity would overflow (a
/// string's bytes cannot pass `isize::MAX`). Otherwise whether it succeeds
/// depends on the allocator, which the contract leaves open; the text is
/// unchanged either way.
#[verifier::external_body]
fn reserve_exact_more(s: &mut std::string::String, additional: usize) -> (ok: bool)
    ensures
        final(s)@ == old(s)@,
        additional == 0 ==> ok,
        encode_utf8(old(s)@).len() + additional > isize::MAX ==> !ok,
{
    s.try_reserve_exact(additional).is_ok()
}

/// Turns a standard string into a boxed string slice.
///
/// Calls `std::string::String::into_boxed_str`, which keeps the text.
#[verifier::external_body]
fn boxed_text(s: std::string::String) -> (b: Box<str>)
    ensures
        b@ == s@,
{
    s.into_boxed_str()
}

/// A growable string.
#[derive(Debug, Clone, PartialEq, Eq)]
pub struct String {
    inner: std::string::String,
}

impl View for String {
    type V = Seq<char>;

    closed spec fn view(&self) -> Seq<char> {
        self.inner@
    }
}

impl String {
    /// A string holding `s`.
    pub fn from_str(s: &str) -> (r: Self)
        ensures
            r@ == s@,
    {
        String { inner: s.to_owned() }
    }

    /// The text.
    pub fn as_str(&self) -> (r: &str)
        ensures
            r@ == self@,
    {
        self.inner.as_str()
    }

    /// Appends `s`.
    pub fn push_str(&mut self, s: &str)
        ensures
            final(self)@ == old(self)@ + s@,
    {
        crate::text::push_str(&mut self.inner, s);
    }

    /// Reserves room for at least `additional` more bytes; the text is
    /// unchanged either way. A request for no more bytes succeeds, one that
    /// would take the text's bytes past `isize::MAX` fails, and a failure is
    /// reported as an allocation error for `additional` bytes.
    pub fn try_reserve(&mut self, additional: usize) -> (r: Result<(), TryReserveError>)
        requires
            additional <= isize::MAX,
        ensures
            final(self)@ == old(self)@,
            additional == 0 ==> r is Ok,
            encode_utf8(old(self)@).len() + additional > isize::MAX ==> r is Err,
            r matches Err(e) ==> e.spec_kind() == (TryReserveErrorKind::AllocError {
                size: additional,
                align: 1,
            }),
    {
        if reserve_more(&mut self.inner, additional) {
            Ok(())
        } else {
            Err(TryReserveError::alloc_error(additional))
        }
    }

    /// Reserves room for exactly `additional` more bytes; the text is
    /// unchanged either way. A request for no more bytes succeeds, one that
    /// would take the text's bytes past `isize::MAX` fails, and a failure is
    /// reported as an allocation error for `additional` bytes.
    pub fn try_reserve_exact(&mut self, additional: usize) -> (r: Result<(), TryReserveError>)
        requires
            additional <= isize::MAX,
        ensures
            final(self)@ == old(self)@,
            additional == 0 ==> r is Ok,
            encode_utf8(old(self)@).len() + additional > isize::MAX ==> r is Err,
            r matches Err(e) ==> e.spec_kind() == (TryReserveErrorKind::AllocError {
                size: additional,
                align: 1,
            }),
    {
        if reserve_exact_more(&mut self.inner, additional) {
            Ok(())
        } else {
            Err(TryReserveError::alloc_error(additional))
        }
    }

    /// The text as a boxed string slice.
    pub fn into_boxed_str(self) -> (b: Box<str>)
        ensures
            b@ == self@,
    {
        boxed_text(self.inner)
    }
}

} // verus!
