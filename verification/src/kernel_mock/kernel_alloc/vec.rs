//! A growable vector whose appends cannot fail.
use vstd::prelude::*;

use super::{TryReserveError, TryReserveErrorKind};

verus! {

/// Asks the standard vector for room for `additional` more items.
///
/// Calls `std::vec::Vec::try_reserve`, which documents that it does nothing
/// when the capacity is already sufficient (so a request for no more items
/// succeeds) and fails when the capacity would overflow (here: the item
/// count plus `additional` passes `usize::MAX`). Otherwise whether it
/// succeeds depends on the allocator, which the contract leaves open; the
/// items are unchanged either way.
#[verifier::external_body]
fn reserve_more<T>(v: &mut std::vec::Vec<T>, additional: usize) -> (ok: bool)
    ensures
        final(v)@ == old(v)@,
        additional == 0 ==> ok,
        old(v)@.len() + additional > usize::MAX ==> !ok,
{
    v.try_reserve(additional).is_ok()
}

/// Asks the standard vector for room for exactly `additional` more items.
///
/// Calls `std::vec::Vec::try_reserve_exact`, which documents that it does nothing
/// when the capacity is already sufficient (so a request for no more items
/// succeeds) and fails when the capacity would overflow (here: the item
/// count plus `additional` passes `usize::MAX`). Otherwise whether it
/// succeeds depends on the allocator, which the contract leaves open; the
/// items are unchanged either way.
#[verifier::external_body]
fn reserve_exact_more<T>(v: &mut std::vec::Vec<T>, additional: usize) -> (ok: bool)
    ensures
        final(v)@ == old(v)@,
        additional == 0 ==> ok,
        old(v)@.len() + additional > usize::MAX ==> !ok,
{
    v.try_reserve_exact(additional).is_ok()
}

/// Turns a standard vector into a boxed slice.
///
/// Calls `std::vec::Vec::into_boxed_slice`, which keeps the items in order.
#[verifier::external_body]
fn boxed_items<T>(v: std::vec::Vec<T>) -> (b: Box<[T]>)
    ensures
        b@ == v@,
{
    v.into_boxed_slice()
}

/// A growable vector.
#[derive(Debug, Clone)]
pub struct Vec<T> {
    inner: std::vec::Vec<T>,
}

impl<T> View for Vec<T> {
    type V = Seq<T>;

    closed spec fn view(&self) -> Seq<T> {
        self.inner@
    }
}

impl<T> Default for Vec<T> {
    fn default() -> (r: Self)
        ensures
            r@ == Seq::<T>::empty(),
    {
        Vec::new()
    }
}

impl<T> Vec<T> {
    /// An empty vector.
    pub fn new() -> (r: Self)
        ensures
            r@ == Seq::<T>::empty(),
    {
        Vec { inner: std::vec::Vec::new() }
    }

    /// Appends `item`.
    pub fn push(&mut self, item: T)
        ensures
            final(self)@ == old(self)@.push(item),
    {
        self.inner.push(item);
    }

    /// The number of items.
    pub fn len(&self) -> (r: usize)
        ensures
            r == self@.len(),
    {
        self.inner.len()
    }

    /// Whether there are no items.
    pub fn is_empty(&self) -> (r: bool)
        ensures
            r == (self@.len() == 0),
    {
        self.inner.len() == 0
    }

    /// Appends copies of the items of `other`, in order.
    pub fn extend_from_slice(&mut self, other: &[T]) where T: Copy
        ensures
            final(self)@ == old(self)@ + other@,
    {
        let ghost before = self.inner@;
        let mut i: usize = 0;
        while i < other.len()
            invariant
                0 <= i <= other@.len(),
                self.inner@ == before + other@.take(i as int),
            decreases other@.len() - i,
        {
            self.inner.push(other[i]);
            i = i + 1;
            proof {
                assert(self.inner@ =~= before + other@.take(i as int));
            }
        }
        proof {
            assert(other@.take(i as int) =~= other@);
        }
    }

    /// Reserves room for at least `additional` more items; the items are
    /// unchanged either way. A request for no more items succeeds, one that
    /// would overflow the item count fails, and a failure is reported as an
    /// allocation error for `additional` bytes. A request past `isize::MAX`
    /// can only be met for zero-sized items, and is admitted only for them
    /// and within the item count's range (otherwise no allocation error of
    /// that size could be described).
    pub fn try_reserve(&mut self, additional: usize) -> (r: Result<(), TryReserveError>)
        requires
            additional <= isize::MAX || (vstd::layout::size_of::<T>() == 0 && old(self)@.len()
                + additional <= usize::MAX),
        ensures
            final(self)@ == old(self)@,
            additional == 0 ==> r is Ok,
            old(self)@.len() + additional > usize::MAX ==> r is Err,
            r matches Err(e) ==> e.spec_kind() == (TryReserveErrorKind::AllocError {
                size: additional,
                align: 1,
            }),
    {
        if reserve_more(&mut self.inner, additional) {
            Ok(())
        } else {
            Err(TryReserveError::alloc_error(additional))
        }
    }

    /// Reserves room for exactly `additional` more items; the items are
    /// unchanged either way. A request for no more items succeeds, one that
    /// would overflow the item count fails, and a failure is reported as an
    /// allocation error for `additional` bytes. A request past `isize::MAX`
    /// can only be met for zero-sized items, and is admitted only for them
    /// and within the item count's range (otherwise no allocation error of
    /// that size could be described).
    pub fn try_reserve_exact(&mut self, additional: usize) -> (r: Result<(), TryReserveError>)
        requires
            additional <= isize::MAX || (vstd::layout::size_of::<T>() == 0 && old(self)@.len()
                + additional <= usize::MAX),
        ensures
            final(self)@ == old(self)@,
            additional == 0 ==> r is Ok,
            old(self)@.len() + additional > usize::MAX ==> r is Err,
            r matches Err(e) ==> e.spec_kind() == (TryReserveErrorKind::AllocError {
                size: additional,
                align: 1,
            }),
    {
        if reserve_exact_more(&mut self.inner, additional) {
            Ok(())
        } else {
            Err(TryReserveError::alloc_error(additional))
        }
    }

    /// The items as a boxed slice.
    pub fn into_boxed_slice(self) -> (b: Box<[T]>)
        ensures
            b@ == self@,
    {
        boxed_items(self.inner)
    }

    /// Removes every item.
    pub fn clear(&mut self)
        ensures
            final(self)@ == Seq::<T>::empty(),
    {
        self.inner.clear();
    }

    /// Appends the items of `items`, in order.
    pub fn extend(&mut self, items: std::vec::Vec<T>)
        ensures
            final(self)@ == old(self)@ + items@,
    {
        let mut items = items;
        self.inner.append(&mut items);
    }
}

} // verus!
