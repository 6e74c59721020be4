//! The allocation error, and the string and vector types.
pub mod string;
pub mod vec;

use vstd::prelude::*;

verus! {

/// Why reserving capacity failed.
#[derive(Debug, Clone, PartialEq, Eq)]
pub enum TryReserveErrorKind {
    /// The requested capacity exceeds what a collection can hold.
    CapacityOverflow,
    /// The allocator could not provide a block of `size` bytes aligned to `align`.
    AllocError { size: usize, align: usize },
}

/// Reserving capacity failed.
#[derive(Debug, Clone, PartialEq, Eq)]
pub struct TryReserveError {
    kind: TryReserveErrorKind,
}

impl TryReserveError {
    /// Why reserving failed.
    pub closed spec fn spec_kind(&self) -> TryReserveErrorKind {
        self.kind
    }

    /// A failure to allocate `additional` bytes, byte-aligned.
    pub(crate) fn alloc_error(additional: usize) -> (e: Self)
        ensures
            e.spec_kind() == (TryReserveErrorKind::AllocError { size: additional, align: 1 }),
    {
        TryReserveError { kind: TryReserveErrorKind::AllocError { size: additional, align: 1 } }
    }

    /// Why reserving failed.
    pub fn kind(&self) -> (k: &TryReserveErrorKind)
        ensures
            *k == self.spec_kind(),
    {
        &self.kind
    }

    /// The text of the error: `capacity overflow` or `memory allocation failed`.
    pub fn to_string(&self) -> (s: String)
        ensures
            s@ == match self.spec_kind() {
                TryReserveErrorKind::CapacityOverflow => "capacity overflow"@,
                TryReserveErrorKind::AllocError { .. } => "memory allocation failed"@,
            },
    {
        match &self.kind {
            TryReserveErrorKind::CapacityOverflow => crate::text::string_from("capacity overflow"),
            TryReserveErrorKind::AllocError { .. } => crate::text::string_from(
                "memory allocation failed",
            ),
        }
    }
}

} // verus!
