//! A stand-in for the kernel's `alloc` interface: strings and vectors whose
//! operations cannot fail, with reservation of capacity as the one fallible
//! operation.
pub mod kernel_alloc;
