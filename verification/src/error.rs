//! The errors that the storage layers report.

use vstd::prelude::*;

verus! {

/// Why an operation on the page cache or on a structure above it failed.
#[derive(PartialEq, Eq, Structural, Clone, Copy, Debug)]
pub enum Error {
    /// The backing store cannot read or write the page: its id lies outside
    /// the store, or the store is full.
    Disk,
    /// Every frame of the pool is pinned (or, for one more pin on a page, its
    /// pin count cannot grow).
    OutOfMemory,
    /// The tuple does not fit even on an empty page.
    TupleTooLarge,
    /// A page does not hold what the structure that owns it stores there.
    Corrupt,
}

} // verus!
