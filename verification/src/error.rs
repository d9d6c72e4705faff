//! The error type returned by fallible allocator operations.

use vstd::prelude::*;

verus! {

/// Errors returned by the buddy allocator.
#[derive(Debug, Clone, Copy, PartialEq, Eq, Structural)]
pub enum Error {
    /// No free block of the requested order (or any larger order) exists.
    OutOfMemory,
    /// The requested order is not below `MAX_ORDER`.
    InvalidOrder,
    /// The address is misaligned, does not denote the start of a block, or
    /// lies outside the managed range.
    InvalidAddress,
    /// The block may not be freed: it overlaps memory that is already free,
    /// or it is not the block that is in use there.
    InvalidFree,
    /// The page size is zero, not a power of two, or not representable.
    InvalidPageSize,
    /// The page descriptor array is not aligned for its element type.
    InvalidPageArray,
    /// An operation that needs page descriptors was attempted before the
    /// allocator was initialized.
    Uninitialized,
    /// The allocator already manages pages.
    AlreadyInitialized,
    /// The arena geometry is invalid: fewer pages than the largest block, a
    /// base address not aligned to the largest block, or an address range
    /// that would wrap around the top of the address space.
    InvalidGeometry,
    /// A free list is corrupted: a listed block is misaligned, not marked
    /// free, carries the wrong order, or a marked block is not listed.
    CorruptFreeList,
    /// Two buddy blocks are free at the same order.
    Uncoalesced,
    /// The free page accounting does not match the free lists.
    CountMismatch,
    /// An invariant was violated.
    InternalError,
}

impl Error {
    /// The text that describes the error.
    pub open spec fn text(self) -> Seq<char> {
        match self {
            Error::OutOfMemory => "Out of memory"@,
            Error::InvalidOrder => "Invalid order"@,
            Error::InvalidAddress => "Invalid address"@,
            Error::InvalidFree => "Invalid free"@,
            Error::InvalidPageSize => "Invalid page size"@,
            Error::InvalidPageArray => "Invalid page descriptor array"@,
            Error::InvalidGeometry => "Invalid geometry"@,
            Error::Uninitialized => "Allocator is not initialized"@,
            Error::AlreadyInitialized => "Allocator is already initialized"@,
            Error::CorruptFreeList => "Corrupted free list"@,
            Error::Uncoalesced => "Uncoalesced buddies"@,
            Error::CountMismatch => "Free page count mismatch"@,
            Error::InternalError => "Internal error"@,
        }
    }

    /// Returns the text that describes the error.
    pub fn message(&self) -> (s: &'static str)
        ensures
            s@ == self.text(),
    {
        match self {
            Error::OutOfMemory => "Out of memory",
            Error::InvalidOrder => "Invalid order",
            Error::InvalidAddress => "Invalid address",
            Error::InvalidFree => "Invalid free",
            Error::InvalidPageSize => "Invalid page size",
            Error::InvalidPageArray => "Invalid page descriptor array",
            Error::InvalidGeometry => "Invalid geometry",
            Error::Uninitialized => "Allocator is not initialized",
            Error::AlreadyInitialized => "Allocator is already initialized",
            Error::CorruptFreeList => "Corrupted free list",
            Error::Uncoalesced => "Uncoalesced buddies",
            Error::CountMismatch => "Free page count mismatch",
            Error::InternalError => "Internal error",
        }
    }

    /// Returns the text that describes the error as an owned string.
    pub fn to_string(&self) -> (s: String)
        ensures
            s@ == self.text(),
    {
        String::from_str(self.message())
    }
}

} // verus!
