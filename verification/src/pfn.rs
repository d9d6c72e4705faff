//! The bridge between physical addresses and page indices.
//!
//! Absolute addresses stay in the address type. The only narrowing is the
//! checked [`PageFrame::try_to_usize`], which is applied to page offsets
//! relative to the arena's base and to page sizes.

use crate::addr::PhysAddr;
use vstd::prelude::*;

verus! {

/// A physical address type that can be split into page indices.
pub trait PageFrame: PhysAddr {
    /// Narrows a page offset or a page size to `usize`, returning `None` when
    /// it is not representable.
    fn try_to_usize(self) -> (index: Option<usize>)
        ensures
            0 <= self.value() <= Self::limit(),
            index == (if self.value() <= usize::MAX {
                Some(self.value() as usize)
            } else {
                None
            }),
    ;

    /// Widens a page index into the address type. A type narrower than
    /// `usize` saturates to its greatest value.
    fn from_usize(index: usize) -> (addr: Self)
        ensures
            addr.value() == crate::addr::saturated(index as int, Self::limit()),
    ;
}

impl PageFrame for u8 {
    fn try_to_usize(self) -> (index: Option<usize>) {
        Some(self as usize)
    }

    fn from_usize(index: usize) -> (addr: Self) {
        if index < u8::MAX as usize {
            index as u8
        } else {
            u8::MAX
        }
    }
}

impl PageFrame for u16 {
    fn try_to_usize(self) -> (index: Option<usize>) {
        Some(self as usize)
    }

    fn from_usize(index: usize) -> (addr: Self) {
        if index < u16::MAX as usize {
            index as u16
        } else {
            u16::MAX
        }
    }
}

impl PageFrame for u32 {
    fn try_to_usize(self) -> (index: Option<usize>) {
        Some(self as usize)
    }

    fn from_usize(index: usize) -> (addr: Self) {
        if index < u32::MAX as usize {
            index as u32
        } else {
            u32::MAX
        }
    }
}

impl PageFrame for u64 {
    fn try_to_usize(self) -> (index: Option<usize>) {
        if self <= usize::MAX as u64 {
            Some(self as usize)
        } else {
            None
        }
    }

    fn from_usize(index: usize) -> (addr: Self) {
        index as u64
    }
}

impl PageFrame for u128 {
    fn try_to_usize(self) -> (index: Option<usize>) {
        if self <= usize::MAX as u128 {
            Some(self as usize)
        } else {
            None
        }
    }

    fn from_usize(index: usize) -> (addr: Self) {
        index as u128
    }
}

impl PageFrame for usize {
    fn try_to_usize(self) -> (index: Option<usize>) {
        Some(self)
    }

    fn from_usize(index: usize) -> (addr: Self) {
        index
    }
}

} // verus!
