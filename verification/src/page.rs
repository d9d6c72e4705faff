//! The page descriptor.

use crate::list::LinkSlot;
use vstd::prelude::*;

verus! {

/// Per-page flags.
#[derive(Debug, Clone, Copy, PartialEq, Eq, Structural)]
pub struct PageFlags {
    pub bits: u8,
}

impl PageFlags {
    /// Whether the flag that marks the head of a free block is set.
    pub open spec fn has_buddy(self) -> bool {
        self.bits & 1 == 1
    }

    /// No flag set.
    pub fn empty() -> (flags: Self)
        ensures
            flags.bits == 0,
            !flags.has_buddy(),
    {
        assert(0u8 & 1 == 0) by (bit_vector);
        PageFlags { bits: 0 }
    }

    /// The page is the head of a block currently on a free list.
    pub fn buddy() -> (flags: Self)
        ensures
            flags.bits == 1,
    {
        PageFlags { bits: 1 }
    }

    /// Returns the flags as a number.
    pub fn bits(&self) -> (bits: u8)
        ensures
            bits == self.bits,
    {
        self.bits
    }

    /// Returns `true` if every flag of `other` is set.
    pub fn contains(&self, other: PageFlags) -> (all: bool)
        ensures
            all == (self.bits & other.bits == other.bits),
    {
        self.bits & other.bits == other.bits
    }

    /// Sets every flag of `other`.
    pub fn insert(&mut self, other: PageFlags)
        ensures
            final(self).bits == old(self).bits | other.bits,
            other.bits == 1 ==> final(self).has_buddy(),
    {
        let ghost before = self.bits;
        assert((before | 1) & 1 == 1) by (bit_vector);
        self.bits = self.bits | other.bits;
    }

    /// Clears every flag of `other`.
    pub fn remove(&mut self, other: PageFlags)
        ensures
            final(self).bits == old(self).bits & !other.bits,
            other.bits == 1 ==> !final(self).has_buddy(),
    {
        let ghost before = self.bits;
        assert((before & !1) & 1 == 0) by (bit_vector);
        self.bits = self.bits & !other.bits;
    }
}

/// A physical page descriptor.
///
/// - `flags` and `order` describe a block on a free list and are only
///   meaningful on the block's first page.
/// - `refcount` is one on the first page of a block that was handed out and
///   zero everywhere else; `held_order` is that block's order and zero
///   everywhere else.
/// - `next` and `prev` link the page into the free list of its order.
///
/// Two descriptors are equal if they are in all but `held_order`, which is
/// bookkeeping of the allocator.
#[derive(Debug, Clone, Copy, Eq)]
pub struct Page {
    pub flags: PageFlags,
    pub order: u8,
    pub held_order: u8,
    pub refcount: u32,
    pub next: LinkSlot,
    pub prev: LinkSlot,
}

impl Page {
    /// Whether the page is the head of a block on a free list.
    pub open spec fn listed(self) -> bool {
        self.flags.has_buddy()
    }

    /// Whether the descriptor is pristine: not free, not allocated, not
    /// linked.
    pub open spec fn pristine(self) -> bool {
        &&& self.flags.bits == 0
        &&& !self.listed()
        &&& self.order == 0
        &&& self.held_order == 0
        &&& self.refcount == 0
        &&& self.next@ is None
        &&& self.prev@ is None
    }

    /// Creates a pristine descriptor.
    pub fn new() -> (page: Self)
        ensures
            page.pristine(),
    {
        Page {
            flags: PageFlags::empty(),
            order: 0,
            held_order: 0,
            refcount: 0,
            next: LinkSlot::vacant(),
            prev: LinkSlot::vacant(),
        }
    }

    /// Returns the page's flags.
    pub fn flags(&self) -> (flags: PageFlags)
        ensures
            flags == self.flags,
    {
        self.flags
    }

    /// Returns the block order stored on a free head page.
    pub fn order(&self) -> (order: u8)
        ensures
            order == self.order,
    {
        self.order
    }

    /// Returns the page's reference count.
    pub fn refcount(&self) -> (refcount: u32)
        ensures
            refcount == self.refcount,
    {
        self.refcount
    }

    /// Returns `true` if the page is the head of a block on a free list.
    pub fn is_free(&self) -> (free: bool)
        ensures
            free == self.listed(),
    {
        self.flags.contains(PageFlags::buddy())
    }
}

impl PartialEq for Page {
    fn eq(&self, other: &Self) -> (equal: bool) {
        self.flags == other.flags && self.order == other.order && self.refcount == other.refcount
            && self.next == other.next && self.prev == other.prev
    }
}

impl vstd::std_specs::cmp::PartialEqSpecImpl for Page {
    open spec fn obeys_eq_spec() -> bool {
        true
    }

    open spec fn eq_spec(&self, other: &Self) -> bool {
        self.flags == other.flags && self.order == other.order && self.refcount == other.refcount
            && self.next == other.next && self.prev == other.prev
    }
}

impl Default for Page {
    fn default() -> (page: Self)
        ensures
            page.pristine(),
    {
        Page::new()
    }
}

/// Two descriptors are equal if and only if they agree in the flags, the order,
/// the reference count and the links.
pub proof fn law_page_equality(a: Page, b: Page, equal: bool)
    requires
        call_ensures(<Page as PartialEq>::eq, (&a, &b), equal),
    ensures
        equal <==> a.flags.bits == b.flags.bits && a.order == b.order && a.refcount == b.refcount
            && a.next@ == b.next@ && a.prev@ == b.prev@,
{
}

} // verus!
