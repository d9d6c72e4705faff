//! The buddy allocator.

use crate::arena;
use crate::arena::Arena;
use crate::audit;
use crate::blocks;
use crate::effects;
use crate::error::Error;
use crate::free_area::FreeArea;
use crate::order::pages_in_order;
use crate::page::{Page, PageFlags};
use crate::pfn::PageFrame;
use crate::repr;
use vstd::arithmetic::power2::*;
use vstd::prelude::*;

verus! {

/// A buddy allocator managing a contiguous range of physical page frames.
///
/// The descriptors are supplied by the caller, so the allocator itself never
/// allocates. `MAX_ORDER` is the number of free areas: valid orders are
/// `0..MAX_ORDER`, and the largest block is two to the power of
/// `MAX_ORDER - 1` pages.
///
/// An allocator without descriptors is a placeholder that manages no pages.
#[derive(Debug)]
pub struct Buddy<'a, A: PageFrame, const MAX_ORDER: usize> {
    pub page_size: A,
    pub base_pfn: A,
    pub pages: Option<&'a mut [Page]>,
    pub areas: [FreeArea; MAX_ORDER],
    pub nr_free: usize,
}

/// An arena of `nr_pages` pages of `page_size` from page number `base_pfn` on
/// fits the address type with the given limit: its pages are numbered and
/// addressed without overflow, and it holds and is aligned to the largest
/// block.
pub open spec fn fits(
    base_pfn: int,
    page_size: int,
    nr_pages: int,
    limit: int,
    max_order: int,
) -> bool {
    &&& 1 <= max_order <= usize::BITS
    &&& is_pow2(page_size)
    &&& page_size <= usize::MAX
    &&& blocks::span(max_order - 1) <= nr_pages <= usize::MAX
    &&& 0 <= base_pfn
    &&& base_pfn + nr_pages <= limit
    &&& base_pfn + nr_pages - 1 <= limit / page_size
    &&& blocks::aligned(base_pfn, max_order - 1)
}

/// Why `nr_pages` pages of `page_size` from the address `base` on are no
/// arena, if they are not.
pub open spec fn geometry_fault(
    base: int,
    page_size: int,
    nr_pages: int,
    limit: int,
    max_order: int,
) -> Option<Error> {
    if !(1 <= max_order <= usize::BITS) {
        Some(Error::InvalidGeometry)
    } else if !(is_pow2(page_size) && page_size <= usize::MAX) {
        Some(Error::InvalidPageSize)
    } else if !{
        let largest = blocks::span(max_order - 1);
        let base_pfn = base / page_size;
        &&& largest <= nr_pages
        &&& largest <= limit / page_size
        &&& base_pfn + nr_pages <= limit
        &&& base_pfn + nr_pages - 1 <= limit / page_size
        &&& base % (largest * page_size) == 0
    } {
        Some(Error::InvalidGeometry)
    } else {
        None
    }
}

/// Why descriptors at the given address are no array of an arena, if they are
/// not.
pub open spec fn arena_fault(
    address: int,
    base: int,
    page_size: int,
    nr_pages: int,
    limit: int,
    max_order: int,
) -> Option<Error> {
    if 1 <= max_order <= usize::BITS && address % vstd::layout::align_of::<Page>() as int != 0 {
        Some(Error::InvalidPageArray)
    } else {
        geometry_fault(base, page_size, nr_pages, limit, max_order)
    }
}

/// The arena of `nr_pages` pages in which nothing is free or in use.
pub open spec fn blank(nr_pages: int, max_order: int) -> Arena {
    Arena {
        nr_pages,
        free: Seq::new(max_order as nat, |o: int| Seq::<int>::empty()),
        used: Map::empty(),
    }
}

impl<'a, A: PageFrame, const MAX_ORDER: usize> Buddy<'a, A, MAX_ORDER> {
    /// The descriptors.
    pub open spec fn descriptors(self) -> Seq<Page> {
        match self.pages {
            Some(pages) => pages@,
            None => Seq::empty(),
        }
    }

    /// The arena that the allocator manages.
    pub open spec fn arena(self) -> Arena {
        repr::arena_of(self.descriptors(), self.areas@)
    }

    /// The address at which page `idx` starts.
    pub open spec fn address(self, idx: int) -> int {
        (self.base_pfn.value() + idx) * self.page_size.value()
    }

    /// The page that starts at the given address, if the arena has one.
    pub open spec fn page_at(self, addr: int) -> Option<int> {
        let pfn = addr / self.page_size.value();
        let base = self.base_pfn.value();
        if addr % self.page_size.value() == 0 && base <= pfn < base + self.descriptors().len() {
            Some(pfn - base)
        } else {
            None
        }
    }

    /// The first page that starts at or after the given address.
    pub open spec fn first_page(self, start: int) -> int {
        let pfn = crate::addr::ceil_div(start, self.page_size.value());
        if pfn < self.base_pfn.value() {
            0
        } else {
            pfn - self.base_pfn.value()
        }
    }

    /// One past the last page that ends at or before the given address.
    pub open spec fn end_page(self, end: int) -> int {
        let pfn = end / self.page_size.value() - self.base_pfn.value();
        if pfn < self.descriptors().len() {
            pfn
        } else {
            self.descriptors().len() as int
        }
    }

    /// The arena after the pages that lie wholly between two addresses were
    /// freed, and whether none of them was free or in use.
    pub open spec fn range_freed(self, start: int, end: int) -> (Arena, bool) {
        self.arena().release_range(self.first_page(start), self.end_page(end))
    }

    /// The page ranges that lie wholly between pairs of addresses.
    pub open spec fn page_ranges(self, ranges: Seq<(A, A)>) -> Seq<(int, int)> {
        Seq::new(
            ranges.len(),
            |k: int|
                (self.first_page(ranges[k].0.value()), self.end_page(ranges[k].1.value())),
        )
    }

    /// The placeholder state.
    pub open spec fn inert(self) -> bool {
        &&& self.pages is None
        &&& self.page_size.value() == 0
        &&& self.base_pfn.value() == 0
        &&& self.nr_free == 0
        &&& forall|o: int|
            0 <= o < MAX_ORDER ==> (#[trigger] self.areas@[o]).nr_free == 0
                && self.areas@[o].free_list.head@ is None
    }

    /// The allocator is a placeholder, or its arena fits the address type and
    /// the descriptors and areas represent it.
    pub open spec fn wf(self) -> bool {
        if self.pages is None {
            self.inert()
        } else {
            &&& fits(
                self.base_pfn.value(),
                self.page_size.value(),
                self.descriptors().len() as int,
                A::limit(),
                MAX_ORDER as int,
            )
            &&& repr::consistent(self.descriptors(), self.areas@, self.nr_free as int)
        }
    }

    /// `other` manages the same pages at the same addresses.
    pub open spec fn same_place(self, other: Self) -> bool {
        &&& self.pages is Some == other.pages is Some
        &&& self.page_size == other.page_size
        &&& self.base_pfn == other.base_pfn
        &&& self.descriptors().len() == other.descriptors().len()
    }

    /// `other` has the same descriptors, areas and count.
    pub open spec fn unchanged(self, other: Self) -> bool {
        &&& self.same_place(other)
        &&& self.descriptors() == other.descriptors()
        &&& self.areas == other.areas
        &&& self.nr_free == other.nr_free
    }

    /// The placeholder for an allocator that is initialized later.
    pub fn uninit() -> (buddy: Self)
        ensures
            buddy.inert(),
            buddy.wf(),
            buddy.pages is None,
            buddy.page_size.value() == 0,
            buddy.base_pfn.value() == 0,
            buddy.nr_free == 0,
            forall|o: int|
                0 <= o < MAX_ORDER ==> (#[trigger] buddy.areas@[o]).nr_free == 0
                    && buddy.areas@[o].free_list.head@ is None,
    {
        Buddy {
            page_size: A::zero(),
            base_pfn: A::zero(),
            pages: None,
            areas: [FreeArea::new();MAX_ORDER],
            nr_free: 0,
        }
    }

    /// Returns `true` once descriptors have been supplied.
    pub fn is_initialized(&self) -> (initialized: bool)
        ensures
            initialized == (self.pages is Some),
    {
        self.pages.is_some()
    }

    /// Checks that `nr_pages` pages of `page_size` from `base` on make an
    /// arena, and returns the number of the first page.
    pub fn check_geometry(base: A, page_size: A, nr_pages: usize) -> (base_pfn: Result<A, Error>)
        ensures
            match base_pfn {
                Ok(base_pfn) => {
                    &&& geometry_fault(
                        base.value(),
                        page_size.value(),
                        nr_pages as int,
                        A::limit(),
                        MAX_ORDER as int,
                    ) is None
                    &&& base_pfn.value() == base.value() / page_size.value()
                    &&& base_pfn.value() * page_size.value() == base.value()
                    &&& fits(
                        base_pfn.value(),
                        page_size.value(),
                        nr_pages as int,
                        A::limit(),
                        MAX_ORDER as int,
                    )
                },
                Err(error) => geometry_fault(
                    base.value(),
                    page_size.value(),
                    nr_pages as int,
                    A::limit(),
                    MAX_ORDER as int,
                ) == Some(error),
            },
            1 <= MAX_ORDER <= usize::BITS && is_pow2(page_size.value()) && page_size.value()
                <= usize::MAX ==> 0 <= base.value() <= A::limit(),
    {
        if MAX_ORDER == 0 || MAX_ORDER > usize::BITS as usize {
            return Err(Error::InvalidGeometry);
        }
        match page_size.try_to_usize() {
            None => {
                return Err(Error::InvalidPageSize);
            },
            Some(size) => {
                if !is_power_of_two(size) {
                    return Err(Error::InvalidPageSize);
                }
            },
        }
        proof {
            crate::addr::lemma_pow2_positive(page_size.value());
        }
        let base_pfn = A::pfn_down(base, page_size);

        let max_block: usize = pages_in_order((MAX_ORDER - 1) as u8);
        proof {
            blocks::lemma_span(MAX_ORDER - 1);
            vstd::arithmetic::div_mod::lemma_div_pos_is_pos(base.value(), page_size.value());
            lemma_page_number(base.value(), page_size.value());
        }
        if nr_pages < max_block {
            return Err(Error::InvalidGeometry);
        }

        // The page count must be representable in the address type.
        let len = A::from_usize(nr_pages);
        match len.try_to_usize() {
            Some(exact) => {
                if exact != nr_pages {
                    return Err(Error::InvalidGeometry);
                }
            },
            None => {
                return Err(Error::InvalidGeometry);
            },
        }

        // The range may not wrap around the top of the address space, and the
        // address of the last page must be representable.
        if A::highest().minus(len).below(base_pfn) {
            return Err(Error::InvalidGeometry);
        }
        let max_pfn = A::pfn_down(A::highest(), page_size);
        let last = len.minus(A::from_usize(1));
        if max_pfn.below(base_pfn) || max_pfn.minus(base_pfn).below(last) {
            return Err(Error::InvalidGeometry);
        }

        // `base` must be aligned to the largest block.
        let block_pfn = A::from_usize(max_block);
        if max_pfn.below(block_pfn) {
            return Err(Error::InvalidGeometry);
        }
        proof {
            lemma_address_fits(max_block as int, page_size.value(), A::limit());
            lemma_pow2_product((MAX_ORDER - 1) as nat, page_size.value());
            lemma_block_aligned(base.value(), page_size.value(), MAX_ORDER - 1);
        }
        let block_bytes = A::pfn_to_phys(block_pfn, page_size);
        if !A::align_down(base, block_bytes).same(base) {
            return Err(Error::InvalidGeometry);
        }
        Ok(base_pfn)
    }

    /// Checks that an array of `nr_pages` descriptors at `address` and pages
    /// of `page_size` from `base` on make an arena, and returns the number of
    /// the first page.
    pub fn check_arena(address: usize, nr_pages: usize, base: A, page_size: A) -> (base_pfn: Result<
        A,
        Error,
    >)
        ensures
            match base_pfn {
                Ok(base_pfn) => {
                    &&& arena_fault(
                        address as int,
                        base.value(),
                        page_size.value(),
                        nr_pages as int,
                        A::limit(),
                        MAX_ORDER as int,
                    ) is None
                    &&& base_pfn.value() == base.value() / page_size.value()
                    &&& base_pfn.value() * page_size.value() == base.value()
                    &&& fits(
                        base_pfn.value(),
                        page_size.value(),
                        nr_pages as int,
                        A::limit(),
                        MAX_ORDER as int,
                    )
                },
                Err(error) => arena_fault(
                    address as int,
                    base.value(),
                    page_size.value(),
                    nr_pages as int,
                    A::limit(),
                    MAX_ORDER as int,
                ) == Some(error),
            },
    {
        if MAX_ORDER == 0 || MAX_ORDER > usize::BITS as usize {
            return Err(Error::InvalidGeometry);
        }
        let alignment: usize = core::mem::align_of::<Page>();
        vstd::layout::layout_for_type_is_valid::<Page>();
        if address % alignment != 0 {
            return Err(Error::InvalidPageArray);
        }
        Self::check_geometry(base, page_size, nr_pages)
    }

    /// The state after descriptors for an arena were supplied.
    pub open spec fn starts(self, base: A, page_size: A, nr_pages: int) -> bool {
        &&& self.wf()
        &&& self.pages is Some
        &&& self.arena() == blank(nr_pages, MAX_ORDER as int)
        &&& self.page_size == page_size
        &&& self.base_pfn.value() == base.value() / page_size.value()
        &&& self.address(0) == base.value()
        &&& forall|p: int|
            0 <= p < nr_pages ==> (#[trigger] self.descriptors()[p]).pristine()
    }

    /// Resets the descriptors and starts managing them. `base_pfn` is the
    /// number of the first page.
    fn set_state(&mut self, pages: &'a mut [Page], base_pfn: A, page_size: A)
        requires
            fits(
                base_pfn.value(),
                page_size.value(),
                old(pages)@.len() as int,
                A::limit(),
                MAX_ORDER as int,
            ),
        ensures
            final(self).wf(),
            final(self).pages is Some,
            final(self).arena() == blank(old(pages)@.len() as int, MAX_ORDER as int),
            final(self).page_size == page_size,
            final(self).base_pfn == base_pfn,
            forall|p: int|
                0 <= p < old(pages)@.len() ==> (
                #[trigger] final(self).descriptors()[p]).pristine(),
    {
        let nr_pages: usize = pages.len();
        let mut idx: usize = 0;
        while idx < nr_pages
            invariant
                idx <= nr_pages,
                nr_pages == pages@.len(),
                nr_pages == old(pages)@.len(),
                forall|p: int| 0 <= p < idx ==> (#[trigger] pages@[p]).pristine(),
            decreases nr_pages - idx,
        {
            pages[idx] = Page::new();
            idx = idx + 1;
        }
        self.page_size = page_size;
        self.base_pfn = base_pfn;
        self.areas = [FreeArea::new();MAX_ORDER];
        self.nr_free = 0;
        proof {
            repr::lemma_blank(pages@, self.areas@);
        }
        self.pages = Some(pages);
    }

    /// Creates an allocator managing the page frames of `pages`.
    ///
    /// `base` is the physical address of the first managed page. All
    /// descriptors are reset; no page is free until a range is freed.
    pub fn new(base: A, page_size: A, pages: &'a mut [Page]) -> (buddy: Result<Self, Error>)
        ensures
            match buddy {
                Ok(buddy) => {
                    &&& old(pages)@.len() > 0
                    &&& geometry_fault(
                        base.value(),
                        page_size.value(),
                        old(pages)@.len() as int,
                        A::limit(),
                        MAX_ORDER as int,
                    ) is None
                    &&& buddy.starts(base, page_size, old(pages)@.len() as int)
                },
                Err(error) => if old(pages)@.len() == 0 {
                    error == Error::InvalidGeometry
                } else {
                    geometry_fault(
                        base.value(),
                        page_size.value(),
                        old(pages)@.len() as int,
                        A::limit(),
                        MAX_ORDER as int,
                    ) == Some(error)
                },
            },
            buddy is Err ==> final(pages)@ == old(pages)@,
            ({
                let nr_pages = old(pages)@.len() as int;
                let size = page_size.value();
                let largest = pow2((MAX_ORDER - 1) as nat) as int;
                &&& buddy is Ok <==> {
                    &&& 1 <= MAX_ORDER <= usize::BITS
                    &&& exists|e: nat| #[trigger] pow2(e) == size
                    &&& size <= usize::MAX
                    &&& 0 < nr_pages
                    &&& largest <= nr_pages
                    &&& largest * size <= A::limit()
                    &&& base.value() % (largest * size) == 0
                    &&& base.value() / size + nr_pages <= A::limit()
                    &&& base.value() + (nr_pages - 1) * size <= A::limit()
                }
                &&& buddy matches Ok(buddy) ==> {
                    &&& buddy.page_size == page_size
                    &&& buddy.descriptors().len() == nr_pages
                    &&& buddy.nr_free == 0
                    &&& forall|p: int| #[trigger] buddy.address(p) == base.value() + p * size
                    &&& forall|p: int| !#[trigger] buddy.arena().free_page(p)
                    &&& forall|p: int| !#[trigger] buddy.arena().used_page(p)
                }
            }),
    {
        let ghost nr_pages = pages@.len() as int;
        if pages.len() == 0 {
            return Err(Error::InvalidGeometry);
        }
        let checked = Self::check_geometry(base, page_size, pages.len());
        proof {
            effects::law_geometry(
                base.value(),
                page_size.value(),
                nr_pages,
                A::limit(),
                MAX_ORDER as int,
            );
        }
        match checked {
            Err(error) => Err(error),
            Ok(base_pfn) => {
                let mut buddy = Self::uninit();
                buddy.set_state(pages, base_pfn, page_size);
                proof {
                    assert(buddy.address(0) == base.value());
                    effects::law_start(buddy, base, page_size, nr_pages);
                }
                Ok(buddy)
            },
        }
    }

    /// Initializes a placeholder with the descriptors at `address`. On failure
    /// the allocator and the descriptors are left as they are.
    pub fn init(&mut self, pages: &'a mut [Page], address: usize, base: A, page_size: A) -> (done:
        Result<(), Error>)
        requires
            old(self).wf(),
        ensures
            final(self).wf(),
            if old(self).pages is Some {
                done == Err::<(), Error>(Error::AlreadyInitialized) && *final(self) == *old(self)
            } else {
                match arena_fault(
                    address as int,
                    base.value(),
                    page_size.value(),
                    old(pages)@.len() as int,
                    A::limit(),
                    MAX_ORDER as int,
                ) {
                    Some(error) => done == Err::<(), Error>(error) && *final(self) == *old(self),
                    None => {
                        &&& done is Ok
                        &&& final(self).starts(base, page_size, old(pages)@.len() as int)
                    },
                }
            },
            done is Err ==> final(pages)@ == old(pages)@,
    {
        if self.is_initialized() {
            return Err(Error::AlreadyInitialized);
        }
        match Self::check_arena(address, pages.len(), base, page_size) {
            Err(error) => Err(error),
            Ok(base_pfn) => {
                self.set_state(pages, base_pfn, page_size);
                Ok(())
            },
        }
    }

    /// Creates an allocator over the descriptors at `address`.
    pub fn from_raw_parts(pages: &'a mut [Page], address: usize, base: A, page_size: A) -> (buddy:
        Result<Self, Error>)
        ensures
            match buddy {
                Ok(buddy) => {
                    &&& arena_fault(
                        address as int,
                        base.value(),
                        page_size.value(),
                        old(pages)@.len() as int,
                        A::limit(),
                        MAX_ORDER as int,
                    ) is None
                    &&& buddy.starts(base, page_size, old(pages)@.len() as int)
                },
                Err(error) => arena_fault(
                    address as int,
                    base.value(),
                    page_size.value(),
                    old(pages)@.len() as int,
                    A::limit(),
                    MAX_ORDER as int,
                ) == Some(error),
            },
            buddy is Err ==> final(pages)@ == old(pages)@,
    {
        let mut buddy = Self::uninit();
        match buddy.init(pages, address, base, page_size) {
            Err(error) => Err(error),
            Ok(()) => Ok(buddy),
        }
    }

    /// Returns the physical address of the first managed page, or zero while
    /// the allocator is uninitialized.
    pub fn base(&self) -> (addr: A)
        requires
            self.wf(),
        ensures
            addr.value() == self.address(0),
    {
        if !self.is_initialized() {
            return A::zero();
        }
        proof {
            crate::addr::lemma_pow2_positive(self.page_size.value());
            blocks::lemma_span(MAX_ORDER - 1);
            lemma_address_fits(self.base_pfn.value(), self.page_size.value(), A::limit());
        }
        A::pfn_to_phys(self.base_pfn, self.page_size)
    }

    /// Returns the page size, or zero while the allocator is uninitialized.
    pub fn page_size(&self) -> (size: A)
        ensures
            size == self.page_size,
    {
        self.page_size
    }

    /// Returns the number of managed pages, zero while the allocator is
    /// uninitialized.
    pub fn managed_pages(&self) -> (count: usize)
        ensures
            count == self.descriptors().len(),
    {
        match &self.pages {
            Some(pages) => pages.len(),
            None => 0,
        }
    }

    /// Returns the number of free pages.
    pub fn nr_free(&self) -> (count: usize)
        ensures
            count == self.nr_free,
            self.wf() ==> count == self.arena().nr_free(),
    {
        proof {
            if self.wf() && self.pages is None {
                repr::lemma_blank(self.descriptors(), self.areas@);
            }
        }
        self.nr_free
    }

    /// Returns the number of free blocks of `order`, or `None` if `order` is
    /// not below `MAX_ORDER`.
    pub fn nr_free_blocks(&self, order: u8) -> (count: Option<usize>)
        ensures
            count == (if order < MAX_ORDER {
                Some(self.areas@[order as int].nr_free)
            } else {
                None
            }),
            self.wf() && order < MAX_ORDER ==> count == Some(
                self.arena().free[order as int].len() as usize,
            ),
    {
        proof {
            if self.wf() && order < MAX_ORDER {
                if self.pages is None {
                    repr::lemma_blank(self.descriptors(), self.areas@);
                } else {
                    assert(self.areas@[order as int].wf(self.descriptors()));
                }
            }
        }
        if (order as usize) < MAX_ORDER {
            Some(self.areas[order as usize].nr_free())
        } else {
            None
        }
    }

    /// Marks `idx` as the head of a free block of `order` and lists it first.
    fn list_block(&mut self, pages: &mut [Page], idx: usize, order: u8)
        requires
            MAX_ORDER <= usize::BITS,
            repr::consistent(old(pages)@, old(self).areas@, old(self).nr_free as int),
            repr::arena_of(old(pages)@, old(self).areas@).placed(idx as int, order as int),
            repr::arena_of(old(pages)@, old(self).areas@).clear(idx as int, order as int),
            order + 1 < MAX_ORDER ==> !repr::arena_of(old(pages)@, old(self).areas@).free_block(
                blocks::buddy_of(idx as int, order as int),
                order as int,
            ),
        ensures
            repr::consistent(final(pages)@, final(self).areas@, final(self).nr_free as int),
            repr::arena_of(final(pages)@, final(self).areas@) == repr::arena_of(
                old(pages)@,
                old(self).areas@,
            ).with_free(idx as int, order as int),
            forall|p: int|
                0 <= p < old(pages)@.len() && p != idx && !repr::arena_of(
                    old(pages)@,
                    old(self).areas@,
                ).free[order as int].contains(p) ==> #[trigger] final(pages)@[p] == old(pages)@[p],
            final(self).page_size == old(self).page_size,
            final(self).base_pfn == old(self).base_pfn,
            final(self).pages == old(self).pages,
    {
        let ghost before = pages@;
        let ghost areas = self.areas@;
        let ghost arena = repr::arena_of(before, areas);
        let ghost count = self.nr_free as int;
        let block: usize = pages_in_order(order);
        proof {
            blocks::lemma_span(order as int);
            assert(idx + block <= pages.len());
        }
        pages[idx].flags.insert(PageFlags::buddy());
        pages[idx].order = order;
        let ghost mid = pages@;
        proof {
            assert(repr::marked(before, mid, idx as int, order as int));
            repr::lemma_marked_lists(before, mid, areas, idx as int, order as int);
            repr::lemma_clear_head(arena, idx as int, order as int);
            arena.lemma_with_free(idx as int, order as int);
            let next = arena.with_free(idx as int, order as int);
            next.lemma_count();
            assert(next.free[order as int].len() == arena.free[order as int].len() + 1);
            assert(next.nr_free() <= pages.len());
            assert(arena.free[order as int] == areas[order as int].nodes(before));
            assert(areas[order as int].wf(before));
        }
        self.areas[order as usize].push_front(pages, idx);
        proof {
            assert(self.areas@ =~= areas.update(order as int, self.areas@[order as int]));
            repr::lemma_listed(
                before,
                mid,
                pages@,
                areas,
                self.areas@[order as int],
                count,
                idx as int,
                order as int,
            );
            assert forall|p: int|
                0 <= p < before.len() && p != idx
                    && !arena.free[order as int].contains(p) implies #[trigger] pages@[p]
                == before[p] by {
                let touched = areas[order as int].nodes(before).push(idx as int);
                if touched.contains(p) {
                    let j = choose|j: int| 0 <= j < touched.len() && touched[j] == p;
                    assert(areas[order as int].nodes(before)[j] == p);
                }
                assert(mid[p] == before[p]);
            }
        }
        self.nr_free += block;
    }

    /// Splits the block at `idx` from order `high` down to `low`, adding the
    /// upper half of each intermediate order to the free lists.
    fn expand(&mut self, pages: &mut [Page], idx: usize, low: u8, high: u8)
        requires
            MAX_ORDER <= usize::BITS,
            low <= high,
            repr::consistent(old(pages)@, old(self).areas@, old(self).nr_free as int),
            repr::arena_of(old(pages)@, old(self).areas@).placed(idx as int, high as int),
            repr::arena_of(old(pages)@, old(self).areas@).clear(idx as int, high as int),
        ensures
            repr::consistent(final(pages)@, final(self).areas@, final(self).nr_free as int),
            repr::arena_of(final(pages)@, final(self).areas@) == repr::arena_of(
                old(pages)@,
                old(self).areas@,
            ).split(idx as int, low as int, high as int),
            final(pages)@[idx as int] == old(pages)@[idx as int],
            low == high ==> final(pages)@ == old(pages)@ && final(self).areas == old(self).areas
                && final(self).nr_free == old(self).nr_free,
            final(self).page_size == old(self).page_size,
            final(self).base_pfn == old(self).base_pfn,
            final(self).pages == old(self).pages,
    {
        let ghost goal = repr::arena_of(pages@, self.areas@).split(
            idx as int,
            low as int,
            high as int,
        );
        proof {
            blocks::lemma_span(high as int);
        }
        let ghost top = high;
        let mut high: u8 = high;
        while high > low
            invariant
                MAX_ORDER <= usize::BITS,
                low <= high,
                idx < pages@.len(),
                pages@[idx as int] == old(pages)@[idx as int],
                high == top ==> pages@ == old(pages)@ && self.areas == old(self).areas
                    && self.nr_free == old(self).nr_free,
                high <= top,
                repr::consistent(pages@, self.areas@, self.nr_free as int),
                repr::arena_of(pages@, self.areas@).placed(idx as int, high as int),
                repr::arena_of(pages@, self.areas@).clear(idx as int, high as int),
                repr::arena_of(pages@, self.areas@).split(idx as int, low as int, high as int)
                    == goal,
                self.page_size == old(self).page_size,
                self.base_pfn == old(self).base_pfn,
                self.pages == old(self).pages,
            decreases high,
        {
            let ghost arena = repr::arena_of(pages@, self.areas@);
            proof {
                arena.lemma_split_step(idx as int, low as int, high as int);
                blocks::lemma_span(high - 1);
                blocks::lemma_aligned_smaller(idx as int, high - 1, high as int);
                blocks::lemma_buddy(idx as int, high - 1);
                let upper = idx + blocks::span(high - 1);
                assert(blocks::buddy_of(idx as int, high - 1) == upper);
                repr::lemma_half(arena, idx as int, high as int);
                repr::lemma_clear_head(arena, idx as int, high as int);
                assert(!arena.free[high - 1].contains(idx as int));
                assert(idx + blocks::span(high as int) <= pages.len());
            }
            high = high - 1;
            let half: usize = pages_in_order(high);
            let upper: usize = idx + half;
            self.list_block(pages, upper, high);
        }
        proof {
            assert(goal =~= repr::arena_of(pages@, self.areas@));
        }
    }

    /// Converts an index into a page frame number. `idx` may be one past the
    /// last page; `count` is the number of pages.
    fn pfn_of_index(&self, count: usize, idx: usize) -> (pfn: A)
        requires
            idx <= count,
            0 <= self.base_pfn.value(),
            self.base_pfn.value() + count <= A::limit(),
        ensures
            pfn.value() == self.base_pfn.value() + idx,
    {
        self.base_pfn.plus(A::from_usize(idx))
    }

    /// Converts an index into a physical address.
    fn addr_of_index(&self, count: usize, idx: usize) -> (addr: A)
        requires
            idx < count,
            fits(
                self.base_pfn.value(),
                self.page_size.value(),
                count as int,
                A::limit(),
                MAX_ORDER as int,
            ),
        ensures
            addr.value() == self.address(idx as int),
    {
        proof {
            crate::addr::lemma_pow2_positive(self.page_size.value());
            lemma_address_fits(
                self.base_pfn.value() + idx,
                self.page_size.value(),
                A::limit(),
            );
        }
        A::pfn_to_phys(self.pfn_of_index(count, idx), self.page_size)
    }

    /// Returns a block of `order`, split off the first block of the smallest
    /// order that fits, and marks it in use.
    pub fn alloc_pages(&mut self, order: u8) -> (addr: Result<A, Error>)
        requires
            old(self).wf(),
        ensures
            final(self).wf(),
            final(self).same_place(*old(self)),
            addr is Err ==> final(self).unchanged(*old(self)),
            addr is Err ==> final(self).descriptors() == old(self).descriptors() && final(self).areas == old(self).areas && final(self).nr_free == old(self).nr_free,
            final(self).page_size == old(self).page_size,
            final(self).base_pfn == old(self).base_pfn,
            final(self).descriptors().len() == old(self).descriptors().len(),
            old(self).pages is Some && order < MAX_ORDER ==> (addr == Err::<A, Error>(
                Error::OutOfMemory,
            ) <==> forall|o: int|
                order <= o < MAX_ORDER ==> (#[trigger] old(self).arena().free[o]).len() == 0),
            addr matches Ok(start) ==> exists|fit: int|
                order <= fit < MAX_ORDER && {
                    let free = old(self).arena().free;
                    let after = final(self).arena().free;
                    let idx = free[fit][0];
                    &&& (#[trigger] old(self).arena().free[fit]).len() > 0
                    &&& forall|o: int| order <= o < fit ==> (#[trigger] free[o]).len() == 0
                    &&& start.value() == old(self).address(idx)
                    &&& after[fit] == free[fit].skip(1)
                    &&& forall|o: int|
                        order <= o < fit ==> #[trigger] after[o] == seq![
                            idx + pow2(o as nat) as int,
                        ]
                    &&& forall|o: int|
                        0 <= o < order || fit < o < MAX_ORDER ==> #[trigger] after[o] == free[o]
                    &&& final(self).arena().used == old(self).arena().used.insert(
                        idx,
                        order as int,
                    )
                },
            if old(self).pages is None {
                addr == Err::<A, Error>(Error::Uninitialized) && final(self).arena() == old(
                    self,
                ).arena()
            } else if order >= MAX_ORDER {
                addr == Err::<A, Error>(Error::InvalidOrder) && final(self).arena() == old(
                    self,
                ).arena()
            } else {
                match old(self).arena().allocate(order as int) {
                    Some((arena, idx)) => {
                        &&& addr is Ok
                        &&& addr->Ok_0.value() == old(self).address(idx)
                        &&& final(self).arena() == arena
                    },
                    None => {
                        &&& addr == Err::<A, Error>(Error::OutOfMemory)
                        &&& final(self).arena() == old(self).arena()
                    },
                }
            },
    {
        if self.pages.is_none() {
            return Err(Error::Uninitialized);
        }
        if order as usize >= MAX_ORDER {
            return Err(Error::InvalidOrder);
        }
        let ghost start = self.arena();
        let ghost page_size = self.page_size;
        let ghost base_pfn = self.base_pfn;
        let ghost total = self.descriptors().len();
        let ghost first_pages = self.descriptors();
        let ghost first_areas = self.areas;
        let ghost first_count = self.nr_free;
        proof {
            let fit = effects::law_alloc_takes_smallest_fit(start, order as int);
            assert(old(self).arena().free[fit] == start.free[fit]);
        }
        match self.pages.take() {
            None => Err(Error::Uninitialized),
            Some(pages) => {
                let mut current: u8 = order;
                let mut found: Option<usize> = None;
                while (current as usize) < MAX_ORDER && found.is_none()
                    invariant
                        MAX_ORDER <= usize::BITS,
                        order <= current <= MAX_ORDER,
                        order < MAX_ORDER,
                        repr::consistent(pages@, self.areas@, self.nr_free as int),
                        pages@.len() == total,
                        start.wf(),
                        start.free.len() == MAX_ORDER,
                        self.page_size == page_size,
                        self.base_pfn == base_pfn,
                        match found {
                            None => pages@ == first_pages && self.areas == first_areas
                                && self.nr_free == first_count && repr::arena_of(
                                pages@,
                                self.areas@,
                            ) == start && arena::first_fit(start.free, order as int) == arena::first_fit(
                                start.free,
                                current as int,
                            ),
                            Some(idx) => {
                                &&& arena::first_fit(start.free, order as int) == Some(
                                    current as int,
                                )
                                &&& current < MAX_ORDER
                                &&& start.free_block(idx as int, current as int)
                                &&& idx == start.free[current as int][0]
                                &&& repr::arena_of(pages@, self.areas@) == start.without_free(
                                    idx as int,
                                    current as int,
                                )
                            },
                        },
                    decreases MAX_ORDER - current + (if found is None { 1int } else { 0 }),
                {
                    let ghost before = pages@;
                    let ghost areas = self.areas@;
                    let ghost count = self.nr_free as int;
                    let block: usize = pages_in_order(current);
                    assert(areas[current as int].wf(before));
                    assert(start.free[current as int] == areas[current as int].nodes(before));
                    match self.areas[current as usize].pop_front(pages) {
                        None => {
                            assert(self.areas@ =~= areas);
                            current = current + 1;
                        },
                        Some(idx) => {
                            proof {
                                let s = start.free[current as int];
                                assert(s.contains(s[0]));
                                assert(start.free_block(idx as int, current as int));
                                assert(self.areas@ =~= areas.update(
                                    current as int,
                                    self.areas@[current as int],
                                ));
                                repr::lemma_unlisted(
                                    before,
                                    pages@,
                                    areas,
                                    self.areas@[current as int],
                                    count,
                                    idx as int,
                                    current as int,
                                );
                                repr::arena_of(pages@, self.areas@).lemma_count();
                            }
                            self.nr_free -= block;
                            found = Some(idx);
                        },
                    }
                }
                let result = match found {
                    None => Err(Error::OutOfMemory),
                    Some(idx) => {
                        proof {
                            start.lemma_without_free(idx as int, current as int);
                            assert(start.block(idx as int, current as int));
                        }
                        let ghost popped = repr::arena_of(pages@, self.areas@);
                        self.expand(pages, idx, order, current);
                        let ghost before = pages@;
                        proof {
                            popped.lemma_split(idx as int, order as int, current as int);
                            let split = popped.split(idx as int, order as int, current as int);
                            split.lemma_with_used(idx as int, order as int);
                            repr::lemma_clear_head(split, idx as int, order as int);
                            blocks::lemma_span(order as int);
                            assert(!before[idx as int].listed()) by {
                                if before[idx as int].listed() {
                                    assert(split.free_block(
                                        idx as int,
                                        before[idx as int].order as int,
                                    ));
                                    assert(split.block(
                                        idx as int,
                                        before[idx as int].order as int,
                                    ));
                                }
                            }
                        }
                        pages[idx].flags.remove(PageFlags::buddy());
                        pages[idx].order = 0;
                        pages[idx].held_order = order;
                        pages[idx].refcount = 1;
                        proof {
                            assert(repr::tidy(before[idx as int]));
                            repr::lemma_mark_bit(before[idx as int].flags.bits);
                            repr::lemma_recounted(
                                before,
                                pages@,
                                self.areas@,
                                self.nr_free as int,
                                idx as int,
                            );
                        }
                        Ok(self.addr_of_index(pages.len(), idx))
                    },
                };
                self.pages = Some(pages);
                result
            },
        }
    }

    /// Returns `true` if `idx` lies inside a free block.
    ///
    /// A page is covered by a free block of some order if and only if the
    /// aligned page at or below it is a free head of that order.
    fn is_inside_free_block(&self, pages: &[Page], idx: usize) -> (inside: bool)
        requires
            MAX_ORDER <= usize::BITS,
            repr::consistent(pages@, self.areas@, self.nr_free as int),
            idx < pages@.len(),
        ensures
            inside == repr::arena_of(pages@, self.areas@).free_page(idx as int),
    {
        let ghost arena = repr::arena_of(pages@, self.areas@);
        let mut order: u8 = 0;
        while (order as usize) < MAX_ORDER
            invariant
                MAX_ORDER <= usize::BITS,
                order <= MAX_ORDER,
                repr::consistent(pages@, self.areas@, self.nr_free as int),
                arena == repr::arena_of(pages@, self.areas@),
                idx < pages@.len(),
                forall|o: int|
                    0 <= o < order ==> !arena.free_block(
                        idx - idx as int % #[trigger] blocks::span(o),
                        o,
                    ),
            decreases MAX_ORDER - order,
        {
            let block: usize = pages_in_order(order);
            proof {
                blocks::lemma_span(order as int);
                vstd::arithmetic::div_mod::lemma_mod_multiples_basic(0, block as int);
                blocks::lemma_cover(idx as int, 0, order as int);
            }
            let head: usize = idx - idx % block;
            if pages[head].is_free() && pages[head].order() == order {
                proof {
                    assert(arena.free_block(head as int, order as int));
                    blocks::lemma_cover(idx as int, head as int, order as int);
                    arena.lemma_free_page(head as int, order as int, idx as int);
                }
                return true;
            }
            order = order + 1;
        }
        proof {
            if arena.free_page(idx as int) {
                let (i, o) = choose|i: int, o: int| #[trigger]
                    arena.free_block(i, o) && blocks::within(idx as int, i, o);
                assert(arena.block(i, o));
                blocks::lemma_cover(idx as int, i, o);
                assert(!arena.free_block(idx - idx as int % blocks::span(o), o));
            }
        }
        false
    }

    /// Returns `true` if `idx` lies inside a block that is in use.
    fn is_inside_used_block(&self, pages: &[Page], idx: usize) -> (inside: bool)
        requires
            MAX_ORDER <= usize::BITS,
            repr::consistent(pages@, self.areas@, self.nr_free as int),
            idx < pages@.len(),
        ensures
            inside == repr::arena_of(pages@, self.areas@).used_page(idx as int),
    {
        let ghost arena = repr::arena_of(pages@, self.areas@);
        let mut order: u8 = 0;
        while (order as usize) < MAX_ORDER
            invariant
                MAX_ORDER <= usize::BITS,
                order <= MAX_ORDER,
                repr::consistent(pages@, self.areas@, self.nr_free as int),
                arena == repr::arena_of(pages@, self.areas@),
                idx < pages@.len(),
                forall|o: int|
                    0 <= o < order ==> !arena.used_block(
                        idx - idx as int % #[trigger] blocks::span(o),
                        o,
                    ),
            decreases MAX_ORDER - order,
        {
            let block: usize = pages_in_order(order);
            proof {
                blocks::lemma_span(order as int);
                vstd::arithmetic::div_mod::lemma_mod_multiples_basic(0, block as int);
                blocks::lemma_cover(idx as int, 0, order as int);
            }
            let head: usize = idx - idx % block;
            if pages[head].refcount() != 0 && pages[head].held_order == order {
                proof {
                    assert(arena.used_block(head as int, order as int));
                    blocks::lemma_cover(idx as int, head as int, order as int);
                }
                return true;
            }
            order = order + 1;
        }
        proof {
            if arena.used_page(idx as int) {
                let (i, o) = choose|i: int, o: int| #[trigger]
                    arena.used_block(i, o) && blocks::within(idx as int, i, o);
                assert(arena.block(i, o));
                blocks::lemma_cover(idx as int, i, o);
                assert(!arena.used_block(idx - idx as int % blocks::span(o), o));
            }
        }
        false
    }

    /// Returns `true` if the block of `order` at `idx` has a page in common
    /// with a free block or with a block in use.
    fn overlaps_block(&self, pages: &[Page], idx: usize, order: u8) -> (overlaps: bool)
        requires
            MAX_ORDER <= usize::BITS,
            repr::consistent(pages@, self.areas@, self.nr_free as int),
            repr::arena_of(pages@, self.areas@).placed(idx as int, order as int),
        ensures
            overlaps == !repr::arena_of(pages@, self.areas@).clear(idx as int, order as int),
    {
        let ghost arena = repr::arena_of(pages@, self.areas@);
        proof {
            blocks::lemma_span(order as int);
            assert(idx + blocks::span(order as int) <= pages.len());
        }
        if self.is_inside_free_block(pages, idx) {
            proof {
                let (i, o) = choose|i: int, o: int| #[trigger]
                    arena.free_block(i, o) && blocks::within(idx as int, i, o);
                assert(arena.block(i, o));
            }
            return true;
        }
        if self.is_inside_used_block(pages, idx) {
            proof {
                let (i, o) = choose|i: int, o: int| #[trigger]
                    arena.used_block(i, o) && blocks::within(idx as int, i, o);
                assert(arena.block(i, o));
            }
            return true;
        }
        let end: usize = idx + pages_in_order(order);
        let mut page: usize = idx;
        while page < end
            invariant
                repr::consistent(pages@, self.areas@, self.nr_free as int),
                arena == repr::arena_of(pages@, self.areas@),
                idx <= page <= end <= pages@.len(),
                end == idx + blocks::span(order as int),
                forall|p: int|
                    idx <= p < page ==> !(#[trigger] pages@[p]).listed() && pages@[p].refcount == 0,
            decreases end - page,
        {
            if pages[page].is_free() || pages[page].refcount() != 0 {
                proof {
                    let p = page as int;
                    if pages@[p].listed() {
                        assert(arena.free_block(p, pages@[p].order as int));
                        assert(arena.block(p, pages@[p].order as int));
                        blocks::lemma_span(pages@[p].order as int);
                    } else {
                        assert(arena.used_block(p, pages@[p].held_order as int));
                        assert(arena.block(p, pages@[p].held_order as int));
                        blocks::lemma_span(pages@[p].held_order as int);
                    }
                }
                return true;
            }
            page = page + 1;
        }
        proof {
            assert forall|j: int, b: int| #[trigger] arena.block(j, b) implies blocks::disjoint(
                idx as int,
                order as int,
                j,
                b,
            ) by {
                assert(arena.placed(j, b));
                blocks::lemma_span(b);
                assert(!blocks::within(idx as int, j, b)) by {
                    if blocks::within(idx as int, j, b) {
                        if arena.free_block(j, b) {
                            assert(arena.free_page(idx as int));
                        } else {
                            assert(arena.used_block(j, b));
                            assert(arena.used_page(idx as int));
                        }
                    }
                }
                assert(!(idx < j < end)) by {
                    if idx < j < end {
                        assert(!pages@[j].listed() && pages@[j].refcount == 0);
                    }
                }
            }
        }
        false
    }

    /// Adds the block of `order` at `idx` to the free lists, merging it with
    /// free buddies until no larger block can be formed. A block that
    /// overlaps another is rejected.
    fn free_one_page(&mut self, pages: &mut [Page], idx: usize, order: u8) -> (freed: Result<
        (),
        Error,
    >)
        requires
            MAX_ORDER <= usize::BITS,
            repr::consistent(old(pages)@, old(self).areas@, old(self).nr_free as int),
            repr::arena_of(old(pages)@, old(self).areas@).placed(idx as int, order as int),
        ensures
            repr::consistent(final(pages)@, final(self).areas@, final(self).nr_free as int),
            ({
                let before = repr::arena_of(old(pages)@, old(self).areas@);
                let after = repr::arena_of(final(pages)@, final(self).areas@);
                if before.clear(idx as int, order as int) {
                    freed is Ok && after == before.coalesce(idx as int, order as int)
                } else {
                    &&& freed == Err::<(), Error>(Error::InvalidFree)
                    &&& final(pages)@ == old(pages)@
                    &&& final(self).areas == old(self).areas
                    &&& final(self).nr_free == old(self).nr_free
                }
            }),
            final(pages)@.len() == old(pages)@.len(),
            final(self).page_size == old(self).page_size,
            final(self).base_pfn == old(self).base_pfn,
            final(self).pages == old(self).pages,
    {
        if self.overlaps_block(pages, idx, order) {
            return Err(Error::InvalidFree);
        }
        let ghost goal = repr::arena_of(pages@, self.areas@).coalesce(idx as int, order as int);
        let ghost total = pages@.len();
        let mut idx: usize = idx;
        let mut order: u8 = order;
        let mut merging: bool = true;
        while merging && (order as usize) + 1 < MAX_ORDER
            invariant
                MAX_ORDER <= usize::BITS,
                repr::consistent(pages@, self.areas@, self.nr_free as int),
                repr::arena_of(pages@, self.areas@).placed(idx as int, order as int),
                repr::arena_of(pages@, self.areas@).clear(idx as int, order as int),
                repr::arena_of(pages@, self.areas@).coalesce(idx as int, order as int) == goal,
                pages@.len() == total,
                !merging ==> !repr::arena_of(pages@, self.areas@).free_block(
                    blocks::buddy_of(idx as int, order as int),
                    order as int,
                ),
                self.page_size == old(self).page_size,
                self.base_pfn == old(self).base_pfn,
                self.pages == old(self).pages,
            decreases MAX_ORDER - order + (if merging { 1int } else { 0 }),
        {
            let ghost before = pages@;
            let ghost areas = self.areas@;
            let ghost arena = repr::arena_of(before, areas);
            let ghost count = self.nr_free as int;
            let block: usize = pages_in_order(order);
            proof {
                blocks::lemma_buddy(idx as int, order as int);
                blocks::lemma_buddy_bits(idx, block, order as int);
            }
            let buddy: usize = idx ^ block;
            if buddy >= pages.len() || !pages[buddy].is_free() || pages[buddy].order() != order {
                proof {
                    if arena.free_block(buddy as int, order as int) {
                        assert(arena.block(buddy as int, order as int));
                        assert(arena.placed(buddy as int, order as int));
                        assert(buddy < pages@.len());
                    }
                }
                merging = false;
            } else {
                proof {
                    assert(arena.free_block(buddy as int, order as int));
                    assert(areas[order as int].wf(before));
                    assert(arena.free[order as int] == areas[order as int].nodes(before));
                    arena.lemma_join(idx as int, order as int);
                    arena.without_free(buddy as int, order as int).lemma_count();
                }
                self.areas[order as usize].remove(pages, buddy);
                proof {
                    assert(self.areas@ =~= areas.update(order as int, self.areas@[order as int]));
                    repr::lemma_unlisted(
                        before,
                        pages@,
                        areas,
                        self.areas@[order as int],
                        count,
                        buddy as int,
                        order as int,
                    );
                }
                self.nr_free -= block;
                idx = idx & buddy;
                order = order + 1;
            }
        }
        self.list_block(pages, idx, order);
        Ok(())
    }

    /// Converts a page frame number to an index into `count` descriptors.
    ///
    /// This is the only place where an address is narrowed to `usize`: what is
    /// narrowed is the offset relative to the arena's base, and the
    /// conversion is checked.
    fn index_of_pfn(&self, count: usize, pfn: A) -> (idx: Result<usize, Error>)
        ensures
            idx == (if self.base_pfn.value() <= pfn.value() < self.base_pfn.value() + count {
                Ok((pfn.value() - self.base_pfn.value()) as usize)
            } else {
                Err(Error::InvalidAddress)
            }),
    {
        if pfn.below(self.base_pfn) {
            return Err(Error::InvalidAddress);
        }
        match pfn.minus(self.base_pfn).try_to_usize() {
            None => Err(Error::InvalidAddress),
            Some(idx) => {
                if idx >= count {
                    return Err(Error::InvalidAddress);
                }
                Ok(idx)
            },
        }
    }

    /// Converts the physical address of a page start into an index into
    /// `count` descriptors.
    fn index_of_addr(&self, count: usize, addr: A) -> (idx: Result<usize, Error>)
        requires
            is_pow2(self.page_size.value()),
        ensures
            ({
                let pfn = addr.value() / self.page_size.value();
                let base = self.base_pfn.value();
                idx == (if addr.value() % self.page_size.value() == 0 && base <= pfn < base + count {
                    Ok((pfn - base) as usize)
                } else {
                    Err(Error::InvalidAddress)
                })
            }),
    {
        proof {
            crate::addr::lemma_pow2_positive(self.page_size.value());
        }
        if !A::align_down(addr, self.page_size).same(addr) {
            return Err(Error::InvalidAddress);
        }
        self.index_of_pfn(count, A::pfn_down(addr, self.page_size))
    }

    /// Puts the block of `order` at `addr` back on the free lists, coalescing
    /// it with free buddy blocks.
    pub fn free_pages(&mut self, addr: A, order: u8) -> (freed: Result<(), Error>)
        requires
            old(self).wf(),
        ensures
            final(self).wf(),
            final(self).same_place(*old(self)),
            freed is Err ==> final(self).unchanged(*old(self)) && final(self).arena() == old(
                self,
            ).arena(),
            freed is Err ==> final(self).descriptors() == old(self).descriptors() && final(self).areas == old(self).areas && final(self).nr_free == old(self).nr_free,
            final(self).page_size == old(self).page_size,
            final(self).base_pfn == old(self).base_pfn,
            final(self).descriptors().len() == old(self).descriptors().len(),
            old(self).pages is Some && order < MAX_ORDER ==> (freed == Err::<(), Error>(
                Error::InvalidAddress,
            ) <==> !exists|i: int|
                0 <= i && addr.value() == #[trigger] old(self).address(i) && i % (pow2(
                    order as nat,
                ) as int) == 0 && i + pow2(order as nat) <= old(self).descriptors().len()),
            old(self).pages is Some && order < MAX_ORDER ==> forall|i: int|
                0 <= i && addr.value() == #[trigger] old(self).address(i) && i % (pow2(
                    order as nat,
                ) as int) == 0 && i + pow2(order as nat) <= old(self).descriptors().len() ==> {
                    let end = i + pow2(order as nat);
                    &&& freed is Ok <==> old(self).arena().used.contains_key(i)
                        && effects::none_free(old(self).arena(), i, end) && effects::none_else_used(
                        old(self).arena(),
                        i,
                        end,
                    )
                    &&& freed is Ok ==> final(self).arena().used == old(self).arena().used.remove(i)
                    &&& freed is Ok ==> forall|p: int| #[trigger]
                        final(self).arena().free_page(p) <==> old(self).arena().free_page(p) || i
                            <= p < end
                },
            if old(self).pages is None {
                freed == Err::<(), Error>(Error::Uninitialized)
            } else if order >= MAX_ORDER {
                freed == Err::<(), Error>(Error::InvalidOrder)
            } else {
                match old(self).page_at(addr.value()) {
                    None => freed == Err::<(), Error>(Error::InvalidAddress),
                    Some(idx) => if !old(self).arena().placed(idx, order as int) {
                        freed == Err::<(), Error>(Error::InvalidAddress)
                    } else if !old(self).arena().releasable(idx, order as int) {
                        freed == Err::<(), Error>(Error::InvalidFree)
                    } else {
                        freed is Ok && final(self).arena() == old(self).arena().release(
                            idx,
                            order as int,
                        )
                    },
                }
            },
    {
        if self.pages.is_none() {
            return Err(Error::Uninitialized);
        }
        if order as usize >= MAX_ORDER {
            return Err(Error::InvalidOrder);
        }
        proof {
            blocks::lemma_span(order as int);
            crate::addr::lemma_pow2_positive(self.page_size.value());
            assert forall|i: int|
                0 <= i && addr.value() == #[trigger] self.address(i) && i % (pow2(
                    order as nat,
                ) as int) == 0 && i + pow2(order as nat) <= self.descriptors().len() implies {
                &&& self.page_at(addr.value()) == Some(i)
                &&& self.arena().placed(i, order as int)
                &&& self.arena().releasable(i, order as int)
                    <==> self.arena().used.contains_key(i) && effects::none_free(
                    self.arena(),
                    i,
                    i + pow2(order as nat),
                ) && effects::none_else_used(self.arena(), i, i + pow2(order as nat))
                &&& self.arena().releasable(i, order as int) ==> self.arena().release(
                    i,
                    order as int,
                ).used == self.arena().used.remove(i) && forall|p: int| #[trigger]
                    self.arena().release(i, order as int).free_page(p)
                        <==> self.arena().free_page(p) || i <= p < i + pow2(order as nat)
            } by {
                effects::law_page_at(*self, addr.value(), i);
                effects::law_releasable(self.arena(), i, order as int);
                if self.arena().releasable(i, order as int) {
                    crate::laws::law_free(self.arena(), i, order as int);
                    assert forall|p: int| #[trigger]
                        self.arena().release(i, order as int).free_page(p)
                            <==> self.arena().free_page(p) || i <= p < i + pow2(order as nat) by {
                        assert(self.arena().release(i, order as int).free_page(p)
                            <==> self.arena().free_page(p) || blocks::within(p, i, order as int));
                    }
                }
            }
            match self.page_at(addr.value()) {
                Some(i) => {
                    effects::law_page_at(*self, addr.value(), i);
                },
                None => {},
            }
        }
        match self.pages.take() {
            None => Err(Error::Uninitialized),
            Some(pages) => {
                let result = match self.index_of_addr(pages.len(), addr) {
                    Err(error) => Err(error),
                    Ok(idx) => self.free_block(pages, idx, order),
                };
                self.pages = Some(pages);
                result
            },
        }
    }

    /// Frees the block of `order` in use at `idx`.
    fn free_block(&mut self, pages: &mut [Page], idx: usize, order: u8) -> (freed: Result<
        (),
        Error,
    >)
        requires
            MAX_ORDER <= usize::BITS,
            order < MAX_ORDER,
            idx < old(pages)@.len(),
            repr::consistent(old(pages)@, old(self).areas@, old(self).nr_free as int),
        ensures
            repr::consistent(final(pages)@, final(self).areas@, final(self).nr_free as int),
            ({
                let before = repr::arena_of(old(pages)@, old(self).areas@);
                let after = repr::arena_of(final(pages)@, final(self).areas@);
                if !before.placed(idx as int, order as int) {
                    freed == Err::<(), Error>(Error::InvalidAddress) && after == before
                } else if !before.releasable(idx as int, order as int) {
                    freed == Err::<(), Error>(Error::InvalidFree) && after == before
                } else {
                    freed is Ok && after == before.release(idx as int, order as int)
                }
            }),
            freed is Err ==> final(pages)@ == old(pages)@ && final(self).areas == old(self).areas
                && final(self).nr_free == old(self).nr_free,
            final(pages)@.len() == old(pages)@.len(),
            final(self).page_size == old(self).page_size,
            final(self).base_pfn == old(self).base_pfn,
            final(self).pages == old(self).pages,
    {
        let ghost before = pages@;
        let ghost arena = repr::arena_of(pages@, self.areas@);
        let block: usize = pages_in_order(order);
        proof {
            blocks::lemma_span(order as int);
        }
        if idx % block != 0 || block > pages.len() - idx {
            return Err(Error::InvalidAddress);
        }
        if pages[idx].is_free() || pages[idx].refcount() != 1 {
            proof {
                if before[idx as int].listed() {
                    assert(arena.free_block(idx as int, before[idx as int].order as int));
                    assert(!arena.used.contains_key(idx as int));
                } else {
                    assert(repr::tidy(before[idx as int]));
                }
            }
            return Err(Error::InvalidFree);
        }
        proof {
            assert(arena.used.contains_key(idx as int));
            arena.lemma_without_used(idx as int);
        }
        let held_order: u8 = pages[idx].held_order;
        pages[idx].refcount = 0;
        pages[idx].held_order = 0;
        let ghost mid = pages@;
        proof {
            repr::lemma_recounted(before, mid, self.areas@, self.nr_free as int, idx as int);
        }
        match self.free_one_page(pages, idx, order) {
            Ok(()) => Ok(()),
            Err(error) => {
                pages[idx].refcount = 1;
                pages[idx].held_order = held_order;
                assert(pages@ =~= before);
                Err(error)
            },
        }
    }

    /// The order of the largest aligned block at `idx` that ends at or before
    /// `end`.
    fn chunk_order(idx: usize, end: usize) -> (order: u8)
        requires
            1 <= MAX_ORDER <= usize::BITS,
            idx < end,
        ensures
            order == arena::chunk_order(idx as int, end as int, MAX_ORDER - 1),
            order < MAX_ORDER,
    {
        let mut order: u8 = (MAX_ORDER - 1) as u8;
        proof {
            assert forall|o: int| 0 <= o implies #[trigger] blocks::span(o) >= 1 by {
                blocks::lemma_span(o);
            }
        }
        while order > 0 && (idx % pages_in_order(order) != 0 || pages_in_order(order) > end - idx)
            invariant
                MAX_ORDER <= usize::BITS,
                order < MAX_ORDER,
                idx < end,
                arena::chunk_order(idx as int, end as int, MAX_ORDER - 1) == arena::chunk_order(
                    idx as int,
                    end as int,
                    order as int,
                ),
                forall|o: int| 0 <= o ==> #[trigger] blocks::span(o) >= 1,
            decreases order,
        {
            order = order - 1;
        }
        order
    }

    /// Frees the pages that lie wholly in `[start, end)`, splitting the range
    /// into the largest naturally aligned blocks. Parts outside the managed
    /// range are ignored.
    pub fn free_range(&mut self, start: A, end: A) -> (freed: Result<(), Error>)
        requires
            old(self).wf(),
        ensures
            final(self).wf(),
            final(self).same_place(*old(self)),
            final(self).page_size == old(self).page_size,
            final(self).base_pfn == old(self).base_pfn,
            final(self).descriptors().len() == old(self).descriptors().len(),
            final(self).arena().used == old(self).arena().used,
            old(self).pages is Some ==> (freed is Ok <==> forall|p: int|
                #![trigger old(self).address(p)]
                0 <= p < old(self).descriptors().len() && start.value() <= old(self).address(p)
                    && old(self).address(p) + old(self).page_size.value() <= end.value()
                    ==> !old(self).arena().free_page(p) && !old(self).arena().used_page(p)),
            freed is Ok ==> forall|p: int|
                0 <= p < old(self).descriptors().len() ==> (#[trigger] final(self).arena().free_page(p) <==> old(self).arena().free_page(p) || (start.value()
                    <= old(self).address(p) && old(self).address(p) + old(self).page_size.value()
                    <= end.value())),
            if old(self).pages is None {
                &&& freed == Err::<(), Error>(Error::Uninitialized)
                &&& final(self).unchanged(*old(self))
                &&& final(self).arena() == old(self).arena()
            } else {
                let (arena, all) = old(self).range_freed(start.value(), end.value());
                &&& freed == (if all {
                    Ok::<(), Error>(())
                } else {
                    Err(Error::InvalidFree)
                })
                &&& final(self).arena() == arena
            },
    {
        if self.pages.is_none() {
            return Err(Error::Uninitialized);
        }
        proof {
            crate::addr::lemma_pow2_positive(self.page_size.value());
        }
        match self.pages.take() {
            None => Err(Error::Uninitialized),
            Some(pages) => {
                let mut start_pfn = A::pfn_up(start, self.page_size);
                if start_pfn.below(self.base_pfn) {
                    start_pfn = self.base_pfn;
                }
                let end_limit = self.pfn_of_index(pages.len(), pages.len());
                let mut end_pfn = A::pfn_down(end, self.page_size);
                if end_limit.below(end_pfn) {
                    end_pfn = end_limit;
                }
                let result = if !start_pfn.below(end_pfn) {
                    Ok(())
                } else {
                    match self.index_of_pfn(pages.len(), start_pfn) {
                        Err(error) => Err(error),
                        Ok(idx) => {
                            if end_pfn.same(end_limit) {
                                self.free_pages_between(pages, idx, pages.len())
                            } else {
                                match self.index_of_pfn(pages.len(), end_pfn) {
                                    Err(error) => Err(error),
                                    Ok(end_idx) => self.free_pages_between(pages, idx, end_idx),
                                }
                            }
                        },
                    }
                };
                self.pages = Some(pages);
                proof {
                    effects::law_range_frees_whole_pages(*old(self), start, end);
                }
                result
            },
        }
    }

    /// Frees the pages from `idx` up to `end`, in the largest naturally
    /// aligned blocks.
    fn free_pages_between(&mut self, pages: &mut [Page], idx: usize, end: usize) -> (freed: Result<
        (),
        Error,
    >)
        requires
            1 <= MAX_ORDER <= usize::BITS,
            end <= old(pages)@.len(),
            repr::consistent(old(pages)@, old(self).areas@, old(self).nr_free as int),
        ensures
            repr::consistent(final(pages)@, final(self).areas@, final(self).nr_free as int),
            ({
                let before = repr::arena_of(old(pages)@, old(self).areas@);
                let after = repr::arena_of(final(pages)@, final(self).areas@);
                let (arena, all) = before.release_range(idx as int, end as int);
                &&& freed == (if all {
                    Ok::<(), Error>(())
                } else {
                    Err(Error::InvalidFree)
                })
                &&& after == arena
            }),
            final(pages)@.len() == old(pages)@.len(),
            final(self).page_size == old(self).page_size,
            final(self).base_pfn == old(self).base_pfn,
            final(self).pages == old(self).pages,
    {
        let ghost goal = repr::arena_of(pages@, self.areas@).release_range(idx as int, end as int);
        let mut next: usize = idx;
        while next < end
            invariant
                1 <= MAX_ORDER <= usize::BITS,
                end <= pages@.len(),
                pages@.len() == old(pages)@.len(),
                goal == repr::arena_of(old(pages)@, old(self).areas@).release_range(
                    idx as int,
                    end as int,
                ),
                repr::consistent(pages@, self.areas@, self.nr_free as int),
                repr::arena_of(pages@, self.areas@).release_range(next as int, end as int) == goal,
                self.page_size == old(self).page_size,
                self.base_pfn == old(self).base_pfn,
                self.pages == old(self).pages,
            decreases
                    if next < end {
                        end - next
                    } else {
                        0
                    },
        {
            let order: u8 = Self::chunk_order(next, end);
            proof {
                arena::lemma_chunk_order(next as int, end as int, MAX_ORDER - 1);
                blocks::lemma_span(order as int);
            }
            match self.free_one_page(pages, next, order) {
                Err(error) => {
                    return Err(error);
                },
                Ok(()) => {},
            }
            next = next + pages_in_order(order);
        }
        Ok(())
    }

    /// Frees the given address ranges in turn, up to the first that overlaps
    /// memory that is free or in use.
    pub fn free_ranges(&mut self, ranges: &[(A, A)]) -> (freed: Result<(), Error>)
        requires
            old(self).wf(),
        ensures
            final(self).wf(),
            final(self).same_place(*old(self)),
            final(self).page_size == old(self).page_size,
            final(self).base_pfn == old(self).base_pfn,
            final(self).descriptors().len() == old(self).descriptors().len(),
            final(self).arena().used == old(self).arena().used,
            freed is Ok && old(self).pages is Some ==> forall|p: int|
                0 <= p < old(self).descriptors().len() ==> (#[trigger] final(self).arena().free_page(p) <==> old(self).arena().free_page(p) || exists|k: int|
                    0 <= k < ranges@.len() && (#[trigger] ranges@[k]).0.value() <= old(
                        self,
                    ).address(p) && old(self).address(p) + old(self).page_size.value()
                        <= ranges@[k].1.value()),
            if old(self).pages is None {
                &&& freed == (if ranges@.len() == 0 {
                    Ok::<(), Error>(())
                } else {
                    Err(Error::Uninitialized)
                })
                &&& final(self).unchanged(*old(self))
                &&& final(self).arena() == old(self).arena()
            } else {
                let (arena, all) = old(self).arena().release_ranges(
                    old(self).page_ranges(ranges@),
                    0,
                );
                &&& freed == (if all {
                    Ok::<(), Error>(())
                } else {
                    Err(Error::InvalidFree)
                })
                &&& final(self).arena() == arena
            },
    {
        let ghost spans = self.page_ranges(ranges@);
        let ghost goal = self.arena().release_ranges(spans, 0);
        let mut k: usize = 0;
        while k < ranges.len()
            invariant
                k <= ranges@.len(),
                self.wf(),
                self.same_place(*old(self)),
                self.arena().used == old(self).arena().used,
                old(self).pages is Some ==> forall|p: int|
                    0 <= p < old(self).descriptors().len() ==> (#[trigger] self.arena().free_page(p)
                        <==> old(self).arena().free_page(p) || exists|j: int|
                        0 <= j < k && (#[trigger] ranges@[j]).0.value() <= old(self).address(p)
                            && old(self).address(p) + old(self).page_size.value()
                            <= ranges@[j].1.value()),
                spans == old(self).page_ranges(ranges@),
                goal == old(self).arena().release_ranges(spans, 0),
                if old(self).pages is None {
                    k == 0 && self.unchanged(*old(self)) && self.arena() == old(self).arena()
                } else {
                    goal == self.arena().release_ranges(spans, k as int)
                },
            decreases ranges.len() - k,
        {
            let (start, end) = ranges[k];
            let ghost before = *self;
            match self.free_range(start, end) {
                Err(error) => {
                    return Err(error);
                },
                Ok(()) => {},
            }
            proof {
                let size = before.page_size.value();
                assert forall|p: int|
                    0 <= p < before.descriptors().len() implies (#[trigger] self.arena().free_page(
                    p,
                ) <==> old(self).arena().free_page(p) || exists|j: int|
                    0 <= j < k + 1 && (#[trigger] ranges@[j]).0.value() <= before.address(p)
                        && before.address(p) + size <= ranges@[j].1.value()) by {
                    assert(self.arena().free_page(p) <==> before.arena().free_page(p) || (
                    ranges@[k as int].0.value() <= before.address(p) && before.address(p) + size
                        <= ranges@[k as int].1.value()));
                    if exists|j: int|
                        0 <= j < k + 1 && (#[trigger] ranges@[j]).0.value() <= before.address(p)
                            && before.address(p) + size <= ranges@[j].1.value() {
                        let j = choose|j: int|
                            0 <= j < k + 1 && (#[trigger] ranges@[j]).0.value() <= before.address(p)
                                && before.address(p) + size <= ranges@[j].1.value();
                        assert(j == k || j < k);
                    }
                }
            }
            k = k + 1;
        }
        Ok(())
    }

    /// Verifies the allocator's invariants: every listed block is aligned,
    /// marked free with the right order and not in use, the block and page
    /// counts are right, no marked block is unlisted, and no two free buddies
    /// could have been joined.
    pub fn validate(&self) -> (verdict: Result<(), Error>)
        requires
            self.wf() || (self.pages is Some ==> MAX_ORDER <= usize::BITS && audit::unbroken(
                self.descriptors(),
                self.areas@,
                0,
            )),
        ensures
            self.wf() && self.pages is Some ==> verdict is Ok,
            verdict is Ok ==> forall|p: int|
                #![trigger self.descriptors()[p]]
                0 <= p < self.descriptors().len() && self.descriptors()[p].flags.bits & 1 == 1 ==> {
                    &&& self.descriptors()[p].order < MAX_ORDER
                    &&& p % (pow2(self.descriptors()[p].order as nat) as int) == 0
                    &&& p + pow2(self.descriptors()[p].order as nat) <= self.descriptors().len()
                    &&& self.descriptors()[p].refcount == 0
                },
            verdict is Ok ==> forall|o: int, p: int, q: int|
                #![trigger self.descriptors()[p], self.descriptors()[q], pow2(o as nat)]
                0 <= o && o + 1 < MAX_ORDER && 0 <= p && q == p + pow2(o as nat) && q
                    < self.descriptors().len() && p % (pow2((o + 1) as nat) as int) == 0
                    && self.descriptors()[p].order == o && self.descriptors()[q].order == o ==> !(
                self.descriptors()[p].flags.bits & 1 == 1 && self.descriptors()[q].flags.bits & 1
                    == 1),
            verdict == (if self.pages is None {
                Err(Error::Uninitialized)
            } else {
                match audit::fault(self.descriptors(), self.areas@, self.nr_free as int) {
                    Some(error) => Err(error),
                    None => Ok(()),
                }
            }),
    {
        proof {
            if self.wf() && self.pages is Some {
                audit::law_consistent_passes(
                    self.descriptors(),
                    self.areas@,
                    self.nr_free as int,
                );
            }
            if self.pages is Some && audit::fault(
                self.descriptors(),
                self.areas@,
                self.nr_free as int,
            ) is None {
                audit::law_passed_check_marks(
                    self.descriptors(),
                    self.areas@,
                    self.nr_free as int,
                );
            }
        }
        match &self.pages {
            None => Err(Error::Uninitialized),
            Some(pages) => self.audit(pages),
        }
    }

    /// Checks the lists in order, then the page count, then the marks.
    fn audit(&self, pages: &[Page]) -> (verdict: Result<(), Error>)
        requires
            MAX_ORDER <= usize::BITS,
            audit::unbroken(pages@, self.areas@, 0),
        ensures
            verdict == (match audit::fault(pages@, self.areas@, self.nr_free as int) {
                Some(error) => Err(error),
                None => Ok(()),
            }),
    {
        let ghost top = usize::MAX as int;
        let mut page_total: u128 = 0;
        let mut listed_heads: u128 = 0;
        let mut order: u8 = 0;
        proof {
            blocks::lemma_span(0);
        }
        while (order as usize) < MAX_ORDER
            invariant
                MAX_ORDER <= usize::BITS,
                order <= MAX_ORDER,
                top == usize::MAX,
                audit::unbroken(pages@, self.areas@, order as int),
                audit::first_list_fault(pages@, self.areas@, 0) == audit::first_list_fault(
                    pages@,
                    self.areas@,
                    order as int,
                ),
                page_total == audit::pages_counted(self.areas@, order as int),
                listed_heads == audit::blocks_counted(self.areas@, order as int),
                page_total <= top * (blocks::span(order as int) - 1),
                listed_heads <= top * order,
            decreases MAX_ORDER - order,
        {
            let count: usize = match self.audit_list(pages, order) {
                Err(error) => {
                    return Err(error);
                },
                Ok(count) => count,
            };
            let block: usize = pages_in_order(order);
            proof {
                let c = count as int;
                let m = blocks::span(order as int);
                let n = order as int;
                blocks::lemma_span(n);
                assert(0 <= c * m <= top * m) by (nonlinear_arith)
                    requires
                        0 <= c <= top,
                        m >= 1,
                ;
                assert(top * (m - 1) + top * m == top * (2 * m - 1)) by (nonlinear_arith);
                assert(top * n + top == top * (n + 1)) by (nonlinear_arith);
                blocks::lemma_span_multiple(n + 1, 64);
                lemma2_to64();
                assert(top * (2 * m - 1) <= u128::MAX) by (nonlinear_arith)
                    requires
                        1 <= m,
                        2 * m <= 0x1_0000_0000_0000_0000,
                        0 <= top <= 0xffff_ffff_ffff_ffff,
                ;
                assert(top * (n + 1) <= u128::MAX) by (nonlinear_arith)
                    requires
                        0 <= n <= 64,
                        0 <= top <= 0xffff_ffff_ffff_ffff,
                ;
            }
            listed_heads = listed_heads + count as u128;
            page_total = page_total + (count as u128) * (block as u128);
            order = order + 1;
        }
        if page_total != self.nr_free as u128 {
            return Err(Error::CountMismatch);
        }
        let mut flagged: usize = 0;
        let mut idx: usize = 0;
        while idx < pages.len()
            invariant
                idx <= pages@.len(),
                flagged <= idx,
                flagged == audit::marks(pages@, idx as int),
            decreases pages.len() - idx,
        {
            if pages[idx].is_free() {
                flagged = flagged + 1;
            }
            idx = idx + 1;
        }
        if flagged as u128 != listed_heads {
            return Err(Error::CorruptFreeList);
        }
        Ok(())
    }

    /// Checks the list of one order and returns its length.
    fn audit_list(&self, pages: &[Page], order: u8) -> (count: Result<usize, Error>)
        requires
            MAX_ORDER <= usize::BITS,
            order < MAX_ORDER,
            !(audit::list_walk(pages@, self.areas@, order as int) is Broken),
        ensures
            match count {
                Ok(n) => audit::list_fault(pages@, self.areas@, order as int) is None && n
                    == self.areas@[order as int].nr_free,
                Err(error) => audit::list_fault(pages@, self.areas@, order as int) == Some(error),
            },
    {
        let ghost n = order as int;
        let ghost head = self.areas@[n].free_list.head@;
        let ghost whole = audit::list_walk(pages@, self.areas@, n);
        let block: usize = pages_in_order(order);
        let mut count: usize = 0;
        let mut iter = self.areas[order as usize].iter(pages);
        proof {
            blocks::lemma_span(n);
        }
        loop
            invariant
                MAX_ORDER <= usize::BITS,
                order < MAX_ORDER,
                n == order,
                block == blocks::span(n),
                block >= 1,
                iter.pages@ == pages@,
                iter.head@ == head,
                head == self.areas@[n].free_list.head@,
                whole == audit::list_walk(pages@, self.areas@, n),
                !(whole is Broken),
                audit::walk(pages@, n, head, iter.next@, count as int) == whole,
                count <= pages@.len(),
            ensures
                whole == audit::Walk::Complete(count as int),
            decreases pages@.len() - count,
        {
            match iter.next() {
                None => {
                    break;
                },
                Some(idx) => {
                    // A cycle in a corrupted list would otherwise go on for
                    // ever.
                    if count >= pages.len() {
                        return Err(Error::CorruptFreeList);
                    }
                    count = count + 1;
                    if idx % block != 0 || block > pages.len() - idx {
                        return Err(Error::CorruptFreeList);
                    }
                    if !pages[idx].is_free() || pages[idx].order() != order
                        || pages[idx].refcount() != 0 {
                        return Err(Error::CorruptFreeList);
                    }
                },
            }
        }
        if count != self.areas[order as usize].nr_free() {
            return Err(Error::CountMismatch);
        }
        // Two free buddies would have been joined, except at the largest
        // order.
        if (order as usize) + 1 < MAX_ORDER {
            let mut seen: usize = 0;
            let mut again = self.areas[order as usize].iter(pages);
            let ghost any = audit::any_mergeable(pages@, n, head, head, count as int);
            loop
                invariant
                    MAX_ORDER <= usize::BITS,
                    order + 1 < MAX_ORDER,
                    n == order,
                    block == blocks::span(n),
                    block >= 1,
                    again.pages@ == pages@,
                    again.head@ == head,
                    head == self.areas@[n].free_list.head@,
                    whole == audit::list_walk(pages@, self.areas@, n),
                    whole == audit::Walk::Complete(count as int),
                    count == self.areas@[n].nr_free,
                    audit::walk(pages@, n, head, again.next@, seen as int) == whole,
                    seen <= pages@.len(),
                    any == audit::any_mergeable(pages@, n, head, head, count as int),
                    any == audit::any_mergeable(
                        pages@,
                        n,
                        head,
                        again.next@,
                        count as int - seen as int,
                    ),
                ensures
                    !any,
                decreases pages@.len() - seen,
            {
                proof {
                    audit::lemma_walk_end(pages@, n, head, again.next@, seen as int);
                }
                match again.next() {
                    None => {
                        break;
                    },
                    Some(idx) => {
                        proof {
                            blocks::lemma_buddy(idx as int, n);
                            blocks::lemma_buddy_bits(idx, block, n);
                        }
                        let buddy: usize = idx ^ block;
                        if buddy < pages.len() {
                            if pages[buddy].is_free() && pages[buddy].order() == order {
                                return Err(Error::Uncoalesced);
                            }
                        }
                        seen = seen + 1;
                    },
                }
            }
        }
        Ok(count)
    }
}

/// Returns `true` if `n` is a power of two.
fn is_power_of_two(n: usize) -> (power: bool)
    ensures
        power == is_pow2(n as int),
{
    reveal(is_pow2);
    if n == 0 {
        return false;
    }
    let mut rest: usize = n;
    while rest % 2 == 0
        invariant
            rest > 0,
            is_pow2(n as int) == is_pow2(rest as int),
        decreases rest,
    {
        reveal(is_pow2);
        rest = rest / 2;
    }
    rest == 1
}

/// The number of a page is at most the address in it.
proof fn lemma_page_number(addr: int, page_size: int)
    requires
        0 <= addr,
        0 < page_size,
    ensures
        0 <= addr / page_size <= addr,
{
    vstd::arithmetic::div_mod::lemma_div_pos_is_pos(addr, page_size);
    vstd::arithmetic::div_mod::lemma_div_nonincreasing(addr, page_size);
}

/// The size in bytes of a block is a power of two.
proof fn lemma_pow2_product(order: nat, page_size: int)
    requires
        is_pow2(page_size),
    ensures
        is_pow2(pow2(order) * page_size),
    decreases order,
{
    if order == 0 {
        lemma2_to64();
    } else {
        let half = (order - 1) as nat;
        lemma_pow2_product(half, page_size);
        lemma_pow2_unfold(order);
        let b = pow2(half) * page_size;
        assert(pow2(order) * page_size == 2 * b) by (nonlinear_arith)
            requires
                pow2(order) == 2 * pow2(half),
                b == pow2(half) * page_size,
        ;
        crate::addr::lemma_pow2_positive(b);
        reveal(is_pow2);
    }
}

/// An address aligned to a block is the address of a page whose number is
/// aligned to the block.
pub proof fn lemma_block_aligned(base: int, page_size: int, order: int)
    requires
        0 <= base,
        0 < page_size,
        0 <= order,
    ensures
        base % (blocks::span(order) * page_size) == 0 ==> {
            &&& (base / page_size) * page_size == base
            &&& blocks::aligned(base / page_size, order)
        },
{
    let m = blocks::span(order);
    blocks::lemma_span(order);
    if base % (m * page_size) == 0 {
        let k = base / (m * page_size);
        assert(m * page_size > 0) by (nonlinear_arith)
            requires
                m >= 1,
                page_size > 0,
        ;
        vstd::arithmetic::div_mod::lemma_fundamental_div_mod(base, m * page_size);
        assert(base == (k * m) * page_size) by (nonlinear_arith)
            requires
                base == (m * page_size) * k,
        ;
        vstd::arithmetic::div_mod::lemma_div_by_multiple(k * m, page_size);
        vstd::arithmetic::div_mod::lemma_mod_multiples_basic(k, m);
    }
}

/// The address of a page whose number is at most that of the greatest address
/// does not exceed the greatest address.
pub proof fn lemma_address_fits(pfn: int, page_size: int, limit: int)
    requires
        0 <= pfn <= limit / page_size,
        0 < page_size,
        0 <= limit,
    ensures
        0 <= pfn * page_size <= limit,
{
    vstd::arithmetic::div_mod::lemma_fundamental_div_mod(limit, page_size);
    let q = limit / page_size;
    assert(0 <= pfn * page_size <= q * page_size) by (nonlinear_arith)
        requires
            0 <= pfn <= q,
            0 < page_size,
    ;
    assert(q * page_size == page_size * q) by (nonlinear_arith);
}

} // verus!
