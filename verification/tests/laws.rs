//! The allocator's laws, and the inputs it refuses, on concrete arenas.

use the_buddy_system::list::{FreeList, LinkSlot};
use the_buddy_system::{Buddy, Error, Page, PageFlags};

const PS: usize = 0x1000;
const PAGES: usize = 16;
const MAX_ORDER: usize = 4;

type Small<'a> = Buddy<'a, usize, MAX_ORDER>;

fn full(pages: &mut [Page]) -> Small<'_> {
    let mut buddy = Buddy::new(0, PS, pages).unwrap();
    buddy.free_range(0, PAGES * PS).unwrap();
    buddy
}

/// The free blocks of each order, front to back.
fn lists(buddy: &Small<'_>) -> Vec<Vec<usize>> {
    let pages = buddy.pages.as_ref().unwrap();
    buddy
        .areas
        .iter()
        .map(|area| area.iter(pages).collect())
        .collect()
}

#[test]
fn a_fresh_arena_is_empty_and_then_full() {
    let mut pages = [Page::new(); PAGES];
    let mut buddy: Small<'_> = Buddy::new(0, PS, &mut pages).unwrap();
    assert_eq!(buddy.nr_free(), 0);
    assert_eq!(lists(&buddy), vec![Vec::<usize>::new(); MAX_ORDER]);
    buddy.free_range(0, PAGES * PS).unwrap();
    assert_eq!(buddy.nr_free(), PAGES);
    assert_eq!(lists(&buddy), vec![vec![], vec![], vec![], vec![8, 0]]);
}

#[test]
fn freeing_restores_every_list() {
    let mut pages = [Page::new(); PAGES];
    let mut buddy = full(&mut pages);
    let first = buddy.alloc_pages(0).unwrap();
    assert_eq!(first, 8 * PS);
    let before = lists(&buddy);
    assert_eq!(before, vec![vec![9], vec![10], vec![12], vec![0]]);
    for order in 0..MAX_ORDER as u8 {
        let addr = buddy.alloc_pages(order).unwrap();
        assert_ne!(lists(&buddy), before);
        buddy.free_pages(addr, order).unwrap();
        assert_eq!(lists(&buddy), before);
    }
}

#[test]
fn allocation_succeeds_as_long_as_an_aligned_block_is_free() {
    let mut pages = [Page::new(); PAGES];
    let mut buddy: Small<'_> = Buddy::new(0, PS, &mut pages).unwrap();
    // Pages 2..6 are free: four in a row, but no aligned four.
    buddy.free_range(2 * PS, 6 * PS).unwrap();
    assert_eq!(buddy.nr_free(), 4);
    assert_eq!(buddy.alloc_pages(2), Err(Error::OutOfMemory));
    assert_eq!(buddy.alloc_pages(1), Ok(4 * PS));
    assert_eq!(buddy.alloc_pages(1), Ok(2 * PS));
    assert_eq!(buddy.alloc_pages(0), Err(Error::OutOfMemory));
    assert_eq!(buddy.nr_free(), 0);
}

#[test]
fn free_memory_is_canonical_whatever_the_order_of_frees() {
    let mut one = [Page::new(); PAGES];
    let mut two = [Page::new(); PAGES];
    let mut up: Small<'_> = Buddy::new(0, PS, &mut one).unwrap();
    let mut down: Small<'_> = Buddy::new(0, PS, &mut two).unwrap();
    for idx in 1..PAGES {
        up.free_range(idx * PS, (idx + 1) * PS).unwrap();
    }
    for idx in (1..PAGES).rev() {
        down.free_range(idx * PS, (idx + 1) * PS).unwrap();
    }
    for order in 0..MAX_ORDER as u8 {
        assert_eq!(up.nr_free_blocks(order), Some(1));
        assert_eq!(down.nr_free_blocks(order), Some(1));
    }
    assert_eq!(lists(&up), lists(&down));
}

#[test]
fn a_freed_block_cannot_be_freed_again() {
    let mut pages = [Page::new(); PAGES];
    let mut buddy = full(&mut pages);
    let addr = buddy.alloc_pages(2).unwrap();
    buddy.free_pages(addr, 2).unwrap();
    for order in 0..=2 {
        assert_eq!(buddy.free_pages(addr, order), Err(Error::InvalidFree));
    }
    assert_eq!(buddy.nr_free(), PAGES);
    buddy.validate().unwrap();
}

#[test]
fn a_block_that_overlaps_free_memory_cannot_be_freed() {
    let mut pages = [Page::new(); PAGES];
    let mut buddy = full(&mut pages);
    let addr = buddy.alloc_pages(0).unwrap();
    let before = lists(&buddy);
    // The other page of the order-1 block is free.
    assert_eq!(buddy.free_pages(addr, 1), Err(Error::InvalidFree));
    assert_eq!(lists(&buddy), before);
    assert_eq!(buddy.nr_free(), PAGES - 1);
    buddy.validate().unwrap();
    // The block is still in use and can be freed with its own order.
    buddy.free_pages(addr, 0).unwrap();
    assert_eq!(buddy.nr_free(), PAGES);
}

#[test]
fn a_block_that_overlaps_another_in_use_cannot_be_freed() {
    let mut pages = [Page::new(); PAGES];
    let mut buddy = full(&mut pages);
    let first = buddy.alloc_pages(0).unwrap();
    let second = buddy.alloc_pages(0).unwrap();
    assert_eq!(second, first + PS);
    assert_eq!(buddy.free_pages(first, 1), Err(Error::InvalidFree));
    buddy.free_pages(second, 0).unwrap();
    buddy.free_pages(first, 0).unwrap();
    assert_eq!(buddy.nr_free(), PAGES);
    buddy.validate().unwrap();
}

#[test]
fn a_range_inside_a_block_in_use_cannot_be_freed() {
    let mut pages = [Page::new(); PAGES];
    let mut buddy = full(&mut pages);
    let addr = buddy.alloc_pages(2).unwrap();
    // Neither the tail of the block ...
    assert_eq!(
        buddy.free_range(addr + 2 * PS, addr + 4 * PS),
        Err(Error::InvalidFree)
    );
    // ... nor a range that starts before it.
    let mut other = [Page::new(); PAGES];
    let mut sparse: Small<'_> = Buddy::new(0, PS, &mut other).unwrap();
    sparse.free_range(PS, 2 * PS).unwrap();
    assert_eq!(sparse.alloc_pages(0), Ok(PS));
    assert_eq!(sparse.free_range(0, 8 * PS), Err(Error::InvalidFree));
    assert_eq!(sparse.nr_free(), 0);
    buddy.free_pages(addr, 2).unwrap();
    assert_eq!(buddy.nr_free(), PAGES);
}

#[test]
fn a_rejected_range_is_freed_up_to_the_overlap() {
    let mut pages = [Page::new(); PAGES];
    let mut buddy: Small<'_> = Buddy::new(0, PS, &mut pages).unwrap();
    buddy.free_range(4 * PS, 5 * PS).unwrap();
    assert_eq!(buddy.free_range(PS, 8 * PS), Err(Error::InvalidFree));
    // Pages 1 and 2..4 were freed, 4 was free already.
    assert_eq!(buddy.nr_free(), 4);
    assert_eq!(lists(&buddy), vec![vec![1, 4], vec![2], vec![], vec![]]);
    buddy.validate().unwrap();
}

#[test]
fn a_partial_free_keeps_the_rest_out_of_the_free_lists() {
    let mut pages = [Page::new(); PAGES];
    let mut buddy = full(&mut pages);
    let addr = buddy.alloc_pages(2).unwrap();
    buddy.free_pages(addr, 1).unwrap();
    assert_eq!(buddy.nr_free(), PAGES - 2);
    buddy.validate().unwrap();
    buddy.free_range(addr + 2 * PS, addr + 4 * PS).unwrap();
    assert_eq!(buddy.nr_free(), PAGES);
    assert_eq!(buddy.nr_free_blocks(3), Some(2));
}

#[test]
fn ranges_are_freed_in_turn() {
    let mut pages = [Page::new(); PAGES];
    let mut buddy: Small<'_> = Buddy::new(0, PS, &mut pages).unwrap();
    buddy
        .free_ranges(&[(0, 2 * PS), (4 * PS, 5 * PS), (PAGES * PS, 99 * PS)])
        .unwrap();
    assert_eq!(buddy.nr_free(), 3);
    assert_eq!(
        buddy.free_ranges(&[(2 * PS, 3 * PS), (0, PS), (8 * PS, 9 * PS)]),
        Err(Error::InvalidFree)
    );
    assert_eq!(buddy.nr_free(), 4);
    buddy.validate().unwrap();

    let mut placeholder: Small<'_> = Buddy::uninit();
    assert_eq!(
        placeholder.free_ranges(&[(0, PS)]),
        Err(Error::Uninitialized)
    );
    assert_eq!(placeholder.free_ranges(&[]), Ok(()));
}

#[test]
fn only_whole_pages_of_a_range_are_freed() {
    let mut pages = [Page::new(); PAGES];
    let mut buddy: Small<'_> = Buddy::new(0, PS, &mut pages).unwrap();
    buddy.free_range(1, 2 * PS - 1).unwrap();
    assert_eq!(buddy.nr_free(), 0);
    buddy.free_range(1, 3 * PS - 1).unwrap();
    assert_eq!(lists(&buddy), vec![vec![1], vec![], vec![], vec![]]);
    // An empty or reversed range holds no page.
    buddy.free_range(5 * PS, 5 * PS).unwrap();
    buddy.free_range(9 * PS, 5 * PS).unwrap();
    assert_eq!(buddy.nr_free(), 1);
}

#[test]
fn allocated_blocks_are_aligned_to_their_size() {
    let base = 24 * PS;
    let mut pages = [Page::new(); PAGES];
    let mut buddy: Small<'_> = Buddy::new(base, PS, &mut pages).unwrap();
    assert_eq!(buddy.base(), base);
    buddy.free_range(base, base + PAGES * PS).unwrap();
    let page = buddy.alloc_pages(0).unwrap();
    for order in [3u8, 2, 1, 0] {
        let addr = buddy.alloc_pages(order).unwrap();
        assert_eq!(addr % (PS << order), 0);
        assert!(addr >= base && addr + (PS << order) <= base + PAGES * PS);
        assert_ne!(addr, page);
    }
    assert_eq!(buddy.nr_free(), 0);
}

#[test]
fn largest_blocks_and_orders_are_checked() {
    let mut pages = [Page::new(); PAGES];
    let mut buddy = full(&mut pages);
    assert_eq!(buddy.alloc_pages(4), Err(Error::InvalidOrder));
    assert_eq!(buddy.alloc_pages(255), Err(Error::InvalidOrder));
    assert_eq!(buddy.free_pages(0, 4), Err(Error::InvalidOrder));
    assert_eq!(buddy.nr_free_blocks(3), Some(2));
    assert_eq!(buddy.nr_free_blocks(4), None);
    // The last block would reach past the arena.
    let mut odd = [Page::new(); 9];
    let mut ragged: Small<'_> = Buddy::new(0, PS, &mut odd).unwrap();
    assert_eq!(ragged.free_pages(8 * PS, 1), Err(Error::InvalidAddress));
    assert_eq!(ragged.free_pages(8 * PS, 0), Err(Error::InvalidFree));
    assert_eq!(ragged.free_pages(9 * PS, 0), Err(Error::InvalidAddress));
}

#[test]
fn geometry_is_checked_in_order() {
    let mut none: [Page; 0] = [];
    // Without descriptors the page size does not matter.
    assert!(matches!(
        Buddy::<usize, 4>::new(0, 3, &mut none),
        Err(Error::InvalidGeometry)
    ));
    assert!(matches!(
        Buddy::<usize, 4>::from_raw_parts(&mut none, 0, 0, 3),
        Err(Error::InvalidPageSize)
    ));
    let mut pages = [Page::new(); PAGES];
    // A misaligned array is reported before anything but the number of orders.
    assert!(matches!(
        Buddy::<usize, 4>::from_raw_parts(&mut pages, 1, PS, 3),
        Err(Error::InvalidPageArray)
    ));
    assert!(matches!(
        Buddy::<usize, 0>::from_raw_parts(&mut pages, 1, PS, 3),
        Err(Error::InvalidGeometry)
    ));
    assert!(matches!(
        Buddy::<usize, 65>::from_raw_parts(&mut pages, 0, 0, PS),
        Err(Error::InvalidGeometry)
    ));
    assert!(matches!(
        Buddy::<u128, 4>::new(0, 1 << 100, &mut pages),
        Err(Error::InvalidPageSize)
    ));
    let mut buddy: Small<'_> = Buddy::uninit();
    assert!(matches!(
        buddy.init(&mut pages, 4, 0, PS),
        Err(Error::InvalidPageArray)
    ));
    assert!(!buddy.is_initialized());
}

#[test]
fn narrow_address_types_limit_the_arena() {
    // 256 pages do not fit a page number of eight bits.
    let mut many = vec![Page::new(); 256];
    assert!(matches!(
        Buddy::<u8, 4>::new(0, 1, &mut many),
        Err(Error::InvalidGeometry)
    ));
    // Sixteen pages of sixteen bytes fill the address space; they can be
    // numbered and addressed.
    let mut pages = [Page::new(); 16];
    let mut buddy = Buddy::<u8, 4>::new(0, 16, &mut pages).unwrap();
    buddy.free_range(0, 255).unwrap();
    // The last page does not end at or before the greatest address.
    assert_eq!(buddy.nr_free(), 15);
    // A largest block as large as the address space is refused.
    assert!(matches!(
        Buddy::<u8, 5>::new(0, 16, &mut [Page::new(); 16]),
        Err(Error::InvalidGeometry)
    ));
    // So is an arena whose last page cannot be addressed.
    assert!(matches!(
        Buddy::<u8, 4>::new(128, 16, &mut [Page::new(); 9]),
        Err(Error::InvalidGeometry)
    ));
    // The page after the last must have a number.
    assert!(matches!(
        Buddy::<u8, 4>::new(240, 1, &mut [Page::new(); 16]),
        Err(Error::InvalidGeometry)
    ));
    assert!(Buddy::<u8, 4>::new(240, 1, &mut [Page::new(); 15]).is_ok());
}

#[test]
fn validate_reports_the_first_violation() {
    let mut pages = [Page::new(); PAGES];
    let mut buddy = full(&mut pages);
    buddy.areas[3].nr_free = 1;
    assert_eq!(buddy.validate(), Err(Error::CountMismatch));
    buddy.areas[3].nr_free = 2;
    buddy.validate().unwrap();

    // A listed block in use.
    buddy.pages.as_mut().unwrap()[8].refcount = 1;
    assert_eq!(buddy.validate(), Err(Error::CorruptFreeList));
    buddy.pages.as_mut().unwrap()[8].refcount = 0;

    // A listed block of another order.
    buddy.pages.as_mut().unwrap()[8].order = 2;
    assert_eq!(buddy.validate(), Err(Error::CorruptFreeList));
    buddy.pages.as_mut().unwrap()[8].order = 3;

    // A listed block without its mark.
    buddy.pages.as_mut().unwrap()[8].flags.remove(PageFlags::buddy());
    assert_eq!(buddy.validate(), Err(Error::CorruptFreeList));
    buddy.pages.as_mut().unwrap()[8].flags.insert(PageFlags::buddy());
    buddy.validate().unwrap();

    // A misaligned block.
    {
        let pages = buddy.pages.as_mut().unwrap();
        pages[3].flags.insert(PageFlags::buddy());
        pages[3].order = 1;
        buddy.areas[1].push_front(pages, 3);
    }
    assert_eq!(buddy.validate(), Err(Error::CorruptFreeList));
}

#[test]
fn validate_ends_on_a_cycle_that_misses_the_head() {
    let mut pages = [Page::new(); PAGES];
    let mut buddy: Small<'_> = Buddy::new(0, PS, &mut pages).unwrap();
    buddy.free_range(0, PS).unwrap();
    buddy.free_range(2 * PS, 3 * PS).unwrap();
    buddy.free_range(4 * PS, 5 * PS).unwrap();
    assert_eq!(lists(&buddy)[0], vec![4, 2, 0]);
    let pages = buddy.pages.as_mut().unwrap();
    // The last node leads back to the second.
    pages[0].next = pages[4].next;
    assert_eq!(buddy.validate(), Err(Error::CorruptFreeList));
}

#[test]
fn a_new_descriptor_has_no_links() {
    let page = Page::new();
    assert_eq!(page.next, LinkSlot::vacant());
    assert_eq!(page.prev.get(), None);
    assert_eq!(FreeList::new().head, LinkSlot::vacant());
    assert!(page.next.is_none());
}

#[test]
fn flags_are_set_and_cleared() {
    let mut flags = PageFlags::empty();
    assert!(!flags.contains(PageFlags::buddy()));
    flags.insert(PageFlags::buddy());
    assert!(flags.contains(PageFlags::buddy()));
    assert_eq!(flags.bits(), 1);
    flags.remove(PageFlags::buddy());
    assert_eq!(flags, PageFlags::empty());
}

#[test]
fn refusals_leave_every_descriptor_as_it_was() {
    let mut pages = [Page::new(); PAGES];
    let mut buddy = full(&mut pages);
    let addr = buddy.alloc_pages(1).unwrap();
    buddy.alloc_pages(3).unwrap();
    let before: Vec<(Page, u8)> = buddy
        .pages
        .as_ref()
        .unwrap()
        .iter()
        .map(|page| (*page, page.held_order))
        .collect();
    let areas = buddy.areas;
    assert_eq!(buddy.alloc_pages(3), Err(Error::OutOfMemory));
    assert_eq!(buddy.alloc_pages(4), Err(Error::InvalidOrder));
    assert_eq!(buddy.free_pages(addr, 2), Err(Error::InvalidFree));
    assert_eq!(buddy.free_pages(addr + PS, 0), Err(Error::InvalidFree));
    assert_eq!(buddy.free_pages(addr + PS, 1), Err(Error::InvalidAddress));
    assert_eq!(buddy.free_pages(addr + 1, 0), Err(Error::InvalidAddress));
    assert_eq!(buddy.free_pages(addr, 4), Err(Error::InvalidOrder));
    let after: Vec<(Page, u8)> = buddy
        .pages
        .as_ref()
        .unwrap()
        .iter()
        .map(|page| (*page, page.held_order))
        .collect();
    assert_eq!(before, after);
    assert_eq!(areas, buddy.areas);
}

#[test]
fn pages_that_head_no_block_are_pristine() {
    let mut pages = [Page::new(); PAGES];
    let mut buddy = full(&mut pages);
    let low = buddy.alloc_pages(1).unwrap();
    let high = buddy.alloc_pages(1).unwrap();
    assert_eq!(high, low + 2 * PS);
    let head = high / PS;
    let pages = buddy.pages.as_ref().unwrap();
    assert_eq!(pages[head].refcount(), 1);
    assert_eq!(pages[head].order(), 0);
    assert!(!pages[head].is_free());
    assert!(pages[head].next.is_none() && pages[head].prev.is_none());

    // The upper block is joined into lower ones.
    buddy.free_pages(low, 1).unwrap();
    buddy.free_pages(high, 1).unwrap();
    for (idx, page) in buddy.pages.as_ref().unwrap().iter().enumerate() {
        if idx % 8 == 0 {
            assert!(page.is_free());
            assert_eq!(page.order(), 3);
        } else {
            assert_eq!(*page, Page::new());
        }
        assert_eq!(page.held_order, 0);
    }
}

#[test]
fn the_held_order_takes_no_part_in_comparisons() {
    let mut one = Page::new();
    one.refcount = 1;
    let mut two = one;
    two.held_order = 3;
    assert_eq!(one, two);
    two.order = 1;
    assert_ne!(one, two);
}

#[test]
fn an_iterator_is_collected_from_where_it_is() {
    let mut pages = [Page::new(); PAGES];
    let mut list = FreeList::new();
    for idx in [3usize, 5, 7] {
        list.push_back(&mut pages, idx);
    }
    let mut iter = list.iter(&pages);
    assert_eq!(iter.next(), Some(3));
    assert_eq!(iter.collect(), vec![5, 7]);
    assert_eq!(iter.count(), 2);
    assert_eq!(iter.next(), Some(5));
    assert_eq!(iter.next(), Some(7));
    assert_eq!(iter.count(), 0);
    assert_eq!(iter.next(), None);
    assert_eq!(iter.collect(), Vec::<usize>::new());
}

#[test]
fn ranges_are_all_freed_if_they_are_apart() {
    let mut pages = [Page::new(); PAGES];
    let mut buddy: Small<'_> = Buddy::new(0, PS, &mut pages).unwrap();
    // An empty and a reversed range hold no page.
    buddy
        .free_ranges(&[(0, 3 * PS), (2 * PS, 2 * PS), (9 * PS, PS), (3 * PS, 5 * PS)])
        .unwrap();
    assert_eq!(buddy.nr_free(), 5);
    assert_eq!(lists(&buddy), vec![vec![4], vec![], vec![0], vec![]]);

    // Page 8 lies in two ranges.
    assert_eq!(
        buddy.free_ranges(&[(7 * PS, 9 * PS), (8 * PS, 10 * PS)]),
        Err(Error::InvalidFree)
    );
    assert_eq!(buddy.nr_free(), 7);
    buddy.validate().unwrap();
}
