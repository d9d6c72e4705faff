//! Tests of the allocator.

use the_buddy_system::order::pages_in_order;
use the_buddy_system::{Buddy, Error, Page, PageFlags};

const PS: usize = 0x1000;
const PAGES: usize = 64;
const MAX_ORDER: usize = 6;
const MAX_BLOCK: usize = 32;

fn arena(pages: &mut [Page]) -> Buddy<'_, usize, MAX_ORDER> {
    Buddy::new(0, PS, pages).unwrap()
}

fn freed_arena(pages: &mut [Page]) -> Buddy<'_, usize, MAX_ORDER> {
    let mut buddy = arena(pages);
    buddy.free_range(0, PAGES * PS).unwrap();
    buddy
}

#[test]
fn uninit_is_inert_and_const() {
    let placeholder: Buddy<'static, usize, MAX_ORDER> = Buddy::uninit();
    assert!(!placeholder.is_initialized());
    assert_eq!(placeholder.managed_pages(), 0);
    assert_eq!(placeholder.nr_free(), 0);
    assert_eq!(placeholder.base(), 0);
    assert_eq!(placeholder.page_size(), 0);
    assert_eq!(placeholder.nr_free_blocks(0), Some(0));

    // No operation may touch descriptors.
    let mut buddy = Buddy::<usize, MAX_ORDER>::uninit();
    assert!(matches!(buddy.alloc_pages(0), Err(Error::Uninitialized)));
    assert!(matches!(
        buddy.free_pages(0, 0),
        Err(Error::Uninitialized)
    ));
    assert!(matches!(
        buddy.free_range(0, PAGES * PS),
        Err(Error::Uninitialized)
    ));
    assert!(matches!(buddy.validate(), Err(Error::Uninitialized)));
}

#[test]
fn init_fills_the_placeholder_once() {
    let mut pages = [Page::new(); PAGES];
    let mut other = [Page::new(); PAGES];
    let mut buddy = Buddy::<usize, MAX_ORDER>::uninit();

    buddy.init(&mut pages, 0, 0, PS).unwrap();
    assert!(buddy.is_initialized());
    assert_eq!(buddy.managed_pages(), PAGES);
    assert_eq!(buddy.base(), 0);

    buddy.free_range(0, PAGES * PS).unwrap();
    assert_eq!(buddy.nr_free(), PAGES);
    buddy.validate().unwrap();

    // A second init is rejected before any descriptor is touched.
    assert!(matches!(
        buddy.init(&mut other, 0, 0, PS),
        Err(Error::AlreadyInitialized)
    ));
    assert_eq!(buddy.nr_free(), PAGES);
    buddy.validate().unwrap();
}

#[test]
fn failed_init_leaves_the_placeholder_intact() {
    let mut small = [Page::new(); MAX_BLOCK - 1];
    let mut pages = [Page::new(); PAGES];
    let mut buddy = Buddy::<usize, MAX_ORDER>::uninit();

    assert!(matches!(
        buddy.init(&mut small, 0, 0, PS),
        Err(Error::InvalidGeometry)
    ));
    assert!(!buddy.is_initialized());

    // A corrected init still succeeds afterwards.
    buddy.init(&mut pages, 0, 0, PS).unwrap();
    buddy.free_range(0, PAGES * PS).unwrap();
    buddy.validate().unwrap();
}

#[test]
fn new_rejects_zero_max_order() {
    let mut pages = [Page::new(); 8];
    assert!(matches!(
        Buddy::<usize, 0>::new(0, PS, &mut pages),
        Err(Error::InvalidGeometry)
    ));
}

#[test]
fn new_rejects_bad_page_size() {
    let mut pages = [Page::new(); PAGES];
    assert!(matches!(
        Buddy::<usize, MAX_ORDER>::new(0, 0, &mut pages),
        Err(Error::InvalidPageSize)
    ));
    assert!(matches!(
        Buddy::<usize, MAX_ORDER>::new(0, 3, &mut pages),
        Err(Error::InvalidPageSize)
    ));
}

#[test]
fn new_rejects_unaligned_base() {
    let mut pages = [Page::new(); PAGES];
    // The largest block spans MAX_BLOCK pages; a base that is only page
    // aligned cannot express it.
    assert!(matches!(
        Buddy::<usize, MAX_ORDER>::new(PS, PS, &mut pages),
        Err(Error::InvalidGeometry)
    ));
}

#[test]
fn new_rejects_arena_smaller_than_max_block() {
    let mut pages = [Page::new(); MAX_BLOCK - 1];
    assert!(matches!(
        Buddy::<usize, MAX_ORDER>::new(0, PS, &mut pages),
        Err(Error::InvalidGeometry)
    ));
}

#[test]
fn new_accepts_block_aligned_base() {
    let mut pages = [Page::new(); PAGES];
    let base = MAX_BLOCK * PS;
    let buddy = Buddy::<usize, MAX_ORDER>::new(base, PS, &mut pages).unwrap();
    assert_eq!(buddy.base(), base);
    assert_eq!(buddy.page_size(), PS);
    assert_eq!(buddy.managed_pages(), PAGES);
    assert_eq!(buddy.nr_free(), 0);
    buddy.validate().unwrap();
}

#[test]
fn free_range_bootstraps_and_coalesces() {
    let mut pages = [Page::new(); PAGES];
    let buddy = freed_arena(&mut pages);

    assert_eq!(buddy.nr_free(), PAGES);
    // The largest two blocks cannot merge into an invalid order.
    assert_eq!(buddy.nr_free_blocks(5), Some(2));
    assert_eq!(buddy.nr_free_blocks(4), Some(0));
    assert_eq!(buddy.nr_free_blocks(MAX_ORDER as u8), None);
    buddy.validate().unwrap();
}

#[test]
fn free_range_clips_to_managed_range() {
    let mut pages = [Page::new(); PAGES];
    let mut buddy = arena(&mut pages);

    // Entirely outside: a no-op.
    buddy.free_range(PAGES * PS, 2 * PAGES * PS).unwrap();
    assert_eq!(buddy.nr_free(), 0);

    // Partially outside: only the overlap is freed.
    buddy.free_range(PS / 2, 3 * PS).unwrap();
    assert_eq!(buddy.nr_free(), 2);
    buddy.validate().unwrap();

    // Around the top of the arena: clipped to the last page.
    let mut buddy = arena(&mut pages);
    buddy.free_range((PAGES - 1) * PS, 2 * PAGES * PS).unwrap();
    assert_eq!(buddy.nr_free(), 1);
    buddy.validate().unwrap();
}

#[test]
fn freeing_lower_pages_coalesces_existing_blocks() {
    let mut pages = [Page::new(); PAGES];
    let mut buddy = arena(&mut pages);

    // A deliberately ragged range: [1, 31) splits into one block per
    // order, from 0 up to the largest that fits.
    buddy.free_range(PS, 31 * PS).unwrap();
    assert_eq!(buddy.nr_free(), 30);
    assert_eq!(buddy.nr_free_blocks(0), Some(2));
    assert_eq!(buddy.nr_free_blocks(1), Some(2));
    assert_eq!(buddy.nr_free_blocks(2), Some(2));
    assert_eq!(buddy.nr_free_blocks(3), Some(2));
    assert_eq!(buddy.nr_free_blocks(4), Some(0));
    buddy.validate().unwrap();

    // Freeing page 0 cascades merges through [0, 16).
    buddy.free_range(0, PS).unwrap();
    assert_eq!(buddy.nr_free(), 31);
    assert_eq!(buddy.nr_free_blocks(4), Some(1));
    assert_eq!(buddy.nr_free_blocks(3), Some(1));
    assert_eq!(buddy.nr_free_blocks(2), Some(1));
    assert_eq!(buddy.nr_free_blocks(1), Some(1));
    assert_eq!(buddy.nr_free_blocks(0), Some(1));
    buddy.validate().unwrap();
}

#[test]
fn alloc_splits_from_the_largest_block() {
    let mut pages = [Page::new(); PAGES];
    let mut buddy = freed_arena(&mut pages);

    // The last freed block is the list head, so allocation starts at
    // the second large block.
    let addr = buddy.alloc_pages(2).unwrap();
    assert_eq!(addr, MAX_BLOCK * PS);
    assert_eq!(addr % (4 * PS), 0);
    assert_eq!(buddy.nr_free(), PAGES - 4);
    assert_eq!(buddy.nr_free_blocks(4), Some(1));
    assert_eq!(buddy.nr_free_blocks(3), Some(1));
    assert_eq!(buddy.nr_free_blocks(2), Some(1));

    buddy.free_pages(addr, 2).unwrap();
    assert_eq!(buddy.nr_free(), PAGES);
    assert_eq!(buddy.nr_free_blocks(5), Some(2));
    buddy.validate().unwrap();
}

#[test]
fn alloc_and_free_every_page() {
    let mut pages = [Page::new(); PAGES];
    let mut buddy = freed_arena(&mut pages);

    let mut addrs = Vec::new();
    for _ in 0..PAGES {
        addrs.push(buddy.alloc_pages(0).unwrap());
    }
    assert!(matches!(buddy.alloc_pages(0), Err(Error::OutOfMemory)));
    assert_eq!(buddy.nr_free(), 0);

    addrs.sort_unstable();
    let expected: Vec<usize> = (0..PAGES).map(|idx| idx * PS).collect();
    assert_eq!(addrs, expected);

    for addr in addrs.into_iter().rev() {
        buddy.free_pages(addr, 0).unwrap();
    }
    assert_eq!(buddy.nr_free(), PAGES);
    assert_eq!(buddy.nr_free_blocks(5), Some(2));
    buddy.validate().unwrap();
}

#[test]
fn alloc_rejects_invalid_order_and_reports_oom() {
    let mut pages = [Page::new(); PAGES];
    let mut buddy = arena(&mut pages);

    assert!(matches!(
        buddy.alloc_pages(MAX_ORDER as u8),
        Err(Error::InvalidOrder)
    ));
    assert!(matches!(buddy.alloc_pages(0), Err(Error::OutOfMemory)));
}

#[test]
fn free_pages_rejects_bad_input() {
    let mut pages = [Page::new(); PAGES];
    let mut buddy = freed_arena(&mut pages);

    assert!(matches!(
        buddy.free_pages(0, MAX_ORDER as u8),
        Err(Error::InvalidOrder)
    ));
    assert!(matches!(
        buddy.free_pages(PS / 2, 0),
        Err(Error::InvalidAddress)
    ));
    assert!(matches!(
        buddy.free_pages(PAGES * PS, 0),
        Err(Error::InvalidAddress)
    ));
    // A free head cannot be freed again.
    assert!(matches!(buddy.free_pages(0, 0), Err(Error::InvalidFree)));

    // An allocation cannot be freed at a misaligned address...
    let addr = buddy.alloc_pages(1).unwrap();
    assert!(matches!(
        buddy.free_pages(addr + PS, 1),
        Err(Error::InvalidAddress)
    ));
    // ...nor twice.
    buddy.free_pages(addr, 1).unwrap();
    assert!(matches!(
        buddy.free_pages(addr, 1),
        Err(Error::InvalidFree)
    ));
}

#[test]
fn free_range_rejects_overlap_with_free_memory() {
    let mut pages = [Page::new(); PAGES];
    let mut buddy = arena(&mut pages);

    buddy.free_range(0, 4 * PS).unwrap();
    // [1, 3) lies inside the free order-2 block [0, 4).
    assert!(matches!(
        buddy.free_range(PS, 2 * PS),
        Err(Error::InvalidFree)
    ));
    assert_eq!(buddy.nr_free(), 4);
    buddy.validate().unwrap();
}

#[test]
fn free_range_rejects_overlap_with_allocated_memory() {
    let mut pages = [Page::new(); PAGES];
    let mut buddy = freed_arena(&mut pages);

    let addr = buddy.alloc_pages(0).unwrap();
    assert!(matches!(
        buddy.free_range(addr, addr + PS),
        Err(Error::InvalidFree)
    ));
    assert_eq!(buddy.nr_free(), PAGES - 1);
}

#[test]
fn validate_detects_unlinked_free_head() {
    let mut pages = [Page::new(); PAGES];
    let mut buddy = freed_arena(&mut pages);

    // Mark a page free without linking it into any list.
    {
        let pages = buddy.pages.as_mut().unwrap();
        pages[8].flags.insert(PageFlags::buddy());
        pages[8].order = 5;
    }
    assert!(matches!(
        buddy.validate(),
        Err(Error::CorruptFreeList)
    ));
}

#[test]
fn validate_detects_uncoalesced_buddies() {
    let mut pages = [Page::new(); PAGES];
    let mut buddy = arena(&mut pages);

    // Hand-build two free order-2 buddies that should have merged.
    {
        let pages = buddy.pages.as_mut().unwrap();
        for idx in [0usize, 4] {
            let page = &mut pages[idx];
            page.flags.insert(PageFlags::buddy());
            page.order = 2;
            buddy.areas[2].push_front(pages, idx);
        }
    }
    assert!(matches!(buddy.validate(), Err(Error::Uncoalesced)));
}

#[test]
fn validate_detects_count_mismatch() {
    let mut pages = [Page::new(); PAGES];
    let mut buddy = freed_arena(&mut pages);

    buddy.nr_free = 0;
    assert!(matches!(buddy.validate(), Err(Error::CountMismatch)));
}

#[test]
fn random_operations_keep_invariants() {
    let mut pages = [Page::new(); PAGES];
    let mut buddy = freed_arena(&mut pages);

    let mut state = 0x1234_5678_9abc_def0u64;
    let mut rand = move || {
        state ^= state << 13;
        state ^= state >> 7;
        state ^= state << 17;
        state
    };

    let mut live: Vec<(usize, u8)> = Vec::new();
    for _ in 0..4000 {
        if rand() % 3 != 0 && !live.is_empty() {
            let i = (rand() as usize) % live.len();
            let (addr, order) = live.swap_remove(i);
            buddy.free_pages(addr, order).unwrap();
        } else {
            let order = (rand() % MAX_ORDER as u64) as u8;
            if let Ok(addr) = buddy.alloc_pages(order) {
                live.push((addr, order));
            }
        }
        buddy.validate().unwrap();
    }

    // Every outstanding allocation must still be freeable, and the
    // arena must return to its fully free state.
    let mut allocated_pages = 0;
    for (addr, order) in live.drain(..) {
        allocated_pages += pages_in_order(order);
        buddy.free_pages(addr, order).unwrap();
    }
    assert!(allocated_pages <= PAGES);
    assert_eq!(buddy.nr_free(), PAGES);
    buddy.validate().unwrap();
}

#[test]
fn random_operations_on_kernel_sized_arena() {
    // MAX_ORDER 11 (orders 0..10) as configured in the kernel by
    // default, over a 8 MiB arena: 2048 pages of 4 KiB.
    const PAGES: usize = 2048;
    let mut pages = vec![Page::new(); PAGES];
    let mut buddy = Buddy::<usize, 11>::new(0, PS, &mut pages).unwrap();
    buddy.free_range(0, PAGES * PS).unwrap();
    assert_eq!(buddy.nr_free(), PAGES);
    // 2048 pages = two 1024-page blocks at order 10.
    assert_eq!(buddy.nr_free_blocks(10), Some(2));

    let mut state = 0xdead_beef_cafe_babeu64;
    let mut rand = move || {
        state ^= state << 13;
        state ^= state >> 7;
        state ^= state << 17;
        state
    };

    let mut live: Vec<(usize, u8)> = Vec::new();
    for _ in 0..2000 {
        if rand() % 2 == 0 && !live.is_empty() {
            let i = (rand() as usize) % live.len();
            let (addr, order) = live.swap_remove(i);
            buddy.free_pages(addr, order).unwrap();
        } else {
            let order = (rand() % 11) as u8;
            if let Ok(addr) = buddy.alloc_pages(order) {
                live.push((addr, order));
            }
        }
        buddy.validate().unwrap();
    }
}
