//! Tests of the allocator together with the boot memory map.

use std::sync::Mutex;

use the_buddy_system::{Buddy, Error, Page, PageFrame, PhysAddr};
use the_memblock::flags::MemblockFlags;
use the_memblock::memblock::Memblock;

const PS: usize = 0x1000;
const BASE: usize = 0x1_0000;
const PAGES: usize = 64;
const MAX_ORDER: usize = 4;

/// Frees every free memory range tracked by `mb`.
fn free_memblock<const N: usize>(
    buddy: &mut Buddy<'_, usize, MAX_ORDER>,
    mb: &Memblock<usize, N>,
) -> Result<(), Error> {
    let ranges: Vec<(usize, usize)> = mb.free_mem_ranges(MemblockFlags::NONE).collect();
    buddy.free_ranges(&ranges)
}

#[test]
fn boot_handoff_from_memblock_to_buddy() {
    let mut mb = Memblock::<usize, 16>::new();
    mb.add(BASE, PAGES * PS, MemblockFlags::NONE).unwrap();
    // The kernel image and a NOMAP page must not reach the buddy allocator.
    mb.reserve_kern(BASE, 2 * PS).unwrap();
    mb.mark_nomap(BASE + 0x2_0000, PS).unwrap();

    let mut pages = vec![Page::new(); PAGES];
    let mut buddy = Buddy::<usize, MAX_ORDER>::new(BASE, PS, &mut pages).unwrap();
    free_memblock(&mut buddy, &mb).unwrap();

    assert_eq!(buddy.nr_free(), PAGES - 3);
    buddy.validate().unwrap();

    // Allocate everything; reserved and NOMAP memory must never appear.
    let mut addrs = Vec::new();
    while let Ok(addr) = buddy.alloc_pages(0) {
        assert_eq!(addr % PS, 0);
        addrs.push(addr);
    }
    addrs.sort_unstable();

    let expected: Vec<usize> = (0..PAGES)
        .map(|idx| BASE + idx * PS)
        .filter(|addr| *addr != BASE && *addr != BASE + PS && *addr != BASE + 0x2_0000)
        .collect();
    assert_eq!(addrs, expected);
    assert!(matches!(buddy.alloc_pages(0), Err(Error::OutOfMemory)));
}

#[test]
fn feeding_the_same_free_ranges_twice_is_rejected() {
    let mut mb = Memblock::<usize, 16>::new();
    mb.add(BASE, PAGES * PS, MemblockFlags::NONE).unwrap();

    let mut pages = vec![Page::new(); PAGES];
    let mut buddy = Buddy::<usize, MAX_ORDER>::new(BASE, PS, &mut pages).unwrap();
    free_memblock(&mut buddy, &mb).unwrap();
    assert!(matches!(
        free_memblock(&mut buddy, &mb),
        Err(Error::InvalidFree)
    ));
}

#[test]
fn wide_physical_addresses_above_usize_range() {
    // On 32-bit x86 with PAE, physical addresses are 64-bit while `usize` is
    // 32-bit. The arena base can sit above 4 GiB; only the page offset
    // relative to the base is narrowed to `usize`.
    let base = 0x1_0000_0000u64;
    let mut pages = vec![Page::new(); PAGES];
    let mut buddy = Buddy::<u64, MAX_ORDER>::new(base, PS as u64, &mut pages).unwrap();
    buddy
        .free_range(base, base + (PAGES * PS) as u64)
        .unwrap();
    assert_eq!(buddy.nr_free(), PAGES);

    let addr = buddy.alloc_pages(2).unwrap();
    assert!(addr >= base);
    assert_eq!((addr - base) % (4 * PS as u64), 0);
    buddy.free_pages(addr, 2).unwrap();
    assert_eq!(buddy.nr_free(), PAGES);
    buddy.validate().unwrap();
}

#[test]
fn static_placeholder_can_be_initialized() {
    let pages: &'static mut [Page] = Box::leak(vec![Page::new(); PAGES].into_boxed_slice());
    let buddy: Mutex<Buddy<'static, usize, MAX_ORDER>> = Mutex::new(Buddy::uninit());

    let mut guard = buddy.lock().unwrap();
    assert!(!guard.is_initialized());
    guard.init(pages, 0, BASE, PS).unwrap();
    guard.free_range(BASE, BASE + PAGES * PS).unwrap();
    assert_eq!(guard.nr_free(), PAGES);
    guard.validate().unwrap();
}

#[test]
fn kernel_style_raw_descriptor_array() {
    let mut pages = vec![Page::new(); PAGES];
    let mut buddy: Buddy<'_, usize, MAX_ORDER> =
        Buddy::from_raw_parts(&mut pages, 0, BASE, PS).unwrap();

    buddy.free_range(BASE, BASE + PAGES * PS).unwrap();
    assert_eq!(buddy.nr_free(), PAGES);

    let addr = buddy.alloc_pages(0).unwrap();
    assert!((BASE..BASE + PAGES * PS).contains(&addr));
    assert_eq!((addr - BASE) % PS, 0);
    buddy.free_pages(addr, 0).unwrap();
    buddy.validate().unwrap();
}

#[test]
fn allocator_can_be_placed_in_a_lock() {
    fn assert_send<T: Send>() {}
    assert_send::<Buddy<'static, usize, MAX_ORDER>>();
}

/// A custom physical address newtype that forwards to the inner integer.
#[derive(Clone, Copy)]
struct Addr(u64);

impl PhysAddr for Addr {
    fn zero() -> Self {
        Addr(0)
    }

    fn highest() -> Self {
        Addr(u64::MAX)
    }

    fn below(self, other: Self) -> bool {
        self.0 < other.0
    }

    fn same(self, other: Self) -> bool {
        self.0 == other.0
    }

    fn plus(self, rhs: Self) -> Self {
        Addr(self.0 + rhs.0)
    }

    fn minus(self, rhs: Self) -> Self {
        Addr(self.0 - rhs.0)
    }

    fn align_up(addr: Self, alignment: Self) -> Self {
        Addr(<u64 as PhysAddr>::align_up(addr.0, alignment.0))
    }

    fn align_down(addr: Self, alignment: Self) -> Self {
        Addr(<u64 as PhysAddr>::align_down(addr.0, alignment.0))
    }

    fn pfn_up(addr: Self, page_size: Self) -> Self {
        Addr(<u64 as PhysAddr>::pfn_up(addr.0, page_size.0))
    }

    fn pfn_down(addr: Self, page_size: Self) -> Self {
        Addr(<u64 as PhysAddr>::pfn_down(addr.0, page_size.0))
    }

    fn pfn_to_phys(pfn: Self, page_size: Self) -> Self {
        Addr(<u64 as PhysAddr>::pfn_to_phys(pfn.0, page_size.0))
    }
}

impl PageFrame for Addr {
    fn try_to_usize(self) -> Option<usize> {
        usize::try_from(self.0).ok()
    }

    fn from_usize(index: usize) -> Self {
        Addr(index as u64)
    }
}

#[test]
fn custom_address_type_works_end_to_end() {
    let base = Addr(0x20_0000);
    let mut pages = vec![Page::new(); PAGES];
    let mut buddy = Buddy::<Addr, MAX_ORDER>::new(base, Addr(PS as u64), &mut pages).unwrap();
    buddy
        .free_range(base, Addr(base.0 + (PAGES * PS) as u64))
        .unwrap();
    assert_eq!(buddy.nr_free(), PAGES);

    let addr = buddy.alloc_pages(3).unwrap();
    assert_eq!(addr.0 % (8 * PS as u64), 0);
    buddy.free_pages(addr, 3).unwrap();
    assert_eq!(buddy.nr_free(), PAGES);
    buddy.validate().unwrap();
}
