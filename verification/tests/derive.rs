//! A wrapper type with the implementations that the derive writes drives the
//! allocator just like a primitive address.

use the_buddy_system::derive::{crate_path, decimal, single_field, Found, Refusal, Shape};
use the_buddy_system::{Buddy, Page, PageFrame, PhysAddr};
use the_memblock::flags::MemblockFlags;
use the_memblock::memblock::Memblock;

const PS: u64 = 0x1000;

struct Addr(u64);

struct UsizeAddr(usize);

impl Clone for Addr {
    fn clone(&self) -> Self {
        *self
    }
}

impl Copy for Addr {}

impl PartialEq for Addr {
    fn eq(&self, other: &Self) -> bool {
        self.0 == other.0
    }
}

impl Eq for Addr {}

impl PartialOrd for Addr {
    fn partial_cmp(&self, other: &Self) -> Option<core::cmp::Ordering> {
        Some(self.0.cmp(&other.0))
    }
}

impl Ord for Addr {
    fn cmp(&self, other: &Self) -> core::cmp::Ordering {
        self.0.cmp(&other.0)
    }
}

impl core::fmt::Debug for Addr {
    fn fmt(&self, f: &mut core::fmt::Formatter<'_>) -> core::fmt::Result {
        f.debug_tuple("Addr").field(&self.0).finish()
    }
}

impl core::ops::Add for Addr {
    type Output = Self;
    fn add(self, rhs: Self) -> Self {
        Addr(self.0 + rhs.0)
    }
}

impl core::ops::Sub for Addr {
    type Output = Self;
    fn sub(self, rhs: Self) -> Self {
        Addr(self.0 - rhs.0)
    }
}

impl the_memblock::PhysAddr for Addr {
    const MAX: Self = Addr(u64::MAX);
    const ZERO: Self = Addr(0);

    fn align_up(addr: Self, alignment: Self) -> Self {
        Addr(<u64 as the_memblock::PhysAddr>::align_up(addr.0, alignment.0))
    }

    fn align_down(addr: Self, alignment: Self) -> Self {
        Addr(<u64 as the_memblock::PhysAddr>::align_down(addr.0, alignment.0))
    }

    fn pfn_up(addr: Self, page_size: Self) -> Self {
        Addr(<u64 as the_memblock::PhysAddr>::pfn_up(addr.0, page_size.0))
    }

    fn pfn_down(addr: Self, page_size: Self) -> Self {
        Addr(<u64 as the_memblock::PhysAddr>::pfn_down(addr.0, page_size.0))
    }

    fn pfn_to_phys(pfn: Self, page_size: Self) -> Self {
        Addr(<u64 as the_memblock::PhysAddr>::pfn_to_phys(pfn.0, page_size.0))
    }
}

impl PhysAddr for Addr {
    fn zero() -> Self {
        Addr(<u64 as PhysAddr>::zero())
    }

    fn highest() -> Self {
        Addr(<u64 as PhysAddr>::highest())
    }

    fn below(self, other: Self) -> bool {
        self.0.below(other.0)
    }

    fn same(self, other: Self) -> bool {
        self.0.same(other.0)
    }

    fn plus(self, rhs: Self) -> Self {
        Addr(self.0.plus(rhs.0))
    }

    fn minus(self, rhs: Self) -> Self {
        Addr(self.0.minus(rhs.0))
    }

    fn align_up(addr: Self, alignment: Self) -> Self {
        Addr(<u64 as PhysAddr>::align_up(addr.0, alignment.0))
    }

    fn align_down(addr: Self, alignment: Self) -> Self {
        Addr(<u64 as PhysAddr>::align_down(addr.0, alignment.0))
    }

    fn pfn_up(addr: Self, page_size: Self) -> Self {
        Addr(<u64 as PhysAddr>::pfn_up(addr.0, page_size.0))
    }

    fn pfn_down(addr: Self, page_size: Self) -> Self {
        Addr(<u64 as PhysAddr>::pfn_down(addr.0, page_size.0))
    }

    fn pfn_to_phys(pfn: Self, page_size: Self) -> Self {
        Addr(<u64 as PhysAddr>::pfn_to_phys(pfn.0, page_size.0))
    }
}

impl PageFrame for Addr {
    fn try_to_usize(self) -> Option<usize> {
        self.0.try_to_usize()
    }

    fn from_usize(index: usize) -> Self {
        Addr(u64::from_usize(index))
    }
}

impl Clone for UsizeAddr {
    fn clone(&self) -> Self {
        *self
    }
}

impl Copy for UsizeAddr {}

impl PartialEq for UsizeAddr {
    fn eq(&self, other: &Self) -> bool {
        self.0 == other.0
    }
}

impl Eq for UsizeAddr {}

impl core::fmt::Debug for UsizeAddr {
    fn fmt(&self, f: &mut core::fmt::Formatter<'_>) -> core::fmt::Result {
        f.debug_tuple("UsizeAddr").field(&self.0).finish()
    }
}

impl PhysAddr for UsizeAddr {
    fn zero() -> Self {
        UsizeAddr(<usize as PhysAddr>::zero())
    }

    fn highest() -> Self {
        UsizeAddr(<usize as PhysAddr>::highest())
    }

    fn below(self, other: Self) -> bool {
        self.0.below(other.0)
    }

    fn same(self, other: Self) -> bool {
        self.0.same(other.0)
    }

    fn plus(self, rhs: Self) -> Self {
        UsizeAddr(self.0.plus(rhs.0))
    }

    fn minus(self, rhs: Self) -> Self {
        UsizeAddr(self.0.minus(rhs.0))
    }

    fn align_up(addr: Self, alignment: Self) -> Self {
        UsizeAddr(<usize as PhysAddr>::align_up(addr.0, alignment.0))
    }

    fn align_down(addr: Self, alignment: Self) -> Self {
        UsizeAddr(<usize as PhysAddr>::align_down(addr.0, alignment.0))
    }

    fn pfn_up(addr: Self, page_size: Self) -> Self {
        UsizeAddr(<usize as PhysAddr>::pfn_up(addr.0, page_size.0))
    }

    fn pfn_down(addr: Self, page_size: Self) -> Self {
        UsizeAddr(<usize as PhysAddr>::pfn_down(addr.0, page_size.0))
    }

    fn pfn_to_phys(pfn: Self, page_size: Self) -> Self {
        UsizeAddr(<usize as PhysAddr>::pfn_to_phys(pfn.0, page_size.0))
    }
}

impl PageFrame for UsizeAddr {
    fn try_to_usize(self) -> Option<usize> {
        self.0.try_to_usize()
    }

    fn from_usize(index: usize) -> Self {
        UsizeAddr(usize::from_usize(index))
    }
}

#[test]
fn derived_constants() {
    assert_eq!(<Addr as the_memblock::PhysAddr>::MAX, Addr(u64::MAX));
    assert_eq!(<Addr as the_memblock::PhysAddr>::ZERO, Addr(0));
    assert_eq!(Addr::highest(), Addr(u64::MAX));
    assert_eq!(Addr::zero(), Addr(0));
    assert_eq!(UsizeAddr::highest(), UsizeAddr(usize::MAX));
    assert_eq!(UsizeAddr::zero(), UsizeAddr(0));
}

#[test]
fn derived_phys_addr_methods_delegate() {
    assert_eq!(<Addr as PhysAddr>::align_up(Addr(1), Addr(PS)), Addr(PS));
    assert_eq!(
        <Addr as PhysAddr>::align_down(Addr(0x1fff), Addr(PS)),
        Addr(PS)
    );
    assert_eq!(<Addr as PhysAddr>::pfn_up(Addr(1), Addr(PS)), Addr(1));
    assert_eq!(<Addr as PhysAddr>::pfn_down(Addr(0xfff), Addr(PS)), Addr(0));
    assert_eq!(
        <Addr as PhysAddr>::pfn_to_phys(Addr(2), Addr(PS)),
        Addr(0x2000)
    );
    // Saturation near the top of the address space is preserved.
    assert_eq!(
        <Addr as PhysAddr>::align_up(Addr(u64::MAX - 0x7f), Addr(0x100)),
        Addr(u64::MAX)
    );
}

#[test]
fn derived_page_frame_methods_delegate() {
    assert_eq!(Addr(0x1234).try_to_usize(), Some(0x1234));
    assert_eq!(Addr::from_usize(0x1234), Addr(0x1234));
    assert_eq!(UsizeAddr(0x1234).try_to_usize(), Some(0x1234));
    assert_eq!(UsizeAddr::from_usize(0x1234), UsizeAddr(0x1234));
}

#[test]
fn derived_supertrait_impls() {
    // Copy + Clone.
    let a = Addr(5);
    let b = a;
    assert_eq!(a, b);

    // PartialEq + Eq + PartialOrd + Ord.
    assert_eq!(Addr(1), Addr(1));
    assert_ne!(Addr(1), Addr(2));
    assert!(Addr(1) < Addr(2));
    assert_eq!(core::cmp::min(Addr(3), Addr(1)), Addr(1));

    // Add + Sub.
    assert_eq!(Addr(1) + Addr(2), Addr(3));
    assert_eq!(Addr(3) - Addr(1), Addr(2));

    // Debug.
    assert_eq!(format!("{:?}", Addr(5)), "Addr(5)");
}

#[test]
fn derived_type_drives_the_buddy_allocator() {
    let mut pages = [Page::new(); 64];
    let mut buddy = Buddy::<Addr, 4>::new(Addr(0), Addr(PS), &mut pages).unwrap();
    buddy.free_range(Addr(0), Addr(64 * PS)).unwrap();
    assert_eq!(buddy.nr_free(), 64);

    let addr = buddy.alloc_pages(2).unwrap();
    assert_eq!(addr.0 % (4 * PS), 0);
    buddy.free_pages(addr, 2).unwrap();
    assert_eq!(buddy.nr_free(), 64);
    buddy.validate().unwrap();
}

#[test]
fn derived_type_works_with_raw_parts() {
    let mut pages = [Page::new(); 64];
    let mut buddy: Buddy<'_, Addr, 4> =
        Buddy::from_raw_parts(&mut pages, 0, Addr(0), Addr(PS)).unwrap();

    buddy.free_range(Addr(0), Addr(64 * PS)).unwrap();
    let addr = buddy.alloc_pages(0).unwrap();
    assert_eq!(addr.0 % PS, 0);
    buddy.free_pages(addr, 0).unwrap();
    buddy.validate().unwrap();
}

#[test]
fn derived_type_works_with_memblock() {
    let mut mb = Memblock::<Addr, 8>::new();
    mb.add(Addr(0x1000), Addr(0x1000), MemblockFlags::NONE)
        .unwrap();
    let p = mb
        .phys_alloc(Addr(0x100), Addr(0x100), MemblockFlags::NONE)
        .unwrap();
    assert_eq!(p, Addr(0x1f00));
    assert!(mb.is_reserved(p));
    assert_eq!(mb.phys_mem_size(), Addr(0x1000));
}

#[test]
fn only_tuple_structs_with_one_field_are_supported() {
    assert_eq!(single_field(0, Shape::Tuple(1)), Ok(()));
    assert_eq!(single_field(1, Shape::Tuple(1)), Err(Refusal::Generic));
    assert_eq!(single_field(2, Shape::Union), Err(Refusal::Generic));
    assert_eq!(
        single_field(0, Shape::Tuple(0)),
        Err(Refusal::FieldCount(0))
    );
    assert_eq!(
        single_field(0, Shape::Tuple(12)),
        Err(Refusal::FieldCount(12))
    );
    assert_eq!(single_field(0, Shape::Named), Err(Refusal::NotTuple));
    assert_eq!(
        single_field(0, Shape::Enumeration),
        Err(Refusal::Enumeration)
    );
    assert_eq!(single_field(0, Shape::Union), Err(Refusal::Union));
}

#[test]
fn refusals_have_messages() {
    assert_eq!(
        Refusal::Generic.message(),
        "`#[derive(PageFrame)]` does not support generic types"
    );
    assert_eq!(
        Refusal::FieldCount(2).message(),
        "`#[derive(PageFrame)]` requires exactly one field, found 2"
    );
    assert_eq!(
        Refusal::NotTuple.message(),
        "`#[derive(PageFrame)]` only supports tuple structs with a single unnamed \
         field, e.g. `struct Addr(u64)`"
    );
    assert_eq!(
        Refusal::Enumeration.message(),
        "`#[derive(PageFrame)]` cannot be applied to an enum"
    );
    assert_eq!(
        Refusal::Union.message(),
        "`#[derive(PageFrame)]` cannot be applied to a union"
    );
}

#[test]
fn decimal_digits_are_written_in_order() {
    assert_eq!(decimal(0), "0");
    assert_eq!(decimal(9), "9");
    assert_eq!(decimal(10), "10");
    assert_eq!(decimal(1_234_567_890), "1234567890");
}

#[test]
fn crate_path_depends_on_where_the_crate_is_found() {
    assert_eq!(crate_path(&Found::Itself), "crate");
    assert_eq!(
        crate_path(&Found::Named(String::from("buddies"))),
        "::buddies"
    );
    assert_eq!(crate_path(&Found::Missing), "::the_buddy_system");
}
