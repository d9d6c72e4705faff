//! Tests of the address arithmetic.

use the_buddy_system::PhysAddr;

#[test]
fn align_up_rounds_to_the_next_multiple() {
    assert_eq!(<u64 as PhysAddr>::align_up(0, 0x1000), 0);
    assert_eq!(<u64 as PhysAddr>::align_up(1, 0x1000), 0x1000);
    assert_eq!(<u64 as PhysAddr>::align_up(0x1000, 0x1000), 0x1000);
    assert_eq!(<u64 as PhysAddr>::align_up(0x1001, 0x1000), 0x2000);
    assert_eq!(<u8 as PhysAddr>::align_up(0x21, 0x20), 0x40);
    assert_eq!(<u16 as PhysAddr>::align_up(0x100, 0x1000), 0x1000);
    assert_eq!(
        <u32 as PhysAddr>::align_up(0x1234_5678, 0x1000),
        0x1234_6000
    );
}

#[test]
fn align_up_saturates() {
    assert_eq!(<u8 as PhysAddr>::align_up(0xf1, 0x10), 0xff);
    assert_eq!(<u8 as PhysAddr>::align_up(0xff, 1), 0xff);
    assert_eq!(<u16 as PhysAddr>::align_up(0xffff, 2), 0xffff);
    assert_eq!(<u128 as PhysAddr>::align_up(u128::MAX, 0x100), u128::MAX);
    assert_eq!(
        <usize as PhysAddr>::align_up(usize::MAX - 1, 0x100),
        usize::MAX
    );
}

#[test]
fn align_down_rounds_to_the_previous_multiple() {
    assert_eq!(<usize as PhysAddr>::align_down(0xfff, 0x1000), 0);
    assert_eq!(<usize as PhysAddr>::align_down(0x1fff, 0x1000), 0x1000);
    assert_eq!(<u8 as PhysAddr>::align_down(0x3f, 0x20), 0x20);
    assert_eq!(
        <u64 as PhysAddr>::align_down(0x1234_5678_9abc_def1, 0x1000),
        0x1234_5678_9abc_d000
    );
    assert_eq!(
        <u128 as PhysAddr>::align_down(u128::MAX, 0x100),
        u128::MAX - 0xff
    );
}

#[test]
fn pfn_up_and_pfn_down_round_apart() {
    assert_eq!(<u32 as PhysAddr>::pfn_up(0, 0x1000), 0);
    assert_eq!(<u32 as PhysAddr>::pfn_up(0x1001, 0x1000), 2);
    assert_eq!(<u32 as PhysAddr>::pfn_down(0x1fff, 0x1000), 1);
    assert_eq!(<u32 as PhysAddr>::pfn_down(0x2000, 0x1000), 2);
    // No overflow at the top of the address space.
    assert_eq!(<u8 as PhysAddr>::pfn_up(0xff, 0x10), 0x10);
    assert_eq!(<u128 as PhysAddr>::pfn_up(u128::MAX, 2), 1 << 127);
    assert_eq!(<u16 as PhysAddr>::pfn_down(0xffff, 0x100), 0xff);
}

#[test]
fn pfn_to_phys_multiplies_and_saturates() {
    assert_eq!(<u64 as PhysAddr>::pfn_to_phys(2, 0x1000), 0x2000);
    assert_eq!(<u8 as PhysAddr>::pfn_to_phys(0xf, 0x10), 0xf0);
    assert_eq!(<u8 as PhysAddr>::pfn_to_phys(0x10, 0x10), 0xff);
    assert_eq!(<u16 as PhysAddr>::pfn_to_phys(0xffff, 0xffff), 0xffff);
    assert_eq!(
        <u64 as PhysAddr>::pfn_to_phys(u64::MAX, u64::MAX),
        u64::MAX
    );
    assert_eq!(<u128 as PhysAddr>::pfn_to_phys(u128::MAX, 2), u128::MAX);
}

#[test]
fn comparisons_sums_and_differences() {
    assert!(1u8.below(2));
    assert!(!2u32.below(2));
    assert!(7u128.same(7));
    assert!(!7usize.same(8));
    assert_eq!(3u16.plus(4), 7);
    assert_eq!(9u64.minus(4), 5);
    assert_eq!(<u8 as PhysAddr>::zero(), 0);
    assert_eq!(<u32 as PhysAddr>::highest(), u32::MAX);
}
