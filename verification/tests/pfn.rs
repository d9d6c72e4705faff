//! Tests of the conversions between addresses and page indices.

use the_buddy_system::PageFrame;

#[test]
fn try_to_usize_accepts_representable_values() {
    assert_eq!(0u8.try_to_usize(), Some(0));
    assert_eq!(0xffu8.try_to_usize(), Some(0xff));
    assert_eq!(0x1234u32.try_to_usize(), Some(0x1234));
    assert_eq!(0x1234_5678u64.try_to_usize(), Some(0x1234_5678));
    assert_eq!(0x1234_5678usize.try_to_usize(), Some(0x1234_5678));
}

#[test]
fn try_to_usize_rejects_wider_than_usize() {
    let too_wide = u128::from(u64::MAX) + 1;
    assert_eq!(too_wide.try_to_usize(), None);

    let above = usize::MAX as u128 + 1;
    assert_eq!(above.try_to_usize(), None);
}

#[test]
fn from_usize_widens_exactly() {
    assert_eq!(u64::from_usize(0x1234), 0x1234);
    assert_eq!(u128::from_usize(0x1234), 0x1234);
    assert_eq!(usize::from_usize(0x1234), 0x1234);
}

#[test]
fn from_usize_saturates_for_narrow_types() {
    assert_eq!(u8::from_usize(0xff), 0xff);
    assert_eq!(u8::from_usize(0x100), u8::MAX);
    assert_eq!(u16::from_usize(0x1_0000), u16::MAX);
}

#[test]
fn round_trip_is_identity_for_representable_indices() {
    for index in [0usize, 1, 0xff, 0x1000, 0x1234] {
        assert_eq!(u64::from_usize(index).try_to_usize(), Some(index));
        assert_eq!(usize::from_usize(index).try_to_usize(), Some(index));
    }
}
