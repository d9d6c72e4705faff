//! Tests of the error type.

use the_buddy_system::Error;

#[test]
fn error_is_copy_and_eq() {
    let e = Error::OutOfMemory;
    let copy = e;
    assert_eq!(e, copy);
    assert_ne!(Error::OutOfMemory, Error::InvalidOrder);
}

#[test]
fn display_covers_all_variants() {
    assert_eq!(Error::OutOfMemory.to_string().as_str(), "Out of memory");
    assert_eq!(Error::InvalidOrder.to_string().as_str(), "Invalid order");
    assert_eq!(
        Error::InvalidAddress.to_string().as_str(),
        "Invalid address"
    );
    assert_eq!(Error::InvalidFree.to_string().as_str(), "Invalid free");
    assert_eq!(
        Error::InvalidPageSize.to_string().as_str(),
        "Invalid page size"
    );
    assert_eq!(
        Error::InvalidPageArray.to_string().as_str(),
        "Invalid page descriptor array"
    );
    assert_eq!(
        Error::InvalidGeometry.to_string().as_str(),
        "Invalid geometry"
    );
    assert_eq!(
        Error::Uninitialized.to_string().as_str(),
        "Allocator is not initialized"
    );
    assert_eq!(
        Error::AlreadyInitialized.to_string().as_str(),
        "Allocator is already initialized"
    );
    assert_eq!(
        Error::CorruptFreeList.to_string().as_str(),
        "Corrupted free list"
    );
    assert_eq!(
        Error::Uncoalesced.to_string().as_str(),
        "Uncoalesced buddies"
    );
    assert_eq!(
        Error::CountMismatch.to_string().as_str(),
        "Free page count mismatch"
    );
    assert_eq!(Error::InternalError.to_string().as_str(), "Internal error");
}
