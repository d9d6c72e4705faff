//! Tests of the page descriptor.

use the_buddy_system::{Page, PageFlags};

#[test]
fn empty_page_is_pristine() {
    let page = Page::new();
    assert_eq!(page.flags(), PageFlags::empty());
    assert_eq!(page.order(), 0);
    assert_eq!(page.refcount(), 0);
    assert!(!page.is_free());
    assert_eq!(page, Page::new());
    assert_eq!(page, Page::default());
}

#[test]
fn buddy_flag_marks_free_heads() {
    let mut page = Page::new();
    page.flags.insert(PageFlags::buddy());
    page.order = 3;
    assert!(page.is_free());
    assert_eq!(page.order(), 3);

    page.flags.remove(PageFlags::buddy());
    assert!(!page.is_free());
}

#[test]
fn page_is_copy_and_eq() {
    let a = Page::new();
    let b = a;
    assert_eq!(a, b);

    let mut c = Page::new();
    c.refcount = 1;
    assert_ne!(a, c);
}
