//! Tests of the free list.

use core::mem::size_of;

use the_buddy_system::list::{FreeList, Link, LinkSlot};
use the_buddy_system::Page;

fn pages() -> [Page; 8] {
    [Page::new(); 8]
}

fn collect(list: &FreeList, pages: &[Page]) -> Vec<usize> {
    list.iter(pages).collect()
}

#[test]
fn link_is_niche_optimized() {
    assert_eq!(size_of::<LinkSlot>(), size_of::<usize>());
    // The links must not grow the page descriptor: 8 bytes of flags,
    // order and refcount plus two machine-word links.
    assert_eq!(size_of::<Page>(), 8 + 2 * size_of::<usize>());
}

#[test]
fn link_round_trips() {
    assert_eq!(Link::new(0).index(), 0);
    assert_eq!(Link::new(1).index(), 1);
    assert_eq!(Link::new(usize::MAX - 1).index(), usize::MAX - 1);
}

#[test]
fn new_list_is_empty() {
    let mut list = FreeList::new();
    let mut pages = pages();
    assert_eq!(collect(&list, &pages), Vec::<usize>::new());
    assert_eq!(list.pop_front(&mut pages), None);
}

#[test]
fn push_front_pop_front_is_lifo() {
    let mut list = FreeList::new();
    let mut pages = pages();
    list.push_front(&mut pages, 1);
    list.push_front(&mut pages, 2);
    list.push_front(&mut pages, 3);
    assert_eq!(collect(&list, &pages), vec![3, 2, 1]);
    assert_eq!(list.pop_front(&mut pages), Some(3));
    assert_eq!(list.pop_front(&mut pages), Some(2));
    assert_eq!(list.pop_front(&mut pages), Some(1));
    assert_eq!(list.pop_front(&mut pages), None);
}

#[test]
fn push_back_pop_front_is_fifo() {
    let mut list = FreeList::new();
    let mut pages = pages();
    list.push_back(&mut pages, 1);
    list.push_back(&mut pages, 2);
    list.push_back(&mut pages, 3);
    assert_eq!(collect(&list, &pages), vec![1, 2, 3]);
    assert_eq!(list.pop_front(&mut pages), Some(1));
    assert_eq!(list.pop_front(&mut pages), Some(2));
    assert_eq!(list.pop_front(&mut pages), Some(3));
    assert_eq!(list.pop_front(&mut pages), None);
}

#[test]
fn mixed_pushes_keep_order() {
    let mut list = FreeList::new();
    let mut pages = pages();
    list.push_back(&mut pages, 1);
    list.push_front(&mut pages, 0);
    list.push_back(&mut pages, 2);
    assert_eq!(collect(&list, &pages), vec![0, 1, 2]);
}

#[test]
fn remove_front_middle_back() {
    let mut list = FreeList::new();
    let mut pages = pages();
    for idx in 0..5 {
        list.push_back(&mut pages, idx);
    }
    list.remove(&mut pages, 0);
    assert_eq!(collect(&list, &pages), vec![1, 2, 3, 4]);
    list.remove(&mut pages, 2);
    assert_eq!(collect(&list, &pages), vec![1, 3, 4]);
    list.remove(&mut pages, 4);
    assert_eq!(collect(&list, &pages), vec![1, 3]);
}

#[test]
fn remove_last_element_empties_list() {
    let mut list = FreeList::new();
    let mut pages = pages();
    list.push_front(&mut pages, 7);
    list.remove(&mut pages, 7);
    assert_eq!(list.iter(&pages).count(), 0);
    assert_eq!(list.pop_front(&mut pages), None);
}

#[test]
fn removed_nodes_are_unlinked() {
    let mut list = FreeList::new();
    let mut pages = pages();
    list.push_back(&mut pages, 1);
    list.push_back(&mut pages, 2);
    list.remove(&mut pages, 1);
    assert!(pages[1].next.is_none());
    assert!(pages[1].prev.is_none());
    assert_eq!(pages[2].next.get(), Some(Link::new(2)));
    assert_eq!(pages[2].prev.get(), Some(Link::new(2)));
}

#[test]
fn reinsert_after_remove_works() {
    let mut list = FreeList::new();
    let mut pages = pages();
    list.push_front(&mut pages, 1);
    list.remove(&mut pages, 1);
    list.push_front(&mut pages, 1);
    assert_eq!(collect(&list, &pages), vec![1]);
    list.push_back(&mut pages, 2);
    assert_eq!(collect(&list, &pages), vec![1, 2]);
}

#[test]
fn iterating_empty_list_yields_nothing() {
    let list = FreeList::new();
    let pages = pages();
    assert_eq!(list.iter(&pages).count(), 0);
}
