//! Tests of the block sizes.

use the_buddy_system::order::{max_block_pages, pages_in_order};

#[test]
fn pages_in_order_is_a_power_of_two() {
    assert_eq!(pages_in_order(0), 1);
    assert_eq!(pages_in_order(1), 2);
    assert_eq!(pages_in_order(3), 8);
    assert_eq!(pages_in_order(10), 1024);
    assert_eq!(pages_in_order(12), 4096);
}

#[test]
fn max_block_pages_matches_buddy_orders() {
    // MAX_ORDER counts orders, so order MAX_ORDER - 1 is the largest.
    assert_eq!(max_block_pages(1), 1);
    assert_eq!(max_block_pages(4), 8);
    assert_eq!(max_block_pages(11), 1024);
}
