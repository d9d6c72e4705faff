//! Order and block-size arithmetic.

use vstd::arithmetic::power2::*;
use vstd::prelude::*;

verus! {

/// Returns the number of pages in a block of `order`, i.e. two to the power
/// of `order`.
pub fn pages_in_order(order: u8) -> (pages: usize)
    requires
        order < usize::BITS,
    ensures
        pages == pow2(order as nat),
{
    proof {
        vstd::bits::lemma_usize_pow2_no_overflow(order as nat);
        vstd::bits::lemma_usize_shl_is_mul(1, order as usize);
    }
    1usize << order
}

/// Returns the number of pages in the largest block an arena with the given
/// number of orders can allocate.
pub fn max_block_pages(max_order: usize) -> (pages: usize)
    requires
        1 <= max_order <= usize::BITS,
    ensures
        pages == pow2((max_order - 1) as nat),
{
    pages_in_order((max_order - 1) as u8)
}

} // verus!
