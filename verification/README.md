# the_buddy_system

A verified buddy page allocator. It manages a contiguous range of physical
page frames: every order has a free list of naturally aligned blocks,
allocations split the smallest block that fits, and freed blocks are joined
with their free buddies. The page descriptors are supplied by the caller.

- `src/` is the library, verified with Verus. `arena` is the mathematical
  model (which blocks are free, in what order they are listed, which are in
  use), `buddy` the allocator, `audit` what validation looks for, and `laws`
  what holds of the allocator as a whole.
- `tests/` runs the library.
- `app/` is ordinary Rust around it: descriptor arrays given by raw pointers,
  the handoff from the boot memory map, error reporting and the `PageFrame`
  derive.

A block is freed only if a block in use starts there and it overlaps no other
block, and a range only as far as it overlaps no block; what may be freed is
decided over whole blocks, not only their first pages.
