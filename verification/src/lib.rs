//! A buddy page allocator over a caller-supplied page descriptor array.
//!
//! The allocator manages a contiguous range of physical page frames. Every
//! order has a free list of naturally aligned blocks; allocations split the
//! smallest block that fits, and freed blocks are joined with their free
//! buddies.
//!
//! [`arena`] holds the mathematical model that the contracts speak of, and
//! [`laws`] states what holds of it.

pub use crate::addr::PhysAddr;
pub use crate::buddy::Buddy;
pub use crate::error::Error;
pub use crate::page::{Page, PageFlags};
pub use crate::pfn::PageFrame;
pub use the_memblock::addr::PhysAddr as MemblockAddr;

pub mod addr;
pub mod arena;
pub mod audit;
pub mod blocks;
pub mod buddy;
pub mod derive;
pub mod effects;
pub mod error;
pub mod free_area;
pub mod laws;
pub mod list;
pub mod order;
pub mod page;
pub mod pfn;
pub mod repr;
