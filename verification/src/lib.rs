//! Memory-management core of a small bare-metal kernel: unit and range
//! allocators, the physical frame allocator, a three-level page-table
//! mapping layer, memory sets, and page-replacement policies.

pub mod address;
pub mod allocator;
pub mod buddy_allocator;
pub mod frame_allocator;
pub mod frame_tracker;
pub mod linked_list;
pub mod mapping;
pub mod memory_set;
pub mod page_table;
pub mod page_table_entry;
pub mod process;
pub mod range;
pub mod segment;
pub mod segment_tree_allocator;
pub mod stacked_allocator;
pub mod swapper;

use vstd::prelude::*;

verus! {

/// The result type of the operations that can fail recoverably: a frame
/// or unit ran out, never a fatal stop.
pub type MemoryResult<T> = Result<T, &'static str>;

} // verus!
