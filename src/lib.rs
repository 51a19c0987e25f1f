//! Memory and synchronization core of an x86-64 kernel: a frame allocator
//! over the boot memory map, the routine that backs the heap window with
//! frames, a spinlock mutex and a write-once cell.
use vstd::prelude::*;

pub mod addr;
pub mod allocator;
pub mod mem;
pub mod mutex;
pub mod once_lock;
pub mod paging;

verus! {

} // verus!
