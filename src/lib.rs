use vstd::prelude::*;

pub mod allocator;
pub mod memory;
pub mod paging;
pub mod task;
pub mod vga_buffer;

verus! {

} // verus!
