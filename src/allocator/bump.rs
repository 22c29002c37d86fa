use vstd::prelude::*;

use super::{align_up, align_up_spec};

verus! {

/// A bump allocator: a cursor that only moves forward through the heap, and
/// a count of the blocks handed out. Freeing a block only lowers the count;
/// when it reaches zero the whole heap is free again and the cursor goes
/// back to the start.
pub struct BumpAllocator {
    heap_start: usize,
    heap_end: usize,
    next: usize,
    allocations: usize,
}

/// What `allocate(size, align)` does to a bump allocator `pre`, leaving `post`
/// and returning `r`: the block starts at the cursor rounded up to `align`,
/// and is handed out when it ends within the heap.
pub open spec fn bump_alloc_result(
    pre: BumpAllocator,
    post: BumpAllocator,
    size: int,
    align: int,
    r: Option<usize>,
) -> bool {
    let start = align_up_spec(pre.next(), align);
    &&& post.heap_start() == pre.heap_start()
    &&& post.heap_end() == pre.heap_end()
    &&& if start + size <= pre.heap_end() && pre.allocations() < usize::MAX {
        &&& r == Some(start as usize)
        &&& post.next() == start + size
        &&& post.allocations() == pre.allocations() + 1
    } else {
        &&& r is None
        &&& post.next() == pre.next()
        &&& post.allocations() == pre.allocations()
    }
}

impl BumpAllocator {
    pub closed spec fn heap_start(&self) -> int {
        self.heap_start as int
    }

    pub closed spec fn heap_end(&self) -> int {
        self.heap_end as int
    }

    /// Where the next block may start.
    pub closed spec fn next(&self) -> int {
        self.next as int
    }

    /// How many blocks are handed out and not yet freed.
    pub closed spec fn allocations(&self) -> int {
        self.allocations as int
    }

    pub open spec fn wf(&self) -> bool {
        self.heap_start() <= self.next() <= self.heap_end()
    }

    /// An allocator over an empty heap.
    pub fn new() -> (r: Self)
        ensures
            r.wf(),
            r.heap_start() == 0,
            r.heap_end() == 0,
            r.next() == 0,
            r.allocations() == 0,
    {
        BumpAllocator { heap_start: 0, heap_end: 0, next: 0, allocations: 0 }
    }

    /// Hands the heap `[heap_start, heap_start + heap_size)` to the
    /// allocator, with the cursor at its start.
    pub fn init(&mut self, heap_start: usize, heap_size: usize)
        requires
            heap_start + heap_size <= usize::MAX,
        ensures
            final(self).wf(),
            final(self).heap_start() == heap_start,
            final(self).heap_end() == heap_start + heap_size,
            final(self).next() == heap_start,
            final(self).allocations() == old(self).allocations(),
    {
        self.heap_start = heap_start;
        self.heap_end = heap_start + heap_size;
        self.next = heap_start;
    }

    /// Hands out `size` bytes aligned to `align` at the cursor, or `None`
    /// when they do not fit before the end of the heap.
    pub fn allocate(&mut self, size: usize, align: usize) -> (r: Option<usize>)
        requires
            old(self).wf(),
            align > 0,
        ensures
            final(self).wf(),
            bump_alloc_result(*old(self), *final(self), size as int, align as int, r),
    {
        if self.allocations == usize::MAX {
            return None;
        }
        let next = self.next;
        assert(next % align <= next) by (nonlinear_arith)
            requires
                align > 0,
        ;
        if next % align != 0 && next - next % align > usize::MAX - align {
            return None;
        }
        let alloc_start = align_up(next, align);
        let alloc_end = match alloc_start.checked_add(size) {
            Some(end) => end,
            None => return None,
        };
        if alloc_end > self.heap_end {
            return None;
        }
        self.next = alloc_end;
        self.allocations = self.allocations + 1;
        Some(alloc_start)
    }

    /// Frees one block. Once none is left the cursor goes back to the start
    /// of the heap.
    pub fn deallocate(&mut self)
        requires
            old(self).wf(),
            old(self).allocations() > 0,
        ensures
            final(self).wf(),
            final(self).heap_start() == old(self).heap_start(),
            final(self).heap_end() == old(self).heap_end(),
            final(self).allocations() == old(self).allocations() - 1,
            final(self).next() == if final(self).allocations() == 0 {
                old(self).heap_start()
            } else {
                old(self).next()
            },
    {
        self.allocations = self.allocations - 1;
        if self.allocations == 0 {
            self.next = self.heap_start;
        }
    }
}

} // verus!
