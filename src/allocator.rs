use vstd::prelude::*;
use vstd::arithmetic::div_mod::{
    lemma_fundamental_div_mod, lemma_fundamental_div_mod_converse, lemma_mod_multiples_basic,
};

use crate::memory::{took_frames, FrameAllocator, PhysFrame, PAGE_SIZE};
use crate::paging::{
    lemma_lookup_same_page, map_result, page_number, MapToError, Page, PageTableEntry, PageTableFlags, PageTableWalker,
};
use linked_list::{HeapInitError, LinkedListAllocator, Span};

pub mod bump;
pub mod linked_list;

verus! {

/// First virtual address of the kernel heap.
pub const HEAP_START: u64 = 0x4444_4444_0000;

/// Size of the kernel heap in bytes: 100 KiB.
pub const HEAP_SIZE: u64 = 100 * 1024;

/// Why the heap could not be set up.
#[derive(Debug, Clone, Copy, PartialEq, Eq, Structural)]
pub enum InitHeapError {
    /// A page of the heap window could not be mapped.
    Mapping(MapToError),
    /// The allocator refused the heap window.
    Allocator(HeapInitError),
}

/// `va` lies in a page of the heap window.
pub open spec fn heap_page(va: u64) -> bool {
    (HEAP_START / PAGE_SIZE) as int <= page_number(va) < (HEAP_START as int + HEAP_SIZE as int)
        / PAGE_SIZE as int
}

/// Pages in the heap window.
pub const HEAP_PAGES: u64 = 25;

/// The entry that maps a heap page to frame `f`: present and writable.
pub open spec fn heap_entry(f: PhysFrame) -> PageTableEntry {
    PageTableEntry { addr: f.start_address, flags: PageTableFlags { present: true, writable: true } }
}

/// `e` maps a heap page to one of `frames`.
pub open spec fn maps_to_one_of(e: Option<PageTableEntry>, frames: Seq<PhysFrame>) -> bool {
    exists|i: int| 0 <= i < frames.len() && e == Some(heap_entry(#[trigger] frames[i]))
}

/// Maps every page of the heap window `[HEAP_START, HEAP_START + HEAP_SIZE)`
/// to a frame of its own from `frame_allocator`, writable, page after page,
/// and then hands the window to `allocator`.
///
/// An allocator that manages a heap already is refused before anything is
/// mapped. Mapping stops at the first page that fails: a page that is mapped
/// already, which keeps its frame, or a frame source that ran out. The pages
/// mapped before stay mapped, and the frames taken are not given back. Each
/// page takes its own frame and at most three more for missing tables, so
/// four frames a page always suffice.
pub fn init_heap<A: FrameAllocator>(
    mapper: &mut PageTableWalker,
    frame_allocator: &mut A,
    allocator: &mut LinkedListAllocator,
) -> (r: Result<(), InitHeapError>)
    requires
        old(mapper).wf(),
        old(allocator).wf(),
    ensures
        final(mapper).wf(),
        final(allocator).wf(),
        old(allocator).initialized() ==> r == Err::<(), InitHeapError>(
            InitHeapError::Allocator(HeapInitError::AlreadyInitialized),
        ),
        !old(allocator).initialized() && HEAP_START + HEAP_SIZE > usize::MAX ==> r == Err::<
            (),
            InitHeapError,
        >(InitHeapError::Allocator(HeapInitError::InvalidRegion)),
        r matches Err(InitHeapError::Allocator(_)) ==> old(allocator).initialized() || HEAP_START
            + HEAP_SIZE > usize::MAX,
        r is Err ==> *final(allocator) == *old(allocator),
        took_frames(*old(frame_allocator), *final(frame_allocator), 4 * HEAP_PAGES),
        forall|va: u64|
            old(mapper).lookup(va) is Some ==> #[trigger] final(mapper).lookup(va) == old(mapper).lookup(va),
        forall|va: u64| !heap_page(va) ==> #[trigger] final(mapper).lookup(va) == old(mapper).lookup(va),
        forall|va: u64|
            heap_page(va) ==> #[trigger] final(mapper).lookup(va) == old(mapper).lookup(va) || (old(mapper).lookup(va) is None && maps_to_one_of(
                final(mapper).lookup(va),
                old(frame_allocator).frames_left(),
            )),
        forall|a: u64, b: u64|
            heap_page(a) && heap_page(b) && page_number(a) < page_number(b) && old(mapper).lookup(b)
                is None && #[trigger] final(mapper).lookup(b) is Some ==> #[trigger] final(mapper).lookup(a) is Some,
        old(frame_allocator).frames_left().no_duplicates() ==> forall|a: u64, b: u64|
            heap_page(a) && heap_page(b) && page_number(a) != page_number(b) && old(mapper).lookup(a)
                is None && old(mapper).lookup(b) is None && #[trigger] final(mapper).lookup(a)
                is Some ==> #[trigger] final(mapper).lookup(b) != final(mapper).lookup(a),
        (exists|va: u64| heap_page(va) && old(mapper).lookup(va) is Some) ==> r is Err,
        r matches Err(InitHeapError::Mapping(MapToError::PageAlreadyMapped(f))) ==> exists|va: u64|
            heap_page(va) && (#[trigger] old(mapper).lookup(va) matches Some(e) && e.addr
                == f.start_address),
        r matches Err(InitHeapError::Mapping(MapToError::FrameAllocationFailed)) ==> old(frame_allocator).frames_left().len() < 4 * HEAP_PAGES,
        !old(allocator).initialized() && HEAP_START + HEAP_SIZE <= usize::MAX && old(frame_allocator).frames_left().len() >= 4 * HEAP_PAGES ==> {
            &&& (forall|va: u64| heap_page(va) ==> #[trigger] old(mapper).lookup(va) is None)
                ==> r is Ok
            &&& (exists|va: u64| heap_page(va) && old(mapper).lookup(va) is Some) ==> (r matches Err(
                InitHeapError::Mapping(MapToError::PageAlreadyMapped(_)),
            ))
        },
        r is Ok ==> {
            &&& forall|va: u64| heap_page(va) ==> #[trigger] final(mapper).lookup(va) is Some
            &&& final(allocator).initialized()
            &&& final(allocator).heap_start() == HEAP_START
            &&& final(allocator).heap_end() == HEAP_START + HEAP_SIZE
            &&& final(allocator).free_list() == seq![(HEAP_START as int, HEAP_SIZE as int)]
            &&& final(allocator).live() == Set::<Span>::empty()
        },
{
    let ghost frames0 = frame_allocator.frames_left();
    proof {
        assert(frames0.skip(0) =~= frames0);
    }
    if allocator.is_initialized() {
        return Err(InitHeapError::Allocator(HeapInitError::AlreadyInitialized));
    }
    if HEAP_START > usize::MAX as u64 - HEAP_SIZE {
        return Err(InitHeapError::Allocator(HeapInitError::InvalidRegion));
    }
    let ghost pre = *mapper;
    proof {
        lemma_fundamental_div_mod_converse(HEAP_START as int, PAGE_SIZE as int, 0x4_4444_4440, 0);
        lemma_fundamental_div_mod_converse(
            HEAP_START as int + HEAP_SIZE as int,
            PAGE_SIZE as int,
            0x4_4444_4459int,
            0,
        );
    }
    let first: u64 = HEAP_START / PAGE_SIZE;
    let flags = PageTableFlags { present: true, writable: true };
    let ghost mut used: int = 0;
    let ghost mut idx: Seq<int> = Seq::empty();
    let mut k: u64 = 0;
    while k < HEAP_PAGES
        invariant
            mapper.wf(),
            pre == *old(mapper),
            *allocator == *old(allocator),
            allocator.wf(),
            !allocator.initialized(),
            HEAP_START + HEAP_SIZE <= usize::MAX,
            first == 0x4_4444_4440,
            (HEAP_START as int + HEAP_SIZE as int) / PAGE_SIZE as int == first + HEAP_PAGES,
            first == HEAP_START / PAGE_SIZE,
            flags == (PageTableFlags { present: true, writable: true }),
            0 <= k <= HEAP_PAGES,
            frames0 == old(frame_allocator).frames_left(),
            0 <= used <= 4 * k,
            used <= frames0.len(),
            frame_allocator.frames_left() == frames0.skip(used),
            idx.len() == k,
            forall|m: int| 0 <= m < k ==> 0 <= #[trigger] idx[m] < used,
            forall|m1: int, m2: int| 0 <= m1 < m2 < k ==> #[trigger] idx[m1] < #[trigger] idx[m2],
            forall|va: u64|
                heap_page(va) && page_number(va) < first + k ==> #[trigger] mapper.lookup(va) == Some(
                    heap_entry(frames0[idx[page_number(va) - first]]),
                ) && pre.lookup(va) is None,
            forall|va: u64|
                !(heap_page(va) && page_number(va) < first + k) ==> #[trigger] mapper.lookup(va)
                    == pre.lookup(va),
        decreases HEAP_PAGES - k,
    {
        let page = Page { start_address: HEAP_START + k * PAGE_SIZE };
        proof {
            lemma_fundamental_div_mod_converse(
                page.start_address as int,
                PAGE_SIZE as int,
                first + k,
                0,
            );
            assert(page_number(page.start_address) == first + k);
            assert(heap_page(page.start_address));
        }
        let frame = match frame_allocator.allocate_frame() {
            Some(f) => f,
            None => {
                proof {
                    assert(frame_allocator.frames_left() =~= frames0.skip(frames0.len() as int));
                }
                return Err(InitHeapError::Mapping(MapToError::FrameAllocationFailed));
            },
        };
        proof {
            assert(frame == frames0[used]);
            assert(frame_allocator.frames_left() =~= frames0.skip(used + 1));
        }
        let ghost before = *mapper;
        let ghost fa1 = *frame_allocator;
        let mapped = mapper.map_to(page, frame, flags, frame_allocator);
        proof {
            let n2 = fa1.frames_left().len() - frame_allocator.frames_left().len();
            assert(frame_allocator.frames_left() =~= frames0.skip(used + 1 + n2));
            assert(before.lookup(page.start_address) == pre.lookup(page.start_address));
        }
        match mapped {
            Ok(()) => {},
            Err(e) => {
                proof {
                    used = used + 1 + (fa1.frames_left().len() - frame_allocator.frames_left().len());
                }
                return Err(InitHeapError::Mapping(e));
            },
        }
        proof {
            let n2 = fa1.frames_left().len() - frame_allocator.frames_left().len();
            let slot = used;
            used = used + 1 + n2;
            idx = idx.push(slot);
            assert(before.lookup(page.start_address) is None);
            assert forall|va: u64|
                heap_page(va) && page_number(va) < first + k + 1 implies #[trigger] mapper.lookup(va)
                == Some(heap_entry(frames0[idx[page_number(va) - first]])) && pre.lookup(va)
                is None by {
                if page_number(va) == first + k {
                    lemma_lookup_same_page(pre, va, page.start_address);
                } else {
                    assert(before.lookup(va) is Some);
                }
            }
        }
        k += 1;
    }
    let ghost mapped = *mapper;
    proof {
        assert forall|va: u64| heap_page(va) implies pre.lookup(va) is None by {
            assert(page_number(va) < first + k);
            assert(mapped.lookup(va) is Some);
        }
        assert forall|va: u64| heap_page(va) implies maps_to_one_of(
            #[trigger] mapped.lookup(va),
            frames0,
        ) by {
            let i = idx[page_number(va) - first];
            assert(mapped.lookup(va) == Some(heap_entry(frames0[i])));
        }
        if frames0.no_duplicates() {
            assert forall|a: u64, b: u64|
                heap_page(a) && heap_page(b) && page_number(a) != page_number(b) && #[trigger] mapped.lookup(a)
                    is Some implies #[trigger] mapped.lookup(b) != mapped.lookup(a) by {
                let ma = page_number(a) - first;
                let mb = page_number(b) - first;
                assert(idx[ma] != idx[mb]);
                assert(frames0[idx[ma]] != frames0[idx[mb]]);
            }
        }
    }
    match allocator.init(HEAP_START as usize, HEAP_SIZE as usize) {
        Ok(()) => Ok(()),
        Err(e) => Err(InitHeapError::Allocator(e)),
    }
}

/// An allocator that has no memory: every request fails.
pub struct Dummy;

impl Dummy {
    /// Always `None`.
    pub fn allocate(&self, size: usize, align: usize) -> (r: Option<usize>)
        ensures
            r is None,
    {
        None
    }
}

/// The smallest multiple of `align` that is at least `addr`.
pub open spec fn align_up_spec(addr: int, align: int) -> int {
    if addr % align == 0 {
        addr
    } else {
        addr - addr % align + align
    }
}

/// What rounding up gives: a multiple of `align`, at least `addr` and less
/// than `align` past it.
pub proof fn lemma_align_up(addr: int, align: int)
    requires
        addr >= 0,
        align > 0,
    ensures
        align_up_spec(addr, align) % align == 0,
        addr <= align_up_spec(addr, align) < addr + align,
        addr % align <= addr,
{
    lemma_fundamental_div_mod(addr, align);
    assert(addr % align <= addr) by (nonlinear_arith)
        requires
            addr == align * (addr / align) + addr % align,
            addr >= 0,
            align > 0,
            0 <= addr % align,
    ;
    if addr % align != 0 {
        lemma_mod_multiples_basic(addr / align + 1, align);
        assert(addr - addr % align + align == (addr / align + 1) * align) by (nonlinear_arith)
            requires
                addr == align * (addr / align) + addr % align,
        ;
    }
}

/// Rounds `addr` up to the next multiple of `align`.
pub fn align_up(addr: usize, align: usize) -> (r: usize)
    requires
        align > 0,
        align_up_spec(addr as int, align as int) <= usize::MAX,
    ensures
        r == align_up_spec(addr as int, align as int),
        r % align == 0,
        addr <= r < addr + align,
{
    proof {
        lemma_align_up(addr as int, align as int);
    }
    let remainder = addr % align;
    if remainder == 0 {
        addr
    } else {
        addr - remainder + align
    }
}

} // verus!
