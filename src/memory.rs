use vstd::prelude::*;
use vstd::arithmetic::div_mod::lemma_fundamental_div_mod;

verus! {

/// Size of a physical frame and of a virtual page, in bytes.
pub const PAGE_SIZE: u64 = 4096;

/// What the firmware says a region of physical memory is for.
#[derive(Debug, Clone, Copy, PartialEq, Eq, Structural)]
pub enum MemoryRegionType {
    /// Free for the kernel to use.
    Usable,
    /// Taken by firmware, devices or the loaded kernel.
    Reserved,
}

/// One entry of the firmware memory map: the physical addresses
/// `[start_addr, end_addr)`.
#[derive(Debug, Clone, Copy, PartialEq, Eq, Structural)]
pub struct MemoryRegion {
    pub start_addr: u64,
    pub end_addr: u64,
    pub region_type: MemoryRegionType,
}

/// A 4 KiB frame of physical memory, named by its first address.
#[derive(Debug, Clone, Copy, PartialEq, Eq, Structural)]
pub struct PhysFrame {
    pub start_address: u64,
}

/// `addr` rounded down to a multiple of the page size.
pub open spec fn align_down_page(addr: int) -> int {
    addr - addr % PAGE_SIZE as int
}

impl PhysFrame {
    /// The frame that holds physical address `addr`.
    pub fn containing_address(addr: u64) -> (r: PhysFrame)
        ensures
            r.start_address == align_down_page(addr as int),
            r.start_address % PAGE_SIZE == 0,
    {
        proof {
            lemma_fundamental_div_mod(addr as int, PAGE_SIZE as int);
        }
        PhysFrame { start_address: addr - addr % PAGE_SIZE }
    }
}

/// A source of unused physical frames.
pub trait FrameAllocator {
    /// The frames the source has still to hand out, in the order it hands
    /// them out.
    spec fn frames_left(&self) -> Seq<PhysFrame>;

    /// The next unused frame, or `None` when there is none left; a source
    /// that has run out stays out.
    fn allocate_frame(&mut self) -> (r: Option<PhysFrame>)
        ensures
            old(self).frames_left().len() == 0 ==> r is None && final(self).frames_left().len() == 0,
            old(self).frames_left().len() > 0 ==> r == Some(old(self).frames_left()[0])
                && final(self).frames_left() == old(self).frames_left().drop_first(),
            r matches Some(f) ==> f.start_address % PAGE_SIZE == 0,
    ;
}

/// `post` is the source `pre` after it handed out its first frames, at most
/// `max` of them.
pub open spec fn took_frames<A: FrameAllocator>(pre: A, post: A, max: int) -> bool {
    let n = pre.frames_left().len() - post.frames_left().len();
    &&& 0 <= n <= max
    &&& post.frames_left() == pre.frames_left().skip(n)
}

/// The frames that a frame source over `map` with its cursor at `next` has
/// still to hand out: the usable frames from the cursor on, as far as the
/// cursor can go.
pub open spec fn frames_from(map: Seq<MemoryRegion>, next: int) -> Seq<PhysFrame> {
    let all = usable_frames(map);
    let end = if all.len() < usize::MAX {
        all.len() as int
    } else {
        usize::MAX as int
    };
    if 0 <= next < end {
        all.subrange(next, end).map_values(|a: int| PhysFrame { start_address: a as u64 })
    } else {
        Seq::empty()
    }
}

/// How many frame-sized steps from `start` stay below `end`.
pub open spec fn frame_count(start: int, end: int) -> int {
    if end > start {
        (end - start + PAGE_SIZE - 1) / PAGE_SIZE as int
    } else {
        0
    }
}

/// The frames of one region: none unless it is usable, else one for each
/// 4 KiB step from its start.
pub open spec fn region_frames(r: MemoryRegion) -> Seq<int> {
    if r.region_type == MemoryRegionType::Usable {
        Seq::new(
            frame_count(r.start_addr as int, r.end_addr as int) as nat,
            |k: int| align_down_page(r.start_addr + k * PAGE_SIZE),
        )
    } else {
        Seq::empty()
    }
}

/// The usable frames of a memory map, region after region, in map order.
pub open spec fn usable_frames(map: Seq<MemoryRegion>) -> Seq<int>
    decreases map.len(),
{
    if map.len() == 0 {
        Seq::empty()
    } else {
        region_frames(map[0]) + usable_frames(map.drop_first())
    }
}

/// A frame source over the firmware memory map. It hands out the usable
/// frames in map order, each once, and never takes one back; each call
/// walks the map from the start up to its cursor.
pub struct BootInfoFrameAllocator {
    memory_map: Vec<MemoryRegion>,
    next: usize,
}

impl BootInfoFrameAllocator {
    pub closed spec fn memory_map(&self) -> Seq<MemoryRegion> {
        self.memory_map@
    }

    /// How many frames have been asked for so far.
    pub closed spec fn next(&self) -> int {
        self.next as int
    }

    /// A frame source at the start of `memory_map`.
    pub fn init(memory_map: Vec<MemoryRegion>) -> (r: Self)
        ensures
            r.memory_map() == memory_map@,
            r.next() == 0,
    {
        BootInfoFrameAllocator { memory_map, next: 0 }
    }

    /// The `n`-th usable frame of the map, if there are that many.
    fn usable_frame(&self, n: usize) -> (r: Option<PhysFrame>)
        ensures
            n < usable_frames(self.memory_map@).len() ==> r == Some(
                PhysFrame { start_address: usable_frames(self.memory_map@)[n as int] as u64 },
            ),
            n >= usable_frames(self.memory_map@).len() ==> r is None,
            r matches Some(f) ==> f.start_address % PAGE_SIZE == 0,
    {
        let ghost map = self.memory_map@;
        let mut j: usize = 0;
        let mut rest: usize = n;
        assert(map.subrange(0, map.len() as int) =~= map);
        while j < self.memory_map.len()
            invariant
                map == self.memory_map@,
                0 <= j <= map.len(),
                (n as int) < usable_frames(map).len() <==> (rest as int) < usable_frames(
                    map.subrange(j as int, map.len() as int),
                ).len(),
                (rest as int) < usable_frames(map.subrange(j as int, map.len() as int)).len()
                    ==> usable_frames(map)[n as int] == usable_frames(
                    map.subrange(j as int, map.len() as int),
                )[rest as int],
            decreases map.len() - j,
        {
            let region = self.memory_map[j];
            let ghost tail = map.subrange(j as int, map.len() as int);
            let ghost after = map.subrange(j as int + 1, map.len() as int);
            assert(tail.drop_first() =~= after);
            assert(tail[0] == region);
            let count: u64 = if region.region_type == MemoryRegionType::Usable
                && region.end_addr > region.start_addr {
                let span = region.end_addr - region.start_addr;
                span / PAGE_SIZE + if span % PAGE_SIZE != 0 {
                    1
                } else {
                    0
                }
            } else {
                0
            };
            proof {
                if region.region_type == MemoryRegionType::Usable && region.end_addr
                    > region.start_addr {
                    let span = region.end_addr - region.start_addr;
                    lemma_fundamental_div_mod(span as int, PAGE_SIZE as int);
                    lemma_fundamental_div_mod(span as int + PAGE_SIZE - 1, PAGE_SIZE as int);
                }
                assert(count == region_frames(region).len());
            }
            if (rest as u64) < count {
                let offset: u64 = rest as u64 * PAGE_SIZE;
                proof {
                    let span = region.end_addr - region.start_addr;
                    lemma_fundamental_div_mod(span as int, PAGE_SIZE as int);
                    assert(offset < span) by (nonlinear_arith)
                        requires
                            offset == rest * 4096,
                            (rest as int) < count,
                            count == span / 4096 + if span % 4096 != 0 {
                                1int
                            } else {
                                0
                            },
                            span == 4096 * (span / 4096) + span % 4096,
                            0 <= span % 4096 < 4096,
                    ;
                    assert(usable_frames(tail)[rest as int] == region_frames(region)[rest as int]);
                }
                return Some(PhysFrame::containing_address(region.start_addr + offset));
            }
            proof {
                assert(usable_frames(tail) == region_frames(region) + usable_frames(after));
                if (rest as int) < usable_frames(tail).len() {
                    assert(usable_frames(tail)[rest as int] == usable_frames(after)[rest - count]);
                }
            }
            rest = rest - count as usize;
            j += 1;
        }
        None
    }

    /// The usable frame at the cursor, or `None` once they are all handed
    /// out; the cursor moves on by one unless it is at its end.
    pub fn next_frame(&mut self) -> (r: Option<PhysFrame>)
        ensures
            final(self).memory_map() == old(self).memory_map(),
            final(self).next() == if old(self).next() < usize::MAX {
                old(self).next() + 1
            } else {
                old(self).next()
            },
            r == if old(self).next() < usize::MAX && old(self).next() < usable_frames(
                old(self).memory_map(),
            ).len() {
                Some(
                    PhysFrame {
                        start_address: usable_frames(old(self).memory_map())[old(self).next()] as u64,
                    },
                )
            } else {
                None::<PhysFrame>
            },
            r matches Some(f) ==> f.start_address % PAGE_SIZE == 0,
    {
        if self.next == usize::MAX {
            return None;
        }
        let frame = self.usable_frame(self.next);
        self.next += 1;
        frame
    }
}

impl FrameAllocator for BootInfoFrameAllocator {
    open spec fn frames_left(&self) -> Seq<PhysFrame> {
        frames_from(self.memory_map(), self.next())
    }

    /// The usable frame at the cursor: the frames of the map in map order,
    /// each handed out once.
    fn allocate_frame(&mut self) -> (r: Option<PhysFrame>) {
        let ghost pre = *self;
        let r = self.next_frame();
        proof {
            let map = pre.memory_map();
            let all = usable_frames(map);
            let n = pre.next();
            if pre.frames_left().len() > 0 {
                assert(self.frames_left() =~= pre.frames_left().drop_first());
            }
        }
        r
    }
}

/// A frame source that has no frames.
pub struct EmptyFrameAllocator;

impl FrameAllocator for EmptyFrameAllocator {
    open spec fn frames_left(&self) -> Seq<PhysFrame> {
        Seq::empty()
    }

    fn allocate_frame(&mut self) -> (r: Option<PhysFrame>) {
        None
    }
}

} // verus!
