use vstd::prelude::*;
use vstd::arithmetic::div_mod::lemma_fundamental_div_mod;

use crate::memory::{align_down_page, took_frames, FrameAllocator, PhysFrame, PAGE_SIZE};

verus! {

/// Entries in one page table.
pub const ENTRY_COUNT: usize = 512;

/// Levels of the page-table hierarchy; the top table is at this level and
/// the tables that map pages at level 1.
pub const PAGE_TABLE_LEVELS: usize = 4;

/// The flags of an entry that this walker uses.
#[derive(Debug, Clone, Copy, PartialEq, Eq, Structural)]
pub struct PageTableFlags {
    pub present: bool,
    pub writable: bool,
}

/// A 4 KiB page of virtual memory, named by its first address.
#[derive(Debug, Clone, Copy, PartialEq, Eq, Structural)]
pub struct Page {
    pub start_address: u64,
}

impl Page {
    /// The page that holds virtual address `addr`.
    pub fn containing_address(addr: u64) -> (r: Page)
        ensures
            r.start_address == align_down_page(addr as int),
            r.start_address % PAGE_SIZE == 0,
    {
        proof {
            lemma_fundamental_div_mod(addr as int, PAGE_SIZE as int);
        }
        Page { start_address: addr - addr % PAGE_SIZE }
    }
}

/// One entry of a page table: the frame it points to and its flags. An
/// entry that is not present is unused.
#[derive(Debug, Clone, Copy, PartialEq, Eq, Structural)]
pub struct PageTableEntry {
    pub addr: u64,
    pub flags: PageTableFlags,
}

/// Why a page could not be mapped.
#[derive(Debug, Clone, Copy, PartialEq, Eq, Structural)]
pub enum MapToError {
    /// A table on the way to the page was missing and no frame could be had
    /// to hold it.
    FrameAllocationFailed,
    /// The page is mapped already, to this frame.
    PageAlreadyMapped(PhysFrame),
}

/// The page number that a virtual address translates through: bits 12 to 47.
pub open spec fn page_number(va: u64) -> int {
    (va as int / PAGE_SIZE as int) % 0x10_0000_0000
}

/// The entry that the walk reads at `level` for `va`: nine bits of the page
/// number, the lowest nine for level 1.
pub open spec fn table_index(va: u64, level: int) -> int {
    let pn = page_number(va);
    if level <= 1 {
        pn % 512
    } else if level == 2 {
        pn / 512 % 512
    } else if level == 3 {
        pn / 0x4_0000 % 512
    } else {
        pn / 0x800_0000 % 512
    }
}

/// The walks for `a` and `b` read the same entries at levels 1 to `level`.
pub open spec fn same_indices(a: u64, b: u64, level: int) -> bool {
    forall|l: int| 1 <= l <= level ==> table_index(a, l) == table_index(b, l)
}

/// Two addresses walk through the same entries at every level exactly when
/// they lie in the same page.
pub proof fn lemma_same_indices_same_page(a: u64, b: u64)
    ensures
        same_indices(a, b, 4) <==> page_number(a) == page_number(b),
{
    let pa = page_number(a);
    let pb = page_number(b);
    lemma_fundamental_div_mod(pa, 512);
    lemma_fundamental_div_mod(pb, 512);
    lemma_fundamental_div_mod(pa / 512, 512);
    lemma_fundamental_div_mod(pb / 512, 512);
    lemma_fundamental_div_mod(pa / 512 / 512, 512);
    lemma_fundamental_div_mod(pb / 512 / 512, 512);
    vstd::arithmetic::div_mod::lemma_div_denominator(pa, 512, 512);
    vstd::arithmetic::div_mod::lemma_div_denominator(pb, 512, 512);
    vstd::arithmetic::div_mod::lemma_div_denominator(pa, 0x4_0000, 512);
    vstd::arithmetic::div_mod::lemma_div_denominator(pb, 0x4_0000, 512);
    if same_indices(a, b, 4) {
        assert(table_index(a, 1) == table_index(b, 1));
        assert(table_index(a, 2) == table_index(b, 2));
        assert(table_index(a, 3) == table_index(b, 3));
        assert(table_index(a, 4) == table_index(b, 4));
        assert(pa / 0x800_0000 == pb / 0x800_0000) by {
            lemma_fundamental_div_mod(pa / 0x800_0000, 512);
            lemma_fundamental_div_mod(pb / 0x800_0000, 512);
            vstd::arithmetic::div_mod::lemma_div_denominator(pa, 0x800_0000, 512);
            vstd::arithmetic::div_mod::lemma_div_denominator(pb, 0x800_0000, 512);
            vstd::arithmetic::div_mod::lemma_mod_bound(a as int / 4096, 0x10_0000_0000);
            vstd::arithmetic::div_mod::lemma_mod_bound(b as int / 4096, 0x10_0000_0000);
        }
    }
}

/// The index that the walk reads at `level` for `va`.
fn index_of(va: u64, level: usize) -> (r: usize)
    requires
        1 <= level <= PAGE_TABLE_LEVELS,
    ensures
        r == table_index(va, level as int),
        r < ENTRY_COUNT,
{
    let pn = va / PAGE_SIZE % 0x10_0000_0000;
    let i = if level == 1 {
        pn % 512
    } else if level == 2 {
        pn / 512 % 512
    } else if level == 3 {
        pn / 0x4_0000 % 512
    } else {
        pn / 0x800_0000 % 512
    };
    i as usize
}

/// A page table and, for each present entry of a table above level 1, the
/// table that the entry points to.
struct PageTable {
    entries: Vec<PageTableEntry>,
    children: Vec<Option<Box<PageTable>>>,
}

impl PageTable {
    spec fn wf(&self, level: nat) -> bool
        decreases level,
    {
        &&& self.entries@.len() == ENTRY_COUNT
        &&& self.children@.len() == ENTRY_COUNT
        &&& forall|i: int|
            0 <= i < ENTRY_COUNT ==> (#[trigger] self.entries@[i]).flags.present ==> self.entries@[i].addr
                % PAGE_SIZE == 0
        &&& level > 1 ==> forall|i: int|
            0 <= i < ENTRY_COUNT ==> ((#[trigger] self.children@[i]) is Some
                <==> self.entries@[i].flags.present)
        &&& level > 1 ==> forall|i: int|
            0 <= i < ENTRY_COUNT && (#[trigger] self.children@[i]) is Some ==> self.children@[i].unwrap().wf(
                (level - 1) as nat,
            )
    }

    /// The present level-1 entry that the walk for `va` reaches from this
    /// table at `level`, if it reaches one.
    spec fn lookup(&self, level: nat, va: u64) -> Option<PageTableEntry>
        decreases level,
    {
        let i = table_index(va, level as int);
        let e = self.entries@[i];
        if !e.flags.present {
            None
        } else if level <= 1 {
            Some(e)
        } else {
            match self.children@[i] {
                Some(c) => c.lookup((level - 1) as nat, va),
                None => None,
            }
        }
    }

    /// The walk for `va` from this table at `level` finds every table down
    /// to level 1.
    spec fn path_present(&self, level: nat, va: u64) -> bool
        decreases level,
    {
        let i = table_index(va, level as int);
        if level <= 1 {
            true
        } else {
            match self.children@[i] {
                Some(c) => c.path_present((level - 1) as nat, va),
                None => false,
            }
        }
    }

    /// Walks that read the same entries from `level` down end in the same
    /// entry.
    proof fn lemma_lookup_same_indices(&self, level: nat, a: u64, b: u64)
        requires
            level >= 1,
            same_indices(a, b, level as int),
        ensures
            self.lookup(level, a) == self.lookup(level, b),
        decreases level,
    {
        assert(table_index(a, level as int) == table_index(b, level as int));
        if level > 1 {
            let i = table_index(a, level as int);
            if let Some(c) = self.children@[i] {
                c.lemma_lookup_same_indices((level - 1) as nat, a, b);
            }
        }
    }

    /// A table with every entry unused.
    fn empty() -> (r: Self)
        ensures
            forall|level: nat| r.wf(level),
            forall|level: nat, va: u64| #[trigger] r.lookup(level, va) is None,
    {
        let mut entries: Vec<PageTableEntry> = Vec::new();
        let mut children: Vec<Option<Box<PageTable>>> = Vec::new();
        let mut i: usize = 0;
        while i < ENTRY_COUNT
            invariant
                0 <= i <= ENTRY_COUNT,
                entries@.len() == i,
                children@.len() == i,
                forall|j: int| 0 <= j < i ==> !(#[trigger] entries@[j]).flags.present,
                forall|j: int| 0 <= j < i ==> (#[trigger] children@[j]) is None,
            decreases ENTRY_COUNT - i,
        {
            entries.push(
                PageTableEntry { addr: 0, flags: PageTableFlags { present: false, writable: false } },
            );
            children.push(None);
            i += 1;
        }
        let r = PageTable { entries, children };
        assert forall|level: nat| r.wf(level) by {
            assert forall|i: int| 0 <= i < ENTRY_COUNT implies ((#[trigger] r.children@[i]) is Some
                <==> r.entries@[i].flags.present) by {}
        }
        assert forall|level: nat, va: u64| #[trigger] r.lookup(level, va) is None by {
            assert(!r.entries@[table_index(va, level as int)].flags.present);
        }
        r
    }

    fn lookup_entry(&self, level: usize, va: u64) -> (r: Option<PageTableEntry>)
        requires
            self.wf(level as nat),
            1 <= level <= PAGE_TABLE_LEVELS,
        ensures
            r == self.lookup(level as nat, va),
            r matches Some(e) ==> e.addr % PAGE_SIZE == 0,
        decreases level,
    {
        let i = index_of(va, level);
        let e = self.entries[i];
        if !e.flags.present {
            None
        } else if level == 1 {
            Some(e)
        } else {
            match &self.children[i] {
                Some(c) => c.lookup_entry(level - 1, va),
                None => None,
            }
        }
    }

    /// Installs `page -> frame` below this table at `level`, creating the
    /// missing tables on the way with frames from `frame_allocator`.
    fn map_in<A: FrameAllocator>(
        &mut self,
        level: usize,
        page: Page,
        frame: PhysFrame,
        flags: PageTableFlags,
        frame_allocator: &mut A,
    ) -> (r: Result<(), MapToError>)
        requires
            old(self).wf(level as nat),
            1 <= level <= PAGE_TABLE_LEVELS,
            frame.start_address % PAGE_SIZE == 0,
        ensures
            final(self).wf(level as nat),
            r is Ok ==> forall|va: u64|
                #[trigger] final(self).lookup(level as nat, va) == if same_indices(
                    va,
                    page.start_address,
                    level as int,
                ) {
                    if flags.present {
                        Some(PageTableEntry { addr: frame.start_address, flags })
                    } else {
                        None
                    }
                } else {
                    old(self).lookup(level as nat, va)
                },
            r is Err ==> forall|va: u64|
                #[trigger] final(self).lookup(level as nat, va) == old(self).lookup(
                    level as nat,
                    va,
                ),
            old(self).lookup(level as nat, page.start_address) matches Some(e) ==> r == Err::<
                (),
                MapToError,
            >(MapToError::PageAlreadyMapped(PhysFrame { start_address: e.addr })),
            r matches Err(MapToError::PageAlreadyMapped(f)) ==> old(self).lookup(
                level as nat,
                page.start_address,
            ) is Some,
            old(self).lookup(level as nat, page.start_address) is None && old(self).path_present(
                level as nat,
                page.start_address,
            ) ==> r is Ok,
            old(self).lookup(level as nat, page.start_address) is None
                && old(frame_allocator).frames_left().len() >= level - 1 ==> r is Ok,
            took_frames(*old(frame_allocator), *final(frame_allocator), level - 1),
        decreases level,
    {
        let ghost fa0 = *frame_allocator;
        proof {
            assert(fa0.frames_left().skip(0) =~= fa0.frames_left());
        }
        let i = index_of(page.start_address, level);
        if level == 1 {
            if self.entries[i].flags.present {
                return Err(
                    MapToError::PageAlreadyMapped(PhysFrame { start_address: self.entries[i].addr }),
                );
            }
            let ghost pre = *self;
            self.entries.set(i, PageTableEntry { addr: frame.start_address, flags });
            proof {
                assert forall|va: u64|
                    #[trigger] self.lookup(level as nat, va) == if same_indices(
                        va,
                        page.start_address,
                        level as int,
                    ) {
                        if flags.present {
                            Some(PageTableEntry { addr: frame.start_address, flags })
                        } else {
                            None
                        }
                    } else {
                        pre.lookup(level as nat, va)
                    } by {
                    if same_indices(va, page.start_address, 1) {
                        assert(table_index(va, 1) == table_index(page.start_address, 1));
                    }
                }
            }
            return Ok(());
        }
        let ghost pre = *self;
        if !self.entries[i].flags.present {
            match frame_allocator.allocate_frame() {
                None => {
                    assert(frame_allocator.frames_left() =~= fa0.frames_left().skip(0));
                    return Err(MapToError::FrameAllocationFailed);
                },
                Some(table_frame) => {
                    self.entries.set(
                        i,
                        PageTableEntry {
                            addr: table_frame.start_address,
                            flags: PageTableFlags { present: true, writable: true },
                        },
                    );
                    self.children.set(i, Some(Box::new(PageTable::empty())));
                },
            }
        }
        let ghost mid = *self;
        let ghost fa1 = *frame_allocator;
        proof {
            if !pre.entries@[i as int].flags.present {
                assert(fa1.frames_left() =~= fa0.frames_left().skip(1));
            }
        }
        proof {
            assert forall|va: u64| #[trigger] mid.lookup(level as nat, va) == pre.lookup(
                level as nat,
                va,
            ) by {
                if table_index(va, level as int) == i as int && !pre.entries@[i as int].flags.present {
                    assert(mid.children@[i as int].unwrap().lookup((level - 1) as nat, va) is None);
                }
            }
        }
        let r = match &mut self.children[i] {
            Some(child) => child.map_in(level - 1, page, frame, flags, frame_allocator),
            None => Err(MapToError::FrameAllocationFailed),
        };
        proof {
            let fl0 = fa0.frames_left();
            let fl1 = fa1.frames_left();
            let d1 = fl0.len() - fl1.len();
            let d2 = fl1.len() - frame_allocator.frames_left().len();
            assert(fl1.skip(d2) =~= fl0.skip(d1 + d2));
        }
        proof {
            let child_pre = mid.children@[i as int].unwrap();
            let child_post = self.children@[i as int].unwrap();
            assert forall|va: u64| table_index(va, level as int) != i as int implies #[trigger] self.lookup(
                level as nat,
                va,
            ) == mid.lookup(level as nat, va) by {}
            assert forall|va: u64| table_index(va, level as int) == i as int implies #[trigger] self.lookup(
                level as nat,
                va,
            ) == child_post.lookup((level - 1) as nat, va) && mid.lookup(level as nat, va)
                == child_pre.lookup((level - 1) as nat, va) by {}
            assert forall|va: u64|
                same_indices(va, page.start_address, level as int) <==> table_index(va, level as int)
                    == i as int && same_indices(va, page.start_address, (level - 1) as int) by {
                if table_index(va, level as int) == i as int && same_indices(
                    va,
                    page.start_address,
                    (level - 1) as int,
                ) {
                    assert forall|l: int| 1 <= l <= level implies table_index(va, l) == table_index(
                        page.start_address,
                        l,
                    ) by {
                        if l < level {
                            assert(table_index(va, l) == table_index(page.start_address, l));
                        }
                    }
                }
            }
            if pre.lookup(level as nat, page.start_address) is Some {
                assert(pre.entries@[i as int].flags.present);
            }
        }
        r
    }
}

/// What mapping `page` to `frame` with `flags` does to an address space
/// `pre`, leaving `post` and returning `r`.
///
/// On success the page translates through the new entry and every other page
/// as before. On failure no translation changes. A page that was mapped
/// before is refused with the frame it maps to; one that was not, and whose
/// tables all exist, is mapped.
pub open spec fn map_result(
    pre: PageTableWalker,
    post: PageTableWalker,
    page: Page,
    frame: PhysFrame,
    flags: PageTableFlags,
    r: Result<(), MapToError>,
) -> bool {
    &&& r is Ok ==> forall|va: u64|
        #[trigger] post.lookup(va) == if page_number(va) == page_number(page.start_address) {
            if flags.present {
                Some(PageTableEntry { addr: frame.start_address, flags })
            } else {
                None
            }
        } else {
            pre.lookup(va)
        }
    &&& r is Err ==> forall|va: u64| #[trigger] post.lookup(va) == pre.lookup(va)
    &&& pre.lookup(page.start_address) matches Some(e) ==> r == Err::<(), MapToError>(
        MapToError::PageAlreadyMapped(PhysFrame { start_address: e.addr }),
    )
    &&& r matches Err(MapToError::PageAlreadyMapped(f)) ==> pre.lookup(page.start_address) is Some
    &&& pre.lookup(page.start_address) is None && pre.path_present(page.start_address) ==> r is Ok
}

/// A four-level address space that one owner maps pages into and
/// translates addresses through.
///
/// It holds the top-level table, and through it every table below. Every
/// table it builds maps 4 KiB pages only, so a walk never meets a huge page.
/// It is neither `Clone` nor `Copy`: two walkers can never share tables.
pub struct PageTableWalker {
    level_4_table: PageTable,
}

impl PageTableWalker {
    pub closed spec fn wf(&self) -> bool {
        self.level_4_table.wf(PAGE_TABLE_LEVELS as nat)
    }

    /// The present level-1 entry that the walk for `va` ends in, if any.
    pub closed spec fn lookup(&self, va: u64) -> Option<PageTableEntry> {
        self.level_4_table.lookup(PAGE_TABLE_LEVELS as nat, va)
    }

    /// Every table on the walk for `va` exists, so mapping its page needs no
    /// new frame.
    pub closed spec fn path_present(&self, va: u64) -> bool {
        self.level_4_table.path_present(PAGE_TABLE_LEVELS as nat, va)
    }

    /// The physical address that `va` translates to, if its page is mapped.
    pub open spec fn translate_spec(&self, va: u64) -> Option<u64> {
        match self.lookup(va) {
            Some(e) => Some((e.addr + va % PAGE_SIZE) as u64),
            None => None,
        }
    }

    /// An address space with nothing mapped.
    pub fn new() -> (r: Self)
        ensures
            r.wf(),
            forall|va: u64| #[trigger] r.lookup(va) is None,
    {
        PageTableWalker { level_4_table: PageTable::empty() }
    }

    /// The physical address that `addr` translates to, or `None` when the
    /// walk finds an unused entry on the way.
    pub fn translate_addr(&self, addr: u64) -> (r: Option<u64>)
        requires
            self.wf(),
        ensures
            r == self.translate_spec(addr),
            r matches Some(p) ==> p % PAGE_SIZE == addr % PAGE_SIZE,
    {
        match self.level_4_table.lookup_entry(PAGE_TABLE_LEVELS, addr) {
            Some(e) => Some(e.addr + addr % PAGE_SIZE),
            None => None,
        }
    }

    /// Maps `page` to `frame` with `flags`, creating the missing tables on
    /// the way with frames from `frame_allocator`. A page that is mapped
    /// already is left as it is and reported, with the frame it maps to.
    pub fn map_to<A: FrameAllocator>(
        &mut self,
        page: Page,
        frame: PhysFrame,
        flags: PageTableFlags,
        frame_allocator: &mut A,
    ) -> (r: Result<(), MapToError>)
        requires
            old(self).wf(),
            frame.start_address % PAGE_SIZE == 0,
        ensures
            final(self).wf(),
            map_result(*old(self), *final(self), page, frame, flags, r),
            old(self).lookup(page.start_address) is None && old(frame_allocator).frames_left().len()
                >= PAGE_TABLE_LEVELS - 1 ==> r is Ok,
            took_frames(*old(frame_allocator), *final(frame_allocator), PAGE_TABLE_LEVELS - 1),
    {
        let r = self.level_4_table.map_in(PAGE_TABLE_LEVELS, page, frame, flags, frame_allocator);
        proof {
            assert forall|va: u64|
                same_indices(va, page.start_address, 4) <==> page_number(va) == page_number(
                    page.start_address,
                ) by {
                lemma_same_indices_same_page(va, page.start_address);
            }
        }
        r
    }
}

/// Addresses in one page walk to the same entry.
pub proof fn lemma_lookup_same_page(w: PageTableWalker, a: u64, b: u64)
    requires
        page_number(a) == page_number(b),
    ensures
        w.lookup(a) == w.lookup(b),
{
    lemma_same_indices_same_page(a, b);
    w.level_4_table.lemma_lookup_same_indices(PAGE_TABLE_LEVELS as nat, a, b);
}

/// Translating an address reads the address space and nothing else: two
/// translations of one address with no mapping in between agree.
pub proof fn lemma_translate_stable(before: PageTableWalker, after: PageTableWalker, va: u64)
    requires
        forall|a: u64| #[trigger] after.lookup(a) == before.lookup(a),
    ensures
        after.translate_spec(va) == before.translate_spec(va),
{
    assert(after.lookup(va) == before.lookup(va));
}

/// Maps `page` to the frame of the VGA text buffer, writable.
pub fn create_example_mapping<A: FrameAllocator>(
    page: Page,
    mapper: &mut PageTableWalker,
    frame_allocator: &mut A,
) -> (r: Result<(), MapToError>)
    requires
        old(mapper).wf(),
    ensures
        final(mapper).wf(),
        map_result(
            *old(mapper),
            *final(mapper),
            page,
            PhysFrame { start_address: 0xb8000 },
            PageTableFlags { present: true, writable: true },
            r,
        ),
        old(mapper).lookup(page.start_address) is None && old(frame_allocator).frames_left().len()
            >= PAGE_TABLE_LEVELS - 1 ==> r is Ok,
        took_frames(*old(frame_allocator), *final(frame_allocator), PAGE_TABLE_LEVELS - 1),
{
    let frame = PhysFrame::containing_address(0xb8000);
    let flags = PageTableFlags { present: true, writable: true };
    mapper.map_to(page, frame, flags, frame_allocator)
}

} // verus!
