use toy_rust_os::allocator::linked_list::{HeapInitError, LinkedListAllocator};
use toy_rust_os::allocator::{init_heap, InitHeapError, HEAP_SIZE, HEAP_START};
use toy_rust_os::memory::{
    BootInfoFrameAllocator, EmptyFrameAllocator, FrameAllocator, MemoryRegion, MemoryRegionType,
    PhysFrame,
};
use toy_rust_os::paging::{
    create_example_mapping, MapToError, Page, PageTableFlags, PageTableWalker,
};

fn region(start: u64, end: u64, usable: bool) -> MemoryRegion {
    MemoryRegion {
        start_addr: start,
        end_addr: end,
        region_type: if usable { MemoryRegionType::Usable } else { MemoryRegionType::Reserved },
    }
}

fn frames() -> BootInfoFrameAllocator {
    BootInfoFrameAllocator::init(vec![region(0x100000, 0x200000, true)])
}

const RW: PageTableFlags = PageTableFlags { present: true, writable: true };

#[test]
fn frames_come_in_map_order_once_each() {
    let mut f = BootInfoFrameAllocator::init(vec![
        region(0x0, 0x1000, false),
        region(0x1000, 0x3000, true),
        region(0x3000, 0x8000, false),
        region(0x8000, 0x9000, true),
    ]);
    assert_eq!(f.next_frame(), Some(PhysFrame { start_address: 0x1000 }));
    assert_eq!(f.next_frame(), Some(PhysFrame { start_address: 0x2000 }));
    assert_eq!(f.allocate_frame(), Some(PhysFrame { start_address: 0x8000 }));
    assert_eq!(f.next_frame(), None);
    assert_eq!(f.next_frame(), None);
}

#[test]
fn a_partial_last_frame_counts() {
    let mut f = BootInfoFrameAllocator::init(vec![region(0x1000, 0x2800, true)]);
    assert_eq!(f.next_frame(), Some(PhysFrame { start_address: 0x1000 }));
    assert_eq!(f.next_frame(), Some(PhysFrame { start_address: 0x2000 }));
    assert_eq!(f.next_frame(), None);
}

#[test]
fn empty_frame_allocator_has_no_frames() {
    let mut e = EmptyFrameAllocator;
    assert_eq!(e.allocate_frame(), None);
}

#[test]
fn containing_address_rounds_down() {
    assert_eq!(PhysFrame::containing_address(0x1fff), PhysFrame { start_address: 0x1000 });
    assert_eq!(Page::containing_address(0x2000), Page { start_address: 0x2000 });
}

#[test]
fn nothing_is_mapped_at_first() {
    let w = PageTableWalker::new();
    assert_eq!(w.translate_addr(0), None);
    assert_eq!(w.translate_addr(0xdead_beef), None);
}

#[test]
fn mapped_page_translates_with_offset() {
    let mut w = PageTableWalker::new();
    let mut f = frames();
    let page = Page::containing_address(0x4000_1000);
    let frame = PhysFrame { start_address: 0x5000 };
    assert_eq!(w.map_to(page, frame, RW, &mut f), Ok(()));
    assert_eq!(w.translate_addr(0x4000_1234), Some(0x5234));
    assert_eq!(w.translate_addr(0x4000_1000), Some(0x5000));
    assert_eq!(w.translate_addr(0x4000_2000), None);
    assert_eq!(w.translate_addr(0x4000_0fff), None);
}

#[test]
fn translation_is_stable() {
    let mut w = PageTableWalker::new();
    let mut f = frames();
    w.map_to(Page { start_address: 0x7000 }, PhysFrame { start_address: 0x9000 }, RW, &mut f)
        .unwrap();
    let once = w.translate_addr(0x7abc);
    let twice = w.translate_addr(0x7abc);
    assert_eq!(once, Some(0x9abc));
    assert_eq!(once, twice);
}

#[test]
fn mapping_a_mapped_page_is_refused() {
    let mut w = PageTableWalker::new();
    let mut f = frames();
    let page = Page { start_address: 0x7000 };
    w.map_to(page, PhysFrame { start_address: 0x9000 }, RW, &mut f).unwrap();
    assert_eq!(
        w.map_to(page, PhysFrame { start_address: 0xa000 }, RW, &mut f),
        Err(MapToError::PageAlreadyMapped(PhysFrame { start_address: 0x9000 }))
    );
    assert_eq!(w.translate_addr(0x7010), Some(0x9010));
}

#[test]
fn missing_tables_need_frames() {
    let mut w = PageTableWalker::new();
    let mut none = EmptyFrameAllocator;
    let page = Page { start_address: 0x7000 };
    assert_eq!(
        w.map_to(page, PhysFrame { start_address: 0x9000 }, RW, &mut none),
        Err(MapToError::FrameAllocationFailed)
    );
    assert_eq!(w.translate_addr(0x7000), None);
    let mut f = frames();
    w.map_to(page, PhysFrame { start_address: 0x9000 }, RW, &mut f).unwrap();
    let neighbour = Page { start_address: 0x8000 };
    assert_eq!(w.map_to(neighbour, PhysFrame { start_address: 0xb000 }, RW, &mut none), Ok(()));
    assert_eq!(w.translate_addr(0x8008), Some(0xb008));
}

#[test]
fn example_mapping_targets_the_vga_buffer() {
    let mut w = PageTableWalker::new();
    let mut f = frames();
    assert_eq!(create_example_mapping(Page { start_address: 0xdead_b000 }, &mut w, &mut f), Ok(()));
    assert_eq!(w.translate_addr(0xdead_b8f8), Some(0xb88f8));
}

#[test]
fn heap_is_mapped_and_handed_to_the_allocator() {
    let mut w = PageTableWalker::new();
    let mut f = frames();
    let mut a = LinkedListAllocator::new();
    assert_eq!(init_heap(&mut w, &mut f, &mut a), Ok(()));
    let start = HEAP_START;
    let end = HEAP_START + HEAP_SIZE;
    let mut addr = start;
    let mut seen: Vec<u64> = Vec::new();
    while addr < end {
        let phys = w.translate_addr(addr).unwrap();
        assert_eq!(phys % 4096, 0);
        assert!(!seen.contains(&phys));
        seen.push(phys);
        addr += 4096;
    }
    assert_eq!(seen.len(), 25);
    assert_eq!(w.translate_addr(end), None);
    assert_eq!(w.translate_addr(start - 1), None);
    let p = a.allocate(100, 8).unwrap();
    assert_eq!(p as u64, HEAP_START);
    assert_eq!(
        init_heap(&mut w, &mut f, &mut a),
        Err(InitHeapError::Allocator(HeapInitError::AlreadyInitialized))
    );
}

#[test]
fn heap_setup_fails_without_frames() {
    let mut w = PageTableWalker::new();
    let mut none = EmptyFrameAllocator;
    let mut a = LinkedListAllocator::new();
    assert_eq!(
        init_heap(&mut w, &mut none, &mut a),
        Err(InitHeapError::Mapping(MapToError::FrameAllocationFailed))
    );
    assert!(!a.is_initialized());
}

#[test]
fn heap_setup_stops_at_a_mapped_page() {
    let mut w = PageTableWalker::new();
    let mut f = frames();
    let taken = Page { start_address: HEAP_START + 4096 };
    w.map_to(taken, PhysFrame { start_address: 0x3000 }, RW, &mut f).unwrap();
    let mut a = LinkedListAllocator::new();
    assert_eq!(
        init_heap(&mut w, &mut f, &mut a),
        Err(InitHeapError::Mapping(MapToError::PageAlreadyMapped(PhysFrame {
            start_address: 0x3000
        })))
    );
    assert_eq!(w.translate_addr(HEAP_START + 4096), Some(0x3000));
    assert!(w.translate_addr(HEAP_START).is_some());
    assert_eq!(w.translate_addr(HEAP_START + 2 * 4096), None);
    assert!(!a.is_initialized());
}
