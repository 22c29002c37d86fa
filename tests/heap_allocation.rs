use toy_rust_os::allocator::bump::BumpAllocator;
use toy_rust_os::allocator::linked_list::{HeapInitError, LinkedListAllocator};
use toy_rust_os::allocator::{align_up, Dummy};

const BASE: usize = 0x10000;

fn heap(size: usize) -> LinkedListAllocator {
    let mut a = LinkedListAllocator::new();
    assert_eq!(a.init(BASE, size), Ok(()));
    a
}

#[test]
fn align_up_rounds_to_next_multiple() {
    assert_eq!(align_up(13, 8), 16);
    assert_eq!(align_up(16, 8), 16);
    assert_eq!(align_up(0, 4096), 0);
    assert_eq!(align_up(4097, 4096), 8192);
}

#[test]
fn two_small_blocks_in_a_4096_byte_heap() {
    let mut a = heap(4096);
    let first = a.allocate(100, 8).unwrap();
    let second = a.allocate(100, 8).unwrap();
    let (lo, hi) = if first < second { (first, second) } else { (second, first) };
    assert!(hi - lo >= 100);
    for addr in [first, second] {
        assert!(addr >= BASE && addr + 100 <= BASE + 4096);
    }
    assert_eq!(first, BASE);
    assert_eq!(second, BASE + 104);
}

#[test]
fn request_beyond_heap_is_exhaustion() {
    let mut a = heap(4096);
    a.allocate(100, 8).unwrap();
    a.allocate(100, 8).unwrap();
    assert_eq!(a.allocate(5000, 8), None);
}

#[test]
fn request_beyond_remaining_capacity_fails() {
    let mut a = heap(256);
    assert_eq!(a.allocate(200, 8), Some(BASE));
    assert_eq!(a.allocate(100, 8), None);
    assert_eq!(a.allocate(56, 8), Some(BASE + 200));
    assert_eq!(a.allocate(1, 1), None);
}

#[test]
fn freed_block_is_served_again() {
    let mut a = heap(4096);
    let p = a.allocate(64, 16).unwrap();
    a.deallocate(p, 64, 16);
    let q = a.allocate(64, 16);
    assert!(q.is_some());
    assert_eq!(q, Some(p));
}

#[test]
fn live_blocks_do_not_overlap() {
    let mut a = heap(4096);
    let sizes: [usize; 6] = [24, 100, 7, 300, 16, 1000];
    let mut live: Vec<(usize, usize)> = Vec::new();
    for (k, size) in sizes.iter().enumerate() {
        let p = a.allocate(*size, 8).unwrap();
        live.push((p, *size));
        if k == 2 {
            let (q, s) = live.remove(0);
            a.deallocate(q, s, 8);
        }
    }
    for i in 0..live.len() {
        for j in 0..live.len() {
            if i != j {
                let (p, s) = live[i];
                let (q, t) = live[j];
                assert!(p + s <= q || q + t <= p);
            }
        }
    }
}

#[test]
fn small_requests_take_a_whole_node() {
    let mut a = heap(4096);
    assert_eq!(a.allocate(1, 1), Some(BASE));
    assert_eq!(a.allocate(1, 1), Some(BASE + 16));
}

#[test]
fn alignment_is_honoured() {
    let mut a = LinkedListAllocator::new();
    assert_eq!(a.init(0x1008, 4096), Ok(()));
    let p = a.allocate(8, 64).unwrap();
    assert_eq!(p, 0x1040);
    assert_eq!(p % 64, 0);
}

#[test]
fn a_tail_too_small_for_a_node_is_refused() {
    let mut a = heap(40);
    assert_eq!(a.allocate(32, 8), None);
    assert_eq!(a.allocate(24, 8), Some(BASE));
}

#[test]
fn freed_neighbours_are_not_merged() {
    let mut a = heap(64);
    let p = a.allocate(32, 8).unwrap();
    let q = a.allocate(32, 8).unwrap();
    assert_eq!(q, p + 32);
    a.deallocate(p, 32, 8);
    a.deallocate(q, 32, 8);
    assert_eq!(a.allocate(64, 8), None);
    assert_eq!(a.allocate(32, 8), Some(q));
}

#[test]
fn heap_is_initialized_once() {
    let mut a = heap(4096);
    assert!(a.is_initialized());
    assert_eq!(a.init(0x20000, 4096), Err(HeapInitError::AlreadyInitialized));
}

#[test]
fn bad_heap_regions_are_refused() {
    let mut a = LinkedListAllocator::new();
    assert!(!a.is_initialized());
    assert_eq!(a.init(0x1001, 4096), Err(HeapInitError::InvalidRegion));
    assert_eq!(a.init(0x1000, 8), Err(HeapInitError::InvalidRegion));
    assert_eq!(a.init(usize::MAX - 15, 64), Err(HeapInitError::InvalidRegion));
    assert_eq!(a.allocate(8, 8), None);
    assert_eq!(a.init(0x1000, 16), Ok(()));
}

#[test]
fn empty_allocator_has_nothing() {
    let mut a = LinkedListAllocator::new();
    assert_eq!(a.allocate(1, 1), None);
}

#[test]
fn dummy_never_allocates() {
    let d = Dummy;
    assert_eq!(d.allocate(8, 8), None);
}

#[test]
fn bump_allocator_moves_forward_and_resets() {
    let mut b = BumpAllocator::new();
    assert_eq!(b.allocate(1, 1), None);
    b.init(0x1000, 100);
    assert_eq!(b.allocate(10, 1), Some(0x1000));
    assert_eq!(b.allocate(10, 16), Some(0x1010));
    assert_eq!(b.allocate(100, 1), None);
    b.deallocate();
    assert_eq!(b.allocate(4, 4), Some(0x101c));
    b.deallocate();
    b.deallocate();
    assert_eq!(b.allocate(100, 1), Some(0x1000));
}
