use toy_rust_os::task::executor::{Executor, TaskId};
use toy_rust_os::task::keyboard::{OfferOutcome, PollNext, ScancodeStream};

#[test]
fn third_offer_to_a_queue_of_two_is_dropped() {
    let mut s = ScancodeStream::<TaskId>::with_capacity(2);
    let reader = TaskId(7);
    assert_eq!(s.add_scancode(0x1C), OfferOutcome::Queued(None));
    assert_eq!(s.add_scancode(0x1D), OfferOutcome::Queued(None));
    assert_eq!(s.add_scancode(0x1E), OfferOutcome::Dropped);
    assert_eq!(s.poll_next(reader), PollNext::Ready(0x1C));
    assert_eq!(s.poll_next(reader), PollNext::Ready(0x1D));
    assert_eq!(s.poll_next(reader), PollNext::Pending);
}

#[test]
fn scancodes_drain_in_order() {
    let mut s = ScancodeStream::<TaskId>::new();
    let reader = TaskId(1);
    let codes: [u8; 5] = [0x10, 0x90, 0x11, 0x91, 0x2a];
    for c in codes {
        assert_eq!(s.add_scancode(c), OfferOutcome::Queued(None));
    }
    for c in codes {
        assert_eq!(s.poll_next(reader), PollNext::Ready(c));
    }
    assert_eq!(s.poll_next(reader), PollNext::Pending);
}

#[test]
fn a_full_queue_keeps_what_it_holds() {
    let mut s = ScancodeStream::<TaskId>::with_capacity(3);
    for c in 1u8..=3 {
        assert_eq!(s.add_scancode(c), OfferOutcome::Queued(None));
    }
    for c in 4u8..=9 {
        assert_eq!(s.add_scancode(c), OfferOutcome::Dropped);
    }
    for c in 1u8..=3 {
        assert_eq!(s.poll_next(TaskId(0)), PollNext::Ready(c));
    }
}

#[test]
fn a_waiting_reader_is_woken_by_the_next_scancode() {
    let mut s = ScancodeStream::<TaskId>::with_capacity(4);
    assert_eq!(s.poll_next(TaskId(3)), PollNext::Pending);
    assert_eq!(s.poll_next(TaskId(4)), PollNext::Pending);
    assert_eq!(s.add_scancode(0x1C), OfferOutcome::Queued(Some(TaskId(4))));
    assert_eq!(s.add_scancode(0x1D), OfferOutcome::Queued(None));
    assert_eq!(s.poll_next(TaskId(4)), PollNext::Ready(0x1C));
}

#[test]
fn tasks_are_polled_in_spawn_order() {
    let mut e = Executor::new();
    assert!(e.is_idle());
    let a = e.spawn().unwrap();
    let b = e.spawn().unwrap();
    assert_ne!(a, b);
    assert!(!e.is_idle());
    assert_eq!(e.next_ready(), Some(a));
    assert_eq!(e.next_ready(), Some(b));
    assert_eq!(e.next_ready(), None);
    assert!(e.is_idle());
}

#[test]
fn a_task_that_finishes_at_once_is_gone() {
    let mut e = Executor::new();
    let a = e.spawn().unwrap();
    assert_eq!(e.next_ready(), Some(a));
    e.complete(a);
    assert!(!e.wake(a));
    assert_eq!(e.next_ready(), None);
}

#[test]
fn a_waiting_task_waits_for_its_waker() {
    let mut e = Executor::new();
    let waiting = e.spawn().unwrap();
    let busy = e.spawn().unwrap();
    assert_eq!(e.next_ready(), Some(waiting));
    for _ in 0..10 {
        assert_eq!(e.next_ready(), Some(busy));
        assert!(e.wake(busy));
    }
    assert_eq!(e.next_ready(), Some(busy));
    assert_eq!(e.next_ready(), None);
    assert!(e.wake(waiting));
    assert!(!e.wake(waiting));
    assert_eq!(e.next_ready(), Some(waiting));
    assert_eq!(e.next_ready(), None);
}

#[test]
fn completing_a_queued_task_unqueues_it() {
    let mut e = Executor::new();
    let a = e.spawn().unwrap();
    let b = e.spawn().unwrap();
    let c = e.spawn().unwrap();
    e.complete(b);
    assert_eq!(e.next_ready(), Some(a));
    assert_eq!(e.next_ready(), Some(c));
    assert_eq!(e.next_ready(), None);
}
