use vstd::prelude::*;
use crossbeam_queue::ArrayQueue;

verus! {

/// `crossbeam_queue::ArrayQueue`, the bounded FIFO queue under the stream,
/// known to the contracts only through `queue_items` and `queue_capacity`.
#[verifier::external_type_specification]
#[verifier::external_body]
#[verifier::reject_recursive_types(T)]
pub struct ExArrayQueue<T>(ArrayQueue<T>);

/// The scancodes that a queue holds, oldest first.
pub uninterp spec fn queue_items(q: ArrayQueue<u8>) -> Seq<u8>;

/// The number of scancodes that a queue was made to hold.
pub uninterp spec fn queue_capacity(q: ArrayQueue<u8>) -> nat;

/// Bytes of one slot of the queue: a stamp and the scancode, padded.
pub const QUEUE_SLOT_BYTES: usize = 16;

/// Relies on `crossbeam_queue::ArrayQueue::new`: an empty queue with room
/// for `cap` items. It panics when `cap` is zero, and when its buffer of
/// `cap` slots (16 bytes each for `u8`) would exceed `isize::MAX` bytes.
#[verifier::external_body]
fn new_queue(cap: usize) -> (q: ArrayQueue<u8>)
    requires
        0 < cap,
        cap * QUEUE_SLOT_BYTES <= isize::MAX,
    ensures
        queue_items(q) == Seq::<u8>::empty(),
        queue_capacity(q) == cap,
{
    ArrayQueue::new(cap)
}

/// Relies on `crossbeam_queue::ArrayQueue::push`: the item goes in at the
/// back unless the queue is full, in which case it is handed back and the
/// queue is unchanged. With the queue borrowed mutably no other thread acts
/// on it meanwhile.
#[verifier::external_body]
fn queue_push(q: &mut ArrayQueue<u8>, item: u8) -> (r: bool)
    ensures
        queue_capacity(*final(q)) == queue_capacity(*old(q)),
        queue_items(*old(q)).len() < queue_capacity(*old(q)) ==> r && queue_items(*final(q))
            == queue_items(*old(q)).push(item),
        queue_items(*old(q)).len() >= queue_capacity(*old(q)) ==> !r && queue_items(*final(q))
            == queue_items(*old(q)),
{
    q.push(item).is_ok()
}

/// Relies on `crossbeam_queue::ArrayQueue::pop`: the oldest item comes out,
/// or an error when the queue is empty.
#[verifier::external_body]
fn queue_pop(q: &mut ArrayQueue<u8>) -> (r: Option<u8>)
    ensures
        queue_capacity(*final(q)) == queue_capacity(*old(q)),
        queue_items(*old(q)).len() == 0 ==> r is None && queue_items(*final(q)) == queue_items(
            *old(q),
        ),
        queue_items(*old(q)).len() > 0 ==> r == Some(queue_items(*old(q))[0]) && queue_items(
            *final(q),
        ) == queue_items(*old(q)).drop_first(),
{
    q.pop().ok()
}

/// Room in the scancode queue of a stream made by `ScancodeStream::new`.
pub const SCANCODE_QUEUE_SIZE: usize = 100;

/// What became of a scancode offered by the interrupt handler.
#[derive(Debug, Clone, PartialEq, Eq)]
pub enum OfferOutcome<W> {
    /// It was queued; the waker to fire, if a reader was waiting.
    Queued(Option<W>),
    /// The queue was full and it was dropped.
    Dropped,
}

/// What a poll of the stream gives.
#[derive(Debug, Clone, Copy, PartialEq, Eq, Structural)]
pub enum PollNext {
    /// The oldest queued scancode.
    Ready(u8),
    /// Nothing is queued; the poller's waker is registered.
    Pending,
}

/// The channel from the keyboard interrupt handler to the task that reads
/// scancodes: a bounded queue and one waker registration, of type `W`.
///
/// The handler offers each scancode and never blocks: when the queue is full
/// the scancode is dropped. The reading task polls; when nothing is queued it
/// registers itself, replacing any earlier registration, and the next
/// scancode offered hands it back to be woken.
pub struct ScancodeStream<W> {
    queue: ArrayQueue<u8>,
    waker: Option<W>,
}

/// What offering `scancode` does to a stream `pre`, leaving `post` and
/// returning `r`.
pub open spec fn offer_result<W>(
    pre: ScancodeStream<W>,
    post: ScancodeStream<W>,
    scancode: u8,
    r: OfferOutcome<W>,
) -> bool {
    &&& post.capacity() == pre.capacity()
    &&& pre.items().len() < pre.capacity() ==> {
        &&& r == OfferOutcome::Queued(pre.waker())
        &&& post.items() == pre.items().push(scancode)
        &&& post.waker() is None
    }
    &&& pre.items().len() >= pre.capacity() ==> {
        &&& r == OfferOutcome::<W>::Dropped
        &&& post.items() == pre.items()
        &&& post.waker() == pre.waker()
    }
}

/// What a poll with waker `waker` does to a stream `pre`, leaving `post`
/// and returning `r`.
pub open spec fn poll_result<W>(
    pre: ScancodeStream<W>,
    post: ScancodeStream<W>,
    waker: W,
    r: PollNext,
) -> bool {
    &&& post.capacity() == pre.capacity()
    &&& pre.items().len() > 0 ==> {
        &&& r == PollNext::Ready(pre.items()[0])
        &&& post.items() == pre.items().drop_first()
        &&& post.waker() == pre.waker()
    }
    &&& pre.items().len() == 0 ==> {
        &&& r == PollNext::Pending
        &&& post.items() == pre.items()
        &&& post.waker() == Some(waker)
    }
}

/// How many of `n` offers to an empty queue of room `cap` get in.
pub open spec fn queued_count(n: int, cap: int) -> int {
    if n < cap {
        n
    } else {
        cap
    }
}

/// Offering scancodes one after another to a stream whose queue is empty
/// queues them in order while there is room and drops the rest: the queue
/// ends up with the first `capacity` of them, oldest first, and an offer is
/// queued exactly when fewer than `capacity` came before it.
pub proof fn lemma_offers_keep_order<W>(
    states: Seq<ScancodeStream<W>>,
    scancodes: Seq<u8>,
    outcomes: Seq<OfferOutcome<W>>,
)
    requires
        states.len() == scancodes.len() + 1,
        outcomes.len() == scancodes.len(),
        states[0].items().len() == 0,
        forall|i: int|
            0 <= i < scancodes.len() ==> offer_result(
                #[trigger] states[i],
                states[i + 1],
                scancodes[i],
                outcomes[i],
            ),
    ensures
        forall|i: int| 0 <= i < states.len() ==> (#[trigger] states[i]).capacity() == states[0].capacity(),
        states.last().items() == scancodes.take(
            queued_count(scancodes.len() as int, states[0].capacity() as int),
        ),
        forall|i: int|
            0 <= i < scancodes.len() ==> ((#[trigger] outcomes[i]) is Queued <==> i
                < states[0].capacity()),
    decreases scancodes.len(),
{
    let n = scancodes.len() as int;
    if n > 0 {
        let cap = states[0].capacity() as int;
        let s0 = states.drop_last();
        let c0 = scancodes.drop_last();
        let o0 = outcomes.drop_last();
        assert forall|i: int| 0 <= i < c0.len() implies offer_result(
            #[trigger] s0[i],
            s0[i + 1],
            c0[i],
            o0[i],
        ) by {
            assert(offer_result(states[i], states[i + 1], scancodes[i], outcomes[i]));
        }
        lemma_offers_keep_order(s0, c0, o0);
        assert(offer_result(states[n - 1], states[n], scancodes[n - 1], outcomes[n - 1]));
        assert(s0.last() == states[n - 1]);
        assert forall|i: int| 0 <= i < states.len() implies (#[trigger] states[i]).capacity()
            == states[0].capacity() by {
            if i < n {
                assert(s0[i] == states[i]);
            }
        }
        if n - 1 < cap {
            assert(scancodes.take(n) =~= c0.take(n - 1).push(scancodes[n - 1]));
        } else {
            assert(scancodes.take(cap) =~= c0.take(cap));
        }
        assert forall|i: int| 0 <= i < scancodes.len() implies ((#[trigger] outcomes[i]) is Queued
            <==> i < cap) by {
            if i < n - 1 {
                assert(o0[i] == outcomes[i]);
            }
        }
    }
}

/// Polling a stream again and again hands out its queued scancodes oldest
/// first, one per poll, and then `Pending`.
pub proof fn lemma_polls_drain_in_order<W>(
    states: Seq<ScancodeStream<W>>,
    waker: W,
    results: Seq<PollNext>,
)
    requires
        states.len() == results.len() + 1,
        forall|i: int|
            0 <= i < results.len() ==> poll_result(
                #[trigger] states[i],
                states[i + 1],
                waker,
                results[i],
            ),
    ensures
        forall|i: int|
            0 <= i < results.len() ==> #[trigger] results[i] == if i < states[0].items().len() {
                PollNext::Ready(states[0].items()[i])
            } else {
                PollNext::Pending
            },
        forall|i: int|
            0 <= i < states.len() ==> (#[trigger] states[i]).items() == states[0].items().skip(
                queued_count(i, states[0].items().len() as int),
            ),
    decreases results.len(),
{
    let n = results.len() as int;
    let items = states[0].items();
    if n == 0 {
        assert(items.skip(0) =~= items);
    } else {
        let s0 = states.drop_last();
        let r0 = results.drop_last();
        assert forall|i: int| 0 <= i < r0.len() implies poll_result(
            #[trigger] s0[i],
            s0[i + 1],
            waker,
            r0[i],
        ) by {
            assert(poll_result(states[i], states[i + 1], waker, results[i]));
        }
        lemma_polls_drain_in_order(s0, waker, r0);
        assert(poll_result(states[n - 1], states[n], waker, results[n - 1]));
        assert(s0[n - 1] == states[n - 1]);
        let k = queued_count(n - 1, items.len() as int);
        assert(states[n - 1].items() == items.skip(k));
        if n - 1 < items.len() {
            assert(states[n].items() =~= items.skip(k + 1));
        } else {
            assert(states[n].items() =~= items.skip(k));
        }
        assert forall|i: int| 0 <= i < states.len() implies (#[trigger] states[i]).items()
            == items.skip(queued_count(i, items.len() as int)) by {
            if i < n {
                assert(s0[i] == states[i]);
            }
        }
        assert forall|i: int| 0 <= i < results.len() implies #[trigger] results[i] == if i
            < items.len() {
            PollNext::Ready(items[i])
        } else {
            PollNext::Pending
        } by {
            if i < n - 1 {
                assert(r0[i] == results[i]);
            }
        }
    }
}

impl<W> ScancodeStream<W> {
    /// The queued scancodes, oldest first.
    pub closed spec fn items(&self) -> Seq<u8> {
        queue_items(self.queue)
    }

    /// How many scancodes the queue can hold.
    pub closed spec fn capacity(&self) -> nat {
        queue_capacity(self.queue)
    }

    /// The registered waker, if any.
    pub closed spec fn waker(&self) -> Option<W> {
        self.waker
    }

    pub open spec fn wf(&self) -> bool {
        0 < self.capacity() && self.items().len() <= self.capacity()
    }

    /// A stream whose queue holds up to `SCANCODE_QUEUE_SIZE` scancodes.
    pub fn new() -> (r: Self)
        ensures
            r.wf(),
            r.items() == Seq::<u8>::empty(),
            r.capacity() == SCANCODE_QUEUE_SIZE,
            r.waker() is None,
    {
        Self::with_capacity(SCANCODE_QUEUE_SIZE)
    }

    /// A stream whose queue holds up to `capacity` scancodes.
    pub fn with_capacity(capacity: usize) -> (r: Self)
        requires
            0 < capacity,
            capacity * QUEUE_SLOT_BYTES <= isize::MAX,
        ensures
            r.wf(),
            r.items() == Seq::<u8>::empty(),
            r.capacity() == capacity,
            r.waker() is None,
    {
        ScancodeStream { queue: new_queue(capacity), waker: None }
    }

    /// Called by the keyboard interrupt handler: queues `scancode` and hands
    /// back the registered waker to fire, or drops the scancode when the
    /// queue is full.
    pub fn add_scancode(&mut self, scancode: u8) -> (r: OfferOutcome<W>)
        requires
            old(self).wf(),
        ensures
            final(self).wf(),
            offer_result(*old(self), *final(self), scancode, r),
    {
        if queue_push(&mut self.queue, scancode) {
            OfferOutcome::Queued(self.waker.take())
        } else {
            OfferOutcome::Dropped
        }
    }

    /// Called by the reading task: the oldest queued scancode, or `Pending`
    /// with `waker` registered in place of any earlier one.
    ///
    /// The queue is tried again after registering, so that a scancode that
    /// arrives between the first try and the registration is not left
    /// waiting for the next one.
    pub fn poll_next(&mut self, waker: W) -> (r: PollNext)
        requires
            old(self).wf(),
        ensures
            final(self).wf(),
            poll_result(*old(self), *final(self), waker, r),
    {
        if let Some(scancode) = queue_pop(&mut self.queue) {
            return PollNext::Ready(scancode);
        }
        self.waker = Some(waker);
        match queue_pop(&mut self.queue) {
            Some(scancode) => {
                self.waker = None;
                PollNext::Ready(scancode)
            },
            None => PollNext::Pending,
        }
    }
}

} // verus!
