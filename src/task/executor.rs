use vstd::prelude::*;

verus! {

/// Identifies a task for as long as it lives.
#[derive(Debug, Clone, Copy, PartialEq, Eq, PartialOrd, Ord, Hash, Structural)]
pub struct TaskId(pub u64);

/// The bookkeeping of a cooperative, single-threaded executor: which tasks
/// live, and which of them are ready to be polled, in FIFO order.
///
/// A task is spawned ready. Polling it either completes it, and it is
/// forgotten, or leaves it waiting: it is then out of the ready queue until
/// its waker fires. Waking a task that is ready already, or that has
/// completed, does nothing. The futures themselves, and the wakers handed to
/// them, are kept by whoever drives the executor.
pub struct Executor {
    next_id: u64,
    tasks: Vec<TaskId>,
    ready: Vec<TaskId>,
}

/// What spawning does to an executor `pre`, leaving `post` and returning
/// `r`: a fresh identifier, queued behind the ready tasks. `None` once the
/// identifiers have run out.
pub open spec fn spawn_result(pre: Executor, post: Executor, r: Option<TaskId>) -> bool {
    if pre.next_id() < u64::MAX {
        let id = TaskId(pre.next_id() as u64);
        &&& r == Some(id)
        &&& post.next_id() == pre.next_id() + 1
        &&& post.live() == pre.live().insert(id)
        &&& post.ready() == pre.ready().push(id)
    } else {
        &&& r is None
        &&& post.next_id() == pre.next_id()
        &&& post.live() == pre.live()
        &&& post.ready() == pre.ready()
    }
}

/// What taking the next ready task does: the front of the queue comes off.
pub open spec fn next_ready_result(pre: Executor, post: Executor, r: Option<TaskId>) -> bool {
    &&& post.next_id() == pre.next_id()
    &&& post.live() == pre.live()
    &&& pre.ready().len() == 0 ==> r is None && post.ready() == pre.ready()
    &&& pre.ready().len() > 0 ==> r == Some(pre.ready()[0]) && post.ready()
        == pre.ready().drop_first()
}

/// What completing task `id` does: it is forgotten, and leaves the ready
/// queue if it was in it; the other ready tasks stay.
pub open spec fn complete_result(pre: Executor, post: Executor, id: TaskId) -> bool {
    &&& post.next_id() == pre.next_id()
    &&& post.live() == pre.live().remove(id)
    &&& !post.ready().contains(id)
    &&& forall|t: TaskId| t != id ==> (post.ready().contains(t) <==> pre.ready().contains(t))
    &&& !pre.ready().contains(id) ==> post.ready() == pre.ready()
}

/// What waking task `id` does, returning `r`: a live task that is not ready
/// joins the back of the queue; anything else is left as it is.
pub open spec fn wake_result(pre: Executor, post: Executor, id: TaskId, r: bool) -> bool {
    &&& r == (pre.live().contains(id) && !pre.ready().contains(id))
    &&& post.next_id() == pre.next_id()
    &&& post.live() == pre.live()
    &&& post.ready() == if r {
        pre.ready().push(id)
    } else {
        pre.ready()
    }
}

/// One call on an executor, with what it returned.
pub enum ExecutorStep {
    Spawn(Option<TaskId>),
    NextReady(Option<TaskId>),
    Complete(TaskId),
    Wake(TaskId, bool),
}

/// The call `op` takes `pre` to `post`.
pub open spec fn step(pre: Executor, post: Executor, op: ExecutorStep) -> bool {
    match op {
        ExecutorStep::Spawn(r) => spawn_result(pre, post, r),
        ExecutorStep::NextReady(r) => next_ready_result(pre, post, r),
        ExecutorStep::Complete(id) => complete_result(pre, post, id),
        ExecutorStep::Wake(id, r) => wake_result(pre, post, id, r),
    }
}

/// A sequence with `x` pushed holds what it held, and `x`.
proof fn lemma_push_contains(s: Seq<TaskId>, x: TaskId, t: TaskId)
    ensures
        s.push(x).contains(t) <==> (s.contains(t) || t == x),
{
    if s.push(x).contains(t) && t != x {
        let k = choose|k: int| 0 <= k < s.push(x).len() && s.push(x)[k] == t;
        assert(s[k] == t);
    }
    if s.contains(t) {
        let k = choose|k: int| 0 <= k < s.len() && s[k] == t;
        assert(s.push(x)[k] == t);
    }
    if t == x {
        assert(s.push(x)[s.len() as int] == t);
    }
}

/// `op` wakes task `id`.
pub open spec fn wakes(op: ExecutorStep, id: TaskId) -> bool {
    match op {
        ExecutorStep::Wake(t, _) => t == id,
        _ => false,
    }
}

/// One call keeps an issued task that is not ready out of the ready queue,
/// unless it wakes that task while it lives; and a task that does not live
/// does not come back.
proof fn lemma_step_keeps_out(pre: Executor, post: Executor, op: ExecutorStep, id: TaskId)
    requires
        pre.wf(),
        step(pre, post, op),
        (id.0 as int) < pre.next_id(),
        !pre.ready().contains(id),
        !wakes(op, id) || !pre.live().contains(id),
    ensures
        !post.ready().contains(id),
        (id.0 as int) < post.next_id(),
        op != ExecutorStep::NextReady(Some(id)),
        !pre.live().contains(id) ==> !post.live().contains(id),
{
    pre.lemma_wf();
    match op {
        ExecutorStep::Spawn(r) => {
            if pre.next_id() < u64::MAX {
                lemma_push_contains(pre.ready(), TaskId(pre.next_id() as u64), id);
            }
        },
        ExecutorStep::NextReady(r) => {
            if pre.ready().len() > 0 {
                assert(pre.ready()[0] != id);
                if post.ready().contains(id) {
                    let k = choose|k: int| 0 <= k < post.ready().len() && post.ready()[k] == id;
                    assert(pre.ready()[k + 1] == id);
                }
            }
        },
        ExecutorStep::Complete(t) => {},
        ExecutorStep::Wake(t, r) => {
            if r {
                lemma_push_contains(pre.ready(), t, id);
            }
        },
    }
}

/// A task that is waiting, out of the ready queue, is never handed out by
/// `next_ready` in a run of calls that does not wake it, however long the
/// run and whatever other tasks do meanwhile.
pub proof fn lemma_waiting_task_not_polled(
    states: Seq<Executor>,
    ops: Seq<ExecutorStep>,
    id: TaskId,
)
    requires
        states.len() == ops.len() + 1,
        forall|i: int| 0 <= i < states.len() ==> (#[trigger] states[i]).wf(),
        forall|i: int| 0 <= i < ops.len() ==> step(#[trigger] states[i], states[i + 1], ops[i]),
        forall|i: int| 0 <= i < ops.len() ==> !wakes(#[trigger] ops[i], id),
        (id.0 as int) < states[0].next_id(),
        !states[0].ready().contains(id),
    ensures
        forall|i: int| 0 <= i < states.len() ==> !(#[trigger] states[i]).ready().contains(id),
        forall|i: int| 0 <= i < ops.len() ==> #[trigger] ops[i] != ExecutorStep::NextReady(Some(id)),
{
    lemma_run_keeps_out(states, ops, id);
}

/// A task that has completed is never handed out by `next_ready` again,
/// whatever calls follow, waking it included.
pub proof fn lemma_completed_task_not_polled(
    states: Seq<Executor>,
    ops: Seq<ExecutorStep>,
    id: TaskId,
)
    requires
        states.len() == ops.len() + 1,
        forall|i: int| 0 <= i < states.len() ==> (#[trigger] states[i]).wf(),
        forall|i: int| 0 <= i < ops.len() ==> step(#[trigger] states[i], states[i + 1], ops[i]),
        (id.0 as int) < states[0].next_id(),
        !states[0].live().contains(id),
    ensures
        forall|i: int| 0 <= i < states.len() ==> !(#[trigger] states[i]).live().contains(id),
        forall|i: int| 0 <= i < ops.len() ==> #[trigger] ops[i] != ExecutorStep::NextReady(Some(id)),
{
    states[0].lemma_wf();
    lemma_run_keeps_out(states, ops, id);
}

/// Both laws above, by induction on the run: either no call wakes `id`, or
/// `id` does not live at the start.
proof fn lemma_run_keeps_out(states: Seq<Executor>, ops: Seq<ExecutorStep>, id: TaskId)
    requires
        states.len() == ops.len() + 1,
        forall|i: int| 0 <= i < states.len() ==> (#[trigger] states[i]).wf(),
        forall|i: int| 0 <= i < ops.len() ==> step(#[trigger] states[i], states[i + 1], ops[i]),
        (id.0 as int) < states[0].next_id(),
        !states[0].ready().contains(id),
        (forall|i: int| 0 <= i < ops.len() ==> !wakes(#[trigger] ops[i], id)) || !states[0].live().contains(
            id,
        ),
    ensures
        forall|i: int| 0 <= i < states.len() ==> !(#[trigger] states[i]).ready().contains(id),
        forall|i: int|
            0 <= i < states.len() ==> (id.0 as int) < (#[trigger] states[i]).next_id(),
        !states[0].live().contains(id) ==> forall|i: int|
            0 <= i < states.len() ==> !(#[trigger] states[i]).live().contains(id),
        forall|i: int| 0 <= i < ops.len() ==> #[trigger] ops[i] != ExecutorStep::NextReady(Some(id)),
    decreases ops.len(),
{
    let n = ops.len() as int;
    if n > 0 {
        let s0 = states.drop_last();
        let o0 = ops.drop_last();
        assert forall|i: int| 0 <= i < s0.len() implies (#[trigger] s0[i]).wf() by {
            assert(s0[i] == states[i]);
        }
        assert forall|i: int| 0 <= i < o0.len() implies step(#[trigger] s0[i], s0[i + 1], o0[i]) by {
            assert(step(states[i], states[i + 1], ops[i]));
        }
        if forall|i: int| 0 <= i < ops.len() ==> !wakes(#[trigger] ops[i], id) {
            assert forall|i: int| 0 <= i < o0.len() implies !wakes(#[trigger] o0[i], id) by {
                assert(!wakes(ops[i], id));
            }
        }
        lemma_run_keeps_out(s0, o0, id);
        assert(s0[n - 1] == states[n - 1]);
        assert(states[n - 1].wf());
        assert(step(states[n - 1], states[n], ops[n - 1]));
        if !states[0].live().contains(id) {
            assert(!s0[n - 1].live().contains(id));
        } else {
            assert(!wakes(ops[n - 1], id));
        }
        lemma_step_keeps_out(states[n - 1], states[n], ops[n - 1], id);
        assert forall|i: int| 0 <= i < states.len() implies !(#[trigger] states[i]).ready().contains(
            id,
        ) && (id.0 as int) < states[i].next_id() && (!states[0].live().contains(id)
            ==> !states[i].live().contains(id)) by {
            if i < n {
                assert(s0[i] == states[i]);
            }
        }
        assert forall|i: int| 0 <= i < ops.len() implies #[trigger] ops[i]
            != ExecutorStep::NextReady(Some(id)) by {
            if i < n - 1 {
                assert(o0[i] == ops[i]);
            }
        }
    }
}

/// The position of `id` in `v`, if it is there.
fn position(v: &Vec<TaskId>, id: TaskId) -> (r: Option<usize>)
    ensures
        r matches Some(i) ==> i < v@.len() && v@[i as int] == id,
        r is None ==> !v@.contains(id),
{
    let mut i: usize = 0;
    while i < v.len()
        invariant
            0 <= i <= v@.len(),
            forall|j: int| 0 <= j < i ==> v@[j] != id,
        decreases v@.len() - i,
    {
        if v[i].0 == id.0 {
            return Some(i);
        }
        i += 1;
    }
    None
}

impl Executor {
    /// The identifier the next spawned task gets.
    pub closed spec fn next_id(&self) -> int {
        self.next_id as int
    }

    /// The tasks that have been spawned and have not completed.
    pub closed spec fn live(&self) -> Set<TaskId> {
        self.tasks@.to_set()
    }

    /// The tasks ready to be polled, front first.
    pub closed spec fn ready(&self) -> Seq<TaskId> {
        self.ready@
    }

    pub closed spec fn wf(&self) -> bool {
        &&& self.tasks@.no_duplicates()
        &&& self.ready@.no_duplicates()
        &&& forall|t: TaskId| #[trigger] self.ready@.contains(t) ==> self.tasks@.contains(t)
        &&& forall|t: TaskId| #[trigger] self.tasks@.contains(t) ==> t.0 < self.next_id
    }

    /// Every ready task is live, and every live task was issued before
    /// `next_id`.
    pub proof fn lemma_wf(&self)
        requires
            self.wf(),
        ensures
            forall|t: TaskId| #[trigger] self.ready().contains(t) ==> self.live().contains(t),
            forall|t: TaskId| #[trigger] self.live().contains(t) ==> t.0 < self.next_id(),
            self.ready().no_duplicates(),
    {
    }

    /// An executor with no tasks.
    pub fn new() -> (r: Self)
        ensures
            r.wf(),
            r.next_id() == 0,
            r.live() == Set::<TaskId>::empty(),
            r.ready() == Seq::<TaskId>::empty(),
    {
        let r = Executor { next_id: 0, tasks: Vec::new(), ready: Vec::new() };
        assert(r.live() =~= Set::<TaskId>::empty());
        r
    }

    /// Registers a new task under a fresh identifier and queues it.
    pub fn spawn(&mut self) -> (r: Option<TaskId>)
        requires
            old(self).wf(),
        ensures
            final(self).wf(),
            spawn_result(*old(self), *final(self), r),
    {
        if self.next_id == u64::MAX {
            return None;
        }
        let id = TaskId(self.next_id);
        let ghost pre = *self;
        assert(!self.tasks@.contains(id));
        assert(!self.ready@.contains(id));
        self.tasks.push(id);
        self.ready.push(id);
        self.next_id = self.next_id + 1;
        proof {
            assert forall|t: TaskId| #[trigger] self.tasks@.contains(t) <==> (pre.tasks@.contains(t)
                || t == id) by {
                lemma_push_contains(pre.tasks@, id, t);
            }
            assert forall|t: TaskId| #[trigger] self.ready@.contains(t) <==> (pre.ready@.contains(t)
                || t == id) by {
                lemma_push_contains(pre.ready@, id, t);
            }
            assert(self.live() =~= pre.live().insert(id));
            assert forall|a: int, b: int|
                0 <= a < b < self.tasks@.len() implies self.tasks@[a] != self.tasks@[b] by {
                if b == self.tasks@.len() - 1 {
                    assert(pre.tasks@.contains(self.tasks@[a]));
                }
            }
            assert forall|a: int, b: int|
                0 <= a < b < self.ready@.len() implies self.ready@[a] != self.ready@[b] by {
                if b == self.ready@.len() - 1 {
                    assert(pre.ready@.contains(self.ready@[a]));
                }
            }
        }
        Some(id)
    }

    /// Takes the task at the front of the ready queue.
    pub fn next_ready(&mut self) -> (r: Option<TaskId>)
        requires
            old(self).wf(),
        ensures
            final(self).wf(),
            next_ready_result(*old(self), *final(self), r),
    {
        if self.ready.len() == 0 {
            return None;
        }
        let ghost pre = *self;
        let id = self.ready.remove(0);
        proof {
            assert(self.ready@ =~= pre.ready@.drop_first());
            assert forall|t: TaskId| #[trigger] self.ready@.contains(t) implies self.tasks@.contains(
                t,
            ) by {
                let k = choose|k: int| 0 <= k < self.ready@.len() && self.ready@[k] == t;
                assert(pre.ready@[k + 1] == t);
                assert(pre.ready@.contains(t));
            }
        }
        Some(id)
    }

    /// Forgets task `id`, whose computation has finished.
    pub fn complete(&mut self, id: TaskId)
        requires
            old(self).wf(),
        ensures
            final(self).wf(),
            complete_result(*old(self), *final(self), id),
    {
        let ghost pre = *self;
        if let Some(i) = position(&self.tasks, id) {
            self.tasks.remove(i);
            proof {
                assert forall|t: TaskId| #[trigger] self.tasks@.contains(t) <==> (pre.tasks@.contains(t)
                    && t != id) by {
                    if self.tasks@.contains(t) {
                        let k = choose|k: int| 0 <= k < self.tasks@.len() && self.tasks@[k] == t;
                        if k < i {
                            assert(pre.tasks@[k] == t);
                        } else {
                            assert(pre.tasks@[k + 1] == t);
                        }
                    }
                    if pre.tasks@.contains(t) && t != id {
                        let k = choose|k: int| 0 <= k < pre.tasks@.len() && pre.tasks@[k] == t;
                        if k < i {
                            assert(self.tasks@[k] == t);
                        } else {
                            assert(self.tasks@[k - 1] == t);
                        }
                    }
                }
            }
        }
        let ghost mid = *self;
        if let Some(i) = position(&self.ready, id) {
            self.ready.remove(i);
            proof {
                assert forall|t: TaskId| #[trigger] self.ready@.contains(t) <==> (mid.ready@.contains(t)
                    && t != id) by {
                    if self.ready@.contains(t) {
                        let k = choose|k: int| 0 <= k < self.ready@.len() && self.ready@[k] == t;
                        if k < i {
                            assert(mid.ready@[k] == t);
                        } else {
                            assert(mid.ready@[k + 1] == t);
                        }
                    }
                    if mid.ready@.contains(t) && t != id {
                        let k = choose|k: int| 0 <= k < mid.ready@.len() && mid.ready@[k] == t;
                        if k < i {
                            assert(self.ready@[k] == t);
                        } else {
                            assert(self.ready@[k - 1] == t);
                        }
                    }
                }
            }
        }
        proof {
            assert(self.live() =~= pre.live().remove(id));
        }
    }

    /// Queues task `id` again, if it lives and is not queued already.
    /// Returns whether it was queued.
    pub fn wake(&mut self, id: TaskId) -> (r: bool)
        requires
            old(self).wf(),
        ensures
            final(self).wf(),
            wake_result(*old(self), *final(self), id, r),
    {
        if position(&self.tasks, id).is_none() || position(&self.ready, id).is_some() {
            return false;
        }
        let ghost pre = *self;
        self.ready.push(id);
        proof {
            assert forall|t: TaskId| #[trigger] self.ready@.contains(t) <==> (pre.ready@.contains(t)
                || t == id) by {
                lemma_push_contains(pre.ready@, id, t);
            }
        }
        true
    }

    /// No task is ready: the CPU may sleep until the next interrupt.
    pub fn is_idle(&self) -> (r: bool)
        ensures
            r == (self.ready().len() == 0),
    {
        self.ready.len() == 0
    }
}

} // verus!
