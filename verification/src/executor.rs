//! The cooperative scheduler: a lock-guarded ready queue of task slots,
//! polled one round per `tick`, with wake handles that re-enqueue a task
//! and task handles that let a caller await a task's result.
//!
//! Suspended computations are explicit state machines ([`TaskProgram`]):
//! a poll is one non-blocking step that either completes with a value or
//! suspends after registering a wake handle. Every operation's contract
//! gives the runtime's next state exactly, as a function of the old one
//! over the abstract view [`RtView`].
//!
//! Each task slot is a shared cell under loan accounting: the view's
//! ledger holds one reference count per slot, and every contract states
//! the count changes its operation makes — spawn's queue entry owns the
//! first loan, a constructed or cloned wake handle takes one, waking by
//! value moves the handle's loan into the queue entry, waking by
//! reference pushes a fresh clone, a release gives one back, and `tick`
//! releases the context handle and the popped entry's loan after each
//! poll. The cell is freed on the device exactly when its count reaches
//! zero; the executable, lock-guarded form of this counter is
//! [`crate::sync::RcHeap`] (on the device, the count's own spinlock,
//! index 6), and keeping the ledger balanced around raw conversions is
//! the holder's obligation. The ledger itself is ghost: it is the
//! specification of the loan protocol, not a run-time value.

use vstd::prelude::*;

use vstd::pervasive::VecAdditionalExecFns;

use crate::sync::Mutex;
use crate::sync::SpinRegs;

verus! {

/// Hardware lock index guarding the ready queue.
pub const QUEUE_LOCK: usize = 0;

/// Hardware lock index guarding the recorded-waker cells.
pub const WAKER_LOCK: usize = 1;

/// Hardware lock index guarding the result cells.
pub const RESULT_LOCK: usize = 3;

/// Hardware lock index guarding the task slot store.
pub const TASK_LOCK: usize = 5;

/// Hardware lock index guarding the reactor table.
pub const REACTOR_LOCK: usize = 7;

/// Number of interrupt lines the reactor serves.
pub const LINE_COUNT: usize = 26;

/// Where a task stands in its wait for an interrupt line.
#[derive(Clone, Copy, Debug, PartialEq, Eq, Structural)]
pub enum WaitPhase {
    /// Not yet suspended: the next poll registers a wake handle.
    Unregistered,
    /// Suspended with a wake handle on the line's list; the line has not fired.
    Registered,
    /// The line has fired since registration; the next poll completes.
    Fired,
}

/// A suspendable computation, as an explicit state machine. One poll
/// advances it one step and never blocks.
#[derive(Clone, Copy, Debug, PartialEq, Eq, Structural)]
pub enum TaskProgram {
    /// Completes immediately with `value`.
    Ready { value: u64 },
    /// Suspends until interrupt line `line` fires, then completes with `value`.
    AwaitLine { line: usize, value: u64, phase: WaitPhase },
    /// Awaits another task's handle cell and completes with its result.
    AwaitHandle { cell: usize },
    /// Terminal: further polls are safe no-ops.
    Completed,
}

/// One entry of the task slot store: the computation and, if the task
/// was spawned with a handle, the index of its result/waker cell pair.
#[derive(Clone, Copy, Debug)]
pub struct TaskSlot {
    pub program: TaskProgram,
    pub handle: Option<usize>,
}

/// An opaque notifier bound to one task: invoking it re-enqueues that
/// task on the ready queue.
#[derive(Clone, Copy, Debug, PartialEq, Eq, Structural)]
pub struct WakeHandle {
    pub task: usize,
}

/// The user-facing join primitive returned by `spawn`: names the cell
/// pair where the task's result and the caller's waker live.
#[derive(Clone, Copy, Debug)]
pub struct TaskHandle {
    pub cell: usize,
}

/// The runtime's shared state. Every mutable piece sits behind exactly
/// one hardware-lock-backed guard, as on the device; the task slot
/// store is retained for the life of the runtime.
pub struct Runtime {
    regs: SpinRegs,
    queue: Mutex<Vec<usize>>,
    tasks: Mutex<Vec<TaskSlot>>,
    results: Mutex<Vec<Option<u64>>>,
    wakers: Mutex<Vec<Option<WakeHandle>>>,
    lines: Mutex<Vec<Vec<WakeHandle>>>,
    counts: Ghost<Seq<int>>,
}

/// The runtime's abstract state: what each lock guards, as sequences,
/// and the loan ledger — one reference count per task slot.
#[verifier::ext_equal]
pub struct RtView {
    pub queue: Seq<usize>,
    pub tasks: Seq<TaskSlot>,
    pub results: Seq<Option<u64>>,
    pub wakers: Seq<Option<WakeHandle>>,
    pub lines: Seq<Seq<WakeHandle>>,
    pub counts: Seq<int>,
}

/// A task slot's references stay inside the runtime's stores.
pub open spec fn task_wf(s: TaskSlot, v: RtView) -> bool {
    &&& match s.program {
        TaskProgram::AwaitLine { line, .. } => line < LINE_COUNT,
        TaskProgram::AwaitHandle { cell } => cell < v.results.len(),
        _ => true,
    }
    &&& match s.handle {
        Some(h) => h < v.results.len(),
        None => true,
    }
}

/// A recorded waker, if any, names an existing task.
pub open spec fn waker_wf(w: Option<WakeHandle>, v: RtView) -> bool {
    match w {
        Some(w) => w.task < v.tasks.len(),
        None => true,
    }
}

/// Well-formedness of the abstract state: the reactor table has one
/// list per line, result and waker cells come in pairs, and every
/// queue entry, reactor entry, slot and recorded waker is in range.
pub open spec fn rt_wf(v: RtView) -> bool {
    &&& v.lines.len() == LINE_COUNT
    &&& v.results.len() == v.wakers.len()
    &&& v.counts.len() == v.tasks.len()
    &&& forall|k: int| 0 <= k < v.queue.len() ==> (#[trigger] v.queue[k]) < v.tasks.len()
    &&& forall|t: int| 0 <= t < v.tasks.len() ==> task_wf(#[trigger] v.tasks[t], v)
    &&& forall|n: int, k: int|
        0 <= n < v.lines.len() && 0 <= k < v.lines[n].len()
            ==> (#[trigger] v.lines[n][k]).task < v.tasks.len()
    &&& forall|c: int| 0 <= c < v.wakers.len() ==> waker_wf(#[trigger] v.wakers[c], v)
}

impl View for Runtime {
    type V = RtView;

    closed spec fn view(&self) -> RtView {
        RtView {
            queue: self.queue.data_spec()@,
            tasks: self.tasks.data_spec()@,
            results: self.results.data_spec()@,
            wakers: self.wakers.data_spec()@,
            lines: self.lines.data_spec()@.map_values(|l: Vec<WakeHandle>| l@),
            counts: self.counts@,
        }
    }
}

impl Runtime {
    pub closed spec fn locks_ok(&self) -> bool {
        &&& self.regs.wf()
        &&& forall|j: int| 0 <= j < crate::SPINLOCK_COUNT ==> !self.regs.is_held(j)
        &&& self.queue.inv() && self.queue.index_spec() == QUEUE_LOCK
        &&& self.tasks.inv() && self.tasks.index_spec() == TASK_LOCK
        &&& self.results.inv() && self.results.index_spec() == RESULT_LOCK
        &&& self.wakers.inv() && self.wakers.index_spec() == WAKER_LOCK
        &&& self.lines.inv() && self.lines.index_spec() == REACTOR_LOCK
    }

    /// At rest every lock is free and the abstract state is well formed.
    pub open spec fn wf(&self) -> bool {
        self.locks_ok() && rt_wf(self@)
    }

    /// A fresh runtime: no tasks, nothing queued, every reactor line empty.
    pub fn new() -> (rt: Runtime)
        ensures
            rt.wf(),
            rt@.queue == Seq::<usize>::empty(),
            rt@.tasks == Seq::<TaskSlot>::empty(),
            rt@.results == Seq::<Option<u64>>::empty(),
            rt@.wakers == Seq::<Option<WakeHandle>>::empty(),
            rt@.lines.len() == LINE_COUNT,
            forall|n: int| 0 <= n < LINE_COUNT ==> rt@.lines[n] == Seq::<WakeHandle>::empty(),
            rt@.counts == Seq::<int>::empty(),
    {
        let mut lines: Vec<Vec<WakeHandle>> = Vec::new();
        let mut n: usize = 0;
        while n < LINE_COUNT
            invariant
                n <= LINE_COUNT,
                lines@.len() == n,
                forall|i: int| 0 <= i < n ==> (#[trigger] lines@[i])@ == Seq::<WakeHandle>::empty(),
            decreases LINE_COUNT - n,
        {
            lines.push(Vec::new());
            n += 1;
        }
        let rt = Runtime {
            regs: SpinRegs::new(),
            queue: Mutex::new(QUEUE_LOCK, Vec::new()),
            tasks: Mutex::new(TASK_LOCK, Vec::new()),
            results: Mutex::new(RESULT_LOCK, Vec::new()),
            wakers: Mutex::new(WAKER_LOCK, Vec::new()),
            lines: Mutex::new(REACTOR_LOCK, lines),
            counts: Ghost(Seq::empty()),
        };
        proof {
            assert(rt@.counts =~= Seq::<int>::empty());
            assert(rt@.queue =~= Seq::<usize>::empty());
            assert(rt@.tasks =~= Seq::<TaskSlot>::empty());
            assert(rt@.results =~= Seq::<Option<u64>>::empty());
            assert(rt@.wakers =~= Seq::<Option<WakeHandle>>::empty());
            assert(forall|n: int|
                0 <= n < LINE_COUNT ==> rt@.lines[n] =~= Seq::<WakeHandle>::empty());
        }
        rt
    }
}

impl Runtime {
    /// A copy of the ready queue's task indices, read under its lock.
    pub fn queue_items(&mut self) -> (r: Vec<usize>)
        requires
            old(self).wf(),
        ensures
            final(self).wf(),
            final(self)@ == old(self)@,
            r@ == old(self)@.queue,
    {
        self.queue.lock(&mut self.regs);
        let q = self.queue.replace(&self.regs, Vec::new());
        let mut r: Vec<usize> = Vec::new();
        let mut k: usize = 0;
        while k < q.len()
            invariant
                k <= q@.len(),
                r@ == q@.take(k as int),
            decreases q@.len() - k,
        {
            let x = q[k];
            r.push(x);
            proof {
                assert(r@ =~= q@.take(k as int + 1));
            }
            k += 1;
        }
        let _ = self.queue.replace(&self.regs, q);
        self.queue.unlock(&mut self.regs);
        proof {
            assert(self@ =~~= old(self)@);
            assert(r@ =~= old(self)@.queue);
        }
        r
    }

    /// One task's current program, read under the task lock.
    pub fn task_program(&mut self, id: usize) -> (p: TaskProgram)
        requires
            old(self).wf(),
            id < old(self)@.tasks.len(),
        ensures
            final(self).wf(),
            final(self)@ == old(self)@,
            p == old(self)@.tasks[id as int].program,
    {
        let slot = read_task_slot(self, id);
        slot.program
    }

    /// The tasks registered on one reactor line, read under the table lock.
    pub fn line_tasks(&mut self, n: usize) -> (r: Vec<usize>)
        requires
            old(self).wf(),
            n < LINE_COUNT,
        ensures
            final(self).wf(),
            final(self)@ == old(self)@,
            r@ == old(self)@.lines[n as int].map_values(|w: WakeHandle| w.task),
    {
        self.lines.lock(&mut self.regs);
        let mut ls = self.lines.replace(&self.regs, Vec::new());
        let mut entry: Vec<WakeHandle> = Vec::new();
        ls.set_and_swap(n, &mut entry);
        let mut r: Vec<usize> = Vec::new();
        let mut k: usize = 0;
        while k < entry.len()
            invariant
                k <= entry@.len(),
                r@ == entry@.take(k as int).map_values(|w: WakeHandle| w.task),
            decreases entry@.len() - k,
        {
            let x = entry[k].task;
            r.push(x);
            proof {
                assert(r@ =~= entry@.take(k as int + 1).map_values(|w: WakeHandle| w.task));
            }
            k += 1;
        }
        ls.set_and_swap(n, &mut entry);
        let _ = self.lines.replace(&self.regs, ls);
        self.lines.unlock(&mut self.regs);
        proof {
            assert(entry@.take(entry@.len() as int) =~= entry@);
            assert(self@.lines =~~= old(self)@.lines);
            assert(self@ =~~= old(self)@);
            assert(r@ =~= old(self)@.lines[n as int].map_values(|w: WakeHandle| w.task));
        }
        r
    }
}

/// The state after pushing `id` on the ready queue. The entry's loan is
/// supplied by the caller: a wake moves or clones one in.
pub open spec fn push_queue_spec(v: RtView, id: usize) -> RtView {
    RtView { queue: v.queue.push(id), ..v }
}

/// The ledger after one more loan is taken on task `t`'s shared cell.
pub open spec fn bump_loan_spec(v: RtView, t: int) -> RtView {
    RtView { counts: v.counts.update(t, v.counts[t] + 1), ..v }
}

/// The ledger after one loan on task `t`'s shared cell is released. The
/// cell is freed on the device exactly when its count reaches zero.
pub open spec fn drop_loan_spec(v: RtView, t: int) -> RtView {
    RtView { counts: v.counts.update(t, v.counts[t] - 1), ..v }
}

/// Append a wake handle to one reactor line's list, under the table lock.
pub(crate) fn line_append(rt: &mut Runtime, line: usize, w: WakeHandle)
    requires
        old(rt).wf(),
        line < LINE_COUNT,
        w.task < old(rt)@.tasks.len(),
    ensures
        final(rt).wf(),
        final(rt)@ == (RtView {
            lines: old(rt)@.lines.update(
                line as int,
                old(rt)@.lines[line as int].push(w),
            ),
            ..old(rt)@
        }),
{
    rt.lines.lock(&mut rt.regs);
    let mut ls = rt.lines.replace(&rt.regs, Vec::new());
    let mut entry: Vec<WakeHandle> = Vec::new();
    ls.set_and_swap(line, &mut entry);
    entry.push(w);
    ls.set_and_swap(line, &mut entry);
    let _ = rt.lines.replace(&rt.regs, ls);
    rt.lines.unlock(&mut rt.regs);
    proof {
        assert(rt@.lines =~~= old(rt)@.lines.update(
            line as int,
            old(rt)@.lines[line as int].push(w),
        ));
        assert(rt@ =~~= RtView {
            lines: old(rt)@.lines.update(
                line as int,
                old(rt)@.lines[line as int].push(w),
            ),
            ..old(rt)@
        });
    }
}

/// Drain one reactor line's list, under the table lock, returning what
/// was registered on it.
pub(crate) fn line_take(rt: &mut Runtime, line: usize) -> (r: Vec<WakeHandle>)
    requires
        old(rt).wf(),
        line < LINE_COUNT,
    ensures
        final(rt).wf(),
        r@ == old(rt)@.lines[line as int],
        final(rt)@ == (RtView {
            lines: old(rt)@.lines.update(line as int, Seq::<WakeHandle>::empty()),
            ..old(rt)@
        }),
{
    rt.lines.lock(&mut rt.regs);
    let mut ls = rt.lines.replace(&rt.regs, Vec::new());
    let mut entry: Vec<WakeHandle> = Vec::new();
    ls.set_and_swap(line, &mut entry);
    let _ = rt.lines.replace(&rt.regs, ls);
    rt.lines.unlock(&mut rt.regs);
    proof {
        assert(rt@.lines =~~= old(rt)@.lines.update(
            line as int,
            Seq::<WakeHandle>::empty(),
        ));
        assert(rt@ =~~= RtView {
            lines: old(rt)@.lines.update(line as int, Seq::<WakeHandle>::empty()),
            ..old(rt)@
        });
    }
    entry
}

/// The completion continuation's effect, after the task's own slot was
/// already marked `Completed`: store the result in the handle cell, and
/// if a waiter's wake handle is recorded, take it and re-enqueue its task.
pub open spec fn complete_notify_spec(v: RtView, handle: Option<usize>, value: u64) -> RtView {
    match handle {
        None => v,
        Some(h) => {
            let v1 = RtView { results: v.results.update(h as int, Some(value)), ..v };
            match v.wakers[h as int] {
                None => RtView { wakers: v1.wakers.update(h as int, None), ..v1 },
                Some(w) => RtView {
                    wakers: v1.wakers.update(h as int, None),
                    queue: v1.queue.push(w.task),
                    ..v1
                },
            }
        },
    }
}

/// A task completing with `value`: its slot becomes terminal, then the
/// completion continuation runs.
pub open spec fn complete_spec(v: RtView, id: int, value: u64) -> RtView {
    let v1 = RtView {
        tasks: v.tasks.update(id, TaskSlot { program: TaskProgram::Completed, ..v.tasks[id] }),
        ..v
    };
    complete_notify_spec(v1, v.tasks[id].handle, value)
}

/// One poll of task `id`: one step of its state machine.
pub open spec fn poll_one_spec(v: RtView, id: int) -> RtView {
    match v.tasks[id].program {
        TaskProgram::Ready { value } => complete_spec(v, id, value),
        TaskProgram::AwaitLine { line, value, phase } => match phase {
            WaitPhase::Unregistered => RtView {
                tasks: v.tasks.update(
                    id,
                    TaskSlot {
                        program: TaskProgram::AwaitLine {
                            line,
                            value,
                            phase: WaitPhase::Registered,
                        },
                        ..v.tasks[id]
                    },
                ),
                lines: v.lines.update(
                    line as int,
                    v.lines[line as int].push(WakeHandle { task: id as usize }),
                ),
                counts: v.counts.update(id, v.counts[id] + 1),
                ..v
            },
            WaitPhase::Registered => v,
            WaitPhase::Fired => complete_spec(v, id, value),
        },
        TaskProgram::AwaitHandle { cell } => match v.results[cell as int] {
            Some(x) => complete_spec(
                RtView { results: v.results.update(cell as int, None), ..v },
                id,
                x,
            ),
            None => {
                let v1 = RtView {
                    wakers: v.wakers.update(cell as int, Some(WakeHandle { task: id as usize })),
                    counts: v.counts.update(id, v.counts[id] + 1),
                    ..v
                };
                match v.wakers[cell as int] {
                    Some(ow) => RtView {
                        counts: v1.counts.update(ow.task as int, v1.counts[ow.task as int] - 1),
                        ..v1
                    },
                    None => v1,
                }
            },
        },
        TaskProgram::Completed => v,
    }
}

/// The state after spawning a fire-and-forget task.
pub open spec fn spawn_inner_spec(v: RtView, program: TaskProgram) -> RtView {
    RtView {
        tasks: v.tasks.push(TaskSlot { program, handle: None }),
        queue: v.queue.push(v.tasks.len() as usize),
        counts: v.counts.push(1int),
        ..v
    }
}

/// The state after spawning a task joined to a fresh handle cell pair.
pub open spec fn spawn_spec(v: RtView, program: TaskProgram) -> RtView {
    RtView {
        results: v.results.push(None),
        wakers: v.wakers.push(None),
        tasks: v.tasks.push(
            TaskSlot { program, handle: Some(v.results.len() as usize) },
        ),
        queue: v.queue.push(v.tasks.len() as usize),
        counts: v.counts.push(1int),
        ..v
    }
}

/// The state after polling a task handle: a present result is taken
/// (terminal); otherwise the poller's waker is recorded, overwriting
/// any previous one.
pub open spec fn poll_handle_spec(v: RtView, cell: int, waker: Option<WakeHandle>) -> RtView {
    if v.results[cell] is Some {
        RtView { results: v.results.update(cell, None), ..v }
    } else {
        let v1 = RtView { wakers: v.wakers.update(cell, waker), ..v };
        match v.wakers[cell] {
            Some(ow) => RtView {
                counts: v1.counts.update(ow.task as int, v1.counts[ow.task as int] - 1),
                ..v1
            },
            None => v1,
        }
    }
}

/// One scheduler step on one popped entry: construct a fresh wake
/// handle (one new loan on the task's cell), poll the task once, then
/// release the context handle's loan and the popped entry's loan.
pub open spec fn tick_step_spec(v: RtView, id: int) -> RtView {
    drop_loan_spec(drop_loan_spec(poll_one_spec(bump_loan_spec(v, id), id), id), id)
}

/// Polling everything that was ready at entry, in queue order.
pub open spec fn process_from(v: RtView, snap: Seq<usize>, k: int) -> RtView
    decreases snap.len() - k,
{
    if k < 0 || k >= snap.len() {
        v
    } else {
        process_from(tick_step_spec(v, snap[k] as int), snap, k + 1)
    }
}

/// One scheduler round: take the ready queue, then poll each entry once.
pub open spec fn tick_spec(v: RtView) -> RtView {
    process_from(RtView { queue: Seq::<usize>::empty(), ..v }, v.queue, 0)
}

impl WakeHandle {
    /// Wake by value: re-enqueue the bound task, consuming the handle.
    /// The handle's own loan moves into the new queue entry: the ledger
    /// is unchanged, and the handle is unusable afterwards.
    pub fn wake(self, rt: &mut Runtime)
        requires
            old(rt).wf(),
            self.task < old(rt)@.tasks.len(),
        ensures
            final(rt).wf(),
            final(rt)@ == push_queue_spec(old(rt)@, self.task),
            final(rt)@.counts == old(rt)@.counts,
    {
        rt.queue.lock(&mut rt.regs);
        let mut q = rt.queue.replace(&rt.regs, Vec::new());
        q.push(self.task);
        let _ = rt.queue.replace(&rt.regs, q);
        rt.queue.unlock(&mut rt.regs);
        proof {
            assert(rt@ =~~= push_queue_spec(old(rt)@, self.task));
        }
    }

    /// Wake by reference: clone the task's cell — one more loan — and
    /// push the clone onto the ready queue, keeping this handle, so the
    /// same handle can be invoked again later.
    pub fn wake_by_ref(&self, rt: &mut Runtime)
        requires
            old(rt).wf(),
            self.task < old(rt)@.tasks.len(),
        ensures
            final(rt).wf(),
            final(rt)@ == push_queue_spec(bump_loan_spec(old(rt)@, self.task as int), self.task),
    {
        let w = self.clone_handle(rt);
        w.wake(rt);
    }

    /// Take another loan on the bound task's cell: a second handle to
    /// the same task, this one intact, nothing enqueued.
    pub fn clone_handle(&self, rt: &mut Runtime) -> (w: WakeHandle)
        requires
            old(rt).wf(),
            self.task < old(rt)@.tasks.len(),
        ensures
            final(rt).wf(),
            w == *self,
            final(rt)@ == bump_loan_spec(old(rt)@, self.task as int),
    {
        rt.counts = Ghost(
            rt.counts@.update(self.task as int, rt.counts@[self.task as int] + 1),
        );
        proof {
            assert(rt@ =~~= bump_loan_spec(old(rt)@, self.task as int));
            lemma_wf_counts_only(old(rt)@, rt@);
        }
        WakeHandle { task: self.task }
    }

    /// Release the handle's loan without enqueueing anything. The cell
    /// is freed on the device exactly when its count reaches zero;
    /// balancing every loan with one release is the holder's obligation.
    pub fn release(self, rt: &mut Runtime)
        requires
            old(rt).wf(),
            self.task < old(rt)@.tasks.len(),
        ensures
            final(rt).wf(),
            final(rt)@ == drop_loan_spec(old(rt)@, self.task as int),
    {
        rt.counts = Ghost(
            rt.counts@.update(self.task as int, rt.counts@[self.task as int] - 1),
        );
        proof {
            assert(rt@ =~~= drop_loan_spec(old(rt)@, self.task as int));
            lemma_wf_counts_only(old(rt)@, rt@);
        }
    }
}

/// A change to the loan ledger alone, lengths kept, preserves
/// well-formedness: no structural clause reads the counts.
proof fn lemma_wf_counts_only(v: RtView, v2: RtView)
    requires
        rt_wf(v),
        v2.queue == v.queue,
        v2.tasks == v.tasks,
        v2.results == v.results,
        v2.wakers == v.wakers,
        v2.lines == v.lines,
        v2.counts.len() == v.counts.len(),
    ensures
        rt_wf(v2),
{
    assert forall|t: int| 0 <= t < v2.tasks.len() implies task_wf(#[trigger] v2.tasks[t], v2) by {
        assert(task_wf(v.tasks[t], v));
    }
    assert forall|c: int| 0 <= c < v2.wakers.len() implies waker_wf(
        #[trigger] v2.wakers[c],
        v2,
    ) by {
        assert(waker_wf(v.wakers[c], v));
    }
}

/// Build the fresh wake handle the scheduler hands to a poll: one
/// notifier bound to the polled task's slot, owning one new loan on
/// that task's shared cell. The caller's own handles stay untouched.
pub fn construct_waker(rt: &mut Runtime, id: usize) -> (w: WakeHandle)
    requires
        old(rt).wf(),
        id < old(rt)@.tasks.len(),
    ensures
        final(rt).wf(),
        w.task == id,
        final(rt)@ == bump_loan_spec(old(rt)@, id as int),
{
    rt.counts = Ghost(rt.counts@.update(id as int, rt.counts@[id as int] + 1));
    proof {
        assert(rt@ =~~= bump_loan_spec(old(rt)@, id as int));
        lemma_wf_counts_only(old(rt)@, rt@);
    }
    WakeHandle { task: id }
}

/// Release the loan a popped queue entry owned, once its poll is done:
/// the entry has left the queue for good.
fn consume_entry_loan(rt: &mut Runtime, id: usize)
    requires
        old(rt).wf(),
        id < old(rt)@.tasks.len(),
    ensures
        final(rt).wf(),
        final(rt)@ == drop_loan_spec(old(rt)@, id as int),
{
    rt.counts = Ghost(rt.counts@.update(id as int, rt.counts@[id as int] - 1));
    proof {
        assert(rt@ =~~= drop_loan_spec(old(rt)@, id as int));
        lemma_wf_counts_only(old(rt)@, rt@);
    }
}

/// Read one task slot under the task lock.
pub(crate) fn read_task_slot(rt: &mut Runtime, id: usize) -> (slot: TaskSlot)
    requires
        old(rt).wf(),
        id < old(rt)@.tasks.len(),
    ensures
        final(rt).wf(),
        final(rt)@ == old(rt)@,
        slot == old(rt)@.tasks[id as int],
{
    rt.tasks.lock(&mut rt.regs);
    let ts = rt.tasks.replace(&rt.regs, Vec::new());
    let slot = ts[id];
    let _ = rt.tasks.replace(&rt.regs, ts);
    rt.tasks.unlock(&mut rt.regs);
    proof {
        assert(rt@ =~~= old(rt)@);
    }
    slot
}

/// Overwrite one task's program under the task lock, keeping its handle.
pub(crate) fn set_task_program(rt: &mut Runtime, id: usize, p: TaskProgram)
    requires
        old(rt).wf(),
        id < old(rt)@.tasks.len(),
        task_wf(TaskSlot { program: p, handle: old(rt)@.tasks[id as int].handle }, old(rt)@),
    ensures
        final(rt).wf(),
        final(rt)@ == (RtView {
            tasks: old(rt)@.tasks.update(
                id as int,
                TaskSlot { program: p, ..old(rt)@.tasks[id as int] },
            ),
            ..old(rt)@
        }),
{
    rt.tasks.lock(&mut rt.regs);
    let mut ts = rt.tasks.replace(&rt.regs, Vec::new());
    let slot = ts[id];
    ts[id] = TaskSlot { program: p, handle: slot.handle };
    let _ = rt.tasks.replace(&rt.regs, ts);
    rt.tasks.unlock(&mut rt.regs);
    proof {
        assert(rt@ =~~= RtView {
            tasks: old(rt)@.tasks.update(
                id as int,
                TaskSlot { program: p, ..old(rt)@.tasks[id as int] },
            ),
            ..old(rt)@
        });
    }
}

/// Take a handle cell's result under the result lock.
fn take_result(rt: &mut Runtime, cell: usize) -> (r: Option<u64>)
    requires
        old(rt).wf(),
        cell < old(rt)@.results.len(),
    ensures
        final(rt).wf(),
        final(rt)@ == (RtView {
            results: old(rt)@.results.update(cell as int, None),
            ..old(rt)@
        }),
        r == old(rt)@.results[cell as int],
{
    rt.results.lock(&mut rt.regs);
    let mut rs = rt.results.replace(&rt.regs, Vec::new());
    let r = rs[cell];
    rs[cell] = None;
    let _ = rt.results.replace(&rt.regs, rs);
    rt.results.unlock(&mut rt.regs);
    proof {
        assert(rt@ =~~= RtView {
            results: old(rt)@.results.update(cell as int, None),
            ..old(rt)@
        });
    }
    r
}

/// Write a handle cell's result under the result lock.
fn set_result(rt: &mut Runtime, cell: usize, value: u64)
    requires
        old(rt).wf(),
        cell < old(rt)@.results.len(),
    ensures
        final(rt).wf(),
        final(rt)@ == (RtView {
            results: old(rt)@.results.update(cell as int, Some(value)),
            ..old(rt)@
        }),
{
    rt.results.lock(&mut rt.regs);
    let mut rs = rt.results.replace(&rt.regs, Vec::new());
    rs[cell] = Some(value);
    let _ = rt.results.replace(&rt.regs, rs);
    rt.results.unlock(&mut rt.regs);
    proof {
        assert(rt@ =~~= RtView {
            results: old(rt)@.results.update(cell as int, Some(value)),
            ..old(rt)@
        });
    }
}

/// Exchange a handle cell's recorded waker under the waker lock.
fn swap_waker(rt: &mut Runtime, cell: usize, w: Option<WakeHandle>) -> (r: Option<WakeHandle>)
    requires
        old(rt).wf(),
        cell < old(rt)@.wakers.len(),
        waker_wf(w, old(rt)@),
    ensures
        final(rt).wf(),
        final(rt)@ == (RtView {
            wakers: old(rt)@.wakers.update(cell as int, w),
            ..old(rt)@
        }),
        r == old(rt)@.wakers[cell as int],
{
    rt.wakers.lock(&mut rt.regs);
    let mut ws = rt.wakers.replace(&rt.regs, Vec::new());
    let r = ws[cell];
    ws[cell] = w;
    let _ = rt.wakers.replace(&rt.regs, ws);
    rt.wakers.unlock(&mut rt.regs);
    proof {
        assert(rt@ =~~= RtView {
            wakers: old(rt)@.wakers.update(cell as int, w),
            ..old(rt)@
        });
    }
    r
}

/// The completion continuation: store the result, then notify a recorded
/// waiter exactly once. The result write happens before the waker check,
/// so no notification is lost to a racing poll.
fn complete_task(rt: &mut Runtime, handle: Option<usize>, value: u64)
    requires
        old(rt).wf(),
        match handle {
            Some(h) => h < old(rt)@.results.len(),
            None => true,
        },
    ensures
        final(rt).wf(),
        final(rt)@ == complete_notify_spec(old(rt)@, handle, value),
{
    match handle {
        None => {},
        Some(h) => {
            set_result(rt, h, value);
            let w = swap_waker(rt, h, None);
            match w {
                Some(wk) => wk.wake(rt),
                None => {},
            }
        },
    }
    proof {
        assert(rt@ =~~= complete_notify_spec(old(rt)@, handle, value));
    }
}

/// Poll task `id` once: advance its state machine one step, with a fresh
/// wake handle bound to the task available for registration.
pub fn poll_task(rt: &mut Runtime, id: usize)
    requires
        old(rt).wf(),
        id < old(rt)@.tasks.len(),
    ensures
        final(rt).wf(),
        final(rt)@ == poll_one_spec(old(rt)@, id as int),
{
    let slot = read_task_slot(rt, id);
    match slot.program {
        TaskProgram::Ready { value } => {
            set_task_program(rt, id, TaskProgram::Completed);
            complete_task(rt, slot.handle, value);
        },
        TaskProgram::AwaitLine { line, value, phase } => match phase {
            WaitPhase::Unregistered => {
                set_task_program(
                    rt,
                    id,
                    TaskProgram::AwaitLine { line, value, phase: WaitPhase::Registered },
                );
                // The registration stores a clone of the context's wake
                // handle: one new loan on the task's cell.
                let ghost mid = rt@;
                rt.counts = Ghost(rt.counts@.update(id as int, rt.counts@[id as int] + 1));
                proof {
                    lemma_wf_counts_only(mid, rt@);
                }
                crate::reactor::register(rt, line, WakeHandle { task: id });
            },
            WaitPhase::Registered => {},
            WaitPhase::Fired => {
                set_task_program(rt, id, TaskProgram::Completed);
                complete_task(rt, slot.handle, value);
            },
        },
        TaskProgram::AwaitHandle { cell } => {
            let taken = take_result(rt, cell);
            match taken {
                Some(x) => {
                    set_task_program(rt, id, TaskProgram::Completed);
                    complete_task(rt, slot.handle, x);
                },
                None => {
                    // Store a clone of the context's wake handle — one
                    // new loan — displacing, and releasing, any
                    // previously recorded one.
                    let ghost mid = rt@;
                    rt.counts = Ghost(rt.counts@.update(id as int, rt.counts@[id as int] + 1));
                    proof {
                        lemma_wf_counts_only(mid, rt@);
                    }
                    let prev = swap_waker(rt, cell, Some(WakeHandle { task: id }));
                    match prev {
                        Some(ow) => {
                            rt.counts = Ghost(
                                rt.counts@.update(ow.task as int, rt.counts@[ow.task as int] - 1),
                            );
                            proof {
                                assert(waker_wf(old(rt)@.wakers[cell as int], old(rt)@));
                            }
                        },
                        None => {},
                    }
                    proof {
                        assert(old(rt)@.results.update(cell as int, None) =~=
                            old(rt)@.results);
                    }
                },
            }
        },
        TaskProgram::Completed => {},
    }
    proof {
        assert(rt@ =~~= poll_one_spec(old(rt)@, id as int));
        lemma_poll_preserves_wf(old(rt)@, id as int);
    }
}

/// One scheduler round: take everything that is ready, then poll each
/// such task once, handing the poll a fresh wake handle that owns one
/// new loan on the task's cell. After each poll that handle's loan and
/// the popped entry's loan are released — a task that stored no clone
/// anywhere thereby loses its last loans and its cell is freed. Tasks
/// woken during the round wait for the next one.
pub fn tick(rt: &mut Runtime)
    requires
        old(rt).wf(),
    ensures
        final(rt).wf(),
        final(rt)@ == tick_spec(old(rt)@),
{
    rt.queue.lock(&mut rt.regs);
    let snap = rt.queue.replace(&rt.regs, Vec::new());
    rt.queue.unlock(&mut rt.regs);
    proof {
        assert(rt@ =~~= RtView { queue: Seq::<usize>::empty(), ..old(rt)@ });
    }
    let ghost v0 = rt@;
    let mut k: usize = 0;
    while k < snap.len()
        invariant
            rt.wf(),
            k <= snap@.len(),
            snap@ == old(rt)@.queue,
            rt@.tasks.len() == v0.tasks.len(),
            forall|j: int| 0 <= j < snap@.len() ==> (#[trigger] snap@[j]) < v0.tasks.len(),
            process_from(rt@, snap@, k as int) == process_from(v0, snap@, 0),
        decreases snap@.len() - k,
    {
        let id = snap[k];
        let ghost pre = rt@;
        // A fresh wake handle for this poll: one new loan on the task.
        let w = construct_waker(rt, id);
        poll_task(rt, id);
        // The poll stored clones where it needed them; the context's
        // handle is released now, and the popped entry's loan with it.
        w.release(rt);
        consume_entry_loan(rt, id);
        proof {
            lemma_step_preserves_len(pre, id as int);
            assert(rt@ == tick_step_spec(pre, id as int));
            assert(process_from(pre, snap@, k as int) ==
                process_from(tick_step_spec(pre, id as int), snap@, k as int + 1));
        }
        k += 1;
    }
    proof {
        assert(process_from(rt@, snap@, k as int) == rt@);
        assert(rt@ =~~= tick_spec(old(rt)@));
    }
}

/// The completion continuation never changes how many slots or cells exist.
proof fn lemma_complete_notify_preserves_len(v: RtView, handle: Option<usize>, value: u64)
    requires
        handle matches Some(h) ==> h < v.results.len() && h < v.wakers.len(),
    ensures
        complete_notify_spec(v, handle, value).tasks.len() == v.tasks.len(),
        complete_notify_spec(v, handle, value).results.len() == v.results.len(),
        complete_notify_spec(v, handle, value).wakers.len() == v.wakers.len(),
        complete_notify_spec(v, handle, value).lines.len() == v.lines.len(),
        complete_notify_spec(v, handle, value).counts == v.counts,
{
    match handle {
        None => {},
        Some(h) => {
            match v.wakers[h as int] {
                None => {},
                Some(w) => {},
            }
        },
    }
}

/// Completing a task never changes how many slots or cells exist.
proof fn lemma_complete_preserves_len(v: RtView, id: int, value: u64)
    requires
        0 <= id < v.tasks.len(),
        v.tasks[id].handle matches Some(h) ==> h < v.results.len() && h < v.wakers.len(),
    ensures
        complete_spec(v, id, value).tasks.len() == v.tasks.len(),
        complete_spec(v, id, value).results.len() == v.results.len(),
        complete_spec(v, id, value).wakers.len() == v.wakers.len(),
        complete_spec(v, id, value).lines.len() == v.lines.len(),
        complete_spec(v, id, value).counts == v.counts,
{
    let v1 = RtView {
        tasks: v.tasks.update(id, TaskSlot { program: TaskProgram::Completed, ..v.tasks[id] }),
        ..v
    };
    lemma_complete_notify_preserves_len(v1, v.tasks[id].handle, value);
}

/// One poll never changes how many task slots or handle cells exist.
pub proof fn lemma_poll_preserves_len(v: RtView, id: int)
    requires
        rt_wf(v),
        0 <= id < v.tasks.len(),
    ensures
        poll_one_spec(v, id).tasks.len() == v.tasks.len(),
        poll_one_spec(v, id).results.len() == v.results.len(),
        poll_one_spec(v, id).wakers.len() == v.wakers.len(),
        poll_one_spec(v, id).lines.len() == v.lines.len(),
        poll_one_spec(v, id).counts.len() == v.counts.len(),
{
    match v.tasks[id].program {
        TaskProgram::Ready { value } => {
            lemma_complete_preserves_len(v, id, value);
        },
        TaskProgram::AwaitLine { line, value, phase } => {
            if phase is Fired {
                lemma_complete_preserves_len(v, id, value);
            }
        },
        TaskProgram::AwaitHandle { cell } => {
            assert(task_wf(v.tasks[id], v));
            match v.results[cell as int] {
                Some(x) => {
                    let v1 = RtView { results: v.results.update(cell as int, None), ..v };
                    lemma_complete_preserves_len(v1, id, x);
                },
                None => {
                    assert(waker_wf(v.wakers[cell as int], v));
                },
            }
        },
        TaskProgram::Completed => {},
    }
}

/// Task handle idempotence law: a poll that finds the result takes it,
/// so the cell is empty afterwards, and a second poll — whatever waker
/// it brings — finds nothing: a handle never yields a second value.
pub proof fn lemma_handle_yields_once(
    v: RtView,
    cell: int,
    w1: Option<WakeHandle>,
    w2: Option<WakeHandle>,
)
    requires
        0 <= cell < v.results.len(),
        v.results[cell] is Some,
    ensures
        poll_handle_spec(v, cell, w1).results[cell] is None,
        poll_handle_spec(poll_handle_spec(v, cell, w1), cell, w2).results[cell] is None,
{
}

/// Completing a task keeps the state well formed.
proof fn lemma_complete_preserves_wf(v: RtView, id: int, value: u64)
    requires
        rt_wf(v),
        0 <= id < v.tasks.len(),
    ensures
        rt_wf(complete_spec(v, id, value)),
{
    assert(task_wf(v.tasks[id], v));
    let v1 = RtView {
        tasks: v.tasks.update(id, TaskSlot { program: TaskProgram::Completed, ..v.tasks[id] }),
        ..v
    };
    assert forall|t: int| 0 <= t < v1.tasks.len() implies task_wf(#[trigger] v1.tasks[t], v1) by {
        if t != id {
            assert(task_wf(v.tasks[t], v));
        }
    }
    assert(rt_wf(v1));
    match v.tasks[id].handle {
        None => {},
        Some(h) => {
            assert(waker_wf(v.wakers[h as int], v));
            let v2 = complete_spec(v, id, value);
            assert forall|t: int| 0 <= t < v2.tasks.len() implies task_wf(
                #[trigger] v2.tasks[t],
                v2,
            ) by {
                assert(task_wf(v1.tasks[t], v1));
            }
            assert forall|c: int| 0 <= c < v2.wakers.len() implies waker_wf(
                #[trigger] v2.wakers[c],
                v2,
            ) by {
                if c != h {
                    assert(waker_wf(v.wakers[c], v));
                }
            }
        },
    }
}

/// One poll keeps the state well formed.
pub proof fn lemma_poll_preserves_wf(v: RtView, id: int)
    requires
        rt_wf(v),
        0 <= id < v.tasks.len(),
    ensures
        rt_wf(poll_one_spec(v, id)),
{
    assert(task_wf(v.tasks[id], v));
    match v.tasks[id].program {
        TaskProgram::Ready { value } => {
            lemma_complete_preserves_wf(v, id, value);
        },
        TaskProgram::AwaitLine { line, value, phase } => match phase {
            WaitPhase::Unregistered => {
                let v2 = poll_one_spec(v, id);
                assert forall|t: int| 0 <= t < v2.tasks.len() implies task_wf(
                    #[trigger] v2.tasks[t],
                    v2,
                ) by {
                    assert(task_wf(v.tasks[t], v));
                }
                assert forall|n: int, k: int|
                    0 <= n < v2.lines.len() && 0 <= k < v2.lines[n].len() implies (
                #[trigger] v2.lines[n][k]).task < v2.tasks.len() by {
                    if n == line && k == v.lines[line as int].len() {
                    } else {
                        assert(v.lines[n][k].task < v.tasks.len());
                    }
                }
                assert forall|c: int| 0 <= c < v2.wakers.len() implies waker_wf(
                    #[trigger] v2.wakers[c],
                    v2,
                ) by {
                    assert(waker_wf(v.wakers[c], v));
                }
            },
            WaitPhase::Registered => {},
            WaitPhase::Fired => {
                lemma_complete_preserves_wf(v, id, value);
            },
        },
        TaskProgram::AwaitHandle { cell } => {
            assert(waker_wf(v.wakers[cell as int], v));
            match v.results[cell as int] {
                Some(x) => {
                    let v1 = RtView { results: v.results.update(cell as int, None), ..v };
                    assert forall|t: int| 0 <= t < v1.tasks.len() implies task_wf(
                        #[trigger] v1.tasks[t],
                        v1,
                    ) by {
                        assert(task_wf(v.tasks[t], v));
                    }
                    assert forall|c: int| 0 <= c < v1.wakers.len() implies waker_wf(
                        #[trigger] v1.wakers[c],
                        v1,
                    ) by {
                        assert(waker_wf(v.wakers[c], v));
                    }
                    assert(rt_wf(v1));
                    lemma_complete_preserves_wf(v1, id, x);
                },
                None => {
                    let v2 = poll_one_spec(v, id);
                    assert forall|t: int| 0 <= t < v2.tasks.len() implies task_wf(
                        #[trigger] v2.tasks[t],
                        v2,
                    ) by {
                        assert(task_wf(v.tasks[t], v));
                    }
                    assert forall|c: int| 0 <= c < v2.wakers.len() implies waker_wf(
                        #[trigger] v2.wakers[c],
                        v2,
                    ) by {
                        if c != cell {
                            assert(waker_wf(v.wakers[c], v));
                        }
                    }
                },
            }
        },
        TaskProgram::Completed => {},
    }
}

/// One scheduler step keeps every store's length.
proof fn lemma_step_preserves_len(v: RtView, id: int)
    requires
        rt_wf(v),
        0 <= id < v.tasks.len(),
    ensures
        tick_step_spec(v, id).tasks.len() == v.tasks.len(),
        tick_step_spec(v, id).counts.len() == v.counts.len(),
{
    let v1 = bump_loan_spec(v, id);
    lemma_wf_counts_only(v, v1);
    lemma_poll_preserves_len(v1, id);
}

/// One scheduler step keeps the state well formed.
proof fn lemma_step_preserves_wf(v: RtView, id: int)
    requires
        rt_wf(v),
        0 <= id < v.tasks.len(),
    ensures
        rt_wf(tick_step_spec(v, id)),
{
    let v1 = bump_loan_spec(v, id);
    lemma_wf_counts_only(v, v1);
    lemma_poll_preserves_wf(v1, id);
    lemma_poll_preserves_len(v1, id);
    let v2 = poll_one_spec(v1, id);
    let v3 = drop_loan_spec(v2, id);
    lemma_wf_counts_only(v2, v3);
    lemma_wf_counts_only(v3, drop_loan_spec(v3, id));
}

/// One scheduler step on `id` leaves every other task's slot untouched.
proof fn lemma_step_frames_others(v: RtView, id: int, t: int)
    requires
        rt_wf(v),
        0 <= id < v.tasks.len(),
        0 <= t < v.tasks.len(),
        t != id,
    ensures
        tick_step_spec(v, id).tasks[t] == v.tasks[t],
{
    let v1 = bump_loan_spec(v, id);
    lemma_wf_counts_only(v, v1);
    lemma_poll_frames_others(v1, id, t);
}

/// One poll of task `id` leaves every other task's slot untouched.
proof fn lemma_poll_frames_others(v: RtView, id: int, t: int)
    requires
        rt_wf(v),
        0 <= id < v.tasks.len(),
        0 <= t < v.tasks.len(),
        t != id,
    ensures
        poll_one_spec(v, id).tasks[t] == v.tasks[t],
{
    assert(task_wf(v.tasks[id], v));
}

/// Processing a snapshot that never names `id` leaves task `id` untouched.
proof fn lemma_process_frames(v: RtView, snap: Seq<usize>, k: int, id: int)
    requires
        rt_wf(v),
        0 <= k <= snap.len(),
        0 <= id < v.tasks.len(),
        forall|j: int| 0 <= j < snap.len() ==> (#[trigger] snap[j]) < v.tasks.len(),
        forall|j: int| k <= j < snap.len() ==> snap[j] != id,
    ensures
        process_from(v, snap, k).tasks.len() == v.tasks.len(),
        process_from(v, snap, k).tasks[id] == v.tasks[id],
        rt_wf(process_from(v, snap, k)),
    decreases snap.len() - k,
{
    if k < snap.len() {
        let v1 = tick_step_spec(v, snap[k] as int);
        lemma_step_preserves_wf(v, snap[k] as int);
        lemma_step_preserves_len(v, snap[k] as int);
        lemma_step_frames_others(v, snap[k] as int, id);
        lemma_process_frames(v1, snap, k + 1, id);
    }
}

/// Once a task is terminal, further processing leaves it terminal.
proof fn lemma_process_keeps_completed(v: RtView, snap: Seq<usize>, k: int, id: int)
    requires
        rt_wf(v),
        0 <= k <= snap.len(),
        0 <= id < v.tasks.len(),
        forall|j: int| 0 <= j < snap.len() ==> (#[trigger] snap[j]) < v.tasks.len(),
        v.tasks[id].program is Completed,
    ensures
        process_from(v, snap, k).tasks.len() == v.tasks.len(),
        process_from(v, snap, k).tasks[id].program is Completed,
        rt_wf(process_from(v, snap, k)),
    decreases snap.len() - k,
{
    if k < snap.len() {
        let v1 = tick_step_spec(v, snap[k] as int);
        lemma_step_preserves_wf(v, snap[k] as int);
        lemma_step_preserves_len(v, snap[k] as int);
        if snap[k] == id {
            let vb = bump_loan_spec(v, id);
            assert(poll_one_spec(vb, id) == vb);
            assert(v1.tasks == v.tasks);
        } else {
            lemma_step_frames_others(v, snap[k] as int, id);
        }
        lemma_process_keeps_completed(v1, snap, k + 1, id);
    }
}

/// If some remaining snapshot entry names `id` while its wait stands
/// satisfied, processing completes it.
proof fn lemma_process_completes(v: RtView, snap: Seq<usize>, k: int, id: int)
    requires
        rt_wf(v),
        0 <= k <= snap.len(),
        0 <= id < v.tasks.len(),
        forall|j: int| 0 <= j < snap.len() ==> (#[trigger] snap[j]) < v.tasks.len(),
        exists|j: int| k <= j < snap.len() && snap[j] == id,
        v.tasks[id].program matches TaskProgram::AwaitLine { phase: WaitPhase::Fired, .. },
    ensures
        process_from(v, snap, k).tasks[id].program is Completed,
    decreases snap.len() - k,
{
    let v1 = tick_step_spec(v, snap[k] as int);
    lemma_step_preserves_wf(v, snap[k] as int);
    lemma_step_preserves_len(v, snap[k] as int);
    if snap[k] == id {
        let vb = bump_loan_spec(v, id);
        lemma_wf_counts_only(v, vb);
        assert(poll_one_spec(vb, id).tasks[id].program is Completed);
        assert(v1.tasks[id].program is Completed);
        lemma_process_keeps_completed(v1, snap, k + 1, id);
    } else {
        lemma_step_frames_others(v, snap[k] as int, id);
        let j = choose|j: int| k <= j < snap.len() && snap[j] == id;
        assert(k + 1 <= j < snap.len() && snap[j] == id);
        lemma_process_completes(v1, snap, k + 1, id);
    }
}

/// Queue-loan law: processing an entry for a task that completes on
/// this poll (or already had) stores no clone anywhere, so the step
/// nets exactly one released loan — the popped queue entry's. When such
/// releases take a cell's ledger to zero, the cell is freed on the
/// device.
pub proof fn lemma_entry_loan_released(v: RtView, id: int)
    requires
        rt_wf(v),
        0 <= id < v.tasks.len(),
        v.tasks[id].program is Completed || v.tasks[id].program is Ready
            || v.tasks[id].program matches TaskProgram::AwaitLine {
                phase: WaitPhase::Fired,
                ..
            },
    ensures
        tick_step_spec(v, id).counts[id] == v.counts[id] - 1,
{
    let vb = bump_loan_spec(v, id);
    lemma_wf_counts_only(v, vb);
    assert(task_wf(vb.tasks[id], vb));
    match v.tasks[id].program {
        TaskProgram::Ready { value } => {
            lemma_complete_preserves_len(vb, id, value);
        },
        TaskProgram::AwaitLine { line, value, phase } => {
            lemma_complete_preserves_len(vb, id, value);
        },
        _ => {},
    }
}

/// Scheduler liveness law, first half: a suspended task that registered
/// a wake handle and was then woken (its wait satisfied and its slot
/// re-enqueued) is polled again by the next tick, which completes it.
pub proof fn lemma_tick_polls_woken(v: RtView, id: usize)
    requires
        rt_wf(v),
        id < v.tasks.len(),
        v.queue.contains(id),
        v.tasks[id as int].program matches TaskProgram::AwaitLine { phase: WaitPhase::Fired, .. },
    ensures
        tick_spec(v).tasks[id as int].program is Completed,
{
    let v0 = RtView { queue: Seq::<usize>::empty(), ..v };
    assert forall|t: int| 0 <= t < v0.tasks.len() implies task_wf(#[trigger] v0.tasks[t], v0) by {
        assert(task_wf(v.tasks[t], v));
    }
    assert forall|c: int| 0 <= c < v0.wakers.len() implies waker_wf(
        #[trigger] v0.wakers[c],
        v0,
    ) by {
        assert(waker_wf(v.wakers[c], v));
    }
    assert(rt_wf(v0));
    let j = choose|j: int| 0 <= j < v.queue.len() && v.queue[j] == id;
    assert(0 <= j < v.queue.len() && v.queue[j] == id as int);
    lemma_process_completes(v0, v.queue, 0, id as int);
}

/// Scheduler liveness law, second half: a task that stands nowhere on
/// the ready queue is not polled by a tick — its state machine does not
/// advance, so a suspended task is not polled before being woken.
pub proof fn lemma_tick_skips_unqueued(v: RtView, id: usize)
    requires
        rt_wf(v),
        id < v.tasks.len(),
        !v.queue.contains(id),
    ensures
        tick_spec(v).tasks[id as int] == v.tasks[id as int],
{
    let v0 = RtView { queue: Seq::<usize>::empty(), ..v };
    assert forall|t: int| 0 <= t < v0.tasks.len() implies task_wf(#[trigger] v0.tasks[t], v0) by {
        assert(task_wf(v.tasks[t], v));
    }
    assert forall|c: int| 0 <= c < v0.wakers.len() implies waker_wf(
        #[trigger] v0.wakers[c],
        v0,
    ) by {
        assert(waker_wf(v.wakers[c], v));
    }
    assert(rt_wf(v0));
    assert(forall|j: int| 0 <= j < v.queue.len() ==> v.queue[j] != id);
    lemma_process_frames(v0, v.queue, 0, id as int);
}

/// Enqueue a task with no handle: fire and forget. Its index is the
/// next free slot (the task store's old length), and the queue entry
/// owns the new cell's first loan.
pub fn spawn_inner(rt: &mut Runtime, program: TaskProgram)
    requires
        old(rt).wf(),
        task_wf(TaskSlot { program, handle: None }, old(rt)@),
    ensures
        final(rt).wf(),
        final(rt)@ == spawn_inner_spec(old(rt)@, program),
{
    rt.tasks.lock(&mut rt.regs);
    let mut ts = rt.tasks.replace(&rt.regs, Vec::new());
    let id = ts.len();
    ts.push(TaskSlot { program, handle: None });
    let _ = rt.tasks.replace(&rt.regs, ts);
    rt.tasks.unlock(&mut rt.regs);
    // The new queue entry owns the cell's first loan.
    rt.counts = Ghost(rt.counts@.push(1int));
    rt.queue.lock(&mut rt.regs);
    let mut q = rt.queue.replace(&rt.regs, Vec::new());
    q.push(id);
    let _ = rt.queue.replace(&rt.regs, q);
    rt.queue.unlock(&mut rt.regs);
    proof {
        assert(rt@ =~~= spawn_inner_spec(old(rt)@, program));
    }
}

/// Spawn a task and return the handle to await its result: a fresh
/// result/waker cell pair is wired to the task's completion, and the
/// queue entry owns the new cell's first loan.
pub fn spawn(rt: &mut Runtime, program: TaskProgram) -> (h: TaskHandle)
    requires
        old(rt).wf(),
        task_wf(TaskSlot { program, handle: None }, old(rt)@),
    ensures
        final(rt).wf(),
        final(rt)@ == spawn_spec(old(rt)@, program),
        h.cell == old(rt)@.results.len(),
{
    rt.results.lock(&mut rt.regs);
    let mut rs = rt.results.replace(&rt.regs, Vec::new());
    let cell = rs.len();
    rs.push(None);
    let _ = rt.results.replace(&rt.regs, rs);
    rt.results.unlock(&mut rt.regs);

    rt.wakers.lock(&mut rt.regs);
    let mut ws = rt.wakers.replace(&rt.regs, Vec::new());
    ws.push(None);
    let _ = rt.wakers.replace(&rt.regs, ws);
    rt.wakers.unlock(&mut rt.regs);

    rt.tasks.lock(&mut rt.regs);
    let mut ts = rt.tasks.replace(&rt.regs, Vec::new());
    let id = ts.len();
    ts.push(TaskSlot { program, handle: Some(cell) });
    let _ = rt.tasks.replace(&rt.regs, ts);
    rt.tasks.unlock(&mut rt.regs);
    // The new queue entry owns the cell's first loan.
    rt.counts = Ghost(rt.counts@.push(1int));

    rt.queue.lock(&mut rt.regs);
    let mut q = rt.queue.replace(&rt.regs, Vec::new());
    q.push(id);
    let _ = rt.queue.replace(&rt.regs, q);
    rt.queue.unlock(&mut rt.regs);

    proof {
        assert(rt@ =~~= spawn_spec(old(rt)@, program));
    }
    TaskHandle { cell }
}

impl TaskHandle {
    /// Poll the handle: a present result is taken and returned, exactly
    /// once; otherwise the caller's waker (if any) is recorded —
    /// overwriting any previous one, so only the most recent poller is
    /// notified — and nothing is returned. After the result has been
    /// yielded, further polls return nothing rather than a second value.
    pub fn poll(&self, rt: &mut Runtime, waker: Option<WakeHandle>) -> (r: Option<u64>)
        requires
            old(rt).wf(),
            self.cell < old(rt)@.results.len(),
            waker_wf(waker, old(rt)@),
        ensures
            final(rt).wf(),
            r == old(rt)@.results[self.cell as int],
            final(rt)@ == poll_handle_spec(old(rt)@, self.cell as int, waker),
    {
        let taken = take_result(rt, self.cell);
        match taken {
            Some(x) => {
                proof {
                    assert(rt@ =~~= poll_handle_spec(old(rt)@, self.cell as int, waker));
                }
                Some(x)
            },
            None => {
                // The handed-in waker's loan moves into the cell; the
                // displaced waker, if any, is dropped and its loan
                // released.
                let prev = swap_waker(rt, self.cell, waker);
                let ghost mid = rt@;
                match prev {
                    Some(ow) => {
                        rt.counts = Ghost(
                            rt.counts@.update(ow.task as int, rt.counts@[ow.task as int] - 1),
                        );
                    },
                    None => {},
                }
                proof {
                    assert(waker_wf(old(rt)@.wakers[self.cell as int], old(rt)@));
                    lemma_wf_counts_only(mid, rt@);
                    assert(old(rt)@.results.update(self.cell as int, None) =~=
                        old(rt)@.results);
                    assert(rt@ =~~= poll_handle_spec(old(rt)@, self.cell as int, waker));
                }
                None
            },
        }
    }
}

} // verus!
