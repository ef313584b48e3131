//! The interrupt-to-task wakeup bridge: a fixed table of wake-handle
//! lists, one per interrupt line, guarded by one software mutex.
//!
//! The dispatcher receives a signed line number from hardware; negative
//! values are spurious and do nothing. For a genuine line it takes that
//! line's list, marks each registered task's wait as satisfied, and
//! wakes every entry by reference — each registration is notified
//! exactly once per firing, and the list is drained, so a task that
//! wants the line's next firing registers afresh (the pruning policy).

use vstd::prelude::*;

use crate::executor::LINE_COUNT;
use crate::executor::Runtime;
use crate::executor::RtView;
use crate::executor::TaskProgram;
use crate::executor::TaskSlot;
use crate::executor::WaitPhase;
use crate::executor::WakeHandle;
use crate::executor::rt_wf;

verus! {

/// The state after appending `w` to line `line`'s list.
pub open spec fn register_spec(v: RtView, line: int, w: WakeHandle) -> RtView {
    RtView { lines: v.lines.update(line, v.lines[line].push(w)), ..v }
}

/// The firing's effect on one registered handle: if its task still waits
/// on a line, its wait is now satisfied, and the task is re-enqueued.
pub open spec fn fire_one_spec(v: RtView, w: WakeHandle) -> RtView {
    let v1 = match v.tasks[w.task as int].program {
        TaskProgram::AwaitLine { line, value, phase } => RtView {
            tasks: v.tasks.update(
                w.task as int,
                TaskSlot {
                    program: TaskProgram::AwaitLine { line, value, phase: WaitPhase::Fired },
                    ..v.tasks[w.task as int]
                },
            ),
            ..v
        },
        _ => v,
    };
    RtView { queue: v1.queue.push(w.task), ..v1 }
}

/// The firing's effect on a list of handles, in registration order.
pub open spec fn fire_all_spec(v: RtView, hs: Seq<WakeHandle>, k: int) -> RtView
    decreases hs.len() - k,
{
    if k < 0 || k >= hs.len() {
        v
    } else {
        fire_all_spec(fire_one_spec(v, hs[k]), hs, k + 1)
    }
}

/// The state after line `n` fires: its list is drained, then every
/// handle that was on it is notified once.
pub open spec fn dispatch_spec(v: RtView, n: int) -> RtView {
    fire_all_spec(
        RtView { lines: v.lines.update(n, Seq::<WakeHandle>::empty()), ..v },
        v.lines[n],
        0,
    )
}

/// Append a wake handle to a line's list, under the table lock. Any
/// component that owns a handle and knows its line may do this; a
/// suspending task does it before reporting itself pending.
pub fn register(rt: &mut Runtime, line: usize, w: WakeHandle)
    requires
        old(rt).wf(),
        line < LINE_COUNT,
        w.task < old(rt)@.tasks.len(),
    ensures
        final(rt).wf(),
        final(rt)@ == register_spec(old(rt)@, line as int, w),
{
    crate::executor::line_append(rt, line, w);
    proof {
        assert(rt@ =~~= register_spec(old(rt)@, line as int, w));
    }
}

/// The interrupt dispatcher. A negative line number is spurious and
/// returns immediately; a genuine one drains that line's list, marks
/// each registered task's wait satisfied, and re-enqueues each of them.
pub fn dispatch(rt: &mut Runtime, irqn: i16)
    requires
        old(rt).wf(),
        irqn < 26,
    ensures
        final(rt).wf(),
        irqn < 0 ==> final(rt)@ == old(rt)@,
        irqn >= 0 ==> final(rt)@ == dispatch_spec(old(rt)@, irqn as int),
{
    if irqn < 0 {
        return;
    }
    let n = irqn as usize;
    let pending = crate::executor::line_take(rt, n);
    let ghost v0 = rt@;
    let mut k: usize = 0;
    while k < pending.len()
        invariant
            rt.wf(),
            k <= pending@.len(),
            rt@.tasks.len() == v0.tasks.len(),
            forall|j: int| 0 <= j < pending@.len() ==> (#[trigger] pending@[j]).task < v0.tasks.len(),
            fire_all_spec(rt@, pending@, k as int) == fire_all_spec(v0, pending@, 0),
        decreases pending@.len() - k,
    {
        let w = pending[k];
        let ghost pre = rt@;
        fire_handle(rt, w);
        proof {
            assert(fire_all_spec(pre, pending@, k as int) ==
                fire_all_spec(fire_one_spec(pre, w), pending@, k as int + 1));
        }
        k += 1;
    }
    proof {
        assert(fire_all_spec(rt@, pending@, k as int) == rt@);
        assert(rt@ =~~= dispatch_spec(old(rt)@, irqn as int));
    }
}

/// Notify one drained registration: satisfy its task's wait and wake it
/// by value — the list entry's loan moves into the new queue entry.
fn fire_handle(rt: &mut Runtime, w: WakeHandle)
    requires
        old(rt).wf(),
        w.task < old(rt)@.tasks.len(),
    ensures
        final(rt).wf(),
        final(rt)@ == fire_one_spec(old(rt)@, w),
        final(rt)@.tasks.len() == old(rt)@.tasks.len(),
{
    let slot = crate::executor::read_task_slot(rt, w.task);
    match slot.program {
        TaskProgram::AwaitLine { line, value, phase: _ } => {
            crate::executor::set_task_program(
                rt,
                w.task,
                TaskProgram::AwaitLine { line, value, phase: WaitPhase::Fired },
            );
        },
        _ => {},
    }
    w.wake(rt);
    proof {
        assert(rt@ =~~= fire_one_spec(old(rt)@, w));
    }
}

/// Reactor fan-out law: firing line `n` re-enqueues exactly the tasks
/// registered on `n`, each once, in registration order, and drains that
/// list; every other line's registrations are untouched, so firing any
/// line `m != n` notifies none of line `n`'s handles.
pub proof fn lemma_reactor_fanout(v: RtView, n: int)
    requires
        rt_wf(v),
        0 <= n < v.lines.len(),
    ensures
        dispatch_spec(v, n).queue == v.queue + v.lines[n].map_values(|w: WakeHandle| w.task),
        dispatch_spec(v, n).lines[n] == Seq::<WakeHandle>::empty(),
        forall|m: int| 0 <= m < v.lines.len() && m != n ==> dispatch_spec(v, n).lines[m] == v.lines[m],
        dispatch_spec(v, n).lines.len() == v.lines.len(),
{
    let v1 = RtView { lines: v.lines.update(n, Seq::<WakeHandle>::empty()), ..v };
    lemma_fire_all_queue(v1, v.lines[n], 0);
    assert(dispatch_spec(v, n).queue =~=
        v.queue + v.lines[n].map_values(|w: WakeHandle| w.task)) by {
        assert(v.lines[n].skip(0) =~= v.lines[n]);
        assert(dispatch_spec(v, n).queue =~=
            v1.queue + v.lines[n].skip(0).map_values(|w: WakeHandle| w.task));
    }
}

/// Firing a list of handles appends exactly their tasks to the queue,
/// in order, and leaves the line table alone.
proof fn lemma_fire_all_queue(v: RtView, hs: Seq<WakeHandle>, k: int)
    requires
        0 <= k <= hs.len(),
        forall|j: int| k <= j < hs.len() ==> (#[trigger] hs[j]).task < v.tasks.len(),
    ensures
        fire_all_spec(v, hs, k).queue ==
            v.queue + hs.skip(k).map_values(|w: WakeHandle| w.task),
        fire_all_spec(v, hs, k).lines == v.lines,
        fire_all_spec(v, hs, k).tasks.len() == v.tasks.len(),
    decreases hs.len() - k,
{
    if k >= hs.len() {
        assert(hs.skip(k).map_values(|w: WakeHandle| w.task) =~= Seq::<usize>::empty());
        assert(fire_all_spec(v, hs, k).queue =~=
            v.queue + hs.skip(k).map_values(|w: WakeHandle| w.task));
    } else {
        let v1 = fire_one_spec(v, hs[k]);
        assert(v1.queue == v.queue.push(hs[k].task));
        assert(v1.lines == v.lines);
        assert(v1.tasks.len() == v.tasks.len());
        lemma_fire_all_queue(v1, hs, k + 1);
        assert(fire_all_spec(v, hs, k).queue =~=
            v.queue + hs.skip(k).map_values(|w: WakeHandle| w.task)) by {
            assert(hs.skip(k).map_values(|w: WakeHandle| w.task) =~=
                seq![hs[k].task] + hs.skip(k + 1).map_values(|w: WakeHandle| w.task));
        }
    }
}

} // verus!
