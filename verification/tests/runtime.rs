//! Scenarios over the scheduler, task handles, wake handles and the
//! reactor.

use minirt::executor::{
    construct_waker, spawn, spawn_inner, tick, Runtime, TaskProgram, WaitPhase,
};
use minirt::reactor::{dispatch, register};

#[test]
fn immediate_task_yields_after_one_tick() {
    // Spawn a task that immediately returns 42; after one tick, awaiting
    // its handle yields 42.
    let mut rt = Runtime::new();
    let h = spawn(&mut rt, TaskProgram::Ready { value: 42 });
    tick(&mut rt);
    assert_eq!(h.poll(&mut rt, None), Some(42));
}

#[test]
fn handle_never_yields_twice() {
    let mut rt = Runtime::new();
    let h = spawn(&mut rt, TaskProgram::Ready { value: 42 });
    tick(&mut rt);
    assert_eq!(h.poll(&mut rt, None), Some(42));
    assert_eq!(h.poll(&mut rt, None), None);
    assert_eq!(h.poll(&mut rt, None), None);
}

#[test]
fn interrupt_driven_task_completes_after_firing() {
    // Task B suspends until line 5 fires: its first poll registers it;
    // before firing, ticks leave it uncompleted; after firing line 5 and
    // one more tick, it completes.
    let mut rt = Runtime::new();
    let h = spawn(
        &mut rt,
        TaskProgram::AwaitLine { line: 5, value: 7, phase: WaitPhase::Unregistered },
    );
    tick(&mut rt);
    assert_eq!(rt.line_tasks(5), vec![0]);
    assert_eq!(h.poll(&mut rt, None), None);
    tick(&mut rt);
    assert!(matches!(
        rt.task_program(0),
        TaskProgram::AwaitLine { phase: WaitPhase::Registered, .. }
    ));
    dispatch(&mut rt, 5);
    assert_eq!(rt.queue_items(), vec![0]);
    tick(&mut rt);
    assert!(matches!(rt.task_program(0), TaskProgram::Completed));
    assert_eq!(h.poll(&mut rt, None), Some(7));
}

#[test]
fn woken_task_is_polled_and_unwoken_task_is_not() {
    // A registered task is not polled again before its wake handle is
    // invoked; one wake signal gets it polled by the next tick.
    let mut rt = Runtime::new();
    let _ = spawn(
        &mut rt,
        TaskProgram::AwaitLine { line: 3, value: 1, phase: WaitPhase::Unregistered },
    );
    tick(&mut rt);
    let before = rt.task_program(0);
    tick(&mut rt);
    tick(&mut rt);
    // Not woken: its state machine did not advance.
    assert_eq!(rt.task_program(0), before);
    dispatch(&mut rt, 3);
    tick(&mut rt);
    // Woken exactly once: polled again, and it completed.
    assert_eq!(rt.task_program(0), TaskProgram::Completed);
}

#[test]
fn reactor_fan_out_notifies_each_registration_once() {
    // Three handles on line 5: firing 4 notifies none of them; firing 5
    // notifies all three exactly once and drains the list.
    let mut rt = Runtime::new();
    for _ in 0..3 {
        let _ = spawn(
            &mut rt,
            TaskProgram::AwaitLine { line: 5, value: 0, phase: WaitPhase::Unregistered },
        );
    }
    tick(&mut rt);
    assert_eq!(rt.line_tasks(5), vec![0, 1, 2]);
    assert_eq!(rt.queue_items(), Vec::<usize>::new());
    dispatch(&mut rt, 4);
    assert_eq!(rt.queue_items(), Vec::<usize>::new());
    assert_eq!(rt.line_tasks(5), vec![0, 1, 2]);
    dispatch(&mut rt, 5);
    assert_eq!(rt.queue_items(), vec![0, 1, 2]);
    assert_eq!(rt.line_tasks(5), Vec::<usize>::new());
}

#[test]
fn spurious_interrupt_does_nothing() {
    let mut rt = Runtime::new();
    let _ = spawn(
        &mut rt,
        TaskProgram::AwaitLine { line: 2, value: 0, phase: WaitPhase::Unregistered },
    );
    tick(&mut rt);
    dispatch(&mut rt, -1);
    assert_eq!(rt.queue_items(), Vec::<usize>::new());
    assert_eq!(rt.line_tasks(2), vec![0]);
}

#[test]
fn fire_and_forget_task_runs_to_completion() {
    let mut rt = Runtime::new();
    spawn_inner(&mut rt, TaskProgram::Ready { value: 9 });
    assert_eq!(rt.queue_items(), vec![0]);
    tick(&mut rt);
    assert_eq!(rt.task_program(0), TaskProgram::Completed);
    assert_eq!(rt.queue_items(), Vec::<usize>::new());
}

#[test]
fn task_awaiting_another_takes_its_result() {
    // Task B awaits task A's handle cell and completes with A's value.
    let mut rt = Runtime::new();
    let ha = spawn(&mut rt, TaskProgram::Ready { value: 42 });
    let hb = spawn(&mut rt, TaskProgram::AwaitHandle { cell: ha.cell });
    tick(&mut rt);
    assert_eq!(rt.task_program(1), TaskProgram::Completed);
    assert_eq!(hb.poll(&mut rt, None), Some(42));
    // A's result was consumed by B.
    assert_eq!(ha.poll(&mut rt, None), None);
}

#[test]
fn awaiting_task_is_woken_by_completion() {
    // B awaits A's cell while A is still pending on an interrupt; when A
    // completes, the recorded waker re-enqueues B.
    let mut rt = Runtime::new();
    let ha = spawn(
        &mut rt,
        TaskProgram::AwaitLine { line: 1, value: 5, phase: WaitPhase::Unregistered },
    );
    let hb = spawn(&mut rt, TaskProgram::AwaitHandle { cell: ha.cell });
    tick(&mut rt);
    // A registered on line 1; B recorded its waker in A's cell.
    assert!(matches!(rt.task_program(1), TaskProgram::AwaitHandle { .. }));
    dispatch(&mut rt, 1);
    tick(&mut rt);
    // A completed and its continuation woke B.
    assert_eq!(rt.task_program(0), TaskProgram::Completed);
    assert_eq!(rt.queue_items(), vec![1]);
    tick(&mut rt);
    assert_eq!(rt.task_program(1), TaskProgram::Completed);
    assert_eq!(hb.poll(&mut rt, None), Some(5));
}

#[test]
fn wake_by_ref_re_enqueues_without_consuming() {
    let mut rt = Runtime::new();
    let _ = spawn(&mut rt, TaskProgram::Ready { value: 0 });
    tick(&mut rt);
    let w = construct_waker(&mut rt, 0);
    w.wake_by_ref(&mut rt);
    w.wake_by_ref(&mut rt);
    assert_eq!(rt.queue_items(), vec![0, 0]);
    w.wake(&mut rt);
    assert_eq!(rt.queue_items(), vec![0, 0, 0]);
    // Re-polling a completed task is a safe no-op.
    tick(&mut rt);
    assert_eq!(rt.task_program(0), TaskProgram::Completed);
}

#[test]
fn register_appends_to_the_chosen_line() {
    let mut rt = Runtime::new();
    let _ = spawn(&mut rt, TaskProgram::Ready { value: 0 });
    let w = construct_waker(&mut rt, 0);
    register(&mut rt, 9, w);
    assert_eq!(rt.line_tasks(9), vec![0]);
    assert_eq!(rt.line_tasks(8), Vec::<usize>::new());
}
