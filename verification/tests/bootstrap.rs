//! Scenarios over the second-core bootstrap: stack staging, the
//! protection guard, the command sequence, and the handshake.

use minirt::jumpstart::{
    command_sequence, core1_startup_plan, mpu_guard_plan, run_handshake, spawn, BootAttempt,
    DriveOutcome, Handshake, HandshakeStatus, Stack,
};

#[test]
fn stack_starts_zeroed_and_stages_arguments() {
    let mut stack = Stack::new(8);
    assert_eq!(stack.mem, vec![0; 8]);
    let sp = stack.stage_arguments(0xAA, 0xBB);
    assert_eq!(sp, 6);
    assert_eq!(stack.mem[7], 0xBB);
    assert_eq!(stack.mem[6], 0xAA);
    assert_eq!(stack.mem[5], 0);
}

#[test]
fn guard_covers_lowest_aligned_subregion() {
    // An already aligned stack bottom guards itself.
    let plan = mpu_guard_plan(0x2000_4000);
    assert_eq!(plan.ctrl, 5);
    assert_eq!(plan.rbar, 0x2000_4008);
    assert_eq!(plan.rasr, 0x1000_FE0F);
}

#[test]
fn guard_rounds_up_unaligned_stack_bottom() {
    let plan = mpu_guard_plan(0x2000_0004);
    // Guarded address rounds up to 0x2000_0020: second 32-byte subregion.
    assert_eq!(plan.rbar, 0x2000_0008);
    assert_eq!(plan.rasr, 0x1000_FD0F);
}

#[test]
fn startup_traps_on_configured_protection_unit() {
    assert!(core1_startup_plan(5, 0x2000_4000).is_none());
    let plan = core1_startup_plan(0, 0x2000_4000);
    assert!(plan.is_some());
    assert_eq!(plan.unwrap().rasr, 0x1000_FE0F);
}

#[test]
fn command_sequence_is_the_six_word_protocol() {
    let cmds = command_sequence(0x1000_0100, 0x2004_1000, 0x1000_2222);
    assert_eq!(cmds, vec![0, 0, 1, 0x1000_0100, 0x2004_1000, 0x1000_2222]);
}

#[test]
fn handshake_advances_on_echo_and_restarts_on_mismatch() {
    let cmds = command_sequence(40, 50, 60);
    let mut hs = Handshake::new();
    assert_eq!(hs.current_command(&cmds), 0);
    assert_eq!(hs.on_response(&cmds, 0), HandshakeStatus::Sending);
    assert_eq!(hs.on_response(&cmds, 0), HandshakeStatus::Sending);
    assert_eq!(hs.current_command(&cmds), 1);
    // A mismatch restarts the whole sequence from the first word.
    assert_eq!(hs.on_response(&cmds, 99), HandshakeStatus::Sending);
    assert_eq!(hs.current_command(&cmds), 0);
    for c in [0, 0, 1, 40, 50] {
        assert_eq!(hs.on_response(&cmds, c), HandshakeStatus::Sending);
    }
    assert_eq!(hs.on_response(&cmds, 60), HandshakeStatus::Done);
}

#[test]
fn exact_echo_launches() {
    let cmds = command_sequence(40, 50, 60);
    let responses = vec![0, 0, 1, 40, 50, 60];
    assert_eq!(run_handshake(&cmds, &responses), DriveOutcome::Launched);
}

#[test]
fn echo_after_recoverable_mismatches_still_launches() {
    let cmds = command_sequence(40, 50, 60);
    let mut responses = vec![9; 16];
    responses.extend([0, 0, 1, 40, 50, 60]);
    assert_eq!(run_handshake(&cmds, &responses), DriveOutcome::Launched);
}

#[test]
fn seventeenth_mismatch_gives_the_core_up() {
    let cmds = command_sequence(40, 50, 60);
    let responses = vec![9; 17];
    assert_eq!(run_handshake(&cmds, &responses), DriveOutcome::Unresponsive);
}

#[test]
fn silent_core_stalls_the_protocol() {
    let cmds = command_sequence(40, 50, 60);
    assert_eq!(run_handshake(&cmds, &Vec::new()), DriveOutcome::Stalled);
    assert_eq!(run_handshake(&cmds, &vec![0, 0, 1]), DriveOutcome::Stalled);
}

#[test]
fn successful_bootstrap_hands_the_entry_over() {
    let mut stack = Stack::new(16);
    // The staged stack pointer is index 14, echoed like every command.
    let responses = vec![0, 0, 1, 77, 14, 88];
    let entry = vec![1u8, 2, 3];
    let attempt = spawn(entry, 0x123, 0x456, &mut stack, 77, 88, &responses);
    assert!(matches!(attempt, BootAttempt::Launched));
    assert_eq!(stack.mem[15], 0x456);
    assert_eq!(stack.mem[14], 0x123);
}

#[test]
fn unresponsive_core_reclaims_the_entry() {
    // Seventeen consecutive mismatches: the entry value comes back whole
    // (nothing leaked); the caller then halts by its fault path.
    let mut stack = Stack::new(16);
    let responses = vec![9; 17];
    let entry = vec![1u8, 2, 3];
    let attempt = spawn(entry, 0x123, 0x456, &mut stack, 77, 88, &responses);
    match attempt {
        BootAttempt::Unresponsive(e) => assert_eq!(e, vec![1u8, 2, 3]),
        _ => panic!("expected the retry budget to be spent"),
    }
}
