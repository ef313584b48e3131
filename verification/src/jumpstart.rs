//! Bootstrap of the second processor core: stack layout, the
//! memory-protection guard over the stack's lowest subregion, and the
//! sequenced mailbox handshake with bounded retry.
//!
//! The hardware side — mailbox reads and writes, reset pulsing, the
//! protection-unit register writes — lives outside the library. Here
//! stand the decisions: what words to send, how a response advances or
//! restarts the sequence, when the retry budget is spent, and the exact
//! register values that guard the stack. Addresses handed to these
//! functions are plain words; the caller supplies the real ones.

use vstd::prelude::*;

verus! {

/// How many mismatched echoes the handshake tolerates before giving the
/// second core up as unresponsive.
pub const FAIL_BUDGET: u32 = 16;

/// The number of words in the boot command sequence.
pub const COMMAND_COUNT: usize = 6;

/// A properly aligned stack for the second core: a run of zeroed words.
pub struct Stack {
    /// Memory to be used for the stack.
    pub mem: Vec<usize>,
}

impl Stack {
    /// Construct a stack of `size` words, initialized to 0.
    pub fn new(size: usize) -> (r: Stack)
        ensures
            r.mem@.len() == size,
            forall|i: int| 0 <= i < size ==> r.mem@[i] == 0,
    {
        let mut mem: Vec<usize> = Vec::new();
        let mut k: usize = 0;
        while k < size
            invariant
                k <= size,
                mem@.len() == k,
                forall|i: int| 0 <= i < k ==> mem@[i] == 0,
            decreases size - k,
        {
            mem.push(0);
            k += 1;
        }
        Stack { mem }
    }

    /// Stage the startup arguments on the stack's top: the word below the
    /// top holds the stack-bottom address and the one below that the
    /// address of the entry closure; the prepared stack pointer is the
    /// index of the lower of the two. Returns that index.
    pub fn stage_arguments(&mut self, entry_addr: usize, bottom_addr: usize) -> (sp: usize)
        requires
            old(self).mem@.len() >= 2,
        ensures
            sp == final(self).mem@.len() - 2,
            final(self).mem@.len() == old(self).mem@.len(),
            final(self).mem@ == old(self).mem@
                .update(old(self).mem@.len() - 1, bottom_addr)
                .update(old(self).mem@.len() - 2, entry_addr),
    {
        let top = self.mem.len();
        self.mem[top - 1] = bottom_addr;
        self.mem[top - 2] = entry_addr;
        top - 2
    }
}

/// The three protection-unit register words that guard a stack's lowest
/// 256-byte-aligned subregion against any access.
pub struct MpuPlan {
    /// Control word: enable the unit with the background default map.
    pub ctrl: u32,
    /// Region base address register: the guarded 256-byte range, region 0 valid.
    pub rbar: u32,
    /// Region attribute and size register: region enabled, 256 bytes, one
    /// 32-byte subregion active, instruction fetch disabled, no access rights.
    pub rasr: u32,
}

/// The guarded 32-byte-aligned address: the stack bottom rounded up.
pub open spec fn guard_addr_spec(stack_bottom: u32) -> u32 {
    ((stack_bottom + 31) as u32) & !31u32
}

/// The register plan for a guard at `addr`.
pub open spec fn mpu_plan_spec(stack_bottom: u32) -> (u32, u32) {
    let addr = guard_addr_spec(stack_bottom);
    (
        (addr & !0xffu32) | 0x8,
        1u32 | (0x7u32 << 1) | (((0xffu32 ^ (1u32 << ((addr >> 5) & 7))) as u32) << 8)
            | 0x10000000,
    )
}

/// Compute the protection-unit configuration guarding the lowest 32-byte
/// subregion at or above `stack_bottom`: a stack overflow that walks into
/// it faults at once instead of corrupting adjacent memory.
pub fn mpu_guard_plan(stack_bottom: u32) -> (r: MpuPlan)
    requires
        stack_bottom <= u32::MAX - 31,
    ensures
        r.ctrl == 5,
        (r.rbar, r.rasr) == mpu_plan_spec(stack_bottom),
        guard_addr_spec(stack_bottom) % 32 == 0,
        stack_bottom <= guard_addr_spec(stack_bottom) <= stack_bottom + 31,
        r.rasr & 1 == 1,
        r.rasr >> 28 == 1,
{
    let addr = (stack_bottom + 31) & !31;
    assert(addr == guard_addr_spec(stack_bottom));
    assert(addr % 32 == 0 && stack_bottom <= addr <= stack_bottom + 31) by (bit_vector)
        requires
            addr == ((stack_bottom + 31) as u32) & !31u32,
            stack_bottom <= u32::MAX - 31,
    ;
    assert((addr >> 5) & 7 < 32) by (bit_vector);
    let subregion_select = 0xff ^ (1u32 << ((addr >> 5) & 7));
    let rasr = 1 | (0x7 << 1) | (subregion_select << 8) | 0x10000000;
    assert(rasr & 1 == 1 && rasr >> 28 == 1) by (bit_vector)
        requires
            rasr == 1u32 | (0x7u32 << 1) | (((0xffu32 ^ (1u32 << ((addr >> 5) & 7))) as u32)
                << 8) | 0x10000000,
    ;
    MpuPlan { ctrl: 5, rbar: (addr & !0xff) | 0x8, rasr }
}

/// What the second core's startup decides on arrival: if the protection
/// unit is already configured, it must trap (the fault path); otherwise
/// it installs the guard plan for its stack bottom.
pub fn core1_startup_plan(mpu_ctrl: u32, stack_bottom: u32) -> (r: Option<MpuPlan>)
    requires
        stack_bottom <= u32::MAX - 31,
    ensures
        r is Some <==> mpu_ctrl == 0,
        r matches Some(p) ==> (p.rbar, p.rasr) == mpu_plan_spec(stack_bottom) && p.ctrl == 5,
{
    if mpu_ctrl != 0 {
        None
    } else {
        Some(mpu_guard_plan(stack_bottom))
    }
}

/// The six-word boot command sequence, in order: two zero markers, a one
/// marker, the vector-table base, the prepared stack pointer, and the
/// trampoline address. Each word is re-sent until echoed identically.
pub fn command_sequence(vector_table: usize, stack_ptr: usize, trampoline: usize) -> (r: Vec<
    usize,
>)
    ensures
        r@ == command_sequence_spec(vector_table, stack_ptr, trampoline),
        r@.len() == COMMAND_COUNT,
{
    let mut r: Vec<usize> = Vec::new();
    r.push(0);
    r.push(0);
    r.push(1);
    r.push(vector_table);
    r.push(stack_ptr);
    r.push(trampoline);
    proof {
        assert(r@ =~= command_sequence_spec(vector_table, stack_ptr, trampoline));
    }
    r
}

/// The boot command words as a sequence.
pub open spec fn command_sequence_spec(
    vector_table: usize,
    stack_ptr: usize,
    trampoline: usize,
) -> Seq<usize> {
    seq![0usize, 0usize, 1usize, vector_table, stack_ptr, trampoline]
}

/// The handshake's cursor: how far the sequence has advanced and how
/// many mismatches have been seen so far.
pub struct Handshake {
    pos: usize,
    fails: u32,
}

/// What one exchange decided.
#[derive(Clone, Copy, Debug, PartialEq, Eq, Structural)]
pub enum HandshakeStatus {
    /// Keep sending: the sequence has not completed.
    Sending,
    /// Every command was echoed: the second core has the entry point.
    Done,
    /// The retry budget is spent: the second core is unresponsive.
    Failed,
}

impl Handshake {
    pub closed spec fn pos_spec(&self) -> int {
        self.pos as int
    }

    pub closed spec fn fails_spec(&self) -> int {
        self.fails as int
    }

    pub open spec fn inv(&self) -> bool {
        0 <= self.pos_spec() <= COMMAND_COUNT && 0 <= self.fails_spec() <= FAIL_BUDGET
    }

    /// A fresh handshake: at the first command, with no failures seen.
    pub fn new() -> (r: Handshake)
        ensures
            r.inv(),
            r.pos_spec() == 0,
            r.fails_spec() == 0,
    {
        Handshake { pos: 0, fails: 0 }
    }

    /// The word to send next.
    pub fn current_command(&self, cmds: &Vec<usize>) -> (c: usize)
        requires
            self.inv(),
            self.pos_spec() < cmds@.len(),
        ensures
            c == cmds@[self.pos_spec()],
    {
        cmds[self.pos]
    }

    /// Advance on the echo of one command: a matching echo moves to the
    /// next word (`Done` once all have been echoed); a mismatch restarts
    /// the whole sequence and burns one unit of the retry budget, and
    /// spending more than the budget gives the core up (`Failed`).
    pub fn on_response(&mut self, cmds: &Vec<usize>, response: usize) -> (st: HandshakeStatus)
        requires
            old(self).inv(),
            cmds@.len() == COMMAND_COUNT,
            old(self).pos_spec() < COMMAND_COUNT,
        ensures
            final(self).inv(),
            response == cmds@[old(self).pos_spec()] ==> {
                &&& final(self).pos_spec() == old(self).pos_spec() + 1
                &&& final(self).fails_spec() == old(self).fails_spec()
                &&& st == (if old(self).pos_spec() + 1 == COMMAND_COUNT {
                    HandshakeStatus::Done
                } else {
                    HandshakeStatus::Sending
                })
            },
            response != cmds@[old(self).pos_spec()] ==> {
                &&& final(self).pos_spec() == 0
                &&& st == (if old(self).fails_spec() == FAIL_BUDGET {
                    HandshakeStatus::Failed
                } else {
                    HandshakeStatus::Sending
                })
                &&& final(self).fails_spec() == (if old(self).fails_spec() == FAIL_BUDGET {
                    old(self).fails_spec()
                } else {
                    old(self).fails_spec() + 1
                })
            },
    {
        let cmd = cmds[self.pos];
        if cmd == response {
            self.pos += 1;
            if self.pos == COMMAND_COUNT {
                HandshakeStatus::Done
            } else {
                HandshakeStatus::Sending
            }
        } else {
            self.pos = 0;
            if self.fails == FAIL_BUDGET {
                HandshakeStatus::Failed
            } else {
                self.fails += 1;
                HandshakeStatus::Sending
            }
        }
    }
}

/// How a finite run of exchanges can end.
#[derive(Clone, Copy, Debug, PartialEq, Eq, Structural)]
pub enum DriveOutcome {
    /// All six commands were echoed: the handoff succeeded.
    Launched,
    /// More than `FAIL_BUDGET` mismatches: the second core is unresponsive.
    Unresponsive,
    /// The supplied responses ran out before either end was reached.
    Stalled,
}

/// The handshake's outcome over a given response trace, from `pos`
/// through the sequence with `fails` mismatches already seen.
pub open spec fn drive_spec(cmds: Seq<usize>, responses: Seq<usize>, pos: int, fails: int) -> DriveOutcome
    decreases responses.len(),
{
    if pos >= cmds.len() {
        DriveOutcome::Launched
    } else if responses.len() == 0 {
        DriveOutcome::Stalled
    } else if responses.first() == cmds[pos] {
        drive_spec(cmds, responses.drop_first(), pos + 1, fails)
    } else if fails >= FAIL_BUDGET {
        DriveOutcome::Unresponsive
    } else {
        drive_spec(cmds, responses.drop_first(), 0, fails + 1)
    }
}

/// Run the handshake against a trace of responses, one per exchange —
/// the echoes the second core would produce, in order. The outcome is
/// exactly what `drive_spec` says of the trace.
pub fn run_handshake(cmds: &Vec<usize>, responses: &Vec<usize>) -> (r: DriveOutcome)
    requires
        cmds@.len() == COMMAND_COUNT,
    ensures
        r == drive_spec(cmds@, responses@, 0, 0),
{
    let mut hs = Handshake::new();
    let mut i: usize = 0;
    proof {
        assert(responses@.skip(0) =~= responses@);
    }
    loop
        invariant
            hs.inv(),
            cmds@.len() == COMMAND_COUNT,
            hs.pos_spec() < COMMAND_COUNT,
            0 <= i <= responses@.len(),
            drive_spec(cmds@, responses@.skip(i as int), hs.pos_spec(), hs.fails_spec())
                == drive_spec(cmds@, responses@, 0, 0),
        decreases responses@.len() - i,
    {
        if i == responses.len() {
            return DriveOutcome::Stalled;
        }
        let response = responses[i];
        let st = hs.on_response(cmds, response);
        proof {
            assert(responses@.skip(i as int).first() == responses@[i as int]);
            assert(responses@.skip(i as int).drop_first() =~= responses@.skip(i as int + 1));
        }
        i += 1;
        match st {
            HandshakeStatus::Done => {
                return DriveOutcome::Launched;
            },
            HandshakeStatus::Failed => {
                return DriveOutcome::Unresponsive;
            },
            HandshakeStatus::Sending => {},
        }
    }
}

/// What a bootstrap attempt came to. On anything but a launch the
/// caller-supplied entry value comes back, so it is reclaimed, never
/// leaked; the caller then halts by its fault path, since a second core
/// that cannot be brought up leaves the system half-initialized.
pub enum BootAttempt<T> {
    /// The second core took the entry point; it now owns the closure.
    Launched,
    /// The retry budget was spent; the entry value is handed back.
    Unresponsive(T),
    /// The response trace ran out; the entry value is handed back.
    Stalled(T),
}

/// Bring up the second core to run `entry`: stage the entry's address
/// and the stack bottom on the boot stack, build the six-word command
/// sequence over the staged stack pointer, and drive the handshake
/// against the response trace. On a launch the entry moves to the other
/// core; otherwise it is returned for explicit disposal.
pub fn spawn<T>(
    entry: T,
    entry_addr: usize,
    bottom_addr: usize,
    stack: &mut Stack,
    vector_table: usize,
    trampoline: usize,
    responses: &Vec<usize>,
) -> (r: BootAttempt<T>)
    requires
        old(stack).mem@.len() >= 2,
    ensures
        final(stack).mem@ == old(stack).mem@
            .update(old(stack).mem@.len() - 1, bottom_addr)
            .update(old(stack).mem@.len() - 2, entry_addr),
        ({
            let outcome = drive_spec(
                command_sequence_spec(
                    vector_table,
                    (old(stack).mem@.len() - 2) as usize,
                    trampoline,
                ),
                responses@,
                0,
                0,
            );
            match r {
                BootAttempt::Launched => outcome == DriveOutcome::Launched,
                BootAttempt::Unresponsive(e) => outcome == DriveOutcome::Unresponsive
                    && e == entry,
                BootAttempt::Stalled(e) => outcome == DriveOutcome::Stalled && e == entry,
            }
        }),
{
    let sp = stack.stage_arguments(entry_addr, bottom_addr);
    let cmds = command_sequence(vector_table, sp, trampoline);
    let outcome = run_handshake(&cmds, responses);
    match outcome {
        DriveOutcome::Launched => BootAttempt::Launched,
        DriveOutcome::Unresponsive => BootAttempt::Unresponsive(entry),
        DriveOutcome::Stalled => BootAttempt::Stalled(entry),
    }
}

} // verus!
