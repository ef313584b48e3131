//! A minimal cooperative task runtime for a dual-core microcontroller,
//! modelled and verified over plain values.
//!
//! The library is split along the runtime's own seams:
//! - `sync`: the hardware spinlock bank, a lock-guarded cell, and a
//!   manually reference-counted shared cell;
//! - `executor`: the ready queue, task state machines, wake handles and
//!   task handles, and the `tick` entry point;
//! - `reactor`: the interrupt-line to wake-handle dispatch table;
//! - `jumpstart`: the second-core bootstrap protocol — stack layout,
//!   memory-protection guard computation, and the mailbox handshake.
//!
//! All hardware access (register reads and writes, busy-waits) lives
//! outside the library; the library holds the decisions and the state
//! transitions, each with a contract.

pub mod executor;
pub mod jumpstart;
pub mod reactor;
pub mod sync;

use vstd::prelude::*;

verus! {

/// Number of hardware spinlock registers in the bank.
pub const SPINLOCK_COUNT: usize = 32;

} // verus!
