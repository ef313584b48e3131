//! Concurrency primitives: the hardware spinlock bank, a lock-guarded
//! cell, and a manually reference-counted shared cell.
//!
//! The hardware bank of one-bit mutual-exclusion registers is modelled
//! by [`SpinRegs`]; acquiring and releasing a lock are state transitions
//! on it. On the real device an acquire busy-waits until the register
//! reads as free; here that shows up as the precondition that the
//! register is free — acquiring a register this context already holds
//! would never return (the documented deadlock hazard), so it is ruled
//! out by contract.

use vstd::prelude::*;

verus! {

/// Model of the bank of 32 hardware mutual-exclusion registers.
///
/// `is_held(i)` is true while some context owns register `i`.
pub struct SpinRegs {
    held: Vec<bool>,
}

impl SpinRegs {
    pub closed spec fn wf(&self) -> bool {
        self.held@.len() == crate::SPINLOCK_COUNT
    }

    pub closed spec fn is_held(&self, i: int) -> bool {
        self.held@[i]
    }

    /// A fresh bank: every register reads as free.
    pub fn new() -> (r: SpinRegs)
        ensures
            r.wf(),
            forall|i: int| 0 <= i < crate::SPINLOCK_COUNT ==> !r.is_held(i),
    {
        let mut held: Vec<bool> = Vec::new();
        let mut k: usize = 0;
        while k < crate::SPINLOCK_COUNT
            invariant
                k <= crate::SPINLOCK_COUNT,
                held@.len() == k,
                forall|i: int| 0 <= i < k ==> !held@[i],
            decreases crate::SPINLOCK_COUNT - k,
        {
            held.push(false);
            k += 1;
        }
        SpinRegs { held }
    }

    /// Read one register's state (for harnesses that record critical sections).
    pub fn check_held(&self, i: usize) -> (r: bool)
        requires
            self.wf(),
            i < crate::SPINLOCK_COUNT,
        ensures
            r == self.is_held(i as int),
    {
        self.held[i]
    }
}

/// One of the 32 hardware mutual-exclusion registers, by index.
///
/// Two values constructed with the same index stand for the same
/// physical lock.
pub struct SpinLock {
    index: usize,
}

impl SpinLock {
    pub closed spec fn inv(&self) -> bool {
        self.index < crate::SPINLOCK_COUNT
    }

    pub closed spec fn index_spec(&self) -> int {
        self.index as int
    }

    /// Indices above 31 name no hardware register.
    pub fn new(index: usize) -> (r: SpinLock)
        requires
            index <= 31,
        ensures
            r.inv(),
            r.index_spec() == index,
    {
        SpinLock { index }
    }

    /// Acquire the register. On hardware this busy-waits until the
    /// register reads as free; re-acquiring a register this context
    /// already holds would spin forever, so the contract demands it free.
    pub fn lock(&self, regs: &mut SpinRegs)
        requires
            self.inv(),
            old(regs).wf(),
            !old(regs).is_held(self.index_spec()),
        ensures
            final(regs).wf(),
            final(regs).is_held(self.index_spec()),
            forall|j: int|
                0 <= j < crate::SPINLOCK_COUNT && j != self.index_spec()
                    ==> final(regs).is_held(j) == old(regs).is_held(j),
    {
        regs.held[self.index] = true;
    }

    /// Release the register by the sentinel write; any write frees it.
    pub fn unlock(&self, regs: &mut SpinRegs)
        requires
            self.inv(),
            old(regs).wf(),
            old(regs).is_held(self.index_spec()),
        ensures
            final(regs).wf(),
            !final(regs).is_held(self.index_spec()),
            forall|j: int|
                0 <= j < crate::SPINLOCK_COUNT && j != self.index_spec()
                    ==> final(regs).is_held(j) == old(regs).is_held(j),
    {
        regs.held[self.index] = false;
    }
}

/// A value paired with the hardware lock that guards it: the software
/// mutex. The value is reachable only while the lock is held, which the
/// access methods demand by contract; the critical section ends with an
/// explicit `unlock` on every path.
pub struct Mutex<T> {
    lock: SpinLock,
    data: T,
}

impl<T> Mutex<T> {
    pub closed spec fn inv(&self) -> bool {
        self.lock.inv()
    }

    pub closed spec fn index_spec(&self) -> int {
        self.lock.index_spec()
    }

    pub closed spec fn data_spec(&self) -> T {
        self.data
    }

    pub fn new(index: usize, data: T) -> (r: Mutex<T>)
        requires
            index <= 31,
        ensures
            r.inv(),
            r.index_spec() == index,
            r.data_spec() == data,
    {
        Mutex { lock: SpinLock::new(index), data }
    }

    /// Acquire the guarding register (busy-waiting on hardware).
    pub fn lock(&self, regs: &mut SpinRegs)
        requires
            self.inv(),
            old(regs).wf(),
            !old(regs).is_held(self.index_spec()),
        ensures
            final(regs).wf(),
            final(regs).is_held(self.index_spec()),
            forall|j: int|
                0 <= j < crate::SPINLOCK_COUNT && j != self.index_spec()
                    ==> final(regs).is_held(j) == old(regs).is_held(j),
    {
        self.lock.lock(regs);
    }

    /// Release the guarding register.
    pub fn unlock(&self, regs: &mut SpinRegs)
        requires
            self.inv(),
            old(regs).wf(),
            old(regs).is_held(self.index_spec()),
        ensures
            final(regs).wf(),
            !final(regs).is_held(self.index_spec()),
            forall|j: int|
                0 <= j < crate::SPINLOCK_COUNT && j != self.index_spec()
                    ==> final(regs).is_held(j) == old(regs).is_held(j),
    {
        self.lock.unlock(regs);
    }

    /// Read the protected value; only a holder of the lock may.
    pub fn borrow<'a>(&'a self, regs: &SpinRegs) -> (r: &'a T)
        requires
            self.inv(),
            regs.wf(),
            regs.is_held(self.index_spec()),
        ensures
            *r == self.data_spec(),
    {
        &self.data
    }

    /// Exchange the protected value; only a holder of the lock may.
    pub fn replace(&mut self, regs: &SpinRegs, value: T) -> (r: T)
        requires
            old(self).inv(),
            regs.wf(),
            regs.is_held(old(self).index_spec()),
        ensures
            final(self).inv(),
            final(self).index_spec() == old(self).index_spec(),
            r == old(self).data_spec(),
            final(self).data_spec() == value,
    {
        let mut value = value;
        core::mem::swap(&mut self.data, &mut value);
        value
    }
}

/// The backing store of the manually counted shared cells: each slot is
/// one heap allocation holding a value and its lock-guarded reference
/// count. All counts share one hardware lock, as the device does.
///
/// A slot is live while its count is at least one; the decrement that
/// takes the count to zero frees the value, and a freed slot is never
/// touched again through any handle.
pub struct RcHeap<T> {
    lock: SpinLock,
    counts: Vec<usize>,
    values: Vec<Option<T>>,
}

/// A shared-ownership handle: one loan on a slot of an [`RcHeap`].
///
/// `to_raw` and `from_raw` convert a handle to and from a bare word
/// without touching the count: the loan conceptually travels with the
/// raw form, and the caller must balance every `to_raw` with exactly one
/// `from_raw` before the loan is released.
pub struct Arc {
    slot: usize,
}

impl<T> RcHeap<T> {
    pub closed spec fn inv(&self) -> bool {
        &&& self.lock.inv()
        &&& self.counts@.len() == self.values@.len()
        &&& forall|i: int|
            0 <= i < self.counts@.len()
                ==> ((self.counts@[i] == 0) <==> self.values@[i] is None)
    }

    pub closed spec fn lock_index(&self) -> int {
        self.lock.index_spec()
    }

    pub closed spec fn len_spec(&self) -> int {
        self.counts@.len() as int
    }

    pub closed spec fn count_of(&self, i: int) -> int {
        self.counts@[i] as int
    }

    pub closed spec fn value_of(&self, i: int) -> Option<T> {
        self.values@[i]
    }

    /// A slot that some handle still owns a loan on.
    pub open spec fn live(&self, i: int) -> bool {
        0 <= i < self.len_spec() && self.count_of(i) >= 1
    }

    /// Read one slot's reference count (zero once freed).
    pub fn count(&self, i: usize) -> (c: usize)
        requires
            self.inv(),
            i < self.len_spec(),
        ensures
            c == self.count_of(i as int),
    {
        self.counts[i]
    }

    /// How many slots were ever allocated.
    pub fn len(&self) -> (n: usize)
        requires
            self.inv(),
        ensures
            n == self.len_spec(),
    {
        self.counts.len()
    }

    /// An empty store whose counts are guarded by lock `index`.
    pub fn new(index: usize) -> (r: RcHeap<T>)
        requires
            index <= 31,
        ensures
            r.inv(),
            r.lock_index() == index,
            r.len_spec() == 0,
    {
        RcHeap { lock: SpinLock::new(index), counts: Vec::new(), values: Vec::new() }
    }
}

impl Arc {
    pub closed spec fn slot_spec(&self) -> int {
        self.slot as int
    }

    /// Allocate a fresh slot with count one and hand back its first loan.
    pub fn new<T>(heap: &mut RcHeap<T>, data: T) -> (a: Arc)
        requires
            old(heap).inv(),
        ensures
            final(heap).inv(),
            final(heap).lock_index() == old(heap).lock_index(),
            final(heap).len_spec() == old(heap).len_spec() + 1,
            a.slot_spec() == old(heap).len_spec(),
            final(heap).count_of(a.slot_spec()) == 1,
            final(heap).value_of(a.slot_spec()) == Some(data),
            forall|i: int|
                0 <= i < old(heap).len_spec()
                    ==> final(heap).count_of(i) == old(heap).count_of(i)
                        && final(heap).value_of(i) == old(heap).value_of(i),
    {
        let slot = heap.counts.len();
        heap.counts.push(1);
        heap.values.push(Some(data));
        Arc { slot }
    }

    /// Take another loan: increment the count under its lock and return
    /// a second handle aliasing the same slot.
    pub fn clone_ref<T>(&self, heap: &mut RcHeap<T>, regs: &mut SpinRegs) -> (a: Arc)
        requires
            old(heap).inv(),
            old(heap).live(self.slot_spec()),
            old(heap).count_of(self.slot_spec()) < usize::MAX,
            old(regs).wf(),
            !old(regs).is_held(old(heap).lock_index()),
        ensures
            final(heap).inv(),
            final(heap).lock_index() == old(heap).lock_index(),
            final(heap).len_spec() == old(heap).len_spec(),
            a.slot_spec() == self.slot_spec(),
            final(heap).count_of(self.slot_spec()) == old(heap).count_of(self.slot_spec()) + 1,
            forall|i: int|
                0 <= i < old(heap).len_spec() && i != self.slot_spec()
                    ==> final(heap).count_of(i) == old(heap).count_of(i),
            forall|i: int|
                0 <= i < old(heap).len_spec()
                    ==> final(heap).value_of(i) == old(heap).value_of(i),
            final(regs).wf(),
            forall|j: int|
                0 <= j < crate::SPINLOCK_COUNT
                    ==> final(regs).is_held(j) == old(regs).is_held(j),
    {
        heap.lock.lock(regs);
        let c = heap.counts[self.slot];
        heap.counts[self.slot] = c + 1;
        heap.lock.unlock(regs);
        Arc { slot: self.slot }
    }

    /// Release one loan: decrement the count under its lock, and free
    /// the value exactly when the count reaches zero.
    pub fn release<T>(self, heap: &mut RcHeap<T>, regs: &mut SpinRegs)
        requires
            old(heap).inv(),
            old(heap).live(self.slot_spec()),
            old(regs).wf(),
            !old(regs).is_held(old(heap).lock_index()),
        ensures
            final(heap).inv(),
            final(heap).lock_index() == old(heap).lock_index(),
            final(heap).len_spec() == old(heap).len_spec(),
            final(heap).count_of(self.slot_spec()) == old(heap).count_of(self.slot_spec()) - 1,
            old(heap).count_of(self.slot_spec()) > 1
                ==> final(heap).value_of(self.slot_spec()) == old(heap).value_of(self.slot_spec()),
            old(heap).count_of(self.slot_spec()) == 1
                ==> final(heap).value_of(self.slot_spec()) is None,
            forall|i: int|
                0 <= i < old(heap).len_spec() && i != self.slot_spec()
                    ==> final(heap).count_of(i) == old(heap).count_of(i)
                        && final(heap).value_of(i) == old(heap).value_of(i),
            final(regs).wf(),
            forall|j: int|
                0 <= j < crate::SPINLOCK_COUNT
                    ==> final(regs).is_held(j) == old(regs).is_held(j),
    {
        heap.lock.lock(regs);
        let c = heap.counts[self.slot];
        heap.counts[self.slot] = c - 1;
        if c == 1 {
            heap.values[self.slot] = None;
        }
        heap.lock.unlock(regs);
    }

    /// Read the shared value through a live handle.
    pub fn get<'a, T>(&self, heap: &'a RcHeap<T>) -> (r: &'a T)
        requires
            heap.inv(),
            heap.live(self.slot_spec()),
        ensures
            heap.value_of(self.slot_spec()) == Some(*r),
    {
        heap.values[self.slot].as_ref().unwrap()
    }

    /// Consume the handle into a bare word without touching the count;
    /// the loan travels with the word.
    pub fn to_raw(self) -> (r: usize)
        ensures
            r == self.slot_spec(),
    {
        self.slot
    }

    /// Rebuild a handle from a bare word without touching the count.
    /// The caller must present a word from a matching `to_raw` whose
    /// loan is still outstanding, and must not duplicate it.
    pub fn from_raw(raw: usize) -> (a: Arc)
        ensures
            a.slot_spec() == raw,
    {
        Arc { slot: raw }
    }
}

/// One step of a shared cell's life after construction: taking another
/// loan (a clone) or releasing one (a drop).
pub enum RcOp {
    Retain,
    Release,
}

/// The count after `new` followed by the operations of `t`.
pub open spec fn rc_count(t: Seq<RcOp>) -> int
    decreases t.len(),
{
    if t.len() == 0 {
        1
    } else {
        rc_count(t.drop_last()) + match t.last() {
            RcOp::Retain => 1int,
            RcOp::Release => -1int,
        }
    }
}

/// How many loans `t` takes.
pub open spec fn rc_retains(t: Seq<RcOp>) -> int
    decreases t.len(),
{
    if t.len() == 0 {
        0
    } else {
        rc_retains(t.drop_last()) + match t.last() {
            RcOp::Retain => 1int,
            RcOp::Release => 0int,
        }
    }
}

/// How many loans `t` releases.
pub open spec fn rc_releases(t: Seq<RcOp>) -> int
    decreases t.len(),
{
    if t.len() == 0 {
        0
    } else {
        rc_releases(t.drop_last()) + match t.last() {
            RcOp::Retain => 0int,
            RcOp::Release => 1int,
        }
    }
}

/// A trace is valid when every operation happens on a still-live cell —
/// exactly what the contracts of `clone_ref` and `release` demand.
pub open spec fn rc_valid(t: Seq<RcOp>) -> bool {
    forall|k: int| 0 <= k < t.len() ==> rc_count(#[trigger] t.take(k)) >= 1
}

proof fn lemma_rc_count_formula(t: Seq<RcOp>)
    ensures
        rc_count(t) == 1 + rc_retains(t) - rc_releases(t),
    decreases t.len(),
{
    if t.len() > 0 {
        lemma_rc_count_formula(t.drop_last());
    }
}

/// Reference counting law: over any valid sequence of clones and drops
/// on one shared cell, the count is one plus the clones minus the drops;
/// the backing value is freed (count zero) exactly when the drops come
/// to one more than the clones; and before every operation of the trace
/// the cell is still live, so the free can only fall at the very end —
/// it happens at most once and never before the last release.
pub proof fn lemma_refcount(t: Seq<RcOp>)
    requires
        rc_valid(t),
    ensures
        rc_count(t) == 1 + rc_retains(t) - rc_releases(t),
        (rc_count(t) == 0) <==> (rc_releases(t) == rc_retains(t) + 1),
        forall|k: int| 0 <= k < t.len() ==> rc_count(#[trigger] t.take(k)) >= 1,
{
    lemma_rc_count_formula(t);
}

/// One event on the hardware lock bank: acquiring or releasing a register.
pub enum LockEvent {
    Acquire(int),
    Free(int),
}

/// Whether register `i` is held after the events of `t` (all free at start).
pub open spec fn lock_held_after(t: Seq<LockEvent>, i: int) -> bool
    decreases t.len(),
{
    if t.len() == 0 {
        false
    } else {
        match t.last() {
            LockEvent::Acquire(j) => j == i || lock_held_after(t.drop_last(), i),
            LockEvent::Free(j) => j != i && lock_held_after(t.drop_last(), i),
        }
    }
}

/// A trace is valid when every acquire finds its register free and every
/// release holds it — exactly what `SpinLock::lock` and `SpinLock::unlock`
/// demand.
pub open spec fn lock_trace_valid(t: Seq<LockEvent>) -> bool {
    forall|k: int|
        0 <= k < t.len() ==> match #[trigger] t[k] {
            LockEvent::Acquire(i) => !lock_held_after(t.take(k), i),
            LockEvent::Free(i) => lock_held_after(t.take(k), i),
        }
}

proof fn lemma_held_change_has_free(t: Seq<LockEvent>, a: int, b: int, i: int)
    requires
        0 <= a <= b <= t.len(),
        lock_held_after(t.take(a), i),
        !lock_held_after(t.take(b), i),
    ensures
        exists|m: int| a <= m < b && t[m] == LockEvent::Free(i),
    decreases b - a,
{
    assert(a < b);
    assert(t.take(b).drop_last() =~= t.take(b - 1));
    if lock_held_after(t.take(b - 1), i) {
        match t.take(b).last() {
            LockEvent::Acquire(j) => {
                assert(lock_held_after(t.take(b), i));
            },
            LockEvent::Free(j) => {
                assert(j == i);
                assert(t[b - 1] == LockEvent::Free(i));
            },
        }
    } else {
        lemma_held_change_has_free(t, a, b - 1, i);
    }
}

/// Lock exclusivity law: in any valid trace, between two acquisitions of
/// the same register stands a release of it — so two critical sections
/// on one lock index never overlap.
pub proof fn lemma_lock_exclusive(t: Seq<LockEvent>, k1: int, k2: int, i: int)
    requires
        lock_trace_valid(t),
        0 <= k1 < k2 < t.len(),
        t[k1] == LockEvent::Acquire(i),
        t[k2] == LockEvent::Acquire(i),
    ensures
        exists|m: int| k1 < m < k2 && t[m] == LockEvent::Free(i),
{
    assert(t.take(k1 + 1).drop_last() =~= t.take(k1));
    assert(t.take(k1 + 1).last() == t[k1]);
    assert(lock_held_after(t.take(k1 + 1), i));
    assert(!lock_held_after(t.take(k2), i));
    lemma_held_change_has_free(t, k1 + 1, k2, i);
    let m = choose|m: int| k1 + 1 <= m < k2 && t[m] == LockEvent::Free(i);
    assert(k1 < m < k2 && t[m] == LockEvent::Free(i));
}

} // verus!

