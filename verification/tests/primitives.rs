//! Exercises the spinlock bank, the software mutex, and the manually
//! reference-counted shared cell.

use minirt::sync::{Arc, Mutex, RcHeap, SpinLock, SpinRegs};

#[test]
fn spinlock_acquire_and_release() {
    let mut regs = SpinRegs::new();
    let lock = SpinLock::new(4);
    assert!(!regs.check_held(4));
    lock.lock(&mut regs);
    assert!(regs.check_held(4));
    assert!(!regs.check_held(5));
    lock.unlock(&mut regs);
    assert!(!regs.check_held(4));
}

#[test]
fn lock_exclusivity_sections_do_not_overlap() {
    // Record enter/exit of two critical sections on one index: the
    // second section can only begin after the first released.
    let mut regs = SpinRegs::new();
    let lock = SpinLock::new(7);
    lock.lock(&mut regs);
    let first_holds = regs.check_held(7);
    lock.unlock(&mut regs);
    let between = regs.check_held(7);
    lock.lock(&mut regs);
    let second_holds = regs.check_held(7);
    lock.unlock(&mut regs);
    assert!(first_holds && !between && second_holds);
}

#[test]
fn mutex_guards_its_value() {
    let mut regs = SpinRegs::new();
    let mut cell: Mutex<u64> = Mutex::new(3, 10);
    cell.lock(&mut regs);
    assert!(regs.check_held(3));
    assert_eq!(*cell.borrow(&regs), 10);
    let old = cell.replace(&regs, 11);
    assert_eq!(old, 10);
    assert_eq!(*cell.borrow(&regs), 11);
    cell.unlock(&mut regs);
    assert!(!regs.check_held(3));
}

#[test]
fn refcount_frees_exactly_at_last_release() {
    // One construction plus two clones is freed by exactly three drops.
    let mut regs = SpinRegs::new();
    let mut heap: RcHeap<u64> = RcHeap::new(6);
    let a = Arc::new(&mut heap, 99);
    let a_slot = a.to_raw();
    let a = Arc::from_raw(a_slot);
    let b = a.clone_ref(&mut heap, &mut regs);
    let c = a.clone_ref(&mut heap, &mut regs);
    assert_eq!(heap.count(a_slot), 3);
    assert_eq!(*b.get(&heap), 99);
    b.release(&mut heap, &mut regs);
    assert_eq!(heap.count(a_slot), 2);
    c.release(&mut heap, &mut regs);
    assert_eq!(heap.count(a_slot), 1);
    assert_eq!(*a.get(&heap), 99);
    a.release(&mut heap, &mut regs);
    assert_eq!(heap.count(a_slot), 0);
}

#[test]
fn raw_round_trip_leaves_count_alone() {
    let mut regs = SpinRegs::new();
    let mut heap: RcHeap<u64> = RcHeap::new(6);
    let a = Arc::new(&mut heap, 7);
    let raw = a.to_raw();
    assert_eq!(heap.count(raw), 1);
    let back = Arc::from_raw(raw);
    assert_eq!(heap.count(raw), 1);
    assert_eq!(*back.get(&heap), 7);
    back.release(&mut heap, &mut regs);
    assert_eq!(heap.count(raw), 0);
}

#[test]
fn two_cells_count_independently() {
    let mut regs = SpinRegs::new();
    let mut heap: RcHeap<u64> = RcHeap::new(6);
    let a = Arc::new(&mut heap, 1);
    let b = Arc::new(&mut heap, 2);
    assert_eq!(heap.len(), 2);
    let b2 = b.clone_ref(&mut heap, &mut regs);
    let a_slot = a.to_raw();
    let b_slot = b2.to_raw();
    assert_eq!(heap.count(a_slot), 1);
    assert_eq!(heap.count(b_slot), 2);
    Arc::from_raw(a_slot).release(&mut heap, &mut regs);
    assert_eq!(heap.count(a_slot), 0);
    assert_eq!(heap.count(b_slot), 2);
    b.release(&mut heap, &mut regs);
    Arc::from_raw(b_slot).release(&mut heap, &mut regs);
    assert_eq!(heap.count(b_slot), 0);
}
