//! Snapshot cells. A reader borrows the published value; a writer publishes
//! a whole new value and receives the one it replaced, which it hands to the
//! reclamation manager. Rust's borrows guarantee that no reader still holds
//! the replaced value.

use vstd::prelude::*;

verus! {

/// A cell that publishes one value at a time.
pub struct RcuCell<T> {
    current: Box<T>,
}

impl<T> View for RcuCell<T> {
    type V = T;

    closed spec fn view(&self) -> T {
        *self.current
    }
}

/// Two cells publishing the same value are the same cell value.
pub proof fn lemma_same_value<T>(a: RcuCell<T>, b: RcuCell<T>)
    requires
        a@ == b@,
    ensures
        a == b,
{
}

/// A cell publishing `val`.
pub fn new_atomic_ptr<T>(val: T) -> (c: RcuCell<T>)
    ensures
        c@ == val,
{
    RcuCell { current: Box::new(val) }
}

/// A cell publishing the boxed value.
pub fn new_atomic_ptr_from_box<T>(b: Box<T>) -> (c: RcuCell<T>)
    ensures
        c@ == *b,
{
    RcuCell { current: b }
}

/// The published value.
pub fn load_ref<T>(cell: &RcuCell<T>) -> (r: &T)
    ensures
        *r == cell@,
{
    &*cell.current
}

/// A clone of the published value.
pub fn load_clone<T: Clone>(cell: &RcuCell<T>) -> (r: T)
    ensures
        cloned::<T>(cell@, r),
{
    load_ref(cell).clone()
}

/// Publishes `val` and returns the value it replaces.
pub fn swap_ptr<T>(cell: &mut RcuCell<T>, val: T) -> (r: T)
    ensures
        final(cell)@ == val,
        r == old(cell)@,
{
    let mut b = Box::new(val);
    std::mem::swap(&mut cell.current, &mut b);
    *b
}

/// Publishes the boxed value and returns the box it replaces.
pub fn swap_ptr_with_box<T>(cell: &mut RcuCell<T>, b: Box<T>) -> (r: Box<T>)
    ensures
        final(cell)@ == *b,
        *r == old(cell)@,
{
    let mut b = b;
    std::mem::swap(&mut cell.current, &mut b);
    b
}

/// A record that something published at `epoch` was retired.
pub struct GarbageEntry {
    pub epoch: usize,
}

impl GarbageEntry {
    /// Retires `retired`, which was replaced while the global epoch was `epoch`.
    /// The value is released here: the borrow checker has already proved that
    /// no reader can reach it; the record keeps the epoch bookkeeping.
    pub fn new<T>(retired: T, epoch: usize) -> (g: GarbageEntry)
        ensures
            g.epoch == epoch,
    {
        GarbageEntry { epoch }
    }
}

} // verus!
