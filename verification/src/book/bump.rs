//! The order store: append-only, index-addressed storage with a fixed capacity.

use vstd::prelude::*;

verus! {

/// Raised when a store is asked to hold more records than it was sized for.
#[derive(Clone, Copy, Debug, PartialEq, Eq)]
pub struct CapacityError;

/// An append-only store. Records are addressed by the index that `write`
/// returned; no record is reclaimed on its own, only all of them by `clear`.
pub struct BumpAllocator<T> {
    arena: Vec<T>,
    capacity: usize,
}

impl<T> View for BumpAllocator<T> {
    type V = Seq<T>;

    /// The records written so far, in the order of their indices.
    closed spec fn view(&self) -> Seq<T> {
        self.arena@
    }
}

impl<T> BumpAllocator<T> {
    /// The number of records the store was sized for.
    pub closed spec fn cap(&self) -> nat {
        self.capacity as nat
    }

    /// Occupancy never exceeds the capacity.
    pub closed spec fn wf(&self) -> bool {
        self.arena@.len() <= self.capacity
    }

    /// An empty store with room for `cap` records.
    pub fn with_capacity(cap: usize) -> (store: Self)
        ensures
            store.wf(),
            store@ == Seq::<T>::empty(),
            store.cap() == cap,
    {
        BumpAllocator { arena: Vec::with_capacity(cap), capacity: cap }
    }

    /// Whether the store has no room for another record.
    pub fn is_full(&self) -> (full: bool)
        requires
            self.wf(),
        ensures
            full == (self@.len() == self.cap()),
            self@.len() <= self.cap(),
    {
        self.arena.len() == self.capacity
    }

    /// The number of records written since the last `clear`.
    pub fn len(&self) -> (n: usize)
        ensures
            n == self@.len(),
    {
        self.arena.len()
    }

    /// Appends `data` at the next free index, or reports that the store is full.
    pub fn write(&mut self, data: T) -> (r: Result<usize, CapacityError>)
        requires
            old(self).wf(),
        ensures
            final(self).wf(),
            final(self).cap() == old(self).cap(),
            old(self)@.len() < old(self).cap() ==> r == Ok::<usize, CapacityError>(old(self)@.len() as usize)
                && final(self)@ == old(self)@.push(data),
            old(self)@.len() >= old(self).cap() ==> r is Err && final(self)@ == old(self)@,
    {
        if self.arena.len() >= self.capacity {
            return Err(CapacityError);
        }
        let idx = self.arena.len();
        self.arena.push(data);
        Ok(idx)
    }

    /// Mutable access to the record at `idx`.
    pub fn get(&mut self, idx: usize) -> (rec: &mut T)
        requires
            idx < old(self)@.len(),
        ensures
            *rec == old(self)@[idx as int],
            final(self)@ == old(self)@.update(idx as int, *final(rec)),
            final(self).cap() == old(self).cap(),
            final(self).wf() == old(self).wf(),
    {
        &mut self.arena[idx]
    }

    /// Replaces the record at `idx`.
    pub fn set(&mut self, idx: usize, data: T)
        requires
            idx < old(self)@.len(),
        ensures
            final(self)@ == old(self)@.update(idx as int, data),
            final(self).cap() == old(self).cap(),
            final(self).wf() == old(self).wf(),
    {
        self.arena.set(idx, data);
    }

    /// Shared access to the record at `idx`.
    pub fn peek(&self, idx: usize) -> (rec: &T)
        requires
            idx < self@.len(),
        ensures
            *rec == self@[idx as int],
    {
        &self.arena[idx]
    }

    /// Forgets every record at once; all indices handed out before are invalid.
    pub fn clear(&mut self)
        ensures
            final(self)@ == Seq::<T>::empty(),
            final(self).cap() == old(self).cap(),
            final(self).wf(),
    {
        self.arena.clear();
    }
}

} // verus!
