//! The level store: index-addressed storage whose freed slots are reused.

use vstd::prelude::*;
use crate::book::bump::CapacityError;

verus! {

/// Index-addressed storage with individual allocation and release of slots.
///
/// A slot is *allocated* from the `allocate` that handed it out until the `free`
/// that returns it. Its content is whatever `set` last wrote there.
pub trait MemArena<T>: Sized {
    /// The arena's own bookkeeping is consistent.
    spec fn wf(&self) -> bool;

    /// The number of slots the arena was sized for.
    spec fn capacity(&self) -> nat;

    /// The number of slots that are currently allocated.
    spec fn occupied(&self) -> nat;

    /// Whether slot `idx` is currently allocated.
    spec fn is_allocated(&self, idx: int) -> bool;

    /// What slot `idx` holds; `None` until the first `set`.
    spec fn content(&self, idx: int) -> Option<T>;

    /// An arena with room for `capacity` slots, none of them allocated.
    fn with_capacity(capacity: usize) -> (arena: Self)
        ensures
            arena.wf(),
            arena.capacity() == capacity,
            arena.occupied() == 0,
            forall|i: int| !arena.is_allocated(i),
    ;

    /// Hands out a slot, or reports that every slot is taken.
    fn allocate(&mut self) -> (r: Result<usize, CapacityError>)
        requires
            old(self).wf(),
        ensures
            final(self).wf(),
            final(self).capacity() == old(self).capacity(),
            r is Ok <==> old(self).occupied() < old(self).capacity(),
            r is Err ==> *final(self) == *old(self),
            r matches Ok(idx) ==> {
                &&& !old(self).is_allocated(idx as int)
                &&& final(self).is_allocated(idx as int)
                &&& final(self).occupied() == old(self).occupied() + 1
                &&& forall|i: int| i != idx ==> final(self).is_allocated(i) == old(self).is_allocated(i)
                &&& forall|i: int| old(self).is_allocated(i) ==> final(self).content(i) == old(self).content(i)
            },
    ;

    /// Returns slot `idx` to the arena for reuse.
    fn free(&mut self, idx: usize)
        requires
            old(self).wf(),
            old(self).is_allocated(idx as int),
        ensures
            final(self).wf(),
            final(self).capacity() == old(self).capacity(),
            final(self).occupied() == old(self).occupied() - 1,
            !final(self).is_allocated(idx as int),
            forall|i: int| i != idx ==> final(self).is_allocated(i) == old(self).is_allocated(i),
            forall|i: int| final(self).content(i) == old(self).content(i),
    ;

    /// Writes `data` into the allocated slot `idx`.
    fn set(&mut self, idx: usize, data: T)
        requires
            old(self).wf(),
            old(self).is_allocated(idx as int),
        ensures
            final(self).wf(),
            final(self).capacity() == old(self).capacity(),
            final(self).occupied() == old(self).occupied(),
            final(self).content(idx as int) == Some(data),
            forall|i: int| final(self).is_allocated(i) == old(self).is_allocated(i),
            forall|i: int| i != idx ==> final(self).content(i) == old(self).content(i),
    ;

    /// The number of allocated slots.
    fn len(&self) -> (n: usize)
        ensures
            n == self.occupied(),
    ;

    /// Shared access to what an allocated, written slot holds.
    fn index(&self, idx: usize) -> (data: &T)
        requires
            self.wf(),
            self.is_allocated(idx as int),
            self.content(idx as int) is Some,
        ensures
            Some(*data) == self.content(idx as int),
    ;

    /// Mutable access to what an allocated, written slot holds.
    fn index_mut(&mut self, idx: usize) -> (data: &mut T)
        requires
            old(self).wf(),
            old(self).is_allocated(idx as int),
            old(self).content(idx as int) is Some,
        ensures
            Some(*data) == old(self).content(idx as int),
            final(self).wf(),
            final(self).capacity() == old(self).capacity(),
            final(self).occupied() == old(self).occupied(),
            final(self).content(idx as int) == Some(*final(data)),
            forall|i: int| final(self).is_allocated(i) == old(self).is_allocated(i),
            forall|i: int| i != idx ==> final(self).content(i) == old(self).content(i),
    ;
}

/// Whether `idx` is none of the released indices.
spec fn unreleased(free: Seq<usize>, idx: int) -> bool {
    forall|k: int| 0 <= k < free.len() ==> (#[trigger] free[k]) != idx
}

/// An arena over a growable vector of slots and a stack of released indices.
pub struct BasicArena<T> {
    slots: Vec<Option<T>>,
    free: Vec<usize>,
    size: usize,
    limit: usize,
}

impl<T> BasicArena<T> {
    /// The released indices, most recently released last.
    pub closed spec fn free_list(&self) -> Seq<usize> {
        self.free@
    }

    /// The number of slots that were ever handed out.
    pub closed spec fn grown(&self) -> nat {
        self.slots@.len()
    }

    /// The slot that the next successful `allocate` hands out: the most recently
    /// released one, or else the first one never handed out.
    pub open spec fn next_slot(&self) -> int {
        if self.free_list().len() > 0 {
            self.free_list().last() as int
        } else {
            self.grown() as int
        }
    }

    /// Releases every slot at once and forgets all contents.
    pub fn clear(&mut self)
        ensures
            final(self).wf(),
            final(self).capacity() == old(self).capacity(),
            final(self).occupied() == 0,
            final(self).grown() == 0,
            final(self).free_list() == Seq::<usize>::empty(),
            forall|i: int| !final(self).is_allocated(i),
    {
        self.slots.clear();
        self.free.clear();
        self.size = 0;
    }

    /// The number of slots the arena was sized for.
    pub fn limit(&self) -> (n: usize)
        ensures
            n == self.capacity(),
    {
        self.limit
    }

    /// Whether every slot is allocated.
    pub fn is_full(&self) -> (full: bool)
        requires
            self.wf(),
        ensures
            full == (self.occupied() == self.capacity()),
            self.occupied() <= self.capacity(),
    {
        self.size == self.limit
    }
}

impl<T> MemArena<T> for BasicArena<T> {
    closed spec fn wf(&self) -> bool {
        &&& self.slots@.len() <= self.limit
        &&& self.free@.no_duplicates()
        &&& forall|k: int| 0 <= k < self.free@.len() ==> (#[trigger] self.free@[k]) < self.slots@.len()
        &&& self.size + self.free@.len() == self.slots@.len()
    }

    closed spec fn capacity(&self) -> nat {
        self.limit as nat
    }

    closed spec fn occupied(&self) -> nat {
        self.size as nat
    }

    closed spec fn is_allocated(&self, idx: int) -> bool {
        &&& 0 <= idx < self.slots@.len()
        &&& unreleased(self.free@, idx)
    }

    closed spec fn content(&self, idx: int) -> Option<T> {
        if 0 <= idx < self.slots@.len() {
            self.slots@[idx]
        } else {
            None
        }
    }

    fn with_capacity(capacity: usize) -> (arena: Self)
        ensures
            arena.grown() == 0,
            arena.free_list() == Seq::<usize>::empty(),
    {
        BasicArena { slots: Vec::with_capacity(capacity), free: Vec::new(), size: 0, limit: capacity }
    }

    fn allocate(&mut self) -> (r: Result<usize, CapacityError>)
        ensures
            r matches Ok(idx) ==> idx == old(self).next_slot(),
    {
        if self.free.len() == 0 {
            if self.slots.len() >= self.limit {
                return Err(CapacityError);
            }
            let idx = self.slots.len();
            self.slots.push(None);
            self.size = self.size + 1;
            Ok(idx)
        } else {
            let ghost before = self.free@;
            let idx = self.free.pop().unwrap();
            self.size = self.size + 1;
            proof {
                assert(before[before.len() - 1] == idx);
                assert forall|k: int| 0 <= k < self.free@.len() implies (#[trigger] self.free@[k]) != idx by {
                    assert(before[k] == self.free@[k]);
                }
                assert forall|i: int| i != idx implies self.is_allocated(i) == old(self).is_allocated(i) by {
                    if self.is_allocated(i) {
                        assert forall|k: int| 0 <= k < before.len() implies (#[trigger] before[k]) != i by {
                            if k < before.len() - 1 {
                                assert(before[k] == self.free@[k]);
                            }
                        }
                    }
                    if old(self).is_allocated(i) {
                        assert forall|k: int| 0 <= k < self.free@.len() implies (#[trigger] self.free@[k]) != i by {
                            assert(before[k] == self.free@[k]);
                        }
                    }
                }
            }
            Ok(idx)
        }
    }

    fn free(&mut self, idx: usize)
        ensures
            final(self).free_list() == old(self).free_list().push(idx),
            final(self).grown() == old(self).grown(),
    {
        let ghost before = self.free@;
        proof {
            if self.size == 0 {
                // With nothing allocated every slot is on the free list, so
                // `idx` would be there too: count the distinct free indices.
                Self::lemma_free_list_bounded(before, self.slots@.len(), idx as int);
            }
        }
        self.free.push(idx);
        self.size = self.size - 1;
        proof {
            assert forall|i: int| i != idx implies self.is_allocated(i) == old(self).is_allocated(i) by {
                if old(self).is_allocated(i) {
                    assert forall|k: int| 0 <= k < self.free@.len() implies (#[trigger] self.free@[k]) != i by {
                        if k < before.len() {
                            assert(before[k] == self.free@[k]);
                        }
                    }
                }
                if self.is_allocated(i) {
                    assert forall|k: int| 0 <= k < before.len() implies (#[trigger] before[k]) != i by {
                        assert(before[k] == self.free@[k]);
                    }
                }
            }
            assert(self.free@[before.len() as int] == idx);
        }
    }

    fn set(&mut self, idx: usize, data: T) {
        self.slots.set(idx, Some(data));
    }

    fn len(&self) -> (n: usize) {
        self.size
    }

    fn index(&self, idx: usize) -> (data: &T) {
        self.slots[idx].as_ref().unwrap()
    }

    fn index_mut(&mut self, idx: usize) -> (data: &mut T) {
        let slot = &mut self.slots[idx];
        slot.as_mut().unwrap()
    }
}

impl<T> BasicArena<T> {
    /// Distinct indices below `n`, none of them `absent`, are fewer than `n`.
    proof fn lemma_free_list_bounded(free: Seq<usize>, n: nat, absent: int)
        requires
            free.no_duplicates(),
            forall|k: int| 0 <= k < free.len() ==> (#[trigger] free[k]) < n,
            forall|k: int| 0 <= k < free.len() ==> (#[trigger] free[k]) != absent,
            0 <= absent < n,
        ensures
            free.len() < n,
    {
        let s = free.to_set();
        free.unique_seq_to_set();
        let bound = Set::new(|i: int| 0 <= i < n);
        vstd::set_lib::lemma_int_range(0, n as int);
        assert(bound =~= vstd::set_lib::set_int_range(0, n as int));
        let img = s.map(|i: usize| i as int);
        assert(img.subset_of(bound.remove(absent))) by {
            assert forall|x: int| img.contains(x) implies bound.remove(absent).contains(x) by {
                let w = choose|i: usize| s.contains(i) && x == i as int;
                let k = choose|k: int| 0 <= k < free.len() && free[k] == w;
                assert(free[k] < n);
            }
        }
        vstd::set_lib::lemma_len_subset(img, bound.remove(absent));
        vstd::set_lib::lemma_map_size(s, img, |i: usize| i as int);
    }
}

} // verus!
