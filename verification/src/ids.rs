//! The allocator of token ids: the ids in use and a cursor that only moves up.

use vstd::prelude::*;
use std::collections::HashSet;

verus! {

broadcast use vstd::std_specs::hash::group_hash_axioms;

/// Hands out fresh ids. An id that was released is not handed out again:
/// every id handed out lies at or above the cursor, and the cursor lies above
/// every id in use.
pub struct IdAllocator {
    used: HashSet<u32>,
    next: u64,
}

impl IdAllocator {
    /// The ids in use.
    pub closed spec fn used(&self) -> Set<u32> {
        self.used@
    }

    /// The cursor: the next id to hand out.
    pub closed spec fn next(&self) -> nat {
        self.next as nat
    }

    /// The cursor is an id or one past the largest id, and every id in use
    /// lies below it.
    pub open spec fn wf(&self) -> bool {
        &&& self.next() <= u32::MAX + 1
        &&& forall|i: u32| #[trigger] self.used().contains(i) ==> i < self.next()
    }

    /// An allocator with no id in use, whose cursor stands at 1.
    pub fn new() -> (r: IdAllocator)
        ensures
            r.wf(),
            r.used() == Set::<u32>::empty(),
            r.next() == 1,
    {
        IdAllocator { used: HashSet::new(), next: 1 }
    }

    /// The ids that are left above the cursor.
    pub open spec fn headroom(&self) -> nat {
        (u32::MAX + 1 - self.next()) as nat
    }

    /// The cursor.
    pub fn next_id(&self) -> (r: u64)
        ensures
            r == self.next(),
    {
        self.next
    }

    /// Whether the id is in use.
    pub fn is_used(&self, id: u32) -> (r: bool)
        ensures
            r == self.used().contains(id),
    {
        self.used.contains(&id)
    }

    /// Marks an id as in use, and moves the cursor past it if it is not.
    pub fn reserve(&mut self, id: u32)
        requires
            old(self).wf(),
        ensures
            final(self).wf(),
            final(self).used() == old(self).used().insert(id),
            final(self).next() == (if id < old(self).next() {
                old(self).next()
            } else {
                id as nat + 1
            }),
    {
        self.used.insert(id);
        if id as u64 >= self.next {
            self.next = id as u64 + 1;
        }
        assert forall|i: u32| #[trigger] self.used().contains(i) implies i < self.next() by {
            assert(i == id || old(self).used().contains(i));
        }
    }

    /// Hands out the id under the cursor and moves the cursor up by one.
    pub fn allocate(&mut self) -> (id: u32)
        requires
            old(self).wf(),
            old(self).headroom() > 0,
        ensures
            final(self).wf(),
            id == old(self).next(),
            !old(self).used().contains(id),
            final(self).used() == old(self).used().insert(id),
            final(self).next() == old(self).next() + 1,
    {
        let id = self.next as u32;
        self.used.insert(id);
        self.next = self.next + 1;
        assert forall|i: u32| #[trigger] self.used().contains(i) implies i < self.next() by {
            assert(i == id || old(self).used().contains(i));
        }
        id
    }

    /// Takes an id out of use. The cursor stays.
    pub fn release(&mut self, id: u32)
        requires
            old(self).wf(),
        ensures
            final(self).wf(),
            final(self).used() == old(self).used().remove(id),
            final(self).next() == old(self).next(),
    {
        self.used.remove(&id);
        assert forall|i: u32| #[trigger] self.used().contains(i) implies i < self.next() by {
            assert(old(self).used().contains(i));
        }
    }

    /// Starts over with the ids below `n` in use and the cursor at `n`.
    pub fn reset_dense(&mut self, n: usize)
        requires
            n <= u32::MAX + 1,
        ensures
            final(self).wf(),
            final(self).used() == Set::new(|i: u32| i < n),
            final(self).next() == n,
    {
        self.used.clear();
        let mut i: usize = 0;
        while i < n
            invariant
                i <= n <= u32::MAX + 1,
                self.used@ == Set::new(|j: u32| j < i),
            decreases n - i,
        {
            self.used.insert(i as u32);
            assert(self.used@ =~= Set::new(|j: u32| j < i + 1));
            i = i + 1;
        }
        self.next = n as u64;
    }
}

} // verus!
