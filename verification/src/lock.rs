//! The lock registry: a grow-only pool of cross-context lock slots, each a
//! word (taken or clear) plus an administrative `held` flag for recycling.
//! Acquisition is one test-and-set step; a caller that must wait retries,
//! which is the spin of the protocol.

use vstd::prelude::*;

verus! {

/// One lock slot: its id, whether the slot is handed out, and the word.
pub struct LockSlot {
    id: usize,
    held: bool,
    word: bool,
}

/// The pool of locks.
pub struct LockRegistry {
    slots: Vec<LockSlot>,
}

impl LockRegistry {
    /// How many slots exist, recycled ones included.
    pub closed spec fn slot_count(self) -> nat {
        self.slots@.len()
    }

    /// Whether a slot is handed out.
    pub closed spec fn held(self, id: int) -> bool {
        self.slots@[id].held
    }

    /// Whether a lock's word is taken.
    pub closed spec fn locked(self, id: int) -> bool {
        self.slots@[id].word
    }

    /// Slot ids match their positions.
    pub closed spec fn wf(self) -> bool {
        forall|i: int| 0 <= i < self.slots@.len() ==> self.slots@[i].id == i
    }

    /// An empty registry.
    pub fn new() -> (r: LockRegistry)
        ensures
            r.wf(),
            r.slot_count() == 0,
    {
        LockRegistry { slots: Vec::new() }
    }

    /// Allocates a lock and returns its id, recycling the first released
    /// slot if any; the lock starts clear.
    pub fn sab_lock_new(&mut self) -> (r: usize)
        requires
            old(self).wf(),
        ensures
            final(self).wf(),
            r < final(self).slot_count(),
            final(self).held(r as int),
            !final(self).locked(r as int),
            final(self).slot_count() >= old(self).slot_count(),
            forall|i: int| 0 <= i < old(self).slot_count() && i != r ==> final(self).held(i) == old(
                self,
            ).held(i) && final(self).locked(i) == old(self).locked(i),
            r < old(self).slot_count() ==> !old(self).held(r as int) && final(self).slot_count()
                == old(self).slot_count(),
            r >= old(self).slot_count() ==> r == old(self).slot_count() && final(self).slot_count()
                == old(self).slot_count() + 1,
    {
        let n = self.slots.len();
        let mut i: usize = 0;
        while i < n
            invariant
                i <= n,
                old(self).wf(),
                self == old(self),
                n == self.slots@.len(),
                forall|j: int| 0 <= j < i ==> self.slots@[j].held,
            decreases n - i,
        {
            if !self.slots[i].held {
                let ghost before = self.slots@;
                self.slots[i] = LockSlot { id: i, held: true, word: false };
                proof {
                    assert(self.slots@ =~= before.update(i as int, self.slots@[i as int]));
                }
                return i;
            }
            i += 1;
        }
        let ghost before = self.slots@;
        self.slots.push(LockSlot { id: n, held: true, word: false });
        proof {
            assert(forall|j: int| 0 <= j < before.len() ==> self.slots@[j] == before[j]);
        }
        n
    }

    /// Releases a slot: the word is cleared and the slot can be handed out
    /// again. Unknown ids are tolerated.
    pub fn sab_lock_free(&mut self, id: usize)
        requires
            old(self).wf(),
        ensures
            final(self).wf(),
            final(self).slot_count() == old(self).slot_count(),
            forall|i: int| 0 <= i < old(self).slot_count() && i != id ==> final(self).held(i)
                == old(self).held(i) && final(self).locked(i) == old(self).locked(i),
            id < old(self).slot_count() ==> !final(self).held(id as int) && !final(self).locked(
                id as int,
            ),
    {
        if id < self.slots.len() {
            let ghost before = self.slots@;
            self.slots[id] = LockSlot { id, held: false, word: false };
            proof {
                assert(self.slots@ =~= before.update(id as int, self.slots@[id as int]));
            }
        }
    }

    /// One test-and-set step of acquisition: takes the lock when its word
    /// is clear and says so; a waiter retries on `false`, which is the
    /// spin of the protocol.
    pub fn sab_lock_try_acquire(&mut self, id: usize) -> (r: bool)
        requires
            old(self).wf(),
        ensures
            final(self).wf(),
            final(self).slot_count() == old(self).slot_count(),
            forall|i: int| 0 <= i < old(self).slot_count() && i != id ==> final(self).held(i)
                == old(self).held(i) && final(self).locked(i) == old(self).locked(i),
            id < old(self).slot_count() ==> {
                &&& r == !old(self).locked(id as int)
                &&& final(self).locked(id as int)
                &&& final(self).held(id as int) == old(self).held(id as int)
            },
            id >= old(self).slot_count() ==> !r,
    {
        if id < self.slots.len() {
            let was = self.slots[id].word;
            let ghost before = self.slots@;
            let held_keep = self.slots[id].held;
            self.slots[id] = LockSlot { id, held: held_keep, word: true };
            proof {
                assert(self.slots@ =~= before.update(id as int, self.slots@[id as int]));
            }
            !was
        } else {
            false
        }
    }

    /// Clears a lock's word. Unknown ids are tolerated.
    pub fn sab_lock_release(&mut self, id: usize)
        requires
            old(self).wf(),
        ensures
            final(self).wf(),
            final(self).slot_count() == old(self).slot_count(),
            forall|i: int| 0 <= i < old(self).slot_count() && i != id ==> final(self).held(i)
                == old(self).held(i) && final(self).locked(i) == old(self).locked(i),
            id < old(self).slot_count() ==> !final(self).locked(id as int) && final(self).held(
                id as int,
            ) == old(self).held(id as int),
    {
        if id < self.slots.len() {
            let ghost before = self.slots@;
            let held_keep = self.slots[id].held;
            self.slots[id] = LockSlot { id, held: held_keep, word: false };
            proof {
                assert(self.slots@ =~= before.update(id as int, self.slots@[id as int]));
            }
        }
    }

    /// Whether a lock's word is taken; an unknown id reads clear.
    pub fn sab_lock_held(&self, id: usize) -> (r: bool)
        requires
            self.wf(),
        ensures
            id < self.slot_count() ==> r == self.locked(id as int),
            id >= self.slot_count() ==> !r,
    {
        if id < self.slots.len() {
            self.slots[id].word
        } else {
            false
        }
    }
}

} // verus!
