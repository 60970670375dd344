//! The bus registry: a grow-only pool of slots, each owning a lock-free
//! queue of strings. Slots are recycled through an administrative `held`
//! flag; messages survive a plain free and are drained only on disposal.

use vstd::prelude::*;
use crate::ext::{queue_new, queue_push, queue_pop, queue_view};

verus! {

/// One bus slot: its id, whether it is handed out, and its queue.
pub struct BusSlot {
    id: usize,
    held: bool,
    q: crossbeam_queue::SegQueue<String>,
}

/// The pool of buses.
pub struct BusRegistry {
    slots: Vec<BusSlot>,
}

impl BusRegistry {
    /// How many slots exist, recycled ones included.
    pub closed spec fn slot_count(self) -> nat {
        self.slots@.len()
    }

    /// Whether a slot is currently handed out.
    pub closed spec fn held(self, id: int) -> bool {
        self.slots@[id].held
    }

    /// The messages queued on a slot, oldest first.
    pub closed spec fn queue(self, id: int) -> Seq<Seq<char>> {
        queue_view(self.slots@[id].q)
    }

    /// Slot ids match their positions.
    pub closed spec fn wf(self) -> bool {
        forall|i: int| 0 <= i < self.slots@.len() ==> self.slots@[i].id == i
    }

    /// An empty registry.
    pub fn new() -> (r: BusRegistry)
        ensures
            r.wf(),
            r.slot_count() == 0,
    {
        BusRegistry { slots: Vec::new() }
    }

    /// Allocates a bus and returns its id, recycling the first released
    /// slot if any; a recycled slot keeps its pending messages.
    pub fn sab_bus_new(&mut self) -> (r: usize)
        requires
            old(self).wf(),
        ensures
            final(self).wf(),
            r < final(self).slot_count(),
            final(self).held(r as int),
            final(self).slot_count() >= old(self).slot_count(),
            forall|i: int| 0 <= i < old(self).slot_count() && i != r ==> final(self).held(i) == old(
                self,
            ).held(i) && final(self).queue(i) == old(self).queue(i),
            r < old(self).slot_count() ==> !old(self).held(r as int) && final(self).queue(r as int)
                == old(self).queue(r as int) && final(self).slot_count() == old(self).slot_count(),
            r >= old(self).slot_count() ==> r == old(self).slot_count() && final(self).slot_count()
                == old(self).slot_count() + 1 && final(self).queue(r as int) == Seq::<
                Seq<char>,
            >::empty(),
    {
        let n = self.slots.len();
        let mut i: usize = 0;
        while i < n
            invariant
                i <= n,
                old(self).wf(),
                self == old(self),
                n == self.slots@.len(),
                forall|j: int| 0 <= j < i ==> self.slots@[j].held,
            decreases n - i,
        {
            if !self.slots[i].held {
                let ghost before = self.slots@;
                let old_slot = self.slots.remove(i);
                let slot = BusSlot { id: old_slot.id, held: true, q: old_slot.q };
                self.slots.insert(i, slot);
                proof {
                    assert(self.slots@ =~= before.update(
                        i as int,
                        BusSlot { id: before[i as int].id, held: true, q: before[i as int].q },
                    ));
                }
                return i;
            }
            i += 1;
        }
        let slot = BusSlot { id: n, held: true, q: queue_new() };
        let ghost before = self.slots@;
        self.slots.push(slot);
        proof {
            assert(forall|j: int| 0 <= j < before.len() ==> self.slots@[j] == before[j]);
        }
        n
    }

    /// Releases a slot so it can be handed out again; pending messages are
    /// drained and discarded. Unknown ids are tolerated.
    pub fn sab_bus_free(&mut self, id: usize)
        requires
            old(self).wf(),
        ensures
            final(self).wf(),
            final(self).slot_count() == old(self).slot_count(),
            forall|i: int| 0 <= i < old(self).slot_count() && i != id ==> final(self).queue(i)
                == old(self).queue(i),
            forall|i: int| 0 <= i < old(self).slot_count() && i != id ==> final(self).held(i)
                == old(self).held(i),
            id < old(self).slot_count() ==> !final(self).held(id as int) && final(self).queue(
                id as int,
            ) == Seq::<Seq<char>>::empty(),
    {
        if id < self.slots.len() {
            let ghost before = self.slots@;
            let old_slot = self.slots.remove(id);
            let slot = BusSlot { id: old_slot.id, held: false, q: queue_new() };
            self.slots.insert(id, slot);
            proof {
                assert(self.slots@.len() == before.len());
                assert(forall|j: int| 0 <= j < before.len() && j != id ==> self.slots@[j]
                    == before[j]);
                assert(self.slots@[id as int].id == before[id as int].id);
            }
        }
    }

    /// Queues a message on a bus; unknown ids are tolerated.
    pub fn sab_bus_send(&mut self, to: usize, value: String)
        requires
            old(self).wf(),
        ensures
            final(self).wf(),
            final(self).slot_count() == old(self).slot_count(),
            forall|i: int| 0 <= i < old(self).slot_count() ==> final(self).held(i) == old(
                self,
            ).held(i),
            forall|i: int| 0 <= i < old(self).slot_count() && i != to ==> final(self).queue(i)
                == old(self).queue(i),
            to < old(self).slot_count() ==> final(self).queue(to as int) == old(self).queue(
                to as int,
            ).push(value@),
    {
        if to < self.slots.len() {
            let ghost before = self.slots@;
            let ghost vv = value@;
            let mut old_slot = self.slots.remove(to);
            queue_push(&mut old_slot.q, value);
            let held_keep = old_slot.held;
            let id_keep = old_slot.id;
            let slot = BusSlot { id: id_keep, held: held_keep, q: old_slot.q };
            self.slots.insert(to, slot);
            proof {
                assert(self.slots@.len() == before.len());
                assert(forall|j: int| 0 <= j < before.len() && j != to ==> self.slots@[j]
                    == before[j]);
                assert(self.slots@[to as int].id == before[to as int].id);
                assert(self.slots@[to as int].held == before[to as int].held);
                assert(queue_view(self.slots@[to as int].q) == queue_view(
                    before[to as int].q,
                ).push(vv));
            }
        }
    }

    /// Queues a message on every bus but one.
    pub fn sab_bus_broadcast(&mut self, from: usize, value: &String)
        requires
            old(self).wf(),
        ensures
            final(self).wf(),
            final(self).slot_count() == old(self).slot_count(),
            forall|i: int| 0 <= i < old(self).slot_count() ==> final(self).held(i) == old(
                self,
            ).held(i),
            forall|i: int| 0 <= i < old(self).slot_count() && i != from ==> final(self).queue(i)
                == old(self).queue(i).push(value@),
            from < old(self).slot_count() ==> final(self).queue(from as int) == old(self).queue(
                from as int,
            ),
    {
        let n = self.slots.len();
        let mut i: usize = 0;
        while i < n
            invariant
                i <= n,
                self.wf(),
                n == self.slots@.len(),
                n == old(self).slot_count(),
                forall|j: int| 0 <= j < n ==> self.held(j) == old(self).held(j),
                forall|j: int| 0 <= j < i && j != from ==> self.queue(j) == old(self).queue(
                    j,
                ).push(value@),
                forall|j: int| i <= j < n ==> self.queue(j) == old(self).queue(j),
                from < n ==> self.queue(from as int) == old(self).queue(from as int),
            decreases n - i,
        {
            if i != from {
                self.sab_bus_send(i, value.clone());
            }
            i += 1;
        }
    }

    /// Queues a message on every bus.
    pub fn sab_bus_yeet(&mut self, value: &String)
        requires
            old(self).wf(),
        ensures
            final(self).wf(),
            final(self).slot_count() == old(self).slot_count(),
            forall|i: int| 0 <= i < old(self).slot_count() ==> final(self).held(i) == old(
                self,
            ).held(i),
            forall|i: int| 0 <= i < old(self).slot_count() ==> final(self).queue(i) == old(
                self,
            ).queue(i).push(value@),
    {
        let n = self.slots.len();
        let mut i: usize = 0;
        while i < n
            invariant
                i <= n,
                self.wf(),
                n == self.slots@.len(),
                n == old(self).slot_count(),
                forall|j: int| 0 <= j < n ==> self.held(j) == old(self).held(j),
                forall|j: int| 0 <= j < i ==> self.queue(j) == old(self).queue(j).push(value@),
                forall|j: int| i <= j < n ==> self.queue(j) == old(self).queue(j),
            decreases n - i,
        {
            self.sab_bus_send(i, value.clone());
            i += 1;
        }
    }

    /// Takes the oldest pending message of a bus; the empty string stands
    /// for none pending (or an unknown id).
    pub fn sab_bus_receive(&mut self, id: usize) -> (r: String)
        requires
            old(self).wf(),
        ensures
            final(self).wf(),
            final(self).slot_count() == old(self).slot_count(),
            forall|i: int| 0 <= i < old(self).slot_count() ==> final(self).held(i) == old(
                self,
            ).held(i),
            forall|i: int| 0 <= i < old(self).slot_count() && i != id ==> final(self).queue(i)
                == old(self).queue(i),
            id < old(self).slot_count() && old(self).queue(id as int).len() > 0 ==> r@ == old(
                self,
            ).queue(id as int)[0] && final(self).queue(id as int) == old(self).queue(
                id as int,
            ).drop_first(),
            id < old(self).slot_count() && old(self).queue(id as int).len() == 0 ==> r@ == Seq::<
                char,
            >::empty() && final(self).queue(id as int) == old(self).queue(id as int),
            id >= old(self).slot_count() ==> r@ == Seq::<char>::empty(),
    {
        if id < self.slots.len() {
            let ghost before = self.slots@;
            let mut old_slot = self.slots.remove(id);
            let got = queue_pop(&mut old_slot.q);
            let held_keep = old_slot.held;
            let id_keep = old_slot.id;
            let slot = BusSlot { id: id_keep, held: held_keep, q: old_slot.q };
            self.slots.insert(id, slot);
            proof {
                assert(self.slots@.len() == before.len());
                assert(forall|j: int| 0 <= j < before.len() && j != id ==> self.slots@[j]
                    == before[j]);
                assert(self.slots@[id as int].id == before[id as int].id);
                assert(self.slots@[id as int].held == before[id as int].held);
            }
            match got {
                Some(s) => s,
                None => String::new(),
            }
        } else {
            String::new()
        }
    }
}

} // verus!
