//! The per-context scratch-allocation table: each `(context id, kind)` pair
//! owns one stable region, looked up by size and alignment. The table only
//! decides; the caller allocates and zeroes memory where the table says to.

use vstd::prelude::*;

verus! {

/// The key of one scratch allocation.
#[derive(Clone, Copy, Debug, PartialEq, Eq, Structural)]
pub struct AllocationMeta {
    /// The owning context's id.
    pub id: i32,
    /// What the region is for.
    pub kind: i32,
}

/// Where one scratch allocation lives.
#[derive(Clone, Copy, Debug, PartialEq, Eq, Structural)]
pub struct AllocationData {
    /// Base address of the region.
    pub base: usize,
    /// Size in bytes.
    pub size: usize,
    /// Alignment in bytes.
    pub align: usize,
}

/// What a lookup decides: reuse an existing region (the caller zeroes it),
/// or record a freshly allocated one.
pub enum TlsDecision {
    /// A matching region exists at this base; zero and reuse it.
    Reuse(usize),
    /// No matching region: allocate one and record it.
    Allocate,
}

/// The allocation table, plus the one counter address it was first given.
pub struct TlsArena {
    counter_address: Option<i32>,
    entries: Vec<(AllocationMeta, AllocationData)>,
}

impl TlsArena {
    /// The recorded counter address, once one was given.
    pub closed spec fn counter(self) -> Option<i32> {
        self.counter_address
    }

    /// The recorded allocations.
    pub closed spec fn table(self) -> Seq<(AllocationMeta, AllocationData)> {
        self.entries@
    }

    /// An empty table.
    pub fn new() -> (r: TlsArena)
        ensures
            r.counter() is None,
            r.table() == Seq::<(AllocationMeta, AllocationData)>::empty(),
    {
        TlsArena { counter_address: None, entries: Vec::new() }
    }

    /// Records the counter address on first use and says whether a later
    /// caller handed a different one, which the protocol forbids.
    pub fn check_counter(&mut self, addr: i32) -> (r: bool)
        ensures
            final(self).table() == old(self).table(),
            final(self).counter() == Some(addr) || final(self).counter() == old(self).counter(),
            r == (old(self).counter() is None || old(self).counter() == Some(addr)),
            r ==> final(self).counter() == Some(addr),
    {
        match self.counter_address {
            None => {
                self.counter_address = Some(addr);
                true
            },
            Some(a) => a == addr,
        }
    }

    /// Decides a lookup: the base of the matching region, or the order to
    /// allocate a fresh one.
    pub fn lookup(&self, id: i32, kind: i32, size: usize, align: usize) -> (r: TlsDecision)
        ensures
            (match r {
                TlsDecision::Reuse(base) => exists|i: int|
                    0 <= i < self.table().len() && #[trigger] self.table()[i] == (
                        AllocationMeta { id, kind },
                        AllocationData { base, size, align },
                    ),
                TlsDecision::Allocate => forall|i: int|
                    0 <= i < self.table().len() ==> !((#[trigger] self.table()[i].0) ==
                        AllocationMeta { id, kind } && self.table()[i].1.size == size
                        && self.table()[i].1.align == align),
            }),
    {
        let n = self.entries.len();
        let mut i: usize = 0;
        while i < n
            invariant
                i <= n,
                n == self.entries@.len(),
                forall|j: int| 0 <= j < i ==> !((#[trigger] self.entries@[j].0) == AllocationMeta {
                    id,
                    kind,
                } && self.entries@[j].1.size == size && self.entries@[j].1.align == align),
            decreases n - i,
        {
            let (m, d) = self.entries[i];
            if m.id == id && m.kind == kind && d.size == size && d.align == align {
                proof {
                    assert(self.table()[i as int] == (
                        AllocationMeta { id, kind },
                        AllocationData { base: d.base, size, align },
                    ));
                }
                return TlsDecision::Reuse(d.base);
            }
            i += 1;
        }
        TlsDecision::Allocate
    }

    /// Records a freshly allocated region.
    pub fn record(&mut self, id: i32, kind: i32, base: usize, size: usize, align: usize)
        ensures
            final(self).counter() == old(self).counter(),
            final(self).table() == old(self).table().push(
                (AllocationMeta { id, kind }, AllocationData { base, size, align }),
            ),
    {
        self.entries.push((AllocationMeta { id, kind }, AllocationData { base, size, align }));
    }
}

} // verus!
