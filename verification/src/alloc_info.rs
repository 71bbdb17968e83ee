//! The table of large allocations: for each run of pages that the heap has
//! handed out whole, its address and its number of pages.

use vstd::prelude::*;

verus! {

/// Number of slots in the table.
pub const LARGE_ALLOCS_CAPACITY: usize = 512;

/// What the heap remembers of a large allocation.
#[derive(Clone, Copy, Debug, PartialEq, Eq, Structural)]
pub struct AllocationInfo {
    pub num_pages: usize,
}

/// Slot `i` is empty and every slot before it is taken.
pub open spec fn is_first_free(slots: Seq<Option<(u64, AllocationInfo)>>, i: int) -> bool {
    &&& 0 <= i < slots.len()
    &&& slots[i] is None
    &&& forall|j: int| 0 <= j < i ==> (#[trigger] slots[j]) is Some
}

/// Slot `i` holds a record for `addr`.
pub open spec fn holds(slots: Seq<Option<(u64, AllocationInfo)>>, i: int, addr: u64) -> bool {
    &&& 0 <= i < slots.len()
    &&& slots[i] matches Some(record) && record.0 == addr
}

/// Slot `i` is the first that holds a record for `addr`.
pub open spec fn is_first_match(slots: Seq<Option<(u64, AllocationInfo)>>, i: int, addr: u64) -> bool {
    &&& holds(slots, i, addr)
    &&& forall|j: int| 0 <= j < i ==> !holds(slots, j, addr)
}

/// No slot holds a record for `addr`.
pub open spec fn absent(slots: Seq<Option<(u64, AllocationInfo)>>, addr: u64) -> bool {
    forall|j: int| !holds(slots, j, addr)
}

/// A table of fixed size: every slot is empty or holds the address of a
/// large allocation and its number of pages.
pub struct LargeAllocTable {
    slots: Vec<Option<(u64, AllocationInfo)>>,
}

impl LargeAllocTable {
    /// The slots, first to last.
    pub closed spec fn slots(&self) -> Seq<Option<(u64, AllocationInfo)>> {
        self.slots@
    }

    /// The table has its full number of slots.
    pub open spec fn wf(&self) -> bool {
        self.slots().len() == LARGE_ALLOCS_CAPACITY
    }

    /// Some slot is empty.
    pub open spec fn has_room(&self) -> bool {
        exists|i: int| 0 <= i < self.slots().len() && (#[trigger] self.slots()[i]) is None
    }

    /// A table with every slot empty.
    pub fn new() -> (table: Self)
        ensures
            table.wf(),
            forall|i: int| 0 <= i < table.slots().len() ==> (#[trigger] table.slots()[i]) is None,
    {
        let mut slots: Vec<Option<(u64, AllocationInfo)>> = Vec::new();
        let mut i: usize = 0;
        while i < LARGE_ALLOCS_CAPACITY
            invariant
                i <= LARGE_ALLOCS_CAPACITY,
                slots@.len() == i,
                forall|j: int| 0 <= j < i ==> (#[trigger] slots@[j]) is None,
            decreases LARGE_ALLOCS_CAPACITY - i,
        {
            slots.push(None);
            i += 1;
        }
        LargeAllocTable { slots }
    }

    /// Whether some slot is empty.
    pub fn has_free_slot(&self) -> (b: bool)
        ensures
            b == self.has_room(),
    {
        let mut i: usize = 0;
        while i < self.slots.len()
            invariant
                i <= self.slots@.len(),
                forall|j: int| 0 <= j < i ==> (#[trigger] self.slots@[j]) is Some,
            decreases self.slots@.len() - i,
        {
            if self.slots[i].is_none() {
                return true;
            }
            i += 1;
        }
        false
    }

    /// Puts a record for `addr` into the first empty slot.
    pub fn insert(&mut self, addr: u64, info: AllocationInfo)
        requires
            old(self).has_room(),
        ensures
            exists|i: int|
                is_first_free(old(self).slots(), i) && final(self).slots() == old(self).slots().update(
                    i,
                    Some((addr, info)),
                ),
    {
        let mut i: usize = 0;
        while i < self.slots.len()
            invariant
                i <= self.slots@.len(),
                self.slots@ == old(self).slots@,
                old(self).has_room(),
                forall|j: int| 0 <= j < i ==> (#[trigger] self.slots@[j]) is Some,
            decreases self.slots@.len() - i,
        {
            if self.slots[i].is_none() {
                self.slots.set(i, Some((addr, info)));
                proof {
                    assert(is_first_free(old(self).slots(), i as int));
                }
                return ;
            }
            i += 1;
        }
        proof {
            let k = choose|k: int| 0 <= k < self.slots().len() && (#[trigger] self.slots()[k]) is None;
            assert(self.slots@[k] is Some);
        }
    }

    /// The number of pages recorded for `addr` in the first slot that holds
    /// a record for it.
    pub fn lookup(&self, addr: u64) -> (pages: Option<usize>)
        ensures
            match pages {
                Some(n) => exists|i: int|
                    is_first_match(self.slots(), i, addr) && self.slots()[i].unwrap().1.num_pages == n,
                None => absent(self.slots(), addr),
            },
    {
        let mut i: usize = 0;
        while i < self.slots.len()
            invariant
                i <= self.slots@.len(),
                forall|j: int| 0 <= j < i ==> !holds(self.slots@, j, addr),
            decreases self.slots@.len() - i,
        {
            match self.slots[i] {
                Some((a, info)) => {
                    if a == addr {
                        proof {
                            assert(is_first_match(self.slots(), i as int, addr));
                        }
                        return Some(info.num_pages);
                    }
                },
                None => {},
            }
            i += 1;
        }
        None
    }

    /// Empties the first slot that holds a record for `addr` and returns the
    /// number of pages it recorded; `None`, with nothing changed, where
    /// there is no such slot.
    pub fn remove(&mut self, addr: u64) -> (pages: Option<usize>)
        ensures
            match pages {
                Some(n) => exists|i: int|
                    is_first_match(old(self).slots(), i, addr) && old(self).slots()[i].unwrap().1.num_pages
                        == n && final(self).slots() == old(self).slots().update(i, None),
                None => absent(old(self).slots(), addr) && final(self).slots() == old(self).slots(),
            },
    {
        let mut i: usize = 0;
        while i < self.slots.len()
            invariant
                i <= self.slots@.len(),
                self.slots@ == old(self).slots@,
                forall|j: int| 0 <= j < i ==> !holds(self.slots@, j, addr),
            decreases self.slots@.len() - i,
        {
            match self.slots[i] {
                Some((a, info)) => {
                    if a == addr {
                        proof {
                            assert(is_first_match(old(self).slots(), i as int, addr));
                        }
                        self.slots.set(i, None);
                        return Some(info.num_pages);
                    }
                },
                None => {},
            }
            i += 1;
        }
        None
    }

    /// Number of slots that hold a record.
    pub fn len(&self) -> (n: usize)
        ensures
            n <= self.slots().len(),
            n == 0 <==> forall|i: int| 0 <= i < self.slots().len() ==> (#[trigger] self.slots()[i]) is None,
    {
        let mut n: usize = 0;
        let mut i: usize = 0;
        while i < self.slots.len()
            invariant
                i <= self.slots@.len(),
                n <= i,
                n == 0 <==> forall|j: int| 0 <= j < i ==> (#[trigger] self.slots@[j]) is None,
            decreases self.slots@.len() - i,
        {
            if self.slots[i].is_some() {
                n += 1;
            }
            i += 1;
        }
        n
    }
}

/// Records a large allocation in the first empty slot of `table`.
pub fn large_alloc_insert(table: &mut LargeAllocTable, addr: u64, info: AllocationInfo)
    requires
        old(table).has_room(),
    ensures
        exists|i: int|
            is_first_free(old(table).slots(), i) && final(table).slots() == old(table).slots().update(
                i,
                Some((addr, info)),
            ),
{
    table.insert(addr, info);
}

/// A record that goes into the first empty slot of a table without a record
/// for its address is the record that a removal for that address finds, and
/// the removal leaves the table as it was.
pub proof fn lemma_insert_then_remove(
    before: Seq<Option<(u64, AllocationInfo)>>,
    addr: u64,
    info: AllocationInfo,
    i: int,
    j: int,
)
    requires
        absent(before, addr),
        is_first_free(before, i),
        is_first_match(before.update(i, Some((addr, info))), j, addr),
    ensures
        j == i,
        before.update(i, Some((addr, info))).update(j, None) == before,
{
    let after = before.update(i, Some((addr, info)));
    if j != i {
        assert(holds(after, j, addr));
        assert(holds(before, j, addr));
    }
    assert(after.update(j, None) =~= before);
}

} // verus!
