//! The offset of the direct map, which is set once and read from then on.

use vstd::prelude::*;

verus! {

/// Holds the offset at which the boot loader has mapped all physical memory.
/// The first offset written stays.
pub struct PhysicalMemoryOffset {
    offset: Option<u64>,
}

impl PhysicalMemoryOffset {
    /// The offset held, if one was written.
    pub closed spec fn value(&self) -> Option<u64> {
        self.offset
    }

    /// A holder without an offset.
    pub fn new() -> (holder: Self)
        ensures
            holder.value() is None,
    {
        PhysicalMemoryOffset { offset: None }
    }

    /// Writes `offset` unless an offset was written before, and returns
    /// `offset`.
    pub fn init_offset(&mut self, offset: u64) -> (given: u64)
        ensures
            given == offset,
            final(self).value() == match old(self).value() {
                Some(first) => Some(first),
                None => Some(offset),
            },
    {
        if self.offset.is_none() {
            self.offset = Some(offset);
        }
        offset
    }

    /// Whether an offset was written.
    pub fn is_set(&self) -> (set: bool)
        ensures
            set == self.value() is Some,
    {
        self.offset.is_some()
    }

    /// The offset that was written.
    pub fn get_offset_u64(&self) -> (offset: u64)
        requires
            self.value() is Some,
        ensures
            Some(offset) == self.value(),
    {
        self.offset.unwrap()
    }
}

} // verus!
