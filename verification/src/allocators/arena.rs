//! An arena: sixteen bins with object sizes that rise in steps of 16 bytes.

use crate::allocators::bin::Bin;
use vstd::prelude::*;

verus! {

/// Number of bins in an arena.
pub const BIN_COUNT: usize = 16;

/// Object size of bin `i`.
pub open spec fn bin_size(i: int) -> int {
    (i + 1) * 16
}

/// The bins of an arena, by rising object size.
pub struct Arena {
    bins: Vec<Bin>,
}

impl Arena {
    /// Object sizes of the bins, in order.
    pub closed spec fn sizes(&self) -> Seq<usize> {
        Seq::new(self.bins@.len(), |i: int| self.bins@[i].size_of_object())
    }

    /// There are sixteen bins, and bin `i` holds objects of `16 * (i + 1)`
    /// bytes.
    pub open spec fn wf(&self) -> bool {
        &&& self.sizes().len() == BIN_COUNT
        &&& forall|i: int| 0 <= i < BIN_COUNT ==> #[trigger] self.sizes()[i] == bin_size(i)
    }

    /// An arena whose bins hold no runs.
    pub fn new() -> (arena: Self)
        ensures
            arena.wf(),
    {
        let mut bins: Vec<Bin> = Vec::new();
        let mut i: usize = 0;
        while i < BIN_COUNT
            invariant
                i <= BIN_COUNT,
                bins@.len() == i,
                forall|j: int| 0 <= j < i ==> (#[trigger] bins@[j]).size_of_object() == bin_size(j),
            decreases BIN_COUNT - i,
        {
            bins.push(Bin::new((i + 1) * 16));
            i += 1;
        }
        Arena { bins }
    }

    /// The first bin whose objects hold `size` bytes; the last bin where
    /// none does.
    pub fn size_to_bin_index(&self, size: usize) -> (index: usize)
        requires
            self.wf(),
        ensures
            index < BIN_COUNT,
            index == if size <= 16 {
                0
            } else if size <= 256 {
                (size - 1) / 16
            } else {
                BIN_COUNT - 1
            },
    {
        let mut i: usize = 0;
        while i < self.bins.len()
            invariant
                i <= BIN_COUNT,
                self.wf(),
                self.bins@.len() == BIN_COUNT,
                forall|j: int| 0 <= j < i ==> bin_size(j) < size,
            decreases BIN_COUNT - i,
        {
            assert(self.sizes()[i as int] == bin_size(i as int));
            if self.bins[i].object_size() >= size {
                proof {
                    if i > 0 {
                        assert(bin_size(i - 1) < size);
                    }
                }
                return i;
            }
            i += 1;
        }
        proof {
            assert(bin_size(BIN_COUNT - 1) < size);
        }
        BIN_COUNT - 1
    }
}

} // verus!
