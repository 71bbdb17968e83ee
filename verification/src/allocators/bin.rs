//! A bin: the runs that hold objects of one size.

use crate::allocators::run::Run;
use vstd::prelude::*;

verus! {

/// The runs that serve requests of one object size.
pub struct Bin {
    object_size: usize,
    runs: Vec<Run>,
}

impl Bin {
    /// Size in bytes of the objects of this bin.
    pub closed spec fn size_of_object(&self) -> usize {
        self.object_size
    }

    /// Number of runs that the bin holds.
    pub closed spec fn run_count(&self) -> nat {
        self.runs@.len()
    }

    /// A bin for objects of `object_size` bytes, without runs.
    pub fn new(object_size: usize) -> (bin: Self)
        ensures
            bin.size_of_object() == object_size,
            bin.run_count() == 0,
    {
        Bin { object_size, runs: Vec::new() }
    }

    /// Size in bytes of the objects of this bin.
    pub fn object_size(&self) -> (size: usize)
        ensures
            size == self.size_of_object(),
    {
        self.object_size
    }
}

} // verus!
