//! A run: a stretch of memory cut into objects of one size.

use vstd::prelude::*;

verus! {

/// Number of 64-bit words in the bitmap of a run.
pub const RUN_BITMAP_WORDS: usize = 4;

/// A stretch of memory that holds `num_objects` objects of `object_size`
/// bytes each, with one bit per object that is set while the object is free.
pub struct Run {
    start: u64,
    object_size: usize,
    num_objects: usize,
    free_bitmap: Vec<u64>,
    free_count: usize,
}

impl Run {
    /// Address of the first object.
    pub closed spec fn base(&self) -> u64 {
        self.start
    }

    /// Size of an object in bytes.
    pub closed spec fn size_of_object(&self) -> usize {
        self.object_size
    }

    /// Number of objects.
    pub closed spec fn objects(&self) -> usize {
        self.num_objects
    }

    /// The words of the bitmap.
    pub closed spec fn bitmap(&self) -> Seq<u64> {
        self.free_bitmap@
    }

    /// Number of free objects.
    pub closed spec fn free(&self) -> usize {
        self.free_count
    }

    /// A run at `start` with every object free.
    pub fn new(start: u64, object_size: usize, num_objects: usize) -> (run: Self)
        ensures
            run.base() == start,
            run.size_of_object() == object_size,
            run.objects() == num_objects,
            run.free() == num_objects,
            run.bitmap() == Seq::new(RUN_BITMAP_WORDS as nat, |i: int| 0xFFFF_FFFF_FFFF_FFFFu64),
    {
        let mut free_bitmap: Vec<u64> = Vec::new();
        let mut i: usize = 0;
        while i < RUN_BITMAP_WORDS
            invariant
                i <= RUN_BITMAP_WORDS,
                free_bitmap@.len() == i,
                forall|j: int| 0 <= j < i ==> free_bitmap@[j] == 0xFFFF_FFFF_FFFF_FFFFu64,
            decreases RUN_BITMAP_WORDS - i,
        {
            free_bitmap.push(0xFFFF_FFFF_FFFF_FFFF);
            i += 1;
        }
        let run = Run { start, object_size, num_objects, free_bitmap, free_count: num_objects };
        assert(run.bitmap() =~= Seq::new(RUN_BITMAP_WORDS as nat, |i: int| 0xFFFF_FFFF_FFFF_FFFFu64));
        run
    }

    /// Whether `ptr` lies among the objects of the run.
    pub fn contains(&self, ptr: u64) -> (inside: bool)
        requires
            self.base() + self.objects() * self.size_of_object() <= u64::MAX,
        ensures
            inside == (self.base() <= ptr < self.base() + self.objects() * self.size_of_object()),
    {
        let run_start = self.start;
        assert(self.num_objects * self.object_size <= u64::MAX);
        let length: u64 = (self.num_objects as u64) * (self.object_size as u64);
        let run_end = run_start + length;
        ptr >= run_start && ptr < run_end
    }
}

} // verus!
