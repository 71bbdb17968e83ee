//! The kernel heap: free lists of blocks of nine sizes, refilled a page at a
//! time, and whole runs of pages for what is larger.

use crate::alloc_info::{is_first_free, is_first_match, AllocationInfo, LargeAllocTable};
use crate::memory::PAGE_SIZE;
use crate::page_allocator::{
    first_unmap_refused, owns, unmapped_since, unmapping_requests, Mapper, PageAllocator,
    PageEntry, PageFreeError, UnmapError,
};
use crate::paging::PageFlags;
use vstd::arithmetic::div_mod::{
    lemma_add_mod_noop, lemma_fundamental_div_mod, lemma_mod_mod, lemma_mod_multiples_basic,
    lemma_small_mod,
};
use vstd::pervasive::unreached;
use vstd::prelude::*;

verus! {

/// Number of size classes.
pub const NUM_CLASSES: usize = 9;

/// Largest number of blocks that a free list keeps.
pub const MAX_LIST_LENGTH: usize = 4096;

/// Flag bits with which the heap has its pages mapped: present and writable.
pub const HEAP_PAGE_FLAGS: u64 = 3;

/// Size in bytes of the blocks of size class `k`.
pub open spec fn block_size(k: int) -> int {
    if k == 0 {
        8
    } else if k == 1 {
        16
    } else if k == 2 {
        32
    } else if k == 3 {
        64
    } else if k == 4 {
        128
    } else if k == 5 {
        256
    } else if k == 6 {
        512
    } else if k == 7 {
        1024
    } else {
        2048
    }
}

/// The smallest size class whose blocks hold `need` bytes.
pub open spec fn class_for(need: int) -> Option<int> {
    if need <= 8 {
        Some(0)
    } else if need <= 16 {
        Some(1)
    } else if need <= 32 {
        Some(2)
    } else if need <= 64 {
        Some(3)
    } else if need <= 128 {
        Some(4)
    } else if need <= 256 {
        Some(5)
    } else if need <= 512 {
        Some(6)
    } else if need <= 1024 {
        Some(7)
    } else if need <= 2048 {
        Some(8)
    } else {
        None
    }
}

/// Number of pages that hold `need` bytes.
pub open spec fn pages_for(need: int) -> int {
    (need + 4095) / 4096
}

/// Start of the page that holds address `x`.
pub open spec fn page_of(x: int) -> int {
    x - x % 4096
}

/// The blocks of size class `k` in the page at `page`, from block `from` on,
/// in address order.
pub open spec fn carved(page: int, k: int, from: int) -> Seq<u64> {
    Seq::new(
        (4096int / block_size(k) - from) as nat,
        |i: int| (page + (from + i) * block_size(k)) as u64,
    )
}

/// Size in bytes of the blocks of size class `index`.
pub fn block_size_of(index: usize) -> (size: u64)
    requires
        index < NUM_CLASSES,
    ensures
        size == block_size(index as int),
        size > 0,
        4096int % (size as int) == 0,
{
    let size: u64 = if index == 0 {
        8
    } else if index == 1 {
        16
    } else if index == 2 {
        32
    } else if index == 3 {
        64
    } else if index == 4 {
        128
    } else if index == 5 {
        256
    } else if index == 6 {
        512
    } else if index == 7 {
        1024
    } else {
        2048
    };
    assert(4096int % 8 == 0 && 4096int % 16 == 0 && 4096int % 32 == 0 && 4096int % 64 == 0
        && 4096int % 128 == 0 && 4096int % 256 == 0 && 4096int % 512 == 0 && 4096int % 1024 == 0
        && 4096int % 2048 == 0);
    size
}

/// Size and alignment of a request to the heap.
#[derive(Clone, Copy, Debug, PartialEq, Eq, Structural)]
pub struct Layout {
    pub size: usize,
    pub align: usize,
}

impl Layout {
    /// The bytes that a block for this request must have: the larger of its
    /// size and its alignment.
    pub open spec fn need(self) -> int {
        if self.size >= self.align {
            self.size as int
        } else {
            self.align as int
        }
    }

    /// A request for `size` bytes aligned to `align`.
    pub fn new(size: usize, align: usize) -> (layout: Self)
        ensures
            layout.size == size,
            layout.align == align,
    {
        Layout { size, align }
    }

    /// The larger of size and alignment.
    pub fn required_block_size(&self) -> (need: usize)
        ensures
            need == self.need(),
    {
        if self.size >= self.align {
            self.size
        } else {
            self.align
        }
    }
}

/// The index of the smallest size class that serves `layout`; `None` for a
/// request that is larger than every class.
pub fn list_index(layout: &Layout) -> (index: Option<usize>)
    ensures
        match index {
            Some(k) => k < NUM_CLASSES && class_for(layout.need()) == Some(k as int),
            None => class_for(layout.need()) is None,
        },
{
    let need = layout.required_block_size();
    let mut i: usize = 0;
    while i < NUM_CLASSES
        invariant
            i <= NUM_CLASSES,
            need == layout.need(),
            forall|j: int| 0 <= j < i ==> block_size(j) < need,
        decreases NUM_CLASSES - i,
    {
        if block_size_of(i) >= need as u64 {
            proof {
                lemma_smaller_classes(i as int, need as int);
            }
            return Some(i);
        }
        i += 1;
    }
    proof {
        lemma_smaller_classes(NUM_CLASSES as int, need as int);
    }
    None
}

/// Where the blocks of the classes below `i` are too small for `need`, the
/// class for `need` is not among them.
proof fn lemma_smaller_classes(i: int, need: int)
    requires
        0 <= i <= NUM_CLASSES,
        forall|j: int| 0 <= j < i ==> block_size(j) < need,
    ensures
        i < NUM_CLASSES && block_size(i) >= need ==> class_for(need) == Some(i),
        i == NUM_CLASSES ==> class_for(need) is None,
{
    assert(i > 0 ==> block_size(0) < need);
    assert(i > 1 ==> block_size(1) < need);
    assert(i > 2 ==> block_size(2) < need);
    assert(i > 3 ==> block_size(3) < need);
    assert(i > 4 ==> block_size(4) < need);
    assert(i > 5 ==> block_size(5) < need);
    assert(i > 6 ==> block_size(6) < need);
    assert(i > 7 ==> block_size(7) < need);
    assert(i > 8 ==> block_size(8) < need);
}

/// What became of a block that was given back.
#[derive(Clone, Copy, Debug, PartialEq, Eq, Structural)]
pub enum FreeOutcome {
    /// The block stands on the free list of its size class.
    Recycled,
    /// The free list of its size class was full: the block is lost.
    Leaked,
    /// The pages of a large allocation were given back.
    Released(usize),
    /// The pages of a large allocation were given back, but the page tables
    /// reported an error.
    ReleasedWithError(usize, UnmapError),
    /// The table of large allocations has no record for the address.
    UnknownLarge,
}


/// Block `x` belongs to size class `k`: it is aligned to the block size of
/// the class and lies in a page that was carved for the class.
pub open spec fn block_ok(x: u64, k: int, page_class: Map<int, int>) -> bool {
    &&& x as int % block_size(k) == 0
    &&& page_class.contains_key(page_of(x as int))
    &&& page_class[page_of(x as int)] == k
}

/// Where `s` divides 4096, the address `i * s` bytes into a page lies in
/// that page, a whole block before its end, and is a multiple of `s`.
proof fn lemma_aligned_offset(page: int, s: int, i: int)
    requires
        page % 4096 == 0,
        s > 0,
        4096int % s == 0,
        0 <= i < 4096int / s,
    ensures
        (page + i * s) % s == 0,
        page_of(page + i * s) == page,
        0 <= i * s <= 4096 - s,
{
    let c = 4096int / s;
    lemma_fundamental_div_mod(4096, s);
    assert(4096 == s * c);
    assert(0 <= i * s <= 4096 - s) by (nonlinear_arith)
        requires
            0 <= i <= c - 1,
            s > 0,
            4096 == s * c,
    ;
    assert(c > 0);
    lemma_mod_mod(page, s, c);
    assert(page % s == 0);
    lemma_mod_multiples_basic(i, s);
    lemma_add_mod_noop(page, i * s, s);
    lemma_add_mod_noop(page, i * s, 4096);
    lemma_small_mod((i * s) as nat, 4096);
}

/// Block `i` of size class `k` in a page lies in that page and is aligned to
/// the block size.
pub proof fn lemma_block_in_page(page: int, k: int, i: int)
    requires
        page % 4096 == 0,
        0 <= k < NUM_CLASSES,
        0 <= i < 4096int / block_size(k),
    ensures
        (page + i * block_size(k)) % block_size(k) == 0,
        page_of(page + i * block_size(k)) == page,
        0 <= i * block_size(k) <= 4096 - block_size(k),
{
    lemma_aligned_offset(page, block_size(k), i);
}

/// Every record stands for a run of pages that own their frames, and the
/// runs of two records do not overlap.
pub open spec fn records_backed<M: Mapper>(
    slots: Seq<Option<(u64, AllocationInfo)>>,
    pages: &PageAllocator<M>,
) -> bool {
    &&& forall|i: int|
        0 <= i < slots.len() ==> (#[trigger] slots[i] matches Some(record) ==> record.0 % 4096 == 0
            && record.1.num_pages > 0 && pages.owned_range(record.0, record.1.num_pages as nat))
    &&& forall|i: int, j: int|
        0 <= i < j < slots.len() ==> (#[trigger] slots[i] matches Some(a) ==> (
        #[trigger] slots[j] matches Some(b) ==> a.0 + 4096 * a.1.num_pages <= b.0 || b.0 + 4096
            * b.1.num_pages <= a.0))
}

/// Records that were backed before pages were handed out at the cursor are
/// backed afterwards, and none of them starts at or behind the old cursor.
pub proof fn lemma_records_stay_backed<M: Mapper>(
    slots: Seq<Option<(u64, AllocationInfo)>>,
    before: &PageAllocator<M>,
    after: &PageAllocator<M>,
)
    requires
        before.wf(),
        records_backed(slots, before),
        after.start() == before.start(),
        after.cursor() >= before.cursor(),
        after.pages().len() >= before.pages().len(),
        forall|i: int| 0 <= i < before.pages().len() ==> after.pages()[i] == before.pages()[i],
    ensures
        records_backed(slots, after),
        forall|i: int|
            0 <= i < slots.len() ==> (#[trigger] slots[i] matches Some(record) ==> record.0 + 4096
                * record.1.num_pages <= before.cursor()),
{
    assert forall|i: int| 0 <= i < slots.len() implies (#[trigger] slots[i] matches Some(record)
        ==> record.0 % 4096 == 0 && record.1.num_pages > 0 && after.owned_range(
        record.0,
        record.1.num_pages as nat,
    ) && record.0 + 4096 * record.1.num_pages <= before.cursor()) by {
        if let Some(record) = slots[i] {
            let first = (record.0 - before.start()) / 4096;
            assert(before.owned_range(record.0, record.1.num_pages as nat));
            assert forall|t: int| 0 <= t < record.1.num_pages implies #[trigger] after.pages()[first
                + t] is Owned by {
                assert(before.pages()[first + t] is Owned);
            }
        }
    }
}

/// Among `n` entries that all own their frame, `n` own their frame.
pub proof fn lemma_owned_in_all(pages: Seq<PageEntry>, from: int, n: nat)
    requires
        0 <= from,
        from + n <= pages.len(),
        forall|i: int| 0 <= i < n ==> #[trigger] pages[from + i] is Owned,
    ensures
        crate::page_allocator::owned_in(pages, from, n) == n,
    decreases n,
{
    if n > 0 {
        lemma_owned_in_all(pages, from, (n - 1) as nat);
        assert(pages[from + (n - 1)] is Owned);
    }
}

/// What the heap asks when it needs `n` pages: it asks the page allocator
/// for them, present and writable. They are granted when the window has
/// room, `n` frames are free and the page tables take every mapping.
pub open spec fn asked_heap_pages<M: Mapper>(
    pages: &PageAllocator<M>,
    pages_before: &PageAllocator<M>,
    n: nat,
    granted: bool,
) -> bool {
    &&& pages.asked_for_pages(pages_before, n, HEAP_PAGE_FLAGS, granted)
    &&& granted ==> pages.page_flags() == pages_before.page_flags() + Seq::new(
        n,
        |i: int| PageFlags::present_writable(),
    )
}

/// Nothing was asked of the page tables.
pub open spec fn asked_nothing<M: Mapper>(
    pages: &PageAllocator<M>,
    pages_before: &PageAllocator<M>,
) -> bool {
    &&& pages.requests() == pages_before.requests()
    &&& pages.answers() == pages_before.answers()
}

/// A large request can be served without the table of large allocations
/// overflowing: the table has an empty slot, or the pages cannot be
/// granted because the window has no room or too few frames are free.
pub open spec fn can_record<M: Mapper>(
    slots_have_room: bool,
    pages: &PageAllocator<M>,
    need: int,
) -> bool {
    ||| slots_have_room
    ||| pages.cursor() + 4096 * pages_for(need) > pages.end()
    ||| pages.frames().free_count() < pages_for(need)
}

/// What a request that is larger than every size class does: it takes the
/// pages that hold `need` bytes and records them in the first empty slot of
/// the table; where there are no pages, it changes nothing.
pub open spec fn took_pages<M: Mapper>(
    pages: &PageAllocator<M>,
    pages_before: &PageAllocator<M>,
    slots: Seq<Option<(u64, AllocationInfo)>>,
    slots_before: Seq<Option<(u64, AllocationInfo)>>,
    need: int,
    block: Option<u64>,
) -> bool {
    match block {
        Some(addr) => {
            &&& addr == pages_before.cursor()
            &&& pages.grown_from(pages_before, pages_for(need) as nat)
            &&& exists|i: int|
                is_first_free(slots_before, i) && slots == slots_before.update(
                    i,
                    Some((addr, AllocationInfo { num_pages: pages_for(need) as usize })),
                )
        },
        None => pages.same_as(pages_before) && slots == slots_before,
    }
}

/// What giving back a large allocation does: where the table has a record
/// for `addr`, the first such record leaves the table, its pages are given
/// back and as many frames are free again; where it has none, nothing
/// changes and the outcome says so.
pub open spec fn gave_pages<M: Mapper>(
    pages: &PageAllocator<M>,
    pages_before: &PageAllocator<M>,
    slots: Seq<Option<(u64, AllocationInfo)>>,
    slots_before: Seq<Option<(u64, AllocationInfo)>>,
    addr: u64,
    outcome: FreeOutcome,
) -> bool {
    if crate::alloc_info::absent(slots_before, addr) {
        &&& outcome == FreeOutcome::UnknownLarge
        &&& pages.same_as(pages_before)
        &&& asked_nothing(pages, pages_before)
        &&& slots == slots_before
    } else {
        exists|i: int|
            {
                let n = slots_before[i].unwrap().1.num_pages;
                &&& #[trigger] is_first_match(slots_before, i, addr)
                &&& slots == slots_before.update(i, None)
                &&& pages.shrunk_from(pages_before, addr, n as nat)
                &&& pages.frames().free_count() == pages_before.frames().free_count() + n
                &&& pages.kept_trace(pages_before)
                &&& pages.requests() == pages_before.requests() + unmapping_requests(
                    addr as int,
                    n as nat,
                )
                &&& match outcome {
                    FreeOutcome::Released(m) => m == n && unmapped_since(
                        pages.requests(),
                        pages.answers(),
                        pages_before.requests().len() as int,
                    ),
                    FreeOutcome::ReleasedWithError(m, e) => m == n && first_unmap_refused(
                        pages.requests(),
                        pages.answers(),
                        pages_before.requests().len() as int,
                        e,
                    ),
                    _ => false,
                }
            }
    }
}

/// The heap's free lists: for each of nine block sizes a stack of free
/// blocks, the block freed last on top.
pub struct FixedSizeBlockAllocator {
    lists: Vec<Vec<u64>>,
    owner: Ghost<Map<int, int>>,
}

impl FixedSizeBlockAllocator {
    /// Number of free lists.
    pub closed spec fn classes(&self) -> nat {
        self.lists@.len()
    }

    /// The free blocks of size class `k`, the next to hand out last.
    pub closed spec fn free_list(&self, k: int) -> Seq<u64> {
        self.lists@[k]@
    }

    /// For each page that was carved into blocks, its size class.
    pub closed spec fn page_class(&self) -> Map<int, int> {
        self.owner@
    }

    /// The free list of class `k` has at most `MAX_LIST_LENGTH` blocks, each
    /// a block of the class, and none twice.
    pub open spec fn list_wf(&self, k: int) -> bool {
        let list = self.free_list(k);
        &&& list.len() <= MAX_LIST_LENGTH
        &&& forall|i: int| 0 <= i < list.len() ==> block_ok(#[trigger] list[i], k, self.page_class())
        &&& forall|i: int, j: int| 0 <= i < j < list.len() ==> list[i] != list[j]
    }

    /// There are nine free lists, each well formed, and every carved page
    /// has one of the nine classes.
    pub open spec fn wf(&self) -> bool {
        &&& self.classes() == NUM_CLASSES
        &&& forall|k: int| 0 <= k < NUM_CLASSES ==> #[trigger] self.list_wf(k)
    }

    /// Every carved page is a page that `pages` has handed out.
    pub open spec fn backed_by<M: Mapper>(&self, pages: &PageAllocator<M>) -> bool {
        forall|page: int| #[trigger]
            self.page_class().contains_key(page) ==> page % 4096 == 0 && pages.start() <= page
                && page + 4096 <= pages.cursor()
    }

    /// The heap and the page allocator are well formed and fit together.
    pub open spec fn consistent<M: Mapper>(&self, pages: &PageAllocator<M>) -> bool {
        &&& self.wf()
        &&& pages.wf()
        &&& self.backed_by(pages)
    }

    /// The free lists of the classes other than `k` are those of `before`.
    pub open spec fn others_same(&self, before: &Self, k: int) -> bool {
        forall|c: int| 0 <= c < NUM_CLASSES && c != k ==> self.free_list(c) == before.free_list(c)
    }

    /// What a request of size class `k` does: it takes the block on top of
    /// the free list; where the list is empty, it takes a page, hands out its
    /// first block and puts the others on the list in address order; where
    /// there is no page, it changes nothing.
    pub open spec fn took_block<M: Mapper>(
        &self,
        before: &Self,
        pages: &PageAllocator<M>,
        pages_before: &PageAllocator<M>,
        k: int,
        block: Option<u64>,
    ) -> bool {
        &&& self.others_same(before, k)
        &&& if before.free_list(k).len() > 0 {
            &&& block == Some(before.free_list(k).last())
            &&& self.free_list(k) == before.free_list(k).drop_last()
            &&& self.page_class() == before.page_class()
            &&& pages.same_as(pages_before)
        } else {
            match block {
                Some(p) => {
                    &&& p == pages_before.cursor()
                    &&& pages.grown_from(pages_before, 1)
                    &&& self.free_list(k) == carved(p as int, k, 1)
                    &&& self.page_class() == before.page_class().insert(p as int, k)
                },
                None => {
                    &&& self.free_list(k) == before.free_list(k)
                    &&& self.page_class() == before.page_class()
                    &&& pages.same_as(pages_before)
                },
            }
        }
    }

    /// What giving back the block `ptr` of size class `k` does: the block
    /// goes on top of the free list of the class, or is lost where the list
    /// is full.
    pub open spec fn gave_block(&self, before: &Self, k: int, ptr: u64, outcome: FreeOutcome) -> bool {
        &&& self.others_same(before, k)
        &&& self.page_class() == before.page_class()
        &&& if before.free_list(k).len() < MAX_LIST_LENGTH {
            outcome == FreeOutcome::Recycled && self.free_list(k) == before.free_list(k).push(ptr)
        } else {
            outcome == FreeOutcome::Leaked && self.free_list(k) == before.free_list(k)
        }
    }

    /// A heap with empty free lists.
    pub fn new() -> (heap: Self)
        ensures
            heap.wf(),
            forall|k: int| 0 <= k < NUM_CLASSES ==> heap.free_list(k).len() == 0,
            heap.page_class() == Map::<int, int>::empty(),
    {
        let mut lists: Vec<Vec<u64>> = Vec::new();
        let mut i: usize = 0;
        while i < NUM_CLASSES
            invariant
                i <= NUM_CLASSES,
                lists@.len() == i,
                forall|k: int| 0 <= k < i ==> (#[trigger] lists@[k])@.len() == 0,
            decreases NUM_CLASSES - i,
        {
            lists.push(Vec::new());
            i += 1;
        }
        let heap = FixedSizeBlockAllocator { lists, owner: Ghost(Map::empty()) };
        proof {
            assert forall|k: int| 0 <= k < NUM_CLASSES implies #[trigger] heap.list_wf(k) by {
                assert(heap.lists@[k]@.len() == 0);
            }
        }
        heap
    }

    /// Number of free blocks of size class `index`.
    pub fn list_length(&self, index: usize) -> (n: usize)
        requires
            self.wf(),
            index < NUM_CLASSES,
        ensures
            n == self.free_list(index as int).len(),
    {
        self.lists[index].len()
    }

    /// The block of size class `index` that would be handed out next.
    pub fn list_head(&self, index: usize) -> (head: Option<u64>)
        requires
            self.wf(),
            index < NUM_CLASSES,
        ensures
            head == if self.free_list(index as int).len() > 0 {
                Some(self.free_list(index as int).last())
            } else {
                None
            },
    {
        let n = self.lists[index].len();
        if n > 0 {
            Some(self.lists[index][n - 1])
        } else {
            None
        }
    }

    /// Puts the blocks of size class `k` in the fresh page at `page`, from
    /// block `from` on, onto the free list of the class, in address order.
    fn carve(&mut self, k: usize, page: u64, from: u64)
        requires
            old(self).wf(),
            k < NUM_CLASSES,
            page % 4096 == 0,
            page + 4096 <= u64::MAX,
            from <= 4096int / block_size(k as int),
            !old(self).page_class().contains_key(page as int),
            old(self).free_list(k as int).len() + (4096int / block_size(k as int) - from)
                <= MAX_LIST_LENGTH,
        ensures
            final(self).wf(),
            final(self).others_same(old(self), k as int),
            final(self).free_list(k as int) == old(self).free_list(k as int) + carved(
                page as int,
                k as int,
                from as int,
            ),
            final(self).page_class() == old(self).page_class().insert(page as int, k as int),
    {
        let size = block_size_of(k);
        let count: u64 = PAGE_SIZE / size;
        let ghost start_len = self.lists@[k as int]@.len() as int;
        let mut i: u64 = from;
        while i < count
            invariant
                from <= i <= count,
                k < NUM_CLASSES,
                size == block_size(k as int),
                count == 4096int / block_size(k as int),
                page % 4096 == 0,
                page + 4096 <= u64::MAX,
                self.lists@.len() == NUM_CLASSES,
                self.owner == old(self).owner,
                start_len == old(self).lists@[k as int]@.len(),
                self.lists@[k as int]@.len() == start_len + (i - from),
                forall|c: int|
                    0 <= c < NUM_CLASSES && c != k ==> #[trigger] self.lists@[c] == old(self).lists@[c],
                forall|j: int|
                    0 <= j < start_len ==> #[trigger] self.lists@[k as int]@[j] == old(
                        self,
                    ).lists@[k as int]@[j],
                forall|j: int|
                    0 <= j < i - from ==> #[trigger] self.lists@[k as int]@[start_len + j] == page + (
                    from + j) * size,
            decreases count - i,
        {
            proof {
                lemma_block_in_page(page as int, k as int, i as int);
            }
            let block: u64 = page + i * size;
            self.lists[k].push(block);
            i += 1;
        }
        self.owner = Ghost(self.owner@.insert(page as int, k as int));
        proof {
            let piece = carved(page as int, k as int, from as int);
            assert(self.free_list(k as int) =~= old(self).free_list(k as int) + piece) by {
                assert forall|j: int| 0 <= j < self.free_list(k as int).len() implies self.free_list(
                    k as int,
                )[j] == (old(self).free_list(k as int) + piece)[j] by {
                    if j >= start_len {
                        lemma_block_in_page(page as int, k as int, from + (j - start_len));
                        assert(self.lists@[k as int]@[start_len + (j - start_len)] == page + (from + (j
                            - start_len)) * size);
                    }
                }
            }
            assert forall|c: int| 0 <= c < NUM_CLASSES implies #[trigger] self.list_wf(c) by {
                assert(old(self).list_wf(c));
                let list = self.free_list(c);
                if c != k {
                    assert(list == old(self).free_list(c));
                    assert forall|i: int| 0 <= i < list.len() implies block_ok(
                        #[trigger] list[i],
                        c,
                        self.page_class(),
                    ) by {
                        assert(block_ok(old(self).free_list(c)[i], c, old(self).page_class()));
                    }
                } else {
                    assert forall|i: int| 0 <= i < list.len() implies block_ok(
                        #[trigger] list[i],
                        c,
                        self.page_class(),
                    ) by {
                        if i < start_len {
                            assert(list[i] == old(self).free_list(c)[i]);
                            assert(block_ok(old(self).free_list(c)[i], c, old(self).page_class()));
                        } else {
                            lemma_block_in_page(page as int, k as int, from + (i - start_len));
                            assert(list[i] == piece[i - start_len]);
                        }
                    }
                    assert forall|i: int, j: int| 0 <= i < j < list.len() implies list[i]
                        != list[j] by {
                        if j < start_len {
                            assert(list[i] == old(self).free_list(c)[i]);
                            assert(list[j] == old(self).free_list(c)[j]);
                        } else {
                            lemma_block_in_page(page as int, k as int, from + (j - start_len));
                            assert(list[j] == piece[j - start_len]);
                            if i < start_len {
                                assert(list[i] == old(self).free_list(c)[i]);
                                assert(block_ok(
                                    old(self).free_list(c)[i],
                                    c,
                                    old(self).page_class(),
                                ));
                            } else {
                                lemma_block_in_page(page as int, k as int, from + (i - start_len));
                                assert(list[i] == piece[i - start_len]);
                                lemma_blocks_apart(k as int, from + (i - start_len), from + (j - start_len));
                            }
                        }
                    }
                }
            }
        }
    }

    /// Primes the free list of the smallest class with the blocks of one
    /// page, which it asks of the page allocator, present and writable.
    /// Where the page is not granted, the heap stays as it is.
    pub fn init<M: Mapper>(&mut self, pages: &mut PageAllocator<M>)
        requires
            old(self).consistent(old(pages)),
            old(self).free_list(0).len() + 512 <= MAX_LIST_LENGTH,
        ensures
            final(self).consistent(final(pages)),
            final(self).others_same(old(self), 0),
            ({
                &&& asked_heap_pages(final(pages), old(pages), 1, false)
                &&& final(pages).same_as(old(pages))
                &&& final(self).free_list(0) == old(self).free_list(0)
                &&& final(self).page_class() == old(self).page_class()
            }) || ({
                &&& asked_heap_pages(final(pages), old(pages), 1, true)
                &&& final(pages).grown_from(old(pages), 1)
                &&& final(self).free_list(0) == old(self).free_list(0) + carved(
                    old(pages).cursor() as int,
                    0,
                    0,
                )
                &&& final(self).page_class() == old(self).page_class().insert(
                    old(pages).cursor() as int,
                    0,
                )
            }),
    {
        match pages.allocate(1, PageFlags::read_write()) {
            Ok(start) => {
                self.carve(0, start, 0);
            },
            Err(_) => {},
        }
    }

    /// Asks the page allocator for one page, present and writable, for size
    /// class `index`, hands out its first block and puts the others on the
    /// free list of the class, in address order. `None`, with the heap as it
    /// was, where the page is not granted.
    pub fn refill_free_list<M: Mapper>(&mut self, pages: &mut PageAllocator<M>, index: usize) -> (block:
        Option<u64>)
        requires
            old(self).consistent(old(pages)),
            index < NUM_CLASSES,
            old(self).free_list(index as int).len() + 4096int / block_size(index as int) - 1
                <= MAX_LIST_LENGTH,
        ensures
            final(self).consistent(final(pages)),
            final(self).others_same(old(self), index as int),
            asked_heap_pages(final(pages), old(pages), 1, block is Some),
            match block {
                Some(p) => {
                    &&& p == old(pages).cursor()
                    &&& final(pages).grown_from(old(pages), 1)
                    &&& final(self).free_list(index as int) == old(self).free_list(index as int)
                        + carved(p as int, index as int, 1)
                    &&& final(self).page_class() == old(self).page_class().insert(
                        p as int,
                        index as int,
                    )
                    &&& block_ok(p, index as int, final(self).page_class())
                    &&& !final(self).free_list(index as int).contains(p)
                },
                None => {
                    &&& final(pages).same_as(old(pages))
                    &&& final(self).free_list(index as int) == old(self).free_list(index as int)
                    &&& final(self).page_class() == old(self).page_class()
                },
            },
    {
        match pages.allocate(1, PageFlags::read_write()) {
            Ok(page) => {
                self.carve(index, page, 1);
                proof {
                    let k = index as int;
                    lemma_block_in_page(page as int, k, 0);
                    let list = self.free_list(k);
                    let piece = carved(page as int, k, 1);
                    let start_len = old(self).free_list(k).len() as int;
                    assert forall|i: int| 0 <= i < list.len() implies list[i] != page by {
                        if i < start_len {
                            assert(list[i] == old(self).free_list(k)[i]);
                            assert(old(self).list_wf(k));
                            assert(block_ok(old(self).free_list(k)[i], k, old(self).page_class()));
                        } else {
                            assert(list[i] == piece[i - start_len]);
                            lemma_block_in_page(page as int, k, 1 + (i - start_len));
                            lemma_blocks_apart(k, 0, 1 + (i - start_len));
                        }
                    }
                }
                Some(page)
            },
            Err(_) => None,
        }
    }

    /// Asks the page allocator for the pages that hold the bytes of `layout`,
    /// present and writable, and records them in the table of large
    /// allocations. `None`, with the table as it was, where the pages are
    /// not granted.
    pub fn fallback_alloc<M: Mapper>(
        pages: &mut PageAllocator<M>,
        large: &mut LargeAllocTable,
        layout: Layout,
    ) -> (block: Option<u64>)
        requires
            old(pages).wf(),
            can_record(old(large).has_room(), old(pages), layout.need()),
            records_backed(old(large).slots(), old(pages)),
            layout.need() > 0,
        ensures
            final(pages).wf(),
            records_backed(final(large).slots(), final(pages)),
            took_pages(
                final(pages),
                old(pages),
                final(large).slots(),
                old(large).slots(),
                layout.need(),
                block,
            ),
            asked_heap_pages(
                final(pages),
                old(pages),
                pages_for(layout.need()) as nat,
                block is Some,
            ),
            block matches Some(addr) ==> crate::alloc_info::absent(old(large).slots(), addr),
    {
        let need = layout.required_block_size();
        let num_pages: usize = need / 4096 + if need % 4096 != 0 {
            1usize
        } else {
            0usize
        };
        match pages.allocate(num_pages, PageFlags::read_write()) {
            Ok(addr) => {
                let info = AllocationInfo { num_pages };
                large.insert(addr, info);
                proof {
                    let before = old(large).slots();
                    let i = choose|i: int|
                        is_first_free(before, i) && large.slots() == before.update(
                            i,
                            Some((addr, info)),
                        );
                    lemma_record_added(before, i, addr, info, old(pages), pages);
                }
                Some(addr)
            },
            Err(_) => None,
        }
    }

    /// Serves a request. A request that fits a size class gets the block on
    /// top of the free list of the class, or the first block of a fresh page
    /// where the list is empty; a larger one gets whole pages, which the
    /// table of large allocations records. `None` where memory has run out.
    pub fn allocate<M: Mapper>(
        &mut self,
        pages: &mut PageAllocator<M>,
        large: &mut LargeAllocTable,
        layout: Layout,
    ) -> (block: Option<u64>)
        requires
            old(self).consistent(old(pages)),
            records_backed(old(large).slots(), old(pages)),
            class_for(layout.need()) is None ==> can_record(
                old(large).has_room(),
                old(pages),
                layout.need(),
            ),
        ensures
            final(self).consistent(final(pages)),
            records_backed(final(large).slots(), final(pages)),
            match class_for(layout.need()) {
                Some(k) => {
                    &&& final(large).slots() == old(large).slots()
                    &&& final(self).took_block(old(self), final(pages), old(pages), k, block)
                    &&& block matches Some(x) ==> block_ok(x, k, final(self).page_class())
                        && !final(self).free_list(k).contains(x)
                    &&& if old(self).free_list(k).len() > 0 {
                        asked_nothing(final(pages), old(pages))
                    } else {
                        asked_heap_pages(final(pages), old(pages), 1, block is Some)
                    }
                },
                None => {
                    &&& *final(self) == *old(self)
                    &&& took_pages(
                        final(pages),
                        old(pages),
                        final(large).slots(),
                        old(large).slots(),
                        layout.need(),
                        block,
                    )
                    &&& asked_heap_pages(
                        final(pages),
                        old(pages),
                        pages_for(layout.need()) as nat,
                        block is Some,
                    )
                },
            },
    {
        match list_index(&layout) {
            Some(index) => {
                assert(old(self).list_wf(index as int));
                if self.lists[index].len() > 0 {
                    let block = self.lists[index].pop();
                    proof {
                        let k = index as int;
                        let before = old(self).free_list(k);
                        assert forall|c: int| 0 <= c < NUM_CLASSES implies #[trigger] self.list_wf(
                            c,
                        ) by {
                            assert(old(self).list_wf(c));
                            if c == k {
                                let list = self.free_list(c);
                                assert forall|i: int| 0 <= i < list.len() implies block_ok(
                                    #[trigger] list[i],
                                    c,
                                    self.page_class(),
                                ) by {
                                    assert(list[i] == before[i]);
                                }
                                assert forall|i: int, j: int|
                                    0 <= i < j < list.len() implies list[i] != list[j] by {
                                    assert(list[i] == before[i] && list[j] == before[j]);
                                }
                            } else {
                                assert(self.free_list(c) == old(self).free_list(c));
                            }
                        }
                        let list = self.free_list(k);
                        let x = before.last();
                        assert(block_ok(before[before.len() - 1], k, old(self).page_class()));
                        assert forall|i: int| 0 <= i < list.len() implies list[i] != x by {
                            assert(list[i] == before[i]);
                        }
                    }
                    block
                } else {
                    let block = self.refill_free_list(pages, index);
                    proof {
                        lemma_records_stay_backed(large.slots(), old(pages), pages);
                        assert(old(self).free_list(index as int) + carved(
                            old(pages).cursor() as int,
                            index as int,
                            1,
                        ) =~= carved(old(pages).cursor() as int, index as int, 1));
                    }
                    block
                }
            },
            None => Self::fallback_alloc(pages, large, layout),
        }
    }

    /// Takes back a block. A block of a size class goes on top of the free
    /// list of the class, or is lost where the list is full. For a larger
    /// one the record in the table of large allocations is looked up and
    /// removed, and its pages are given back; without a record nothing is
    /// done.
    pub fn dealloc<M: Mapper>(
        &mut self,
        pages: &mut PageAllocator<M>,
        large: &mut LargeAllocTable,
        ptr: u64,
        layout: Layout,
    ) -> (outcome: FreeOutcome)
        requires
            old(self).consistent(old(pages)),
            records_backed(old(large).slots(), old(pages)),
            match class_for(layout.need()) {
                Some(k) => block_ok(ptr, k, old(self).page_class()) && !old(self).free_list(
                    k,
                ).contains(ptr),
                None => true,
            },
        ensures
            final(self).consistent(final(pages)),
            records_backed(final(large).slots(), final(pages)),
            match class_for(layout.need()) {
                Some(k) => {
                    &&& final(large).slots() == old(large).slots()
                    &&& final(pages).same_as(old(pages))
                    &&& asked_nothing(final(pages), old(pages))
                    &&& final(self).gave_block(old(self), k, ptr, outcome)
                },
                None => {
                    &&& *final(self) == *old(self)
                    &&& gave_pages(
                        final(pages),
                        old(pages),
                        final(large).slots(),
                        old(large).slots(),
                        ptr,
                        outcome,
                    )
                },
            },
    {
        match list_index(&layout) {
            Some(index) => {
                assert(old(self).list_wf(index as int));
                if self.lists[index].len() < MAX_LIST_LENGTH {
                    self.lists[index].push(ptr);
                    proof {
                        let k = index as int;
                        let before = old(self).free_list(k);
                        assert forall|c: int| 0 <= c < NUM_CLASSES implies #[trigger] self.list_wf(
                            c,
                        ) by {
                            assert(old(self).list_wf(c));
                            if c == k {
                                let list = self.free_list(c);
                                assert forall|i: int| 0 <= i < list.len() implies block_ok(
                                    #[trigger] list[i],
                                    c,
                                    self.page_class(),
                                ) by {
                                    if i < before.len() {
                                        assert(list[i] == before[i]);
                                    }
                                }
                                assert forall|i: int, j: int|
                                    0 <= i < j < list.len() implies list[i] != list[j] by {
                                    assert(list[i] == before[i]);
                                    if j < before.len() {
                                        assert(list[j] == before[j]);
                                    } else {
                                        assert(before.contains(before[i]));
                                    }
                                }
                            } else {
                                assert(self.free_list(c) == old(self).free_list(c));
                            }
                        }
                    }
                    FreeOutcome::Recycled
                } else {
                    FreeOutcome::Leaked
                }
            },
            None => {
                match large.remove(ptr) {
                    None => FreeOutcome::UnknownLarge,
                    Some(num_pages) => {
                        let ghost before = old(large).slots();
                        let ghost i = choose|i: int|
                            is_first_match(before, i, ptr) && before[i].unwrap().1.num_pages
                                == num_pages && large.slots() == before.update(i, None);
                        proof {
                            assert(before[i] matches Some(record) && record.0 == ptr);
                            assert(pages.owned_range(ptr, num_pages as nat));
                            assert(pages.mapped_range(ptr, num_pages as nat)) by {
                                let first = (ptr - pages.start()) / 4096;
                                assert forall|t: int| 0 <= t < num_pages implies #[trigger] pages.pages()[first
                                    + t] != PageEntry::Unmapped by {
                                    assert(pages.pages()[first + t] is Owned);
                                }
                            }
                            lemma_owned_in_all(
                                pages.pages(),
                                (ptr - pages.start()) / 4096,
                                num_pages as nat,
                            );
                        }
                        let result = pages.dealloc(ptr, num_pages);
                        proof {
                            lemma_records_after_release(before, i, old(pages), pages);
                            assert(!crate::alloc_info::absent(before, ptr)) by {
                                assert(crate::alloc_info::holds(before, i, ptr));
                            }
                        }
                        match result {
                            Ok(()) => FreeOutcome::Released(num_pages),
                            Err(PageFreeError::Unmap(e)) => FreeOutcome::ReleasedWithError(
                                num_pages,
                                e,
                            ),
                            Err(PageFreeError::NotMapped) => unreached(),
                        }
                    },
                }
            },
        }
    }
}

/// Two blocks of a page with different numbers start at different offsets.
proof fn lemma_blocks_apart(k: int, i: int, j: int)
    requires
        0 <= k < NUM_CLASSES,
        0 <= i < j,
    ensures
        i * block_size(k) < j * block_size(k),
{
    assert(i * block_size(k) < j * block_size(k)) by (nonlinear_arith)
        requires
            0 <= i < j,
            block_size(k) > 0,
    ;
}

/// A record for pages that were just handed out at the cursor, put into an
/// empty slot, keeps the records backed; no record was there for the address
/// before.
proof fn lemma_record_added<M: Mapper>(
    before: Seq<Option<(u64, AllocationInfo)>>,
    i: int,
    addr: u64,
    info: AllocationInfo,
    pages_before: &PageAllocator<M>,
    pages: &PageAllocator<M>,
)
    requires
        pages_before.wf(),
        pages.wf(),
        records_backed(before, pages_before),
        0 <= i < before.len(),
        before[i] is None,
        info.num_pages > 0,
        addr == pages_before.cursor(),
        pages.grown_from(pages_before, info.num_pages as nat),
    ensures
        records_backed(before.update(i, Some((addr, info))), pages),
        crate::alloc_info::absent(before, addr),
{
    let slots = before.update(i, Some((addr, info)));
    lemma_records_stay_backed(before, pages_before, pages);
    let len = pages_before.pages().len() as int;
    assert((addr - pages.start()) / 4096 == len);
    assert forall|t: int| 0 <= t < info.num_pages implies #[trigger] pages.pages()[len + t] is Owned by {}
    assert(pages.owned_range(addr, info.num_pages as nat));
    assert forall|j: int| 0 <= j < slots.len() implies (#[trigger] slots[j] matches Some(record)
        ==> record.0 % 4096 == 0 && record.1.num_pages > 0 && pages.owned_range(
        record.0,
        record.1.num_pages as nat,
    )) by {
        if j != i {
            assert(slots[j] == before[j]);
        }
    }
    assert forall|a: int, b: int| 0 <= a < b < slots.len() implies (#[trigger] slots[a] matches Some(
        x,
    ) ==> (#[trigger] slots[b] matches Some(y) ==> x.0 + 4096 * x.1.num_pages <= y.0 || y.0 + 4096
        * y.1.num_pages <= x.0)) by {
        if a != i {
            assert(slots[a] == before[a]);
        }
        if b != i {
            assert(slots[b] == before[b]);
        }
    }
    assert forall|j: int| !crate::alloc_info::holds(before, j, addr) by {
        if 0 <= j < before.len() {
            if let Some(record) = before[j] {
                assert(record.0 + 4096 * record.1.num_pages <= addr);
            }
        }
    }
}

/// Once the pages of record `i` are given back and the record is removed,
/// the other records are backed as before.
proof fn lemma_records_after_release<M: Mapper>(
    before: Seq<Option<(u64, AllocationInfo)>>,
    i: int,
    pages_before: &PageAllocator<M>,
    pages: &PageAllocator<M>,
)
    requires
        pages_before.wf(),
        records_backed(before, pages_before),
        0 <= i < before.len(),
        before[i] is Some,
        pages.shrunk_from(
            pages_before,
            before[i].unwrap().0,
            before[i].unwrap().1.num_pages as nat,
        ),
    ensures
        records_backed(before.update(i, None), pages),
{
    let slots = before.update(i, None);
    let gone = before[i].unwrap();
    let first = (gone.0 - pages_before.start()) / 4096;
    assert(pages_before.owned_range(gone.0, gone.1.num_pages as nat));
    assert forall|j: int| 0 <= j < slots.len() implies (#[trigger] slots[j] matches Some(record)
        ==> record.0 % 4096 == 0 && record.1.num_pages > 0 && pages.owned_range(
        record.0,
        record.1.num_pages as nat,
    )) by {
        if j != i {
            assert(slots[j] == before[j]);
            if let Some(record) = before[j] {
                let at = (record.0 - pages_before.start()) / 4096;
                assert(pages_before.owned_range(record.0, record.1.num_pages as nat));
                if j < i {
                    assert(before[j] is Some && before[i] is Some);
                } else {
                    assert(before[i] is Some && before[j] is Some);
                }
                assert(record.0 + 4096 * record.1.num_pages <= gone.0 || gone.0 + 4096
                    * gone.1.num_pages <= record.0);
                assert forall|t: int| 0 <= t < record.1.num_pages implies #[trigger] pages.pages()[at
                    + t] is Owned by {
                    assert(pages_before.pages()[at + t] is Owned);
                    assert(!(first <= at + t < first + gone.1.num_pages));
                }
            }
        }
    }
    assert forall|a: int, b: int| 0 <= a < b < slots.len() implies (#[trigger] slots[a] matches Some(
        x,
    ) ==> (#[trigger] slots[b] matches Some(y) ==> x.0 + 4096 * x.1.num_pages <= y.0 || y.0 + 4096
        * y.1.num_pages <= x.0)) by {
        if a != i && b != i {
            assert(slots[a] == before[a] && slots[b] == before[b]);
        }
    }
}

/// Two different multiples of `s` lie at least `s` apart.
proof fn lemma_multiples_apart(a: int, b: int, s: int)
    requires
        s > 0,
        a % s == 0,
        b % s == 0,
        a != b,
    ensures
        a + s <= b || b + s <= a,
{
    lemma_fundamental_div_mod(a, s);
    lemma_fundamental_div_mod(b, s);
    let qa = a / s;
    let qb = b / s;
    assert(a == s * qa && b == s * qb);
    if qa < qb {
        assert(s * qa + s <= s * qb) by (nonlinear_arith)
            requires
                qa + 1 <= qb,
                s > 0,
        ;
    } else {
        assert(qa != qb);
        assert(s * qb + s <= s * qa) by (nonlinear_arith)
            requires
                qb + 1 <= qa,
                s > 0,
        ;
    }
}

/// A block of size class `k` ends in the page in which it starts.
proof fn lemma_block_ends_in_page(x: int, k: int)
    requires
        0 <= k < NUM_CLASSES,
        x >= 0,
        x % block_size(k) == 0,
    ensures
        x + block_size(k) <= page_of(x) + 4096,
{
    let s = block_size(k);
    let c = 4096int / s;
    lemma_fundamental_div_mod(4096, s);
    assert(4096 == s * c);
    let off = x % 4096;
    lemma_mod_mod(x, s, c);
    assert(off % s == 0);
    if off + s > 4096 {
        lemma_multiples_apart(off, 4096, s);
    }
}

/// No block stands on two free lists, and none stands twice on one.
pub proof fn lemma_lists_share_no_block(
    heap: &FixedSizeBlockAllocator,
    k: int,
    i: int,
    l: int,
    j: int,
)
    requires
        heap.wf(),
        0 <= k < NUM_CLASSES,
        0 <= l < NUM_CLASSES,
        0 <= i < heap.free_list(k).len(),
        0 <= j < heap.free_list(l).len(),
        k != l || i != j,
    ensures
        heap.free_list(k)[i] != heap.free_list(l)[j],
{
    assert(heap.list_wf(k));
    assert(heap.list_wf(l));
    assert(block_ok(heap.free_list(k)[i], k, heap.page_class()));
    assert(block_ok(heap.free_list(l)[j], l, heap.page_class()));
    if k == l {
        if i < j {
            assert(heap.free_list(k)[i] != heap.free_list(k)[j]);
        } else {
            assert(heap.free_list(k)[j] != heap.free_list(k)[i]);
        }
    }
}

/// A request that finds a block on the free list of its size class, followed
/// by the return of that block, leaves every free list, the carved pages
/// and the page allocator as they were.
pub proof fn lemma_block_round_trip<M: Mapper>(
    before: &FixedSizeBlockAllocator,
    between: &FixedSizeBlockAllocator,
    after: &FixedSizeBlockAllocator,
    pages_before: &PageAllocator<M>,
    pages_between: &PageAllocator<M>,
    k: int,
    block: u64,
    outcome: FreeOutcome,
)
    requires
        before.wf(),
        0 <= k < NUM_CLASSES,
        before.free_list(k).len() > 0,
        between.took_block(before, pages_between, pages_before, k, Some(block)),
        after.gave_block(between, k, block, outcome),
    ensures
        outcome == FreeOutcome::Recycled,
        forall|c: int| 0 <= c < NUM_CLASSES ==> after.free_list(c) == before.free_list(c),
        after.page_class() == before.page_class(),
        pages_between.same_as(pages_before),
{
    assert(before.list_wf(k));
    assert(before.free_list(k).drop_last().push(before.free_list(k).last()) =~= before.free_list(k));
}

/// A large request followed by the return of its pages leaves the table of
/// large allocations and the bitmap of frames as they were; the frames
/// that the request took are free again.
pub proof fn lemma_pages_round_trip<M: Mapper>(
    pages_before: &PageAllocator<M>,
    pages_between: &PageAllocator<M>,
    pages_after: &PageAllocator<M>,
    slots_before: Seq<Option<(u64, AllocationInfo)>>,
    slots_between: Seq<Option<(u64, AllocationInfo)>>,
    slots_after: Seq<Option<(u64, AllocationInfo)>>,
    need: int,
    addr: u64,
    outcome: FreeOutcome,
)
    requires
        pages_before.wf(),
        records_backed(slots_before, pages_before),
        0 < need <= usize::MAX,
        took_pages(pages_between, pages_before, slots_between, slots_before, need, Some(addr)),
        gave_pages(pages_after, pages_between, slots_after, slots_between, addr, outcome),
    ensures
        slots_after == slots_before,
        pages_after.frames().bits() == pages_before.frames().bits(),
        pages_after.frames().free_count() == pages_before.frames().free_count(),
        outcome matches FreeOutcome::Released(n) ==> n == pages_for(need),
        outcome != FreeOutcome::UnknownLarge,
{
    let n = pages_for(need) as usize;
    let info = AllocationInfo { num_pages: n };
    lemma_records_stay_backed(slots_before, pages_before, pages_between);
    assert forall|j: int| !crate::alloc_info::holds(slots_before, j, addr) by {
        if 0 <= j < slots_before.len() {
            if let Some(record) = slots_before[j] {
                assert(record.0 + 4096 * record.1.num_pages <= addr);
            }
        }
    }
    let i = choose|i: int|
        is_first_free(slots_before, i) && slots_between == slots_before.update(
            i,
            Some((addr, info)),
        );
    assert(crate::alloc_info::holds(slots_between, i, addr));
    assert(!crate::alloc_info::absent(slots_between, addr));
    let j = choose|j: int|
        {
            let m = slots_between[j].unwrap().1.num_pages;
            &&& #[trigger] is_first_match(slots_between, j, addr)
            &&& slots_after == slots_between.update(j, None)
            &&& pages_after.shrunk_from(pages_between, addr, m as nat)
            &&& pages_after.frames().free_count() == pages_between.frames().free_count() + m
            &&& match outcome {
                FreeOutcome::Released(r) => r == m,
                FreeOutcome::ReleasedWithError(r, _) => r == m,
                _ => false,
            }
        };
    crate::alloc_info::lemma_insert_then_remove(slots_before, addr, info, i, j);
    let len = pages_before.pages().len() as int;
    assert((addr - pages_between.start()) / 4096 == len);
    let bits0 = pages_before.frames().bits();
    let bits1 = pages_between.frames().bits();
    let bits2 = pages_after.frames().bits();
    assert forall|g: int| 0 <= g < bits0.len() implies bits2[g] == bits0[g] by {
        if exists|t: int| 0 <= t < n && owns(#[trigger] pages_between.pages()[len + t], g) {
            let t = choose|t: int| 0 <= t < n && owns(#[trigger] pages_between.pages()[len + t], g);
            assert(len <= len + t < len + n && owns(pages_between.pages()[len + t], g));
        }
        if exists|t: int| len <= t < len + n && owns(#[trigger] pages_between.pages()[t], g) {
            let t = choose|t: int| len <= t < len + n && owns(#[trigger] pages_between.pages()[t], g);
            assert(owns(pages_between.pages()[len + (t - len)], g));
        }
    }
    assert(bits2 =~= bits0);
}

/// Two requests of one size class, one after the other, get blocks that are
/// aligned to the block size of the class and do not overlap.
pub proof fn lemma_successive_blocks<M: Mapper>(
    first: &FixedSizeBlockAllocator,
    second: &FixedSizeBlockAllocator,
    third: &FixedSizeBlockAllocator,
    pages_first: &PageAllocator<M>,
    pages_second: &PageAllocator<M>,
    pages_third: &PageAllocator<M>,
    k: int,
    a: u64,
    b: u64,
)
    requires
        0 <= k < NUM_CLASSES,
        first.consistent(pages_first),
        second.consistent(pages_second),
        second.took_block(first, pages_second, pages_first, k, Some(a)),
        third.took_block(second, pages_third, pages_second, k, Some(b)),
    ensures
        a as int % block_size(k) == 0,
        b as int % block_size(k) == 0,
        a + block_size(k) <= b || b + block_size(k) <= a,
{
    let s = block_size(k);
    let list = first.free_list(k);
    assert(first.list_wf(k));
    assert(second.list_wf(k));
    if list.len() > 0 {
        assert(block_ok(list[list.len() - 1], k, first.page_class()));
        if second.free_list(k).len() > 0 {
            let rest = second.free_list(k);
            assert(b == rest[rest.len() - 1]);
            assert(rest[rest.len() - 1] == list[list.len() - 2]);
            assert(block_ok(list[list.len() - 2], k, first.page_class()));
            lemma_multiples_apart(a as int, b as int, s);
        } else {
            assert(b == pages_second.cursor());
            lemma_block_in_page(b as int, k, 0);
            lemma_block_ends_in_page(a as int, k);
            assert(first.page_class().contains_key(page_of(a as int)));
        }
    } else {
        lemma_block_in_page(a as int, k, 0);
        let piece = carved(a as int, k, 1);
        let count = 4096int / s;
        assert(piece.len() == count - 1);
        assert(second.free_list(k) == piece);
        assert(b == piece[piece.len() - 1]);
        lemma_block_in_page(a as int, k, count - 1);
        lemma_blocks_apart(k, 0, count - 1);
    }
}

} // verus!
