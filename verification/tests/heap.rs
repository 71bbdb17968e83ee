use kernel_memory::alloc_info::{large_alloc_insert, AllocationInfo, LargeAllocTable};
use kernel_memory::fixed_size_block::{
    block_size_of, list_index, FixedSizeBlockAllocator, FreeOutcome, Layout, MAX_LIST_LENGTH,
    NUM_CLASSES,
};
use kernel_memory::memory::{
    bitmap_bytes_needed, BitmapFrameAllocator, MemoryRegion, MemoryRegionKind};
use kernel_memory::page_allocator::{
    MapToError, Mapper, PageAllocator, UnmapError, KERNEL_HEAP_START,
};
use std::cell::RefCell;
use std::collections::HashMap;
use std::rc::Rc;

fn storage_for(regions: &[MemoryRegion]) -> &'static mut [u8] {
    Box::leak(vec![0xA5u8; bitmap_bytes_needed(regions) as usize].into_boxed_slice())
}

#[derive(Default)]
struct Tables {
    mapped: HashMap<u64, u64>,
    refuse_unmap: bool,
    refuse_map: bool,
    asked: Vec<String>,
}

struct TestMapper(Rc<RefCell<Tables>>);

impl Mapper for TestMapper {
    fn map_to(&mut self, page: u64, frame: u64, flags: u64) -> Result<(), MapToError> {
        let mut tables = self.0.borrow_mut();
        tables.asked.push(format!("map {:#x} {:#x} {}", page - START, frame, flags));
        if tables.refuse_map {
            return Err(MapToError::FrameAllocationFailed);
        }
        if tables.mapped.contains_key(&page) {
            return Err(MapToError::PageAlreadyMapped);
        }
        tables.mapped.insert(page, frame);
        Ok(())
    }

    fn unmap(&mut self, page: u64) -> Result<u64, UnmapError> {
        let mut tables = self.0.borrow_mut();
        tables.asked.push(format!("unmap {:#x}", page - START));
        if tables.refuse_unmap {
            return Err(UnmapError::InvalidFrameAddress);
        }
        tables.mapped.remove(&page).ok_or(UnmapError::PageNotMapped)
    }

    fn flush(&mut self, page: u64) {
        self.0.borrow_mut().asked.push(format!("flush {:#x}", page - START));
    }
}

const START: u64 = KERNEL_HEAP_START;

struct Kernel {
    heap: FixedSizeBlockAllocator,
    pages: PageAllocator<TestMapper>,
    large: LargeAllocTable,
    tables: Rc<RefCell<Tables>>,
}

fn kernel(frames: u64) -> Kernel {
    let regions =
        vec![MemoryRegion { start: 0, end: (frames + 1) * 4096, kind: MemoryRegionKind::Usable }];
    let frame_allocator = BitmapFrameAllocator::init(&regions, 0, storage_for(&regions)).unwrap();
    let tables = Rc::new(RefCell::new(Tables::default()));
    let pages = PageAllocator::new(
        TestMapper(tables.clone()),
        frame_allocator,
        START,
        START + 1024 * 4096,
    );
    Kernel { heap: FixedSizeBlockAllocator::new(), pages, large: LargeAllocTable::new(), tables }
}

impl Kernel {
    fn allocate(&mut self, size: usize, align: usize) -> Option<u64> {
        self.heap.allocate(&mut self.pages, &mut self.large, Layout::new(size, align))
    }

    fn dealloc(&mut self, ptr: u64, size: usize, align: usize) -> FreeOutcome {
        self.heap.dealloc(&mut self.pages, &mut self.large, ptr, Layout::new(size, align))
    }

    fn free_frames(&self) -> usize {
        self.pages.frame_allocator().free_frames()
    }
}

#[test]
fn list_index_picks_the_smallest_class_that_fits() {
    assert_eq!(list_index(&Layout::new(0, 1)), Some(0));
    assert_eq!(list_index(&Layout::new(1, 1)), Some(0));
    assert_eq!(list_index(&Layout::new(8, 8)), Some(0));
    assert_eq!(list_index(&Layout::new(9, 1)), Some(1));
    assert_eq!(list_index(&Layout::new(24, 8)), Some(2));
    assert_eq!(list_index(&Layout::new(33, 4)), Some(3));
    assert_eq!(list_index(&Layout::new(4, 128)), Some(4));
    assert_eq!(list_index(&Layout::new(2047, 1)), Some(8));
    assert_eq!(list_index(&Layout::new(2048, 2048)), Some(8));
    assert_eq!(list_index(&Layout::new(2049, 1)), None);
    assert_eq!(list_index(&Layout::new(8, 4096)), None);
    assert_eq!(Layout::new(24, 32).required_block_size(), 32);
}

#[test]
fn block_sizes_double_from_eight_bytes() {
    assert_eq!(NUM_CLASSES, 9);
    let sizes: Vec<u64> = (0..NUM_CLASSES).map(block_size_of).collect();
    assert_eq!(sizes, vec![8, 16, 32, 64, 128, 256, 512, 1024, 2048]);
}

#[test]
fn a_freed_block_is_the_next_one_handed_out() {
    let mut k = kernel(16);
    let first = k.allocate(24, 8).unwrap();
    // The block comes from a fresh page, carved into blocks of 32 bytes.
    assert_eq!(first, START);
    assert_eq!(k.heap.list_length(2), 4096 / 32 - 1);
    assert_eq!(k.heap.list_head(2), Some(START + 4096 - 32));
    assert_eq!(k.dealloc(first, 24, 8), FreeOutcome::Recycled);
    assert_eq!(k.heap.list_head(2), Some(first));
    assert_eq!(k.allocate(24, 8), Some(first));
    assert_eq!(k.free_frames(), 15);
}

#[test]
fn a_request_and_its_return_leave_the_free_lists_as_they_were() {
    let mut k = kernel(16);
    let warm = k.allocate(64, 8).unwrap();
    assert_eq!(k.dealloc(warm, 64, 8), FreeOutcome::Recycled);
    let lengths: Vec<usize> = (0..NUM_CLASSES).map(|c| k.heap.list_length(c)).collect();
    let heads: Vec<Option<u64>> = (0..NUM_CLASSES).map(|c| k.heap.list_head(c)).collect();
    let free = k.free_frames();
    let cursor = k.pages.current_virt();
    for _ in 0..10 {
        let block = k.allocate(64, 8).unwrap();
        assert_eq!(k.dealloc(block, 64, 8), FreeOutcome::Recycled);
        let now: Vec<usize> = (0..NUM_CLASSES).map(|c| k.heap.list_length(c)).collect();
        let tops: Vec<Option<u64>> = (0..NUM_CLASSES).map(|c| k.heap.list_head(c)).collect();
        assert_eq!(now, lengths);
        assert_eq!(tops, heads);
        assert_eq!(k.free_frames(), free);
        assert_eq!(k.pages.current_virt(), cursor);
    }
}

#[test]
fn successive_blocks_are_aligned_and_apart() {
    for class in 0..NUM_CLASSES {
        let size = block_size_of(class);
        let mut k = kernel(64);
        let mut seen: Vec<u64> = Vec::new();
        for _ in 0..(2 * 4096 / size + 3) {
            let block = k.allocate(size as usize, 1).unwrap();
            assert_eq!(block % size, 0);
            for other in &seen {
                assert!(block + size <= *other || *other + size <= block);
            }
            seen.push(block);
        }
    }
}

#[test]
fn an_empty_list_is_refilled_from_one_page() {
    let mut k = kernel(16);
    let first = k.allocate(2048, 8).unwrap();
    assert_eq!(first, START);
    assert_eq!(k.heap.list_length(8), 1);
    assert_eq!(k.free_frames(), 15);
    assert_eq!(k.allocate(2048, 8), Some(START + 2048));
    assert_eq!(k.heap.list_length(8), 0);
    assert_eq!(k.allocate(2048, 8), Some(START + 4096));
    assert_eq!(k.free_frames(), 14);
    // Other classes have lists and pages of their own.
    assert_eq!(k.allocate(8, 8), Some(START + 2 * 4096));
    assert_eq!(k.heap.list_length(0), 511);
    assert_eq!(k.heap.list_head(0), Some(START + 3 * 4096 - 8));
}

#[test]
fn refill_free_list_hands_out_the_first_block_of_the_page() {
    let mut k = kernel(16);
    assert_eq!(k.heap.refill_free_list(&mut k.pages, 5), Some(START));
    assert_eq!(k.heap.list_length(5), 15);
    assert_eq!(k.heap.list_head(5), Some(START + 15 * 256));
    assert_eq!(k.pages.current_virt(), START + 4096);
}

#[test]
fn init_primes_the_list_of_the_smallest_class() {
    let mut k = kernel(16);
    k.heap.init(&mut k.pages);
    assert_eq!(k.heap.list_length(0), 512);
    assert_eq!(k.heap.list_head(0), Some(START + 4096 - 8));
    assert_eq!(k.free_frames(), 15);
    assert_eq!(k.allocate(8, 8), Some(START + 4088));
    assert_eq!(k.allocate(1, 1), Some(START + 4080));
    for c in 1..NUM_CLASSES {
        assert_eq!(k.heap.list_length(c), 0);
    }
}

#[test]
fn init_without_memory_leaves_the_heap_empty() {
    let mut k = kernel(0);
    k.heap.init(&mut k.pages);
    assert_eq!(k.heap.list_length(0), 0);
    assert_eq!(k.heap.list_head(0), None);
    assert_eq!(k.allocate(8, 8), None);
    assert_eq!(k.allocate(5000, 8), None);
}

#[test]
fn a_large_request_is_recorded_and_its_frames_come_back() {
    let mut k = kernel(16);
    let addr = k.allocate(10_000, 8).unwrap();
    assert_eq!(addr, START);
    assert_eq!(k.large.lookup(addr), Some(3));
    assert_eq!(k.large.len(), 1);
    assert_eq!(k.free_frames(), 13);
    assert_eq!(k.pages.current_virt(), START + 3 * 4096);
    assert_eq!(k.dealloc(addr, 10_000, 8), FreeOutcome::Released(3));
    assert_eq!(k.large.lookup(addr), None);
    assert_eq!(k.large.len(), 0);
    assert_eq!(k.free_frames(), 16);
    assert!(k.tables.borrow().mapped.is_empty());
    for c in 0..NUM_CLASSES {
        assert_eq!(k.heap.list_length(c), 0);
    }
}

#[test]
fn a_large_request_takes_as_many_pages_as_hold_it() {
    let mut k = kernel(16);
    let one = k.allocate(2049, 8).unwrap();
    assert_eq!(k.large.lookup(one), Some(1));
    let exact = k.allocate(8192, 8).unwrap();
    assert_eq!(exact, START + 4096);
    assert_eq!(k.large.lookup(exact), Some(2));
    let aligned = k.allocate(16, 8193).unwrap();
    assert_eq!(k.large.lookup(aligned), Some(3));
    assert_eq!(k.free_frames(), 16 - 6);
    assert_eq!(k.dealloc(exact, 8192, 8), FreeOutcome::Released(2));
    assert_eq!(k.free_frames(), 16 - 4);
    assert_eq!(k.large.lookup(one), Some(1));
    assert_eq!(k.large.lookup(aligned), Some(3));
}

#[test]
fn freeing_an_unknown_large_block_changes_nothing() {
    let mut k = kernel(16);
    let addr = k.allocate(5000, 8).unwrap();
    assert_eq!(k.dealloc(addr + 4096, 5000, 8), FreeOutcome::UnknownLarge);
    assert_eq!(k.large.lookup(addr), Some(2));
    assert_eq!(k.free_frames(), 14);
    assert_eq!(k.dealloc(addr, 5000, 8), FreeOutcome::Released(2));
    assert_eq!(k.dealloc(addr, 5000, 8), FreeOutcome::UnknownLarge);
}

#[test]
fn freeing_a_large_block_reports_an_error_of_the_page_tables() {
    let mut k = kernel(16);
    let addr = k.allocate(5000, 8).unwrap();
    k.tables.borrow_mut().refuse_unmap = true;
    assert_eq!(
        k.dealloc(addr, 5000, 8),
        FreeOutcome::ReleasedWithError(2, UnmapError::InvalidFrameAddress)
    );
    assert_eq!(k.large.lookup(addr), None);
    assert_eq!(k.free_frames(), 16);
}

#[test]
fn requests_fail_when_memory_runs_out() {
    let mut k = kernel(2);
    assert_eq!(k.allocate(3 * 4096, 8), None);
    assert_eq!(k.large.len(), 0);
    assert_eq!(k.free_frames(), 2);
    assert!(k.allocate(4096, 8).is_some());
    assert!(k.allocate(2048, 8).is_some());
    assert!(k.allocate(2048, 8).is_some());
    assert_eq!(k.allocate(2048, 8), None);
    assert_eq!(k.allocate(8, 8), None);
    assert_eq!(k.free_frames(), 0);
}

#[test]
fn a_full_free_list_loses_the_blocks_given_back() {
    let mut k = kernel(64);
    let mut blocks: Vec<u64> = Vec::new();
    for _ in 0..4097 {
        blocks.push(k.allocate(8, 8).unwrap());
    }
    // Nine pages were carved; 511 blocks of the last one are on the list.
    assert_eq!(k.heap.list_length(0), 511);
    let free = k.free_frames();
    assert_eq!(free, 64 - 9);
    let mut recycled = 0;
    let mut leaked = 0;
    for block in &blocks {
        match k.dealloc(*block, 8, 8) {
            FreeOutcome::Recycled => {
                assert_eq!(leaked, 0);
                recycled += 1;
            }
            FreeOutcome::Leaked => leaked += 1,
            other => panic!("unexpected outcome {:?}", other),
        }
        assert!(k.heap.list_length(0) <= MAX_LIST_LENGTH);
    }
    assert_eq!(recycled, MAX_LIST_LENGTH - 511);
    assert_eq!(leaked, 4097 - recycled);
    assert_eq!(k.heap.list_length(0), MAX_LIST_LENGTH);
    assert_eq!(k.free_frames(), free);
}

#[test]
fn the_free_after_the_list_is_full_leaks() {
    let mut k = kernel(64);
    let mut blocks: Vec<u64> = Vec::new();
    // 4608 blocks are nine whole pages: the list is empty afterwards.
    for _ in 0..4608 {
        blocks.push(k.allocate(8, 8).unwrap());
    }
    assert_eq!(k.heap.list_length(0), 0);
    let free = k.free_frames();
    for (i, block) in blocks.iter().take(4097).enumerate() {
        let outcome = k.dealloc(*block, 8, 8);
        if i < 4096 {
            assert_eq!(outcome, FreeOutcome::Recycled);
            assert_eq!(k.heap.list_length(0), i + 1);
            assert_eq!(k.heap.list_head(0), Some(*block));
        } else {
            assert_eq!(outcome, FreeOutcome::Leaked);
            assert_eq!(k.heap.list_length(0), 4096);
            assert_eq!(k.heap.list_head(0), Some(blocks[4095]));
        }
    }
    assert_eq!(k.free_frames(), free);
}

#[test]
fn the_table_fills_the_first_empty_slot() {
    let mut table = LargeAllocTable::new();
    assert!(table.has_free_slot());
    assert_eq!(table.len(), 0);
    large_alloc_insert(&mut table, 0x1000, AllocationInfo { num_pages: 1 });
    table.insert(0x2000, AllocationInfo { num_pages: 2 });
    table.insert(0x4000, AllocationInfo { num_pages: 3 });
    assert_eq!(table.len(), 3);
    assert_eq!(table.lookup(0x2000), Some(2));
    assert_eq!(table.remove(0x2000), Some(2));
    assert_eq!(table.remove(0x2000), None);
    assert_eq!(table.lookup(0x2000), None);
    assert_eq!(table.len(), 2);
    // The slot that was emptied is the first empty one: a record for the
    // same address put there is found before a later one.
    table.insert(0x4000, AllocationInfo { num_pages: 7 });
    assert_eq!(table.lookup(0x4000), Some(7));
    assert_eq!(table.remove(0x4000), Some(7));
    assert_eq!(table.remove(0x4000), Some(3));
    assert_eq!(table.remove(0x4000), None);
    assert_eq!(table.lookup(0x1000), Some(1));
}

#[test]
fn the_table_has_room_for_512_records() {
    let mut table = LargeAllocTable::new();
    for i in 0..512u64 {
        assert!(table.has_free_slot());
        table.insert(0x1000 * (i + 1), AllocationInfo { num_pages: 1 });
    }
    assert!(!table.has_free_slot());
    assert_eq!(table.len(), 512);
    assert_eq!(table.remove(0x1000 * 512), Some(1));
    assert!(table.has_free_slot());
}

#[test]
fn refill_asks_the_page_tables_for_one_writable_page() {
    let mut k = kernel(16);
    assert_eq!(k.heap.refill_free_list(&mut k.pages, 8), Some(START));
    assert_eq!(k.tables.borrow().asked, vec!["map 0x0 0x1000 3", "flush 0x0"]);
    k.tables.borrow_mut().refuse_map = true;
    assert_eq!(k.heap.refill_free_list(&mut k.pages, 8), None);
    assert_eq!(
        k.tables.borrow().asked,
        vec!["map 0x0 0x1000 3", "flush 0x0", "map 0x1000 0x2000 3"]
    );
    assert_eq!(k.heap.list_length(8), 1);
    assert_eq!(k.free_frames(), 15);
    assert_eq!(k.pages.current_virt(), START + 4096);
}

#[test]
fn refill_asks_nothing_when_no_frame_is_free() {
    let mut k = kernel(0);
    assert_eq!(k.heap.refill_free_list(&mut k.pages, 0), None);
    assert!(k.tables.borrow().asked.is_empty());
    assert_eq!(k.heap.list_length(0), 0);
}

#[test]
fn init_asks_the_page_tables_for_one_writable_page() {
    let mut k = kernel(16);
    k.tables.borrow_mut().refuse_map = true;
    k.heap.init(&mut k.pages);
    assert_eq!(k.tables.borrow().asked, vec!["map 0x0 0x1000 3"]);
    assert_eq!(k.heap.list_length(0), 0);
    assert_eq!(k.free_frames(), 16);
    k.tables.borrow_mut().refuse_map = false;
    k.heap.init(&mut k.pages);
    assert_eq!(
        k.tables.borrow().asked,
        vec!["map 0x0 0x1000 3", "map 0x0 0x1000 3", "flush 0x0"]
    );
    assert_eq!(k.heap.list_length(0), 512);
}

#[test]
fn fallback_alloc_asks_for_every_page_and_unwinds_a_refusal() {
    let mut k = kernel(16);
    let block =
        FixedSizeBlockAllocator::fallback_alloc(&mut k.pages, &mut k.large, Layout::new(8193, 8));
    assert_eq!(block, Some(START));
    assert_eq!(
        k.tables.borrow().asked,
        vec![
            "map 0x0 0x1000 3",
            "flush 0x0",
            "map 0x1000 0x2000 3",
            "flush 0x1000",
            "map 0x2000 0x3000 3",
            "flush 0x2000",
        ]
    );
    assert_eq!(k.large.lookup(START), Some(3));
    k.tables.borrow_mut().asked.clear();
    let mut small = kernel(2);
    let none = FixedSizeBlockAllocator::fallback_alloc(
        &mut small.pages,
        &mut small.large,
        Layout::new(8193, 8),
    );
    assert_eq!(none, None);
    assert_eq!(
        small.tables.borrow().asked,
        vec![
            "map 0x0 0x1000 3",
            "flush 0x0",
            "map 0x1000 0x2000 3",
            "flush 0x1000",
            "unmap 0x0",
            "flush 0x0",
            "unmap 0x1000",
            "flush 0x1000",
        ]
    );
    assert_eq!(small.large.len(), 0);
    assert_eq!(small.free_frames(), 2);
}
