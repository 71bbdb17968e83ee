use kernel_memory::memory::{
    bitmap_bytes_needed, BitmapFrameAllocator, MemoryRegion, MemoryRegionKind};
use kernel_memory::page_allocator::{
    frame_after_unmap, frame_or_exhausted, mapped_or_failed, note_unmapped, remapped, MapToError,
    Mapper, PageAllocError, PageAllocator, PageFreeError, RemapError, UnmapError, KERNEL_HEAP_END,
    KERNEL_HEAP_SIZE, KERNEL_HEAP_START,
};
use kernel_memory::paging::PageFlags;
use std::cell::RefCell;
use std::collections::HashMap;
use std::rc::Rc;

fn storage_for(regions: &[MemoryRegion]) -> &'static mut [u8] {
    Box::leak(vec![0xA5u8; bitmap_bytes_needed(regions) as usize].into_boxed_slice())
}

#[derive(Default)]
struct Tables {
    mapped: HashMap<u64, (u64, u64)>,
    flushed: Vec<u64>,
    unmapped: Vec<u64>,
    refuse_map: Option<u64>,
    refuse_unmap: Option<u64>,
}

struct TestMapper(Rc<RefCell<Tables>>);

impl Mapper for TestMapper {
    fn map_to(&mut self, page: u64, frame: u64, flags: u64) -> Result<(), MapToError> {
        let mut tables = self.0.borrow_mut();
        if tables.refuse_map == Some(page) {
            return Err(MapToError::FrameAllocationFailed);
        }
        if tables.mapped.contains_key(&page) {
            return Err(MapToError::PageAlreadyMapped);
        }
        tables.mapped.insert(page, (frame, flags));
        Ok(())
    }

    fn unmap(&mut self, page: u64) -> Result<u64, UnmapError> {
        let mut tables = self.0.borrow_mut();
        tables.unmapped.push(page);
        if tables.refuse_unmap == Some(page) {
            return Err(UnmapError::ParentEntryHugePage);
        }
        match tables.mapped.remove(&page) {
            Some((frame, _)) => Ok(frame),
            None => Err(UnmapError::PageNotMapped),
        }
    }

    fn flush(&mut self, page: u64) {
        self.0.borrow_mut().flushed.push(page);
    }
}

const START: u64 = KERNEL_HEAP_START;

fn setup(frames: u64, window_pages: u64) -> (PageAllocator<TestMapper>, Rc<RefCell<Tables>>) {
    let regions =
        vec![MemoryRegion { start: 0, end: (frames + 1) * 4096, kind: MemoryRegionKind::Usable }];
    let frame_allocator = BitmapFrameAllocator::init(&regions, 0, storage_for(&regions)).unwrap();
    let tables = Rc::new(RefCell::new(Tables::default()));
    let pages = PageAllocator::new(
        TestMapper(tables.clone()),
        frame_allocator,
        START,
        START + window_pages * 4096,
    );
    (pages, tables)
}

#[test]
fn window_constants_span_one_gibibyte() {
    assert_eq!(KERNEL_HEAP_START, 0xFFFF_FF00_0000_0000);
    assert_eq!(KERNEL_HEAP_SIZE, 0x4000_0000);
    assert_eq!(KERNEL_HEAP_END, KERNEL_HEAP_START + KERNEL_HEAP_SIZE);
}

#[test]
fn allocate_maps_pages_at_the_cursor_to_the_lowest_free_frames() {
    let (mut pages, tables) = setup(8, 16);
    assert_eq!(pages.current_virt(), START);
    assert_eq!(pages.end_virt(), START + 16 * 4096);
    let addr = pages.allocate(3, PageFlags::read_write()).unwrap();
    assert_eq!(addr, START);
    assert_eq!(pages.current_virt(), START + 3 * 4096);
    assert_eq!(pages.frame_allocator().free_frames(), 5);
    let tables = tables.borrow();
    assert_eq!(tables.mapped.get(&START), Some(&(0x1000, 3)));
    assert_eq!(tables.mapped.get(&(START + 4096)), Some(&(0x2000, 3)));
    assert_eq!(tables.mapped.get(&(START + 8192)), Some(&(0x3000, 3)));
    assert_eq!(tables.flushed, vec![START, START + 4096, START + 8192]);
    assert_eq!(pages.translate(START + 4097), Some(0x2000));
    assert_eq!(pages.flags_at(START + 4097), Some(PageFlags::read_write()));
    assert_eq!(pages.flags_at(START + 3 * 4096), None);
    assert_eq!(pages.translate(START + 3 * 4096), None);
    assert_eq!(pages.translate(START - 1), None);
}

#[test]
fn allocate_of_no_pages_changes_nothing() {
    let (mut pages, tables) = setup(8, 16);
    assert_eq!(pages.allocate(0, PageFlags::read_write()), Ok(START));
    assert_eq!(pages.current_virt(), START);
    assert_eq!(pages.frame_allocator().free_frames(), 8);
    assert!(tables.borrow().mapped.is_empty());
}

#[test]
fn allocate_refuses_what_does_not_fit_the_window() {
    let (mut pages, tables) = setup(8, 4);
    assert_eq!(pages.allocate(5, PageFlags::read_write()), Err(PageAllocError::VirtualExhausted));
    assert_eq!(pages.current_virt(), START);
    assert_eq!(pages.frame_allocator().free_frames(), 8);
    assert!(tables.borrow().mapped.is_empty());
    assert_eq!(pages.allocate(4, PageFlags::read_write()), Ok(START));
    assert_eq!(pages.allocate(1, PageFlags::read_write()), Err(PageAllocError::VirtualExhausted));
    assert_eq!(
        pages.allocate(usize::MAX, PageFlags::read_write()),
        Err(PageAllocError::VirtualExhausted)
    );
}

#[test]
fn allocate_unwinds_when_the_frames_run_out() {
    let (mut pages, tables) = setup(3, 16);
    assert_eq!(pages.allocate(1, PageFlags::read_write()), Ok(START));
    assert_eq!(pages.allocate(3, PageFlags::read_write()), Err(PageAllocError::FrameExhausted));
    assert_eq!(pages.current_virt(), START + 4096);
    assert_eq!(pages.frame_allocator().free_frames(), 2);
    assert!(pages.frame_allocator().is_frame_free(2));
    assert!(pages.frame_allocator().is_frame_free(3));
    let tables = tables.borrow();
    assert_eq!(tables.mapped.len(), 1);
    assert_eq!(tables.unmapped, vec![START + 4096, START + 8192]);
}

#[test]
fn allocate_unwinds_when_a_page_cannot_be_mapped() {
    let (mut pages, tables) = setup(8, 16);
    tables.borrow_mut().refuse_map = Some(START + 2 * 4096);
    assert_eq!(
        pages.allocate(4, PageFlags::read_write()),
        Err(PageAllocError::MapFailed(MapToError::FrameAllocationFailed))
    );
    assert_eq!(pages.current_virt(), START);
    assert_eq!(pages.frame_allocator().free_frames(), 8);
    assert!(tables.borrow().mapped.is_empty());
    assert_eq!(tables.borrow().unmapped, vec![START, START + 4096]);
    tables.borrow_mut().refuse_map = None;
    assert_eq!(pages.allocate(4, PageFlags::read_write()), Ok(START));
    assert_eq!(tables.borrow().mapped.get(&START), Some(&(0x1000, 3)));
}

#[test]
fn dealloc_returns_the_frames_and_keeps_the_cursor() {
    let (mut pages, tables) = setup(8, 16);
    let first = pages.allocate(2, PageFlags::read_write()).unwrap();
    let second = pages.allocate(3, PageFlags::read_write()).unwrap();
    assert_eq!(pages.frame_allocator().free_frames(), 3);
    assert!(pages.is_mapped_range(second, 3));
    assert!(pages.is_owned_range(second, 3));
    assert_eq!(pages.dealloc(second, 3), Ok(()));
    assert_eq!(pages.frame_allocator().free_frames(), 6);
    assert_eq!(pages.current_virt(), START + 5 * 4096);
    assert!(!pages.is_mapped_range(second, 3));
    assert_eq!(pages.translate(second), None);
    assert_eq!(pages.flags_at(second), None);
    assert_eq!(pages.translate(first), Some(0x1000));
    assert_eq!(tables.borrow().mapped.len(), 2);
    // The addresses are not handed out again; the frames are.
    let third = pages.allocate(1, PageFlags::read_write()).unwrap();
    assert_eq!(third, START + 5 * 4096);
    assert_eq!(pages.translate(third), Some(0x3000));
}

#[test]
fn dealloc_refuses_pages_that_are_not_mapped() {
    let (mut pages, tables) = setup(8, 16);
    let addr = pages.allocate(2, PageFlags::read_write()).unwrap();
    assert_eq!(pages.dealloc(addr, 3), Err(PageFreeError::NotMapped));
    assert_eq!(pages.dealloc(START + 8 * 4096, 1), Err(PageFreeError::NotMapped));
    assert_eq!(pages.dealloc(START - 4096, 1), Err(PageFreeError::NotMapped));
    assert_eq!(pages.frame_allocator().free_frames(), 6);
    assert!(tables.borrow().unmapped.is_empty());
    assert_eq!(pages.dealloc(addr, 2), Ok(()));
    assert_eq!(pages.dealloc(addr, 2), Err(PageFreeError::NotMapped));
    assert_eq!(pages.dealloc(addr + 4096, 1), Err(PageFreeError::NotMapped));
    assert_eq!(pages.dealloc(addr, 0), Ok(()));
    assert_eq!(pages.frame_allocator().free_frames(), 8);
}

#[test]
fn dealloc_unmaps_the_page_that_holds_the_address() {
    let (mut pages, tables) = setup(8, 16);
    let addr = pages.allocate(2, PageFlags::read_write()).unwrap();
    assert_eq!(pages.dealloc(addr + 4096 + 17, 1), Ok(()));
    assert_eq!(tables.borrow().unmapped, vec![addr + 4096]);
    assert_eq!(pages.translate(addr), Some(0x1000));
    assert_eq!(pages.translate(addr + 4096), None);
    assert_eq!(pages.frame_allocator().free_frames(), 7);
}

#[test]
fn dealloc_reports_an_error_of_the_page_tables() {
    let (mut pages, tables) = setup(8, 16);
    let addr = pages.allocate(2, PageFlags::read_write()).unwrap();
    tables.borrow_mut().refuse_unmap = Some(addr);
    assert_eq!(
        pages.dealloc(addr, 2),
        Err(PageFreeError::Unmap(UnmapError::ParentEntryHugePage))
    );
    assert_eq!(pages.frame_allocator().free_frames(), 8);
    assert!(!pages.is_mapped_range(addr, 1));
}

#[test]
fn map_existing_lends_frames_without_taking_any() {
    let (mut pages, tables) = setup(8, 16);
    let addr = pages.map_existing(0xFEE0_0123, 2, PageFlags::uncached()).unwrap();
    assert_eq!(addr, START);
    assert_eq!(pages.current_virt(), START + 2 * 4096);
    assert_eq!(pages.frame_allocator().free_frames(), 8);
    assert_eq!(tables.borrow().mapped.get(&START), Some(&(0xFEE0_0000, 19)));
    assert_eq!(tables.borrow().mapped.get(&(START + 4096)), Some(&(0xFEE0_1000, 19)));
    assert_eq!(pages.translate(START + 4096), Some(0xFEE0_1000));
    assert_eq!(pages.flags_at(START + 4096), Some(PageFlags::uncached()));
    assert!(pages.is_mapped_range(addr, 2));
    assert!(!pages.is_owned_range(addr, 2));
    assert_eq!(pages.dealloc(addr, 2), Ok(()));
    assert_eq!(pages.frame_allocator().free_frames(), 8);
    assert!(tables.borrow().mapped.is_empty());
}

#[test]
fn map_existing_unwinds_when_a_page_cannot_be_mapped() {
    let (mut pages, tables) = setup(8, 2);
    assert_eq!(
        pages.map_existing(0x1000, 3, PageFlags::read_write()),
        Err(PageAllocError::VirtualExhausted)
    );
    tables.borrow_mut().refuse_map = Some(START + 4096);
    assert_eq!(
        pages.map_existing(0x1000, 2, PageFlags::read_write()),
        Err(PageAllocError::MapFailed(MapToError::FrameAllocationFailed))
    );
    assert_eq!(pages.current_virt(), START);
    assert!(tables.borrow().mapped.is_empty());
}

#[test]
fn runs_of_pages_do_not_overlap() {
    let (mut pages, _tables) = setup(16, 64);
    let mut runs: Vec<(u64, u64)> = Vec::new();
    let sizes: [usize; 5] = [1, 3, 2, 1, 4];
    for (round, n) in sizes.iter().enumerate() {
        let addr = pages.allocate(*n, PageFlags::read_write()).unwrap();
        runs.push((addr, addr + 4096 * *n as u64));
        if round == 1 {
            assert_eq!(pages.dealloc(addr, *n), Ok(()));
        }
    }
    for i in 0..runs.len() {
        for j in (i + 1)..runs.len() {
            assert!(runs[i].1 <= runs[j].0);
        }
    }
}

#[test]
fn remap_keeps_the_frame_of_a_mapped_page() {
    let (mut pages, tables) = setup(8, 16);
    tables.borrow_mut().mapped.insert(0x8000, (0x5000, 3));
    assert_eq!(pages.remap(0x8010, 0x8000, PageFlags::uncached()), Ok(()));
    assert_eq!(tables.borrow().mapped.get(&0x8000), Some(&(0x5000, 19)));
    assert_eq!(tables.borrow().flushed, vec![0x8000, 0x8000]);
    assert_eq!(pages.current_virt(), START);
    assert_eq!(pages.frame_allocator().free_frames(), 8);
}

#[test]
fn remap_maps_a_page_that_was_not_mapped_to_the_known_frame() {
    let (mut pages, tables) = setup(8, 16);
    assert_eq!(pages.remap(0x8000, 0x8123, PageFlags::uncached()), Ok(()));
    assert_eq!(tables.borrow().mapped.get(&0x8000), Some(&(0x8000, 19)));
}

#[test]
fn remap_reports_what_the_page_tables_refuse() {
    let (mut pages, tables) = setup(8, 16);
    tables.borrow_mut().refuse_unmap = Some(0x8000);
    assert_eq!(
        pages.remap(0x8000, 0x8000, PageFlags::uncached()),
        Err(RemapError::Unmapping(UnmapError::ParentEntryHugePage))
    );
    tables.borrow_mut().refuse_unmap = None;
    tables.borrow_mut().refuse_map = Some(0x8000);
    assert_eq!(
        pages.remap(0x8000, 0x8000, PageFlags::uncached()),
        Err(RemapError::Mapping(MapToError::FrameAllocationFailed))
    );
}

#[test]
fn frame_after_unmap_falls_back_only_for_a_page_that_was_not_mapped() {
    assert_eq!(frame_after_unmap(Ok(0x5000), 0x8000), Ok(0x5000));
    assert_eq!(frame_after_unmap(Err(UnmapError::PageNotMapped), 0x8000), Ok(0x8000));
    assert_eq!(
        frame_after_unmap(Err(UnmapError::ParentEntryHugePage), 0x8000),
        Err(UnmapError::ParentEntryHugePage)
    );
    assert_eq!(
        frame_after_unmap(Err(UnmapError::InvalidFrameAddress), 0x8000),
        Err(UnmapError::InvalidFrameAddress)
    );
}

#[test]
fn page_flags_have_the_bits_of_the_page_table_entry() {
    assert_eq!(PageFlags::read_write().to_bits(), 0b11);
    assert_eq!(PageFlags::uncached().to_bits(), 0b10011);
    assert_eq!(PageFlags { present: false, writable: false, no_cache: false }.to_bits(), 0);
    assert_eq!(PageFlags { present: true, writable: false, no_cache: false }.to_bits(), 1);
    assert_eq!(PageFlags { present: false, writable: true, no_cache: false }.to_bits(), 2);
    assert_eq!(PageFlags { present: false, writable: false, no_cache: true }.to_bits(), 16);
}

#[test]
fn the_cursor_starts_at_a_page_that_the_entropy_picks() {
    let (mut pages, tables) = setup(8, 16);
    pages.init_start_aslr(5 * 4096 + 17);
    assert_eq!(pages.current_virt(), START + 5 * 4096);
    assert_eq!(pages.frame_allocator().free_frames(), 8);
    assert!(tables.borrow().mapped.is_empty());
    assert_eq!(pages.translate(START), None);
    assert_eq!(pages.allocate(2, PageFlags::read_write()), Ok(START + 5 * 4096));
    assert_eq!(pages.translate(START + 5 * 4096), Some(0x1000));
    // Nine pages are left: the entropy is taken modulo their bytes.
    pages.init_start_aslr(9 * 4096 + 4095);
    assert_eq!(pages.current_virt(), START + 7 * 4096);
    pages.init_start_aslr(9 * 4096 * 3 + 8 * 4096);
    assert_eq!(pages.current_virt(), START + 15 * 4096);
    assert_eq!(pages.allocate(2, PageFlags::read_write()), Err(PageAllocError::VirtualExhausted));
    assert_eq!(pages.allocate(1, PageFlags::read_write()), Ok(START + 15 * 4096));
    pages.init_start_aslr(u64::MAX);
    assert_eq!(pages.current_virt(), START + 16 * 4096);
    assert_eq!(pages.dealloc(START + 5 * 4096, 2), Ok(()));
    assert_eq!(pages.dealloc(START, 1), Err(PageFreeError::NotMapped));
}

#[test]
fn the_frames_running_out_midway_is_reported_as_such() {
    let (mut pages, tables) = setup(2, 16);
    assert_eq!(pages.allocate(3, PageFlags::read_write()), Err(PageAllocError::FrameExhausted));
    assert_eq!(tables.borrow().unmapped, vec![START, START + 4096]);
    assert_eq!(pages.frame_allocator().free_frames(), 2);
    assert_eq!(pages.current_virt(), START);
    // With the frames there, only the page tables decide.
    assert_eq!(pages.allocate(2, PageFlags::read_write()), Ok(START));
}

#[test]
fn answers_decide_what_follows() {
    assert_eq!(frame_or_exhausted(Some(0x3000)), Ok(0x3000));
    assert_eq!(frame_or_exhausted(None), Err(PageAllocError::FrameExhausted));
    assert_eq!(mapped_or_failed(Ok(())), Ok(()));
    assert_eq!(
        mapped_or_failed(Err(MapToError::PageAlreadyMapped)),
        Err(PageAllocError::MapFailed(MapToError::PageAlreadyMapped))
    );
    assert_eq!(remapped(Ok(())), Ok(()));
    assert_eq!(
        remapped(Err(MapToError::ParentEntryHugePage)),
        Err(RemapError::Mapping(MapToError::ParentEntryHugePage))
    );
    assert_eq!(note_unmapped(Ok(()), Ok(0x1000)), Ok(()));
    assert_eq!(
        note_unmapped(Ok(()), Err(UnmapError::PageNotMapped)),
        Err(PageFreeError::Unmap(UnmapError::PageNotMapped))
    );
    let first = Err(PageFreeError::Unmap(UnmapError::ParentEntryHugePage));
    assert_eq!(note_unmapped(first, Err(UnmapError::PageNotMapped)), first);
    assert_eq!(note_unmapped(first, Ok(0x1000)), first);
}

#[test]
fn dealloc_reports_the_first_error_of_the_page_tables() {
    let (mut pages, tables) = setup(8, 16);
    let addr = pages.allocate(3, PageFlags::read_write()).unwrap();
    tables.borrow_mut().mapped.remove(&(addr + 4096));
    tables.borrow_mut().refuse_unmap = Some(addr + 8192);
    assert_eq!(pages.dealloc(addr, 3), Err(PageFreeError::Unmap(UnmapError::PageNotMapped)));
    assert_eq!(tables.borrow().unmapped, vec![addr, addr + 4096, addr + 8192]);
    assert_eq!(pages.frame_allocator().free_frames(), 8);
}
