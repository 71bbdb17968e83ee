use kernel_memory::allocators::arena::{Arena, BIN_COUNT};
use kernel_memory::allocators::bin::Bin;
use kernel_memory::allocators::chunk::{ChunkManager, FIRST_CHUNK_ADDR};
use kernel_memory::allocators::metadata::{clear_bit, is_bit_set, set_bit};
use kernel_memory::allocators::run::Run;
use kernel_memory::apic_ptr::{as_apic_ptr, ApicPtr};
use kernel_memory::interrupts::{
    enable_local_apic, init_apic_timer, map_apic_registers, map_io_apic, set_ioapic_redirect,
    ApicWrite, InterruptIndex, Polarity, TriggerMode, KEYBOARD_VEC, SPURIOUS_VEC, TIMER_VEC,
};
use kernel_memory::kernel_acpi::{map_physical, KernelAcpiHandler, PhysicalMapping};
use kernel_memory::memory::{
    bitmap_bytes_needed, BitmapFrameAllocator, MemoryRegion, MemoryRegionKind};
use kernel_memory::page_allocator::{
    MapToError, Mapper, PageAllocator, UnmapError, KERNEL_HEAP_END, KERNEL_HEAP_START,
};
use kernel_memory::QemuExitCode;

fn storage_for(regions: &[MemoryRegion]) -> &'static mut [u8] {
    Box::leak(vec![0xA5u8; bitmap_bytes_needed(regions) as usize].into_boxed_slice())
}

const OFFSET: u64 = 0xFFFF_8000_0000_0000;

#[test]
fn a_physical_region_is_found_in_the_direct_map() {
    let handler = KernelAcpiHandler;
    let mapping = handler.map_physical_region(0xFEE0_0000, 1024, OFFSET).unwrap();
    assert_eq!(
        mapping,
        PhysicalMapping {
            physical_start: 0xFEE0_0000,
            virtual_start: OFFSET + 0xFEE0_0000,
            region_length: 1024,
            mapped_length: 1024,
        }
    );
    handler.unmap_physical_region(&mapping);
    assert_eq!(handler.map_physical_region(0xFEE0_0000, 1024, OFFSET), Some(mapping));
}

#[test]
fn a_region_inside_a_page_is_mapped_from_the_start_of_the_page() {
    let mapping = KernelAcpiHandler.map_physical_region(0xE_0F24, 36, OFFSET).unwrap();
    assert_eq!(mapping.physical_start, 0xE_0F24);
    assert_eq!(mapping.virtual_start, OFFSET + 0xE_0F24);
    assert_eq!(mapping.region_length, 36);
    assert_eq!(mapping.mapped_length, 0xF24 + 36);
}

#[test]
fn there_is_no_mapping_at_the_null_address() {
    assert_eq!(KernelAcpiHandler.map_physical_region(0, 16, 0), None);
    assert!(KernelAcpiHandler.map_physical_region(1, 16, 0).is_some());
    assert!(KernelAcpiHandler.map_physical_region(0, 16, 0x1000).is_some());
}

struct Recorder(Vec<(u64, u64, u64)>);

impl Mapper for Recorder {
    fn map_to(&mut self, page: u64, frame: u64, flags: u64) -> Result<(), MapToError> {
        if self.0.len() == 3 {
            return Err(MapToError::ParentEntryHugePage);
        }
        self.0.push((page, frame, flags));
        Ok(())
    }

    fn unmap(&mut self, _page: u64) -> Result<u64, UnmapError> {
        Err(UnmapError::PageNotMapped)
    }

    fn flush(&mut self, _page: u64) {}
}

#[test]
fn map_physical_maps_existing_frames_into_fresh_pages() {
    let regions = vec![MemoryRegion { start: 0, end: 0x10000, kind: MemoryRegionKind::Usable }];
    let frames = BitmapFrameAllocator::init(&regions, 0, storage_for(&regions)).unwrap();
    let mut pages =
        PageAllocator::new(Recorder(Vec::new()), frames, KERNEL_HEAP_START, KERNEL_HEAP_END);
    assert_eq!(map_physical(&mut pages, 0xFEC0_0000, 1), Ok(KERNEL_HEAP_START));
    assert_eq!(map_physical(&mut pages, 0xFEE0_0000, 2), Ok(KERNEL_HEAP_START + 4096));
    assert_eq!(pages.translate(KERNEL_HEAP_START), Some(0xFEC0_0000));
    assert_eq!(pages.translate(KERNEL_HEAP_START + 8192), Some(0xFEE0_1000));
    assert_eq!(pages.frame_allocator().free_frames(), 15);
    assert!(map_physical(&mut pages, 0x1000, 1).is_err());
    assert_eq!(pages.current_virt(), KERNEL_HEAP_START + 3 * 4096);
}

#[test]
fn interrupt_controllers_are_found_in_the_direct_map() {
    assert_eq!(map_apic_registers(0xFEE0_0000, OFFSET), OFFSET + 0xFEE0_0000);
    assert_eq!(map_apic_registers(0xFEE0_0020, OFFSET), OFFSET + 0xFEE0_0020);
    assert_eq!(map_io_apic(OFFSET), OFFSET + 0xFEC0_0000);
    assert_eq!(InterruptIndex::Timer.as_u8(), 32);
    assert_eq!(InterruptIndex::Keyboard.as_u8(), 33);
    assert_eq!((TIMER_VEC, KEYBOARD_VEC, SPURIOUS_VEC), (0x2E, 0x2F, 0xFF));
}

#[test]
fn the_apic_pointer_holds_its_address() {
    let apic = ApicPtr::new(OFFSET + 0xFEE0_0000);
    assert_eq!(apic.as_u64(), OFFSET + 0xFEE0_0000);
    assert_eq!(as_apic_ptr(0x1000).as_u64(), 0x1000);
    assert_eq!(as_apic_ptr(0x1000).register(0x300), 0x1300);
    assert_eq!(as_apic_ptr(0x1000).register(0x283), 0x1280);
}

#[test]
fn exit_codes_have_the_values_the_emulator_expects() {
    assert_eq!(QemuExitCode::Success.code(), 0x10);
    assert_eq!(QemuExitCode::Failed.code(), 0x11);
}

#[test]
fn bits_of_a_bitmap_are_set_and_cleared_one_at_a_time() {
    let mut bitmap: Vec<u64> = vec![0; 3];
    set_bit(&mut bitmap, 0);
    set_bit(&mut bitmap, 65);
    set_bit(&mut bitmap, 191);
    assert_eq!(bitmap, vec![1, 2, 1 << 63]);
    assert!(is_bit_set(&bitmap, 65));
    assert!(!is_bit_set(&bitmap, 64));
    assert!(is_bit_set(&bitmap, 191));
    set_bit(&mut bitmap, 65);
    assert_eq!(bitmap[1], 2);
    clear_bit(&mut bitmap, 65);
    clear_bit(&mut bitmap, 1);
    assert_eq!(bitmap, vec![1, 0, 1 << 63]);
    assert!(!is_bit_set(&bitmap, 65));
}

#[test]
fn a_run_knows_the_addresses_of_its_objects() {
    let run = Run::new(0x4000, 16, 32);
    assert!(!run.contains(0x3FFF));
    assert!(run.contains(0x4000));
    assert!(run.contains(0x41FF));
    assert!(!run.contains(0x4200));
    let empty = Run::new(0x4000, 16, 0);
    assert!(!empty.contains(0x4000));
    assert_eq!(Bin::new(48).object_size(), 48);
}

#[test]
fn the_local_apic_is_enabled_and_its_timer_set_up() {
    assert_eq!(
        enable_local_apic(),
        vec![ApicWrite { register: 0xF0, value: 0x1FF }, ApicWrite { register: 0x80, value: 0 }]
    );
    assert_eq!(
        init_apic_timer(0x2E),
        vec![
            ApicWrite { register: 0x3E0, value: 3 },
            ApicWrite { register: 0x320, value: 0x2002E },
            ApicWrite { register: 0x380, value: 20_000_000 },
        ]
    );
}

#[test]
fn a_redirection_entry_carries_vector_trigger_polarity_and_processor() {
    assert_eq!(
        set_ioapic_redirect(1, 0, 0x2F, TriggerMode::Edge, Polarity::ActiveHigh),
        vec![ApicWrite { register: 0x12, value: 0x2F }, ApicWrite { register: 0x13, value: 0 }]
    );
    assert_eq!(
        set_ioapic_redirect(33, 3, 0x2E, TriggerMode::Level, Polarity::ActiveLow),
        vec![
            ApicWrite { register: 0x52, value: 0xA02E },
            ApicWrite { register: 0x53, value: 0x0300_0000 },
        ]
    );
    assert_eq!(
        set_ioapic_redirect(0, 0x1FF, 0xFF, TriggerMode::SameAsBus, Polarity::SameAsBus),
        vec![
            ApicWrite { register: 0x10, value: 0xFF },
            ApicWrite { register: 0x11, value: 0xFF00_0000 },
        ]
    );
}

#[test]
fn an_arena_finds_the_bin_for_a_size() {
    let arena = Arena::new();
    assert_eq!(BIN_COUNT, 16);
    assert_eq!(arena.size_to_bin_index(0), 0);
    assert_eq!(arena.size_to_bin_index(1), 0);
    assert_eq!(arena.size_to_bin_index(16), 0);
    assert_eq!(arena.size_to_bin_index(17), 1);
    assert_eq!(arena.size_to_bin_index(100), 6);
    assert_eq!(arena.size_to_bin_index(256), 15);
    assert_eq!(arena.size_to_bin_index(257), 15);
    assert_eq!(arena.size_to_bin_index(usize::MAX), 15);
}

#[test]
fn chunks_are_mapped_at_rising_addresses() {
    let regions = vec![MemoryRegion { start: 0, end: 0x10000, kind: MemoryRegionKind::Usable }];
    let mut frames = BitmapFrameAllocator::init(&regions, 0, storage_for(&regions)).unwrap();
    let mut mapper = Recorder(Vec::new());
    let mut chunks = ChunkManager::new();
    assert_eq!(chunks.allocate_chunk(&mut mapper, &mut frames, 4097), Some(FIRST_CHUNK_ADDR));
    assert_eq!(
        mapper.0,
        vec![(FIRST_CHUNK_ADDR, 0x1000, 3), (FIRST_CHUNK_ADDR + 4096, 0x2000, 3)]
    );
    assert_eq!(frames.free_frames(), 13);
    assert_eq!(chunks.allocate_chunk(&mut mapper, &mut frames, 0), Some(FIRST_CHUNK_ADDR + 8192));
    assert_eq!(frames.free_frames(), 13);
    // The recorder refuses the fourth page it is given.
    assert_eq!(chunks.allocate_chunk(&mut mapper, &mut frames, 8192), None);
    assert_eq!(mapper.0.len(), 3);
    assert_eq!(frames.free_frames(), 11);
    assert_eq!(
        chunks.allocate_chunk(&mut Recorder(Vec::new()), &mut frames, 1),
        Some(FIRST_CHUNK_ADDR + 4 * 4096)
    );
}
