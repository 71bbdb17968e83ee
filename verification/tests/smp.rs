use kernel_memory::init::hpet::get_clock_tick_unit_fallback;
use kernel_memory::init::memory_init::PhysicalMemoryOffset;
use kernel_memory::init::multicore::{
    allocate_ap_stack, icr_high_for, init_smp, remap_trampoline_uncacheable, send_init_ipi,
    send_startup_ipi, trampoline_vector, ApBringup, ApOutcome, ApStackPool, ApState, Processor,
    ProcessorState, RegisterWrite, SmpAction, SmpEvent, Stack, AP_STACK_SIZE, NUM_AP_STACKS,
};
use kernel_memory::memory::{
    bitmap_bytes_needed, BitmapFrameAllocator, MemoryRegion, MemoryRegionKind};
use kernel_memory::page_allocator::{
    MapToError, Mapper, PageAllocator, RemapError, UnmapError, KERNEL_HEAP_END, KERNEL_HEAP_START,
};
use kernel_memory::smp::trampoline::{
    load_ap_trampoline, patch_trampoline, wait_for_ap, Rendezvous, TrampolineFields,
    COMMWORD_OFFSET, CR3VAL_OFFSET, KCODE_OFFSET, KGSVAL_OFFSET, KSTACK_OFFSET, TRAMPOLINE_BASE,
};
use kernel_memory::timer::{delay_ms, delay_pending, delay_us};

fn storage_for(regions: &[MemoryRegion]) -> &'static mut [u8] {
    Box::leak(vec![0xA5u8; bitmap_bytes_needed(regions) as usize].into_boxed_slice())
}

fn fields(stack_top: u64) -> TrampolineFields {
    TrampolineFields {
        cr3: 0x0000_0000_0012_3000,
        ap_entry: 0xFFFF_FFFF_8010_2030,
        stack_top,
        gs: 0x1122_3344_5566_7788,
    }
}

#[test]
fn load_copies_the_blob_to_the_start_of_the_frame() {
    let blob: Vec<u8> = (0..100u8).collect();
    let image = load_ap_trampoline(&blob);
    let bytes = image.as_bytes();
    assert_eq!(bytes.len(), 4096);
    assert_eq!(&bytes[..100], &blob[..]);
    assert!(bytes[100..].iter().all(|b| *b == 0));
}

#[test]
fn patch_writes_the_fields_in_little_endian_order() {
    let blob: Vec<u8> = vec![0xAA; 64];
    let mut image = load_ap_trampoline(&blob);
    patch_trampoline(&mut image, fields(0xFFFF_8000_0004_8000));
    let bytes = image.as_bytes();
    assert_eq!(&bytes[0..8], &[0x00, 0x30, 0x12, 0x00, 0x00, 0x00, 0x00, 0x00]);
    assert_eq!(&bytes[8..16], &[0x30, 0x20, 0x10, 0x80, 0xFF, 0xFF, 0xFF, 0xFF]);
    assert_eq!(&bytes[16..24], &[0x00, 0x80, 0x04, 0x00, 0x00, 0x80, 0xFF, 0xFF]);
    assert_eq!(&bytes[24..32], &[0x88, 0x77, 0x66, 0x55, 0x44, 0x33, 0x22, 0x11]);
    assert_eq!(&bytes[32..36], &[0, 0, 0, 0]);
    assert!(bytes[36..64].iter().all(|b| *b == 0xAA));
    assert_eq!(image.read_u64(CR3VAL_OFFSET), 0x12_3000);
    assert_eq!(image.read_u64(KCODE_OFFSET), 0xFFFF_FFFF_8010_2030);
    assert_eq!(image.read_u64(KSTACK_OFFSET), 0xFFFF_8000_0004_8000);
    assert_eq!(image.read_u64(KGSVAL_OFFSET), 0x1122_3344_5566_7788);
    assert_eq!(image.read_commword(), 0);
    assert_eq!(COMMWORD_OFFSET, 32);
}

#[test]
fn patch_clears_a_communication_word_that_was_set() {
    let mut blob: Vec<u8> = vec![0; 36];
    blob[32] = 1;
    let mut image = load_ap_trampoline(&blob);
    assert_eq!(image.read_commword(), 1);
    image.patch(fields(0x9000));
    assert_eq!(image.read_commword(), 0);
    assert_eq!(image.read_u64(KSTACK_OFFSET), 0x9000);
}

#[test]
fn wait_for_ap_ends_on_arrival_or_when_the_time_is_up() {
    assert_eq!(wait_for_ap(1, 1000, 1000, 100_000), Rendezvous::Arrived);
    assert_eq!(wait_for_ap(1, 1000, 500_000, 100_000), Rendezvous::Arrived);
    assert_eq!(wait_for_ap(0, 1000, 100_999, 100_000), Rendezvous::Waiting);
    assert_eq!(wait_for_ap(0, 1000, 101_000, 100_000), Rendezvous::TimedOut);
    assert_eq!(wait_for_ap(2, 0, 5, 100_000), Rendezvous::Waiting);
    assert_eq!(wait_for_ap(0, 0, 0, 0), Rendezvous::TimedOut);
}

#[test]
fn stacks_are_handed_out_in_address_order() {
    let mut pool = ApStackPool::new(0x10_0000);
    assert_eq!(NUM_AP_STACKS, 4);
    assert_eq!(AP_STACK_SIZE, 32 * 1024);
    assert_eq!(pool.remaining(), 4);
    assert_eq!(allocate_ap_stack(&mut pool), 0x10_8000);
    assert_eq!(allocate_ap_stack(&mut pool), 0x11_0000);
    assert_eq!(allocate_ap_stack(&mut pool), 0x11_8000);
    assert_eq!(pool.remaining(), 1);
    assert_eq!(allocate_ap_stack(&mut pool), 0x12_0000);
    assert_eq!(pool.remaining(), 0);
    assert_eq!(Stack { base: 0x10_0000 }.top(), 0x10_8000);
}

#[test]
fn init_ipi_clears_errors_addresses_the_processor_and_commands() {
    let writes = send_init_ipi(0x0512_3456, 3);
    assert_eq!(
        writes,
        vec![
            RegisterWrite { offset: 0x280, value: 0 },
            RegisterWrite { offset: 0x310, value: 0x0312_3456 },
            RegisterWrite { offset: 0x300, value: 0x0000_4500 },
        ]
    );
}

#[test]
fn startup_ipi_carries_the_vector() {
    assert_eq!(trampoline_vector(), 8);
    assert_eq!(TRAMPOLINE_BASE, 0x8000);
    let writes = send_startup_ipi(0, 0x1FF, 8);
    assert_eq!(
        writes,
        vec![
            RegisterWrite { offset: 0x280, value: 0 },
            RegisterWrite { offset: 0x310, value: 0xFF00_0000 },
            RegisterWrite { offset: 0x300, value: 0x0000_4608 },
        ]
    );
    assert_eq!(icr_high_for(0xFFFF_FFFF, 0), 0x00FF_FFFF);
    assert_eq!(icr_high_for(0xAB00_0001, 0x102), 0x0200_0001);
}

#[test]
fn one_processor_goes_through_init_and_two_startup_interrupts() {
    let mut ap = ApBringup::new(7);
    assert_eq!(ap.state(), ApState::Idle);
    assert_eq!(ap.step(SmpEvent::Done), vec![]);
    assert_eq!(ap.state(), ApState::Idle);
    assert_eq!(
        ap.begin(0x9000),
        vec![
            SmpAction::Patch { stack_top: 0x9000 },
            SmpAction::SendInit { apic_id: 7 },
            SmpAction::DelayUs(10_000),
        ]
    );
    assert_eq!(ap.state(), ApState::InitSent);
    assert_eq!(ap.begin(0xA000), vec![]);
    assert_eq!(ap.step(SmpEvent::CommWord(true)), vec![]);
    assert_eq!(ap.state(), ApState::InitSent);
    assert_eq!(
        ap.step(SmpEvent::Done),
        vec![SmpAction::SendStartup { apic_id: 7, vector: 8 }, SmpAction::DelayUs(200)]
    );
    assert_eq!(ap.state(), ApState::SipiSent);
    assert_eq!(ap.step(SmpEvent::CommWord(true)), vec![]);
    assert_eq!(ap.state(), ApState::SipiSent);
    assert_eq!(
        ap.step(SmpEvent::Done),
        vec![
            SmpAction::SendStartup { apic_id: 7, vector: 8 },
            SmpAction::DelayUs(100),
            SmpAction::AwaitCommWord { timeout_us: 100_000 },
        ]
    );
    assert_eq!(ap.state(), ApState::SipiSent);
    assert_eq!(ap.step(SmpEvent::Done), vec![]);
    assert_eq!(ap.step(SmpEvent::CommWord(true)), vec![]);
    assert_eq!(ap.state(), ApState::Running);
    assert_eq!(ap.step(SmpEvent::CommWord(false)), vec![]);
    assert_eq!(ap.state(), ApState::Running);
    assert_eq!(ap.apic_id(), 7);
}

#[test]
fn a_processor_that_does_not_arrive_has_failed() {
    let mut ap = ApBringup::new(2);
    ap.begin(0x9000);
    ap.step(SmpEvent::Done);
    ap.step(SmpEvent::Done);
    assert_eq!(ap.step(SmpEvent::CommWord(false)), vec![]);
    assert_eq!(ap.state(), ApState::Failed);
}

/// Plays the boot processor: performs the actions on an image of the
/// trampoline and lets the processors named in `broken` never arrive.
fn drive(processors: Vec<Processor>, broken: &[u32]) -> (Vec<ApOutcome>, Vec<u64>) {
    let mut controller = init_smp(processors, ApStackPool::new(0x20_0000));
    let mut image = load_ap_trampoline(&vec![0x90; 128]);
    let mut stack_tops: Vec<u64> = Vec::new();
    let mut event = SmpEvent::Done;
    let mut rounds = 0;
    loop {
        let actions = controller.advance(event);
        if controller.is_finished() {
            assert!(actions.is_empty());
            break;
        }
        event = SmpEvent::Done;
        let mut target = 0;
        for action in actions {
            match action {
                SmpAction::Patch { stack_top } => {
                    patch_trampoline(&mut image, fields(stack_top));
                    assert_eq!(image.read_commword(), 0);
                    stack_tops.push(image.read_u64(KSTACK_OFFSET));
                }
                SmpAction::SendInit { apic_id } => target = apic_id,
                SmpAction::SendStartup { apic_id, vector } => {
                    assert_eq!(vector, 8);
                    target = apic_id;
                }
                SmpAction::DelayUs(_) => {}
                SmpAction::AwaitCommWord { timeout_us } => {
                    assert_eq!(timeout_us, 100_000);
                    let word = if broken.contains(&target) { 0 } else { 1 };
                    let arrived = wait_for_ap(word, 0, timeout_us, timeout_us);
                    event = SmpEvent::CommWord(arrived == Rendezvous::Arrived);
                }
            }
        }
        rounds += 1;
        assert!(rounds < 100);
    }
    (controller.results().clone(), stack_tops)
}

#[test]
fn waiting_processors_are_started_with_stacks_of_their_own() {
    let processors = vec![
        Processor { local_apic_id: 1, state: ProcessorState::WaitingForSipi },
        Processor { local_apic_id: 2, state: ProcessorState::Disabled },
        Processor { local_apic_id: 3, state: ProcessorState::WaitingForSipi },
        Processor { local_apic_id: 4, state: ProcessorState::Running },
        Processor { local_apic_id: 5, state: ProcessorState::WaitingForSipi },
        Processor { local_apic_id: 6, state: ProcessorState::WaitingForSipi },
    ];
    let (outcomes, stack_tops) = drive(processors, &[6]);
    assert_eq!(
        outcomes,
        vec![
            ApOutcome { apic_id: 1, started: true },
            ApOutcome { apic_id: 3, started: true },
            ApOutcome { apic_id: 5, started: true },
            ApOutcome { apic_id: 6, started: false },
        ]
    );
    assert_eq!(stack_tops, vec![0x20_8000, 0x21_0000, 0x21_8000, 0x22_0000]);
}

#[test]
fn a_failed_processor_does_not_stop_the_others() {
    let processors = vec![
        Processor { local_apic_id: 9, state: ProcessorState::WaitingForSipi },
        Processor { local_apic_id: 10, state: ProcessorState::WaitingForSipi },
    ];
    let (outcomes, stack_tops) = drive(processors, &[9]);
    assert_eq!(
        outcomes,
        vec![ApOutcome { apic_id: 9, started: false }, ApOutcome { apic_id: 10, started: true }]
    );
    assert_eq!(stack_tops.len(), 2);
    assert_ne!(stack_tops[0], stack_tops[1]);
}

#[test]
fn without_waiting_processors_there_is_nothing_to_do() {
    let (outcomes, stack_tops) = drive(
        vec![Processor { local_apic_id: 0, state: ProcessorState::Running }],
        &[],
    );
    assert!(outcomes.is_empty());
    assert!(stack_tops.is_empty());
    let (outcomes, _) = drive(Vec::new(), &[]);
    assert!(outcomes.is_empty());
}

struct Scripted {
    asked: std::rc::Rc<std::cell::RefCell<Vec<String>>>,
    unmap: Result<u64, UnmapError>,
    map: Result<(), MapToError>,
}

impl Mapper for Scripted {
    fn map_to(&mut self, page: u64, frame: u64, flags: u64) -> Result<(), MapToError> {
        self.asked.borrow_mut().push(format!("map {:#x} {:#x} {:#x}", page, frame, flags));
        self.map
    }

    fn unmap(&mut self, page: u64) -> Result<u64, UnmapError> {
        self.asked.borrow_mut().push(format!("unmap {:#x}", page));
        self.unmap
    }

    fn flush(&mut self, page: u64) {
        self.asked.borrow_mut().push(format!("flush {:#x}", page));
    }
}

fn remap_with(
    unmap: Result<u64, UnmapError>,
    map: Result<(), MapToError>,
) -> (Result<(), RemapError>, Vec<String>) {
    let regions = vec![MemoryRegion { start: 0, end: 0x10000, kind: MemoryRegionKind::Usable }];
    let frames = BitmapFrameAllocator::init(&regions, 0, storage_for(&regions)).unwrap();
    let asked = std::rc::Rc::new(std::cell::RefCell::new(Vec::new()));
    let mapper = Scripted { asked: asked.clone(), unmap, map };
    let mut pages = PageAllocator::new(mapper, frames, KERNEL_HEAP_START, KERNEL_HEAP_END);
    let result = remap_trampoline_uncacheable(&mut pages);
    assert_eq!(pages.current_virt(), KERNEL_HEAP_START);
    assert_eq!(pages.frame_allocator().free_frames(), 15);
    let asked = asked.borrow().clone();
    (result, asked)
}

#[test]
fn the_trampoline_page_is_remapped_uncacheable() {
    let (result, asked) = remap_with(Ok(0x8000), Ok(()));
    assert_eq!(result, Ok(()));
    assert_eq!(asked, vec!["unmap 0x8000", "flush 0x8000", "map 0x8000 0x8000 0x13", "flush 0x8000"]);
    let (result, asked) = remap_with(Ok(0x5000), Ok(()));
    assert_eq!(result, Ok(()));
    assert_eq!(asked[2], "map 0x8000 0x5000 0x13");
}

#[test]
fn a_trampoline_page_that_was_not_mapped_gets_its_own_frame() {
    let (result, asked) = remap_with(Err(UnmapError::PageNotMapped), Ok(()));
    assert_eq!(result, Ok(()));
    assert_eq!(asked, vec!["unmap 0x8000", "flush 0x8000", "map 0x8000 0x8000 0x13", "flush 0x8000"]);
}

#[test]
fn remapping_the_trampoline_reports_what_the_page_tables_refuse() {
    let (result, asked) = remap_with(Err(UnmapError::ParentEntryHugePage), Ok(()));
    assert_eq!(result, Err(RemapError::Unmapping(UnmapError::ParentEntryHugePage)));
    assert_eq!(asked, vec!["unmap 0x8000"]);
    let (result, asked) = remap_with(Ok(0x8000), Err(MapToError::FrameAllocationFailed));
    assert_eq!(result, Err(RemapError::Mapping(MapToError::FrameAllocationFailed)));
    assert_eq!(asked, vec!["unmap 0x8000", "flush 0x8000", "map 0x8000 0x8000 0x13"]);
}

#[test]
fn delays_are_counted_in_ticks_of_the_timer() {
    // A clock of 100 ns per tick: 10 ms are 100 000 ticks.
    assert_eq!(delay_ms(5, 100_000_000, 10), 100_005);
    assert_eq!(delay_us(0, 100_000_000, 200), 2_000);
    assert_eq!(delay_us(7, 69_841_279, 100), 7 + 100_000_000_000 / 69_841_279);
    assert_eq!(delay_ms(u64::MAX, 1_000_000_000, 1), 999);
    assert_eq!(delay_ms(3, 1, 0), 3);
    assert!(delay_pending(10, 11));
    assert!(!delay_pending(11, 11));
    assert_eq!(get_clock_tick_unit_fallback(0x0429_B17F_8086_A201), 0x0429_B17F);
}

#[test]
fn the_first_offset_written_stays() {
    let mut holder = PhysicalMemoryOffset::new();
    assert!(!holder.is_set());
    assert_eq!(holder.init_offset(0xFFFF_8000_0000_0000), 0xFFFF_8000_0000_0000);
    assert!(holder.is_set());
    assert_eq!(holder.get_offset_u64(), 0xFFFF_8000_0000_0000);
    assert_eq!(holder.init_offset(0x1000), 0x1000);
    assert_eq!(holder.get_offset_u64(), 0xFFFF_8000_0000_0000);
}
